use vstd::prelude::*;
use vstd::string::StringExecFns;

use crate::args::same_text;

verus! {

/// The text with every leading `c` taken off.
pub open spec fn strip_leading(s: Seq<char>, c: char) -> Seq<char>
    decreases s.len(),
{
    if s.len() > 0 && s[0] == c {
        strip_leading(s.subrange(1, s.len() as int), c)
    } else {
        s
    }
}

/// The version a release tag names: the tag without its leading 'v's.
pub fn version_of_tag(tag: &str) -> (r: &str)
    ensures
        r@ == strip_leading(tag@, 'v'),
{
    let n: usize = tag.unicode_len();
    let mut i: usize = 0;
    assert(tag@.subrange(0, n as int) =~= tag@);
    while i < n && tag.get_char(i) == 'v'
        invariant
            i <= n,
            n == tag@.len(),
            strip_leading(tag@, 'v') == strip_leading(tag@.subrange(i as int, n as int), 'v'),
        decreases n - i,
    {
        let ghost rest = tag@.subrange(i as int, n as int);
        assert(rest.subrange(1, rest.len() as int) =~= tag@.subrange(i + 1, n as int));
        i += 1;
    }
    tag.substring_char(i, n)
}

/// The newer version a release tag names, if it is not the current one.
pub fn update_available(tag: &str, current: &str) -> (r: Option<String>)
    ensures
        match r {
            None => strip_leading(tag@, 'v') == current@,
            Some(v) => strip_leading(tag@, 'v') != current@ && v@ == strip_leading(tag@, 'v'),
        },
{
    let latest = version_of_tag(tag);
    if same_text(latest, current) {
        None
    } else {
        Some(latest.to_owned())
    }
}

/// The build target of the prebuilt release for a platform, if there is one.
pub open spec fn triple_for(os: Seq<char>, arch: Seq<char>) -> Option<Seq<char>> {
    if os == "linux"@ && arch == "x86_64"@ {
        Some("x86_64-unknown-linux-musl"@)
    } else if os == "linux"@ && arch == "aarch64"@ {
        Some("aarch64-unknown-linux-musl"@)
    } else if os == "macos"@ && arch == "x86_64"@ {
        Some("x86_64-apple-darwin"@)
    } else if os == "macos"@ && arch == "aarch64"@ {
        Some("aarch64-apple-darwin"@)
    } else {
        None
    }
}

/// The build target of the prebuilt release for an operating system and an
/// architecture, as Rust names them.
pub fn target_triple(os: &str, arch: &str) -> (r: Option<String>)
    ensures
        match triple_for(os@, arch@) {
            Some(t) => r matches Some(s) && s@ == t,
            None => r is None,
        },
{
    let linux = same_text(os, "linux");
    let macos = same_text(os, "macos");
    let x86 = same_text(arch, "x86_64");
    let arm = same_text(arch, "aarch64");
    if linux && x86 {
        Some("x86_64-unknown-linux-musl".to_owned())
    } else if linux && arm {
        Some("aarch64-unknown-linux-musl".to_owned())
    } else if macos && x86 {
        Some("x86_64-apple-darwin".to_owned())
    } else if macos && arm {
        Some("aarch64-apple-darwin".to_owned())
    } else {
        None
    }
}

/// The file name of the release archive for a build target.
pub fn asset_name(target: &str) -> (r: String)
    ensures
        r@ == "rmx-"@ + target@ + ".tar.gz"@,
{
    let mut name = "rmx-".to_owned();
    name.append(target);
    name.append(".tar.gz");
    name
}

/// The position of the first asset with the wanted name.
pub fn find_asset(names: &Vec<String>, wanted: &str) -> (r: Option<usize>)
    ensures
        match r {
            Some(i) => i < names@.len() && names@[i as int]@ == wanted@ && forall|j: int|
                0 <= j < i ==> names@[j]@ != wanted@,
            None => forall|j: int| 0 <= j < names@.len() ==> names@[j]@ != wanted@,
        },
{
    let mut i: usize = 0;
    while i < names.len()
        invariant
            i <= names@.len(),
            forall|j: int| 0 <= j < i ==> names@[j]@ != wanted@,
        decreases names@.len() - i,
    {
        if same_text(names[i].as_str(), wanted) {
            return Some(i);
        }
        i += 1;
    }
    None
}

} // verus!
