use vstd::prelude::*;

use crate::engine::{Policy, TaskView};
use crate::removal::{idle, starting, Removal};

verus! {

/// The text `str::trim` leaves of `s`.
pub uninterp spec fn trimmed(s: Seq<char>) -> Seq<char>;

/// The text `str::to_lowercase` makes of `s`.
pub uninterp spec fn lowered(s: Seq<char>) -> Seq<char>;

/// Relies on `str::trim`: the text without leading and trailing white space,
/// which depends on the text alone.
#[verifier::external_body]
fn trim_text(s: &str) -> (r: &str)
    ensures
        r@ == trimmed(s@),
{
    s.trim()
}

/// Relies on `str::to_lowercase`: the lowercase mapping of the text, which
/// depends on the text alone.
#[verifier::external_body]
fn lowercase_text(s: &str) -> (r: String)
    ensures
        r@ == lowered(s@),
{
    s.to_lowercase()
}

/// Whether an answer, already trimmed and folded to lower case, says yes.
pub open spec fn says_yes(folded: Seq<char>) -> bool {
    folded == seq!['y'] || folded == seq!['y', 'e', 's']
}

/// Whether a folded answer says yes: exactly "y" or "yes".
pub fn is_yes(folded: &str) -> (r: bool)
    ensures
        r == says_yes(folded@),
{
    let n: usize = folded.unicode_len();
    if n == 1 {
        let r = folded.get_char(0) == 'y';
        assert(r ==> folded@ =~= seq!['y']);
        r
    } else if n == 3 {
        let r = folded.get_char(0) == 'y' && folded.get_char(1) == 'e' && folded.get_char(2) == 's';
        assert(r ==> folded@ =~= seq!['y', 'e', 's']);
        r
    } else {
        false
    }
}

/// Whether a typed answer confirms: after trimming white space and ignoring
/// case, it is "y" or "yes". Anything else declines.
pub fn is_affirmative(answer: &str) -> (r: bool)
    ensures
        r == says_yes(lowered(trimmed(answer@))),
{
    let t = trim_text(answer);
    let folded = lowercase_text(t);
    is_yes(folded.as_str())
}

impl Removal {
    /// Tree removal of `path` if the request was confirmed; otherwise a
    /// removal that does nothing.
    pub fn tree_if_confirmed(path: Vec<u8>, policy: Policy, confirmed: bool) -> (r: Removal)
        ensures
            confirmed ==> r@ == starting(policy, TaskView::Root(path@, true)),
            !confirmed ==> r@ == idle(policy),
    {
        if confirmed {
            Removal::tree(path, policy)
        } else {
            Removal::declined(policy)
        }
    }

    /// File removal of `path` if the request was confirmed; otherwise a
    /// removal that does nothing.
    pub fn file_if_confirmed(path: Vec<u8>, policy: Policy, confirmed: bool) -> (r: Removal)
        ensures
            confirmed ==> r@ == starting(policy, TaskView::File(path@)),
            !confirmed ==> r@ == idle(policy),
    {
        if confirmed {
            Removal::file(path, policy)
        } else {
            Removal::declined(policy)
        }
    }
}

} // verus!
