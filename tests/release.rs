use rmx::release::{asset_name, find_asset, target_triple, update_available, version_of_tag};

#[test]
fn tag_loses_leading_v() {
    assert_eq!(version_of_tag("v1.2.3"), "1.2.3");
    assert_eq!(version_of_tag("vv0.4"), "0.4");
    assert_eq!(version_of_tag("1.0v"), "1.0v");
    assert_eq!(version_of_tag(""), "");
    assert_eq!(version_of_tag("vvv"), "");
}

#[test]
fn update_only_when_versions_differ() {
    assert_eq!(update_available("v0.2.0", "0.1.0"), Some("0.2.0".to_string()));
    assert_eq!(update_available("v0.1.0", "0.1.0"), None);
    assert_eq!(update_available("0.1.0", "0.1.0"), None);
}

#[test]
fn triples_of_supported_platforms() {
    assert_eq!(target_triple("linux", "x86_64").unwrap(), "x86_64-unknown-linux-musl");
    assert_eq!(target_triple("linux", "aarch64").unwrap(), "aarch64-unknown-linux-musl");
    assert_eq!(target_triple("macos", "x86_64").unwrap(), "x86_64-apple-darwin");
    assert_eq!(target_triple("macos", "aarch64").unwrap(), "aarch64-apple-darwin");
    assert_eq!(target_triple("windows", "x86_64"), None);
    assert_eq!(target_triple("linux", "riscv64"), None);
}

#[test]
fn archive_name_of_target() {
    assert_eq!(asset_name("x86_64-apple-darwin"), "rmx-x86_64-apple-darwin.tar.gz");
}

#[test]
fn first_asset_with_the_name() {
    let names: Vec<String> = ["a.tar.gz", "rmx-x.tar.gz", "rmx-x.tar.gz"].iter().map(|s| s.to_string()).collect();
    assert_eq!(find_asset(&names, "rmx-x.tar.gz"), Some(1));
    assert_eq!(find_asset(&names, "rmx-y.tar.gz"), None);
    assert_eq!(find_asset(&Vec::new(), "a"), None);
}
