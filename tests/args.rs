use rmx::args::{parse_flags, ArgsError, RmxArgs};
use rmx::dispatch::{plan_for, Plan};
use rmx::engine::Policy;

fn line(items: &[&str]) -> Vec<String> {
    items.iter().map(|s| s.to_string()).collect()
}

#[test]
fn combined_short_flags_and_paths() {
    let a = parse_flags(&line(&["rmx", "-rf", "a", "b"])).unwrap();
    assert!(a.recursive && a.force);
    assert!(!a.interactive && !a.verbose && !a.dir);
    assert_eq!(a.paths, vec!["a".to_string(), "b".to_string()]);
}

#[test]
fn every_short_letter() {
    let a = parse_flags(&line(&["rmx", "-Rivd", "x"])).unwrap();
    assert!(a.recursive && a.interactive && a.verbose && a.dir);
    assert!(!a.force);
}

#[test]
fn long_flags() {
    let a = parse_flags(&line(&["rmx", "x", "--recursive", "--force", "--interactive", "--verbose", "--dir"])).unwrap();
    assert!(a.recursive && a.force && a.interactive && a.verbose && a.dir);
    assert_eq!(a.paths, vec!["x".to_string()]);
}

#[test]
fn unknown_letter_is_refused() {
    assert_eq!(parse_flags(&line(&["rmx", "-rx", "a"])).unwrap_err(), ArgsError::UnknownFlag('x'));
    assert_eq!(parse_flags(&line(&["rmx", "a", "-q", "-z"])).unwrap_err(), ArgsError::UnknownFlag('q'));
}

#[test]
fn nothing_after_the_program_name() {
    assert_eq!(parse_flags(&line(&["rmx"])).unwrap_err(), ArgsError::Missing);
    assert_eq!(parse_flags(&line(&[])).unwrap_err(), ArgsError::Missing);
}

#[test]
fn options_without_paths() {
    assert_eq!(parse_flags(&line(&["rmx", "-r", "--force"])).unwrap_err(), ArgsError::NoPaths);
}

#[test]
fn unknown_long_option_and_lone_dash() {
    let a = parse_flags(&line(&["rmx", "--other", "-"])).unwrap();
    assert_eq!(a.paths, vec!["--other".to_string()]);
    assert!(!a.recursive);
}

#[test]
fn default_args_are_empty() {
    let a = RmxArgs::default();
    assert!(a.paths.is_empty());
    assert!(!a.recursive && !a.force && !a.interactive && !a.verbose && !a.dir);
}

#[test]
fn policy_follows_the_options() {
    let a = parse_flags(&line(&["rmx", "-fv", "a"])).unwrap();
    assert_eq!(a.policy(), Policy::new(true, true));
}

#[test]
fn plans_for_each_kind_of_path() {
    let plain = parse_flags(&line(&["rmx", "a"])).unwrap();
    let forced = parse_flags(&line(&["rmx", "-f", "a"])).unwrap();
    let rec = parse_flags(&line(&["rmx", "-ri", "a"])).unwrap();
    let dir = parse_flags(&line(&["rmx", "-d", "a"])).unwrap();
    assert_eq!(plan_for(false, false, &plain), Plan::Missing);
    assert_eq!(plan_for(false, true, &forced), Plan::Skip);
    assert_eq!(plan_for(true, false, &plain), Plan::RemoveFile { interactive: false });
    assert_eq!(plan_for(true, false, &rec), Plan::RemoveFile { interactive: true });
    assert_eq!(plan_for(true, true, &plain), Plan::IsDirectory);
    assert_eq!(plan_for(true, true, &rec), Plan::RemoveTree { interactive: true });
    assert_eq!(plan_for(true, true, &dir), Plan::RemoveEmptyDir);
}
