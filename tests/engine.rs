use std::collections::{BTreeMap, BTreeSet};

use rmx::engine::{
    fans_out, Action, EntryInfo, Event, FailureKind, Policy, RemoveError, Report,
    PARALLEL_THRESHOLD,
};
use rmx::removal::{join_outcomes, Removal};
use rmx::stats::DeleteStats;

#[derive(Clone)]
enum Kind {
    File(u64),
    Dir,
}

/// A filesystem held in memory, with requests that can be made to fail.
#[derive(Clone, Default)]
struct Fs {
    entries: BTreeMap<Vec<u8>, Kind>,
    unreadable: BTreeSet<Vec<u8>>,
    unlistable: BTreeSet<Vec<u8>>,
    unremovable: BTreeSet<Vec<u8>>,
    removals: usize,
    spreads: usize,
    reports: Vec<String>,
}

fn p(s: &str) -> Vec<u8> {
    s.as_bytes().to_vec()
}

impl Fs {
    fn dir(&mut self, path: &str) {
        self.entries.insert(p(path), Kind::Dir);
    }

    fn file(&mut self, path: &str, size: u64) {
        self.entries.insert(p(path), Kind::File(size));
    }

    fn children(&self, dir: &[u8]) -> Vec<Vec<u8>> {
        let mut prefix = dir.to_vec();
        prefix.push(b'/');
        self.entries
            .keys()
            .filter(|k| k.starts_with(&prefix) && !k[prefix.len()..].contains(&b'/'))
            .cloned()
            .collect()
    }

    fn answer(&mut self, action: &Action<'_>, policy: Policy) -> Event {
        match action {
            Action::Inspect(path) => {
                let path: &Vec<u8> = path;
                if self.unreadable.contains(path) {
                    return Event::Inspected(Err("permission denied".to_string()));
                }
                match self.entries.get(path) {
                    Some(Kind::File(size)) => Event::Inspected(Ok(EntryInfo { is_dir: false, size: *size })),
                    Some(Kind::Dir) => Event::Inspected(Ok(EntryInfo { is_dir: true, size: 0 })),
                    None => Event::Inspected(Err("no such file or directory".to_string())),
                }
            }
            Action::List(path) => {
                let path: &Vec<u8> = path;
                if self.unlistable.contains(path) {
                    return Event::Listed(Err("permission denied".to_string()));
                }
                Event::Listed(Ok(self.children(path)))
            }
            Action::Spread(paths) => {
                self.spreads += 1;
                let paths: Vec<Vec<u8>> = paths.to_vec();
                let outs = paths.into_iter().map(|c| self.drive(Removal::entry(c, policy))).collect();
                Event::Joined(outs)
            }
            Action::RemoveFile(path) => {
                let path: &Vec<u8> = path;
                match self.entries.get(path) {
                    Some(Kind::File(_)) if !self.unremovable.contains(path) => {
                        self.entries.remove(path);
                        self.removals += 1;
                        Event::Removed(Ok(()))
                    }
                    _ => Event::Removed(Err("cannot remove".to_string())),
                }
            }
            Action::RemoveDir(path) => {
                let path: &Vec<u8> = path;
                let empty = self.children(path).is_empty();
                match self.entries.get(path) {
                    Some(Kind::Dir) if empty && !self.unremovable.contains(path) => {
                        self.entries.remove(path);
                        self.removals += 1;
                        Event::Removed(Ok(()))
                    }
                    _ => Event::Removed(Err("cannot remove directory".to_string())),
                }
            }
            Action::Finished => unreachable!(),
        }
    }

    fn drive(&mut self, mut m: Removal) -> Result<DeleteStats, RemoveError> {
        let policy = m.policy();
        while !m.is_finished() {
            let event = {
                let a = m.next_action();
                self.answer(&a, policy)
            };
            assert!(m.accepts(&event));
            match m.step(event) {
                Report::Nothing => {}
                Report::RemovedFile(path) => self.reports.push(format!("file {}", String::from_utf8_lossy(&path))),
                Report::RemovedDir(path) => self.reports.push(format!("dir {}", String::from_utf8_lossy(&path))),
            }
        }
        m.into_outcome()
    }
}

fn sample() -> Fs {
    let mut fs = Fs::default();
    fs.dir("root");
    fs.file("root/a", 10);
    fs.file("root/b", 20);
    fs.file("root/c", 30);
    fs.dir("root/sub");
    fs.file("root/sub/d", 5);
    fs.file("root/sub/e", 7);
    fs.dir("root/empty");
    fs
}

fn stats(files: usize, dirs: usize, size: u64) -> DeleteStats {
    DeleteStats { files_deleted: files, dirs_deleted: dirs, total_size: size }
}

#[test]
fn tree_removal_counts_every_file_directory_and_byte() {
    let mut fs = sample();
    let r = fs.drive(Removal::tree(p("root"), Policy::new(false, false)));
    assert_eq!(r.unwrap(), stats(5, 3, 72));
    assert!(fs.entries.is_empty());
}

#[test]
fn tree_removal_of_missing_path_is_not_a_directory() {
    let mut fs = sample();
    let r = fs.drive(Removal::tree(p("nowhere"), Policy::new(false, false)));
    let e = r.unwrap_err();
    assert_eq!(e.kind, FailureKind::NotADirectory);
    assert_eq!(e.path, p("nowhere"));
    assert_eq!(fs.removals, 0);
    assert_eq!(fs.entries.len(), 8);
}

#[test]
fn tree_removal_of_missing_path_fails_under_force_too() {
    let mut fs = sample();
    let r = fs.drive(Removal::tree(p("nowhere"), Policy::new(false, true)));
    assert_eq!(r.unwrap_err().kind, FailureKind::NotADirectory);
    assert_eq!(fs.removals, 0);
}

#[test]
fn tree_removal_of_a_file_is_not_a_directory() {
    let mut fs = sample();
    let r = fs.drive(Removal::tree(p("root/a"), Policy::new(false, false)));
    let e = r.unwrap_err();
    assert_eq!(e.kind, FailureKind::NotADirectory);
    assert_eq!(e.cause, "");
    assert_eq!(fs.removals, 0);
}

#[test]
fn force_removes_everything_but_the_unremovable_entry() {
    let mut fs = sample();
    fs.unremovable.insert(p("root/sub/d"));
    let r = fs.drive(Removal::tree(p("root"), Policy::new(false, true)));
    // root/sub and root stay, as they are not empty.
    assert_eq!(r.unwrap(), stats(4, 1, 67));
    let left: Vec<Vec<u8>> = fs.entries.keys().cloned().collect();
    assert_eq!(left, vec![p("root"), p("root/sub"), p("root/sub/d")]);
}

#[test]
fn without_force_an_unremovable_entry_stops_the_removal() {
    let mut fs = sample();
    fs.unremovable.insert(p("root/b"));
    let r = fs.drive(Removal::tree(p("root"), Policy::new(false, false)));
    let e = r.unwrap_err();
    assert_eq!(e.kind, FailureKind::RemovalFailed);
    assert_eq!(e.path, p("root/b"));
    assert_eq!(e.cause, "cannot remove");
    // Entries after the failing one are left alone.
    assert!(fs.entries.contains_key(&p("root/c")));
    assert!(!fs.entries.contains_key(&p("root/a")));
}

#[test]
fn unreadable_entry_is_access_failed() {
    let mut fs = sample();
    fs.unreadable.insert(p("root/c"));
    let e = fs.drive(Removal::tree(p("root"), Policy::new(false, false))).unwrap_err();
    assert_eq!(e.kind, FailureKind::AccessFailed);
    assert_eq!(e.path, p("root/c"));
    assert_eq!(e.cause, "permission denied");
}

#[test]
fn unreadable_entry_is_skipped_under_force() {
    let mut fs = sample();
    fs.unreadable.insert(p("root/sub"));
    let r = fs.drive(Removal::tree(p("root"), Policy::new(false, true)));
    assert_eq!(r.unwrap(), stats(3, 1, 60));
    assert!(fs.entries.contains_key(&p("root/sub/e")));
}

#[test]
fn unlistable_directory_is_directory_read_failed() {
    let mut fs = sample();
    fs.unlistable.insert(p("root/sub"));
    let e = fs.drive(Removal::tree(p("root"), Policy::new(false, false))).unwrap_err();
    assert_eq!(e.kind, FailureKind::DirectoryReadFailed);
    assert_eq!(e.path, p("root/sub"));
}

#[test]
fn unlistable_directory_is_skipped_under_force() {
    let mut fs = sample();
    fs.unlistable.insert(p("root/sub"));
    let r = fs.drive(Removal::tree(p("root"), Policy::new(false, true)));
    assert_eq!(r.unwrap(), stats(3, 1, 60));
}

#[test]
fn threshold_decides_concurrent_hand_out() {
    assert_eq!(PARALLEL_THRESHOLD, 1000);
    assert!(!fans_out(999, 1000));
    assert!(fans_out(1000, 1000));
    assert!(fans_out(1001, 1000));
    assert!(!fans_out(0, 1));
}

fn flat_dir(n: usize) -> Fs {
    let mut fs = Fs::default();
    fs.dir("big");
    for i in 0..n {
        fs.file(&format!("big/f{:04}", i), 3);
    }
    fs
}

#[test]
fn directory_of_999_entries_runs_in_sequence() {
    let mut fs = flat_dir(999);
    let r = fs.drive(Removal::tree(p("big"), Policy::new(false, false)));
    assert_eq!(r.unwrap(), stats(999, 1, 2997));
    assert_eq!(fs.spreads, 0);
    assert!(fs.entries.is_empty());
}

#[test]
fn directory_of_1000_entries_is_handed_out() {
    let mut fs = flat_dir(1000);
    let r = fs.drive(Removal::tree(p("big"), Policy::new(false, false)));
    assert_eq!(r.unwrap(), stats(1000, 1, 3000));
    assert_eq!(fs.spreads, 1);
    assert!(fs.entries.is_empty());
}

#[test]
fn sequential_and_concurrent_removals_agree() {
    let policy = Policy::new(false, false);
    let low = Policy { parallel_threshold: 1, ..policy };
    let mut a = sample();
    let mut b = sample();
    let ra = a.drive(Removal::tree(p("root"), policy)).unwrap();
    let rb = b.drive(Removal::tree(p("root"), low)).unwrap();
    assert_eq!(ra, rb);
    assert!(b.spreads > 0);
    assert_eq!(a.spreads, 0);
}

#[test]
fn concurrent_hand_out_reports_first_failure() {
    let policy = Policy { parallel_threshold: 1, ..Policy::new(false, false) };
    let mut fs = sample();
    fs.unremovable.insert(p("root/b"));
    fs.unremovable.insert(p("root/c"));
    let e = fs.drive(Removal::tree(p("root"), policy)).unwrap_err();
    assert_eq!(e.kind, FailureKind::RemovalFailed);
    assert_eq!(e.path, p("root/b"));
}

#[test]
fn declined_request_leaves_everything() {
    let mut fs = sample();
    let m = Removal::tree_if_confirmed(p("root"), Policy::new(false, false), false);
    assert!(m.is_finished());
    assert!(matches!(m.next_action(), Action::Finished));
    let r = fs.drive(m);
    assert_eq!(r.unwrap(), DeleteStats::new());
    assert_eq!(fs.removals, 0);
    let mut fs = sample();
    let r = fs.drive(Removal::file_if_confirmed(p("root/a"), Policy::new(false, false), false));
    assert_eq!(r.unwrap(), stats(0, 0, 0));
    assert!(fs.entries.contains_key(&p("root/a")));
}

#[test]
fn confirmed_request_is_the_plain_removal() {
    let mut fs = sample();
    let r = fs.drive(Removal::tree_if_confirmed(p("root"), Policy::new(false, false), true));
    assert_eq!(r.unwrap(), stats(5, 3, 72));
    let mut fs = sample();
    let r = fs.drive(Removal::file_if_confirmed(p("root/b"), Policy::new(false, false), true));
    assert_eq!(r.unwrap(), stats(1, 0, 20));
}

#[test]
fn size_counted_is_the_one_metadata_gave() {
    let policy = Policy::new(false, false);
    let mut m = Removal::entry(p("x"), policy);
    assert!(matches!(m.next_action(), Action::Inspect(_)));
    m.step(Event::Inspected(Ok(EntryInfo { is_dir: false, size: 42 })));
    assert!(matches!(m.next_action(), Action::RemoveFile(_)));
    m.step(Event::Removed(Ok(())));
    assert!(m.is_finished());
    assert_eq!(m.into_outcome().unwrap(), stats(1, 0, 42));
}

#[test]
fn file_removal_counts_one_file() {
    let mut fs = sample();
    let r = fs.drive(Removal::file(p("root/c"), Policy::new(false, false)));
    assert_eq!(r.unwrap(), stats(1, 0, 30));
    assert!(!fs.entries.contains_key(&p("root/c")));
}

#[test]
fn file_removal_of_missing_file_is_access_failed() {
    let mut fs = sample();
    let e = fs.drive(Removal::file(p("root/zz"), Policy::new(false, false))).unwrap_err();
    assert_eq!(e.kind, FailureKind::AccessFailed);
    let r = fs.drive(Removal::file(p("root/zz"), Policy::new(false, true)));
    assert_eq!(r.unwrap(), DeleteStats::new());
}

#[test]
fn file_removal_of_a_directory_is_removal_failed() {
    let mut fs = sample();
    let e = fs.drive(Removal::file(p("root/empty"), Policy::new(false, false))).unwrap_err();
    assert_eq!(e.kind, FailureKind::RemovalFailed);
    assert!(fs.entries.contains_key(&p("root/empty")));
}

#[test]
fn empty_directory_removal() {
    let mut fs = sample();
    let r = fs.drive(Removal::empty_directory(p("root/empty"), Policy::new(false, false)));
    assert_eq!(r.unwrap(), stats(0, 1, 0));
    let e = fs.drive(Removal::empty_directory(p("root/sub"), Policy::new(false, false))).unwrap_err();
    assert_eq!(e.kind, FailureKind::RemovalFailed);
    assert_eq!(e.path, p("root/sub"));
    let r = fs.drive(Removal::empty_directory(p("root/sub"), Policy::new(false, true)));
    assert_eq!(r.unwrap(), DeleteStats::new());
}

#[test]
fn contents_removal_keeps_the_directory() {
    let mut fs = sample();
    let r = fs.drive(Removal::contents(p("root"), Policy::new(false, false)));
    assert_eq!(r.unwrap(), stats(5, 2, 72));
    let left: Vec<Vec<u8>> = fs.entries.keys().cloned().collect();
    assert_eq!(left, vec![p("root")]);
    let r = fs.drive(Removal::contents(p("nowhere"), Policy::new(false, false)));
    assert_eq!(r.unwrap(), DeleteStats::new());
}

#[test]
fn verbose_removal_reports_each_entry() {
    let mut fs = Fs::default();
    fs.dir("d");
    fs.file("d/f", 1);
    fs.drive(Removal::tree(p("d"), Policy::new(true, false))).unwrap();
    assert_eq!(fs.reports, vec!["file d/f".to_string(), "dir d".to_string()]);
    let mut fs = Fs::default();
    fs.dir("d");
    fs.file("d/f", 1);
    fs.drive(Removal::tree(p("d"), Policy::new(false, false))).unwrap();
    assert!(fs.reports.is_empty());
}

#[test]
fn event_of_the_wrong_kind_is_not_accepted() {
    let m = Removal::tree(p("d"), Policy::new(false, false));
    assert!(!m.accepts(&Event::Removed(Ok(()))));
    assert!(m.accepts(&Event::Inspected(Err(String::new()))));
}

#[test]
fn join_picks_the_first_failure_and_merges_the_rest() {
    let fail = |path: &str| RemoveError { kind: FailureKind::RemovalFailed, path: p(path), cause: "x".to_string() };
    let outs = vec![Ok(stats(1, 0, 5)), Err(fail("b")), Ok(stats(2, 1, 7)), Err(fail("d"))];
    let (merged, first) = join_outcomes(outs);
    assert_eq!(merged, stats(3, 1, 12));
    assert_eq!(first.unwrap().path, p("b"));
    let (merged, first) = join_outcomes(vec![]);
    assert_eq!(merged, DeleteStats::new());
    assert!(first.is_none());
}

#[test]
fn merge_adds_each_counter() {
    let mut a = stats(1, 2, 3);
    a.merge(stats(10, 20, 30));
    assert_eq!(a, stats(11, 22, 33));
}

#[test]
fn merge_is_associative_and_commutative() {
    let (a, b, c) = (stats(1, 2, 3), stats(4, 5, 6), stats(7, 8, u64::MAX - 1));
    let mut left = a;
    left.merge(b);
    left.merge(c);
    let mut bc = b;
    bc.merge(c);
    let mut right = a;
    right.merge(bc);
    assert_eq!(left, right);
    let mut ab = a;
    ab.merge(b);
    let mut ba = b;
    ba.merge(a);
    assert_eq!(ab, ba);
}

#[test]
fn merging_parts_of_a_tree_matches_one_pass() {
    let mut whole = sample();
    let one = whole.drive(Removal::contents(p("root"), Policy::new(false, false))).unwrap();
    let mut parts = sample();
    let mut total = DeleteStats::default();
    for child in ["root/a", "root/b", "root/c", "root/sub", "root/empty"] {
        total.merge(parts.drive(Removal::entry(p(child), Policy::new(false, false))).unwrap());
    }
    assert_eq!(one, total);
}

#[test]
fn merge_saturates() {
    let mut a = stats(usize::MAX, 0, u64::MAX);
    a.merge(stats(1, 1, 1));
    assert_eq!(a, stats(usize::MAX, 1, u64::MAX));
    let mut b = stats(0, usize::MAX - 1, 0);
    b.add_dir();
    b.add_dir();
    assert_eq!(b.dirs_deleted, usize::MAX);
    b.add_file(u64::MAX);
    assert_eq!(b.total_size, u64::MAX);
    assert_eq!(b.files_deleted, 1);
}

#[test]
fn new_stats_are_empty() {
    assert_eq!(DeleteStats::new(), stats(0, 0, 0));
    assert_eq!(DeleteStats::default(), stats(0, 0, 0));
    assert_eq!(Policy::new(true, false), Policy { verbose: true, force: false, parallel_threshold: 1000 });
}
