use lib::which::{is_runnable, search_candidates, PathSearch};

#[test]
fn candidates_along_the_path() {
    assert_eq!(search_candidates("/bin:/usr/bin", "ls"), vec!["/bin/ls", "/usr/bin/ls"]);
    assert_eq!(search_candidates("/bin::", "ls"), vec!["/bin/ls", "./ls", "./ls"]);
    assert_eq!(search_candidates("", "ls"), vec!["./ls"]);
    assert_eq!(search_candidates("/bin", "a/b"), vec!["a/b"]);
    assert_eq!(search_candidates("/bin:/sbin", &"n".repeat(256)), Vec::<String>::new());
    assert_eq!(search_candidates("/bin", &"n".repeat(255)).len(), 1);
    assert_eq!(search_candidates("/bïn:/x", "é"), vec!["/bïn/é", "/x/é"]);
}

#[test]
fn first_match_ends_the_search() {
    let mut s = PathSearch::new("/a:/b:/c", "x", false);
    assert_eq!(s.next_path().unwrap(), "/a/x");
    s.record(false);
    assert_eq!(s.next_path().unwrap(), "/b/x");
    s.record(true);
    assert!(s.next_path().is_none());
    assert!(s.found());
}

#[test]
fn all_matches_are_tried_with_a() {
    let mut s = PathSearch::new("/a:/b:/c", "x", true);
    s.record(true);
    assert_eq!(s.next_path().unwrap(), "/b/x");
    s.record(false);
    assert_eq!(s.next_path().unwrap(), "/c/x");
    s.record(false);
    assert!(s.next_path().is_none());
    assert!(s.found());
}

#[test]
fn nothing_found() {
    let mut s = PathSearch::new("/a", "x", false);
    s.record(false);
    assert!(s.next_path().is_none());
    assert!(!s.found());
}

#[test]
fn runnable_files() {
    assert!(!is_runnable(true, true, 0, 0o644));
    assert!(is_runnable(true, true, 0, 0o755));
    assert!(is_runnable(true, true, 0, 0o001));
    assert!(is_runnable(true, true, 1000, 0o644));
    assert!(!is_runnable(false, true, 1000, 0o755));
    assert!(!is_runnable(true, false, 1000, 0o755));
}
