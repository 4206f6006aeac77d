use sherlock::process::{CiUtils, InternalBackend, PathSearchUtils, ProcStat, ProcessResult, ResultHeap};

fn result(name: &str, score: u32) -> ProcessResult {
    ProcessResult { name: name.to_string(), pid: 1, ppid: 1, score }
}

#[test]
fn ci_byte_helpers() {
    assert!(CiUtils::bytes_eq_ci(b"FireFox", b"firefox"));
    assert!(CiUtils::bytes_eq_ci(b"firefox", b"FIREFOX"));
    assert!(!CiUtils::bytes_eq_ci(b"firefox", b"firefix"));
    assert!(CiUtils::bytes_contain_ci(b"Firefox", b"FOX"));
    assert!(CiUtils::bytes_contain_ci(b"MyFirefoxApp", b"firefox"));
    assert!(CiUtils::bytes_contain_ci(b"abc", b""));
    assert!(!CiUtils::bytes_contain_ci(b"ab", b"abc"));
    assert!(PathSearchUtils::bytes_contain_ci(b"KITTY", b"itt"));
    assert_eq!(CiUtils::memrchr_slash(b"/usr/bin/foo"), Some(8));
    assert_eq!(CiUtils::memrchr_slash(b"foo"), None);
}

#[test]
fn score_ci_levels() {
    assert_eq!(PathSearchUtils::score_ci(b"Firefox", b"firefox"), 0);
    assert_eq!(PathSearchUtils::score_ci(b"xfirefox", b"firefox"), 50_000);
    assert_eq!(PathSearchUtils::score_ci(b"fire", b"fi"), 150_000);
    assert_eq!(PathSearchUtils::score_ci(b"xfirex", b"fire"), 400_000);
    assert_eq!(PathSearchUtils::score_ci(b"kitty", b"fire"), 800_000);
    assert_eq!(PathSearchUtils::score_ci(b"firefox", b"FIRE"), 100_000 + 100_000 * 3 / 7);
}

#[test]
fn result_heap_keeps_best_sorted() {
    let mut heap = ResultHeap::new(2);
    assert!(heap.push(result("c", 30)));
    assert!(heap.push(result("a", 10)));
    assert!(!heap.push(result("d", 40)));
    assert!(heap.push(result("b", 20)));
    let items = heap.snapshot();
    assert_eq!(items.len(), 2);
    // worst first: the entry evicted next sits at index 0
    assert_eq!(items[0].name, "b");
    assert_eq!(items[1].name, "a");
}

#[test]
fn result_heap_with_no_room() {
    let mut heap = ResultHeap::new(0);
    assert!(!heap.push(result("a", 0)));
    assert!(heap.snapshot().is_empty());
}

fn stat(pid: i32, ppid: i32, tty_nr: i32, name: &str) -> ProcStat {
    ProcStat { pid, ppid, tty_nr, name: Some(name.to_string()) }
}

#[test]
fn search_groups_children_under_their_app() {
    // firefox (10) started by init, with a helper child (11) named firefox-bin.
    let procs = vec![
        stat(10, 1, 0, "firefox"),
        stat(11, 10, 0, "firefox-bin"),
        stat(20, 1, 0, "kitty"),
    ];
    let (_tx, mut rx) = tokio::sync::mpsc::channel::<()>(1);
    let mut heap = ResultHeap::new(5);
    assert!(InternalBackend.search(procs, "fire", &mut heap, &mut rx));
    let items = heap.snapshot();
    assert_eq!(items.len(), 1);
    assert_eq!(items[0].name, "firefox-bin");
    assert_eq!(items[0].pid, 11);
    assert_eq!(items[0].ppid, 10);
    assert_eq!(items[0].score, 100_000 + 100_000 * 7 / 11);
}

#[test]
fn search_stops_when_cancelled() {
    let procs = vec![stat(10, 1, 0, "firefox")];
    let (tx, mut rx) = tokio::sync::mpsc::channel::<()>(1);
    tx.try_send(()).unwrap();
    let mut heap = ResultHeap::new(5);
    assert!(!InternalBackend.search(procs, "fire", &mut heap, &mut rx));
    assert!(heap.snapshot().is_empty());
}

#[test]
fn backend_name() {
    assert_eq!(InternalBackend.name(), "internal");
}

#[test]
fn heap_keeps_the_three_best() {
    let mut heap = ResultHeap::new(3);
    for (i, score) in [5u32, 1, 9, 3, 7, 0, 4].iter().enumerate() {
        heap.push(ProcessResult { name: format!("p{i}"), pid: i as i32, ppid: 1, score: *score });
    }
    let scores: Vec<u32> = heap.snapshot().iter().map(|r| r.score).collect();
    assert_eq!(scores, vec![3, 1, 0]);
}

#[test]
fn equal_scores_keep_arrival_order() {
    let mut heap = ResultHeap::new(3);
    heap.push(result("first", 2));
    heap.push(result("second", 2));
    heap.push(result("third", 1));
    let names: Vec<String> = heap.snapshot().into_iter().map(|r| r.name).collect();
    assert_eq!(names, vec!["first", "second", "third"]);
}

#[test]
fn full_heap_turns_away_a_tie_with_the_worst() {
    let mut heap = ResultHeap::new(2);
    heap.push(result("a", 5));
    heap.push(result("b", 3));
    assert!(!heap.push(result("c", 5)));
    assert!(heap.push(result("d", 4)));
    let names: Vec<String> = heap.snapshot().into_iter().map(|r| r.name).collect();
    assert_eq!(names, vec!["d", "b"]);
}
