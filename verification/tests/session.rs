use std::io::ErrorKind;
use std::path::PathBuf;

use dm_core::scan_store::ScanStore;
use dm_core::scanner::ScanEvent;
use dm_core::session::Session;

fn dir(parent_id: usize, name: &str) -> ScanEvent {
    ScanEvent::Dir { parent_id, name: name.to_string(), path: PathBuf::from(format!("/r/{}", name)) }
}

fn file(parent_id: usize, name: &str, size: u64) -> ScanEvent {
    ScanEvent::File { parent_id, name: name.to_string(), size }
}

#[test]
fn new_session_has_one_job_for_the_root() {
    let mut s = Session::new("/r".to_string(), 10);
    assert_eq!(s.tree.node(0).name(), "/r");
    assert_eq!((s.errors, s.jobs_started, s.jobs_done), (0, 0, 0));
    let job = s.next_job().expect("root job");
    assert_eq!(job.node_id, 0);
    assert_eq!(job.depth, 0);
    assert_eq!(job.path, PathBuf::from("/r"));
    assert_eq!(s.jobs_started, 1);
    assert!(s.next_job().is_none());
    assert_eq!(s.jobs_started, 1);
}

#[test]
fn sizes_add_up_to_the_root() {
    let mut s = Session::new("/r".to_string(), 10);
    s.apply_event(dir(0, "sub"));
    s.apply_event(file(1, "a", 100));
    s.apply_event(file(0, "b", 50));
    s.apply_event(dir(1, "deep"));
    s.apply_event(file(2, "c", 7));
    assert_eq!(s.tree.node(2).total_bytes(), 7);
    assert_eq!(s.tree.node(1).own_bytes(), 100);
    assert_eq!(s.tree.node(1).subtree_bytes(), 7);
    assert_eq!(s.tree.node(1).total_bytes(), 107);
    assert_eq!(s.tree.node(0).own_bytes(), 50);
    assert_eq!(s.tree.node(0).total_bytes(), 157);
}

#[test]
fn found_directories_are_queued_in_order() {
    let mut s = Session::new("/r".to_string(), 10);
    s.next_job();
    s.apply_event(dir(0, "x"));
    s.apply_event(dir(0, "y"));
    assert_eq!(s.tree.node(0).children(), &[1, 2]);
    let j1 = s.next_job().unwrap();
    let j2 = s.next_job().unwrap();
    assert_eq!((j1.node_id, j2.node_id), (1, 2));
    assert_eq!(j1.path, PathBuf::from("/r/x"));
    assert_eq!(s.jobs_started, 3);
}

#[test]
fn done_and_error_are_counted() {
    let mut s = Session::new("/r".to_string(), 10);
    s.apply_event(dir(0, "x"));
    s.apply_event(ScanEvent::Done { node: 1 });
    s.apply_event(ScanEvent::Error { node: 0, path: PathBuf::from("/r"), kind: ErrorKind::PermissionDenied });
    assert_eq!(s.jobs_done, 1);
    assert_eq!(s.errors, 1);
}

#[test]
fn top_files_are_kept_per_directory() {
    let mut s = Session::new("/r".to_string(), 2);
    s.apply_event(file(0, "a", 1));
    s.apply_event(file(0, "b", 3));
    s.apply_event(file(0, "c", 2));
    let v = s.tree.node(0).top_files().to_sorted_vec_desc();
    let names: Vec<String> = v.into_iter().map(|f| f.name).collect();
    assert_eq!(names, vec!["b".to_string(), "c".to_string()]);
}

#[test]
fn parallel_directories_become_jobs_to_hand_out() {
    let mut s = Session::new("/r".to_string(), 10);
    s.next_job();
    let (active, job) = s.handle_parallel_event(dir(0, "x"), 1);
    assert_eq!(active, 2);
    let job = job.unwrap();
    assert_eq!(job.node_id, 1);
    assert_eq!(job.path, PathBuf::from("/r/x"));
    assert_eq!(s.jobs_started, 2);
    assert!(s.next_job().is_none());
}

#[test]
fn parallel_done_is_counted_twice() {
    let mut s = Session::new("/r".to_string(), 10);
    let (active, job) = s.handle_parallel_event(ScanEvent::Done { node: 0 }, 3);
    assert_eq!(active, 2);
    assert!(job.is_none());
    assert_eq!(s.jobs_done, 2);
}

#[test]
fn parallel_files_are_applied() {
    let mut s = Session::new("/r".to_string(), 10);
    let (active, job) = s.handle_parallel_event(file(0, "a", 9), 1);
    assert_eq!(active, 1);
    assert!(job.is_none());
    assert_eq!(s.tree.node(0).total_bytes(), 9);
}

#[test]
fn store_gives_back_what_was_kept() {
    let mut store = ScanStore::new();
    let mut s = Session::new("/r".to_string(), 10);
    s.apply_event(file(0, "a", 9));
    store.insert("scan-1".to_string(), s);
    let got = store.get(&"scan-1".to_string()).expect("kept");
    assert_eq!(got.tree.node(0).total_bytes(), 9);
    assert!(store.get(&"scan-2".to_string()).is_none());
    let removed = store.remove(&"scan-1".to_string()).expect("kept");
    assert_eq!(removed.tree.node(0).name(), "/r");
    assert!(store.get(&"scan-1".to_string()).is_none());
    assert!(store.remove(&"scan-1".to_string()).is_none());
}

#[test]
fn store_insert_replaces() {
    let mut store = ScanStore::default();
    store.insert("id".to_string(), Session::new("/a".to_string(), 1));
    store.insert("id".to_string(), Session::new("/b".to_string(), 1));
    assert_eq!(store.get(&"id".to_string()).unwrap().tree.node(0).name(), "/b");
}

#[test]
fn cloned_session_keeps_pending_paths() {
    let mut s = Session::new("/r".to_string(), 10);
    s.apply_event(dir(0, "x"));
    let mut c = s.clone();
    let root = c.next_job().unwrap();
    let child = c.next_job().unwrap();
    assert_eq!(root.path, PathBuf::from("/r"));
    assert_eq!(child.path, PathBuf::from("/r/x"));
    assert_eq!(c.tree.node(1).name(), "x");
    assert_eq!(s.jobs_started, 0);
}

#[test]
fn a_directory_knows_the_totals_of_its_children() {
    let mut s = Session::new("r".to_string(), 2);
    s.apply_event(ScanEvent::Dir { parent_id: 0, name: "a".to_string(), path: PathBuf::from("a") });
    s.apply_event(ScanEvent::Dir { parent_id: 0, name: "b".to_string(), path: PathBuf::from("b") });
    s.apply_event(ScanEvent::Dir { parent_id: 1, name: "c".to_string(), path: PathBuf::from("a/c") });
    s.apply_event(ScanEvent::File { parent_id: 3, name: "x".to_string(), size: 7 });
    s.apply_event(ScanEvent::File { parent_id: 1, name: "y".to_string(), size: 5 });
    s.apply_event(ScanEvent::File { parent_id: 2, name: "z".to_string(), size: 11 });
    s.apply_event(ScanEvent::File { parent_id: 0, name: "w".to_string(), size: 3 });
    for id in 0..s.tree.len() {
        let node = s.tree.node(id);
        let children: u64 = node.children().iter().map(|&c| s.tree.node(c).total_bytes()).sum();
        assert_eq!(node.subtree_bytes(), children);
    }
    assert_eq!(s.tree.node(0).total_bytes(), 26);
    assert_eq!(s.tree.node(1).subtree_bytes(), 7);
}

#[test]
fn a_run_only_moves_forward() {
    let mut s = Session::new("r".to_string(), 2);
    let events = vec![
        dir(0, "a"),
        file(1, "x", 4),
        ScanEvent::Error { node: 1, path: PathBuf::from("/r/a"), kind: ErrorKind::NotFound },
        file(0, "y", 6),
        ScanEvent::Done { node: 1 },
    ];
    let mut last = (s.jobs_started, s.jobs_done, s.errors, s.tree.len(), s.tree.node(0).total_bytes());
    for e in events {
        let (active, _) = s.handle_parallel_event(e, 2);
        assert!(active >= 1);
        let now = (s.jobs_started, s.jobs_done, s.errors, s.tree.len(), s.tree.node(0).total_bytes());
        assert!(now.0 >= last.0 && now.1 >= last.1 && now.2 >= last.2 && now.3 >= last.3 && now.4 >= last.4);
        assert_eq!(s.tree.node(0).name(), "r");
        last = now;
    }
    assert_eq!(last.4, 10);
}
