use std::path::PathBuf;

use dm_core::scanner::ScanEvent;
use dm_core::session::Session;
use dm_core::snapshot::{serialize_tree, serialize_tree_limited};
use dm_core::view::{generate_progress_view, generate_view, BudgetTier};

/// root(0) with a(1), b(2), c(3); d(4) under a. Totals: a 15, b 30, c 30, d 5.
fn sample() -> Session {
    let mut s = Session::new("r".to_string(), 3);
    for name in ["a", "b", "c"] {
        s.apply_event(ScanEvent::Dir { parent_id: 0, name: name.to_string(), path: PathBuf::from(name) });
    }
    s.apply_event(ScanEvent::Dir { parent_id: 1, name: "d".to_string(), path: PathBuf::from("a/d") });
    s.apply_event(ScanEvent::File { parent_id: 1, name: "fa".to_string(), size: 10 });
    s.apply_event(ScanEvent::File { parent_id: 2, name: "fb".to_string(), size: 30 });
    s.apply_event(ScanEvent::File { parent_id: 3, name: "fc".to_string(), size: 30 });
    s.apply_event(ScanEvent::File { parent_id: 4, name: "fd".to_string(), size: 5 });
    s
}

#[test]
fn view_lists_children_largest_first() {
    let s = sample();
    let v = generate_view(&s.tree, 0, 1, BudgetTier::normal());
    assert_eq!(v.root_id, 0);
    let ids: Vec<usize> = v.nodes.iter().map(|n| n.id).collect();
    assert_eq!(ids, vec![0, 2, 3, 1]);
    assert_eq!(v.nodes[0].children, vec![2, 3, 1]);
    assert_eq!(v.nodes[0].size, 75);
    assert_eq!(v.nodes[0].depth, 0);
    assert_eq!(v.nodes[3].children, vec![4]);
    assert_eq!(v.nodes[3].size, 15);
    assert_eq!(v.nodes[3].own_size, 10);
    assert_eq!(v.nodes[3].parent, Some(0));
    assert_eq!(v.nodes[3].depth, 1);
    assert_eq!(v.nodes[1].top_files.len(), 1);
    assert_eq!(v.nodes[1].top_files[0].name, "fb");
    assert_eq!(v.nodes[1].top_files[0].size, 30);
    assert!(!v.nodes[1].is_other);
}

#[test]
fn view_of_a_subdirectory_starts_with_its_parent() {
    let s = sample();
    let v = generate_view(&s.tree, 1, 5, BudgetTier::rescue());
    let ids: Vec<usize> = v.nodes.iter().map(|n| n.id).collect();
    assert_eq!(ids, vec![0, 1, 4]);
    assert_eq!(v.nodes[0].children, vec![1]);
    assert!(v.nodes[0].top_files.is_empty());
    assert_eq!(v.nodes[0].parent, None);
    assert_eq!(v.nodes[1].parent, Some(0));
    assert_eq!(v.nodes[1].depth, 0);
    assert_eq!(v.nodes[2].depth, 1);
    assert_eq!(v.root_id, 1);
}

#[test]
fn budget_tiers_have_their_sizes() {
    let b = BudgetTier::beefy();
    assert_eq!((b.max_nodes, b.max_children, b.top_files_k), (200_000, 5000, 100));
    let n = BudgetTier::normal();
    assert_eq!((n.max_nodes, n.max_children, n.top_files_k), (50_000, 1000, 50));
    let r = BudgetTier::rescue();
    assert_eq!((r.max_nodes, r.max_children, r.top_files_k), (10_000, 400, 25));
}

#[test]
fn progress_view_keeps_the_largest_children() {
    let s = sample();
    let p = generate_progress_view(&s.tree, 0, 1, 2);
    let ids: Vec<usize> = p.iter().map(|n| n.id).collect();
    assert_eq!(ids, vec![0, 2, 3]);
    assert_eq!(p[0].child_count, 3);
    assert_eq!(p[0].top_child_ids, vec![2, 3]);
    assert_eq!(p[1].parent, Some(0));
    assert_eq!(p[1].size, 30);
    assert_eq!(p[0].name, "r");
}

#[test]
fn progress_view_walks_depth_first() {
    let s = sample();
    let p = generate_progress_view(&s.tree, 0, 5, 10);
    let ids: Vec<usize> = p.iter().map(|n| n.id).collect();
    assert_eq!(ids, vec![0, 2, 3, 1, 4]);
    assert_eq!(p[4].depth, 2);
    assert_eq!(p[4].parent, Some(1));
}

#[test]
fn snapshot_visits_the_last_child_first() {
    let s = sample();
    let t = serialize_tree(&s.tree, 0);
    let ids: Vec<usize> = t.iter().map(|n| n.id).collect();
    assert_eq!(ids, vec![0, 3, 2, 1, 4]);
    assert_eq!(t[0].children, vec![1, 2, 3]);
    assert_eq!(t[4].depth, 2);
    assert_eq!(t[4].parent, Some(1));
    assert_eq!(t[3].size, 15);
}

#[test]
fn limited_snapshot_stops_at_its_depth() {
    let s = sample();
    let t = serialize_tree_limited(&s.tree, 0, 1);
    let ids: Vec<usize> = t.iter().map(|n| n.id).collect();
    assert_eq!(ids, vec![0, 3, 2, 1]);
    assert_eq!(t[0].children, vec![1, 2, 3]);
    assert!(t[3].children.is_empty());
    let whole = serialize_tree_limited(&s.tree, 0, 0);
    assert_eq!(whole.len(), 1);
    assert!(whole[0].children.is_empty());
}

#[test]
fn snapshot_of_a_subdirectory_lists_each_directory_under_it_once() {
    let s = sample();
    let mut ids: Vec<usize> = serialize_tree(&s.tree, 1).iter().map(|n| n.id).collect();
    ids.sort();
    assert_eq!(ids, vec![1, 4]);
    let mut all: Vec<usize> = serialize_tree(&s.tree, 0).iter().map(|n| n.id).collect();
    all.sort();
    assert_eq!(all, vec![0, 1, 2, 3, 4]);
}

#[test]
fn a_snapshot_limited_to_the_tree_height_is_the_whole_snapshot() {
    let s = sample();
    let whole = serialize_tree(&s.tree, 0);
    let limited = serialize_tree_limited(&s.tree, 0, 2);
    assert_eq!(whole.len(), limited.len());
    for (a, b) in whole.iter().zip(limited.iter()) {
        assert_eq!((a.id, a.parent, a.depth, a.size, a.own_size), (b.id, b.parent, b.depth, b.size, b.own_size));
        assert_eq!(a.children, b.children);
        assert_eq!(a.name, b.name);
    }
}

#[test]
fn equal_files_are_listed_alike_in_both_snapshots() {
    let mut s = Session::new("r".to_string(), 5);
    s.apply_event(ScanEvent::Dir { parent_id: 0, name: "a".to_string(), path: PathBuf::from("a") });
    for name in ["p", "q", "s", "t"] {
        s.apply_event(ScanEvent::File { parent_id: 1, name: name.to_string(), size: 8 });
    }
    let whole = serialize_tree(&s.tree, 0);
    let limited = serialize_tree_limited(&s.tree, 0, 1);
    let names = |t: &Vec<dm_core::snapshot::TreeNode>| -> Vec<Vec<String>> {
        t.iter().map(|n| n.top_files.iter().map(|f| f.name.clone()).collect()).collect()
    };
    assert_eq!(names(&whole), names(&limited));
    assert_eq!(whole[1].top_files.len(), 4);
}
