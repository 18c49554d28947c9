use dm_core::totals::totals_fit_check;
use dm_core::tree::Tree;

#[test]
fn new_tree_has_one_unseen_root() {
    let t = Tree::new("root".to_string(), 4);
    assert_eq!(t.root(), 0);
    assert_eq!(t.len(), 1);
    let r = t.node(0);
    assert_eq!(r.id(), 0);
    assert_eq!(r.parent_id(), None);
    assert_eq!(r.name(), "root");
    assert!(r.children().is_empty());
    assert_eq!(r.total_bytes(), 0);
    assert!(t.is_well_formed());
}

#[test]
fn add_child_links_both_ways() {
    let mut t = Tree::new("root".to_string(), 4);
    let a = t.add_child(0, "a".to_string(), 4);
    let b = t.add_child(0, "b".to_string(), 4);
    let c = t.add_child(a, "c".to_string(), 4);
    assert_eq!((a, b, c), (1, 2, 3));
    assert_eq!(t.node(0).children(), &[1, 2]);
    assert_eq!(t.node(a).children(), &[3]);
    assert_eq!(t.node(c).parent_id(), Some(1));
    assert_eq!(t.node(c).name(), "c");
    assert!(t.is_well_formed());
}

#[test]
fn child_of_itself_makes_a_malformed_tree() {
    let mut t = Tree::new("root".to_string(), 4);
    let id = t.add_child(1, "loop".to_string(), 4);
    assert_eq!(id, 1);
    assert_eq!(t.node(1).parent_id(), Some(1));
    assert_eq!(t.node(1).children(), &[1]);
    assert!(!t.is_well_formed());
}

#[test]
fn node_mut_changes_one_node() {
    let mut t = Tree::new("root".to_string(), 4);
    t.add_child(0, "a".to_string(), 4);
    t.node_mut(1).add_file("f".to_string(), 10);
    t.node_mut(1).add_subtree_known(5);
    assert_eq!(t.node(1).own_bytes(), 10);
    assert_eq!(t.node(1).subtree_bytes(), 5);
    assert_eq!(t.node(1).total_bytes(), 15);
    assert_eq!(t.node(0).total_bytes(), 0);
    assert!(totals_fit_check(&t));
}

#[test]
fn totals_that_overflow_are_detected() {
    let mut t = Tree::new("root".to_string(), 4);
    t.node_mut(0).add_file("a".to_string(), u64::MAX);
    t.node_mut(0).add_subtree_known(1);
    assert!(!totals_fit_check(&t));
}

#[test]
fn saturating_counts_stop_at_max() {
    let mut t = Tree::new("root".to_string(), 4);
    t.node_mut(0).add_file("a".to_string(), u64::MAX);
    t.node_mut(0).add_file("b".to_string(), 5);
    assert_eq!(t.node(0).own_bytes(), u64::MAX);
}

#[test]
fn cloned_tree_is_alike() {
    let mut t = Tree::new("root".to_string(), 4);
    t.add_child(0, "a".to_string(), 4);
    let c = t.clone();
    assert_eq!(c.len(), 2);
    assert_eq!(c.node(1).name(), "a");
    assert_eq!(c.node(0).children(), &[1]);
}
