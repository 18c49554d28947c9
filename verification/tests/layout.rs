use std::path::PathBuf;

use dm_core::layout::{check_layout_fits, display_order, free_space_widths, LayoutItem, Proportions};
use dm_core::scanner::ScanEvent;
use dm_core::session::Session;
use dm_core::top_files::FileMetaData;
use dm_core::treemap::TreeMapView;

/// Proportions as a terminal would use them, in floating point.
struct Rounded;

impl Proportions for Rounded {
    fn share(&self, extent: usize, size: u64, total: u64) -> usize {
        let ratio = size as f64 / total as f64;
        (extent as f64 * ratio).round() as usize
    }

    fn used_share(&self, width: usize, used: u64, total: u64) -> usize {
        let ratio = if total > 0 { used as f64 / total as f64 } else { 0.5 };
        (width as f64 * ratio).round() as usize
    }

    fn size_label(&self, bytes: u64) -> String {
        format!("{}B", bytes)
    }
}

/// Proportions that hand out more than there is: the layout keeps them in bounds.
struct Greedy;

impl Proportions for Greedy {
    fn share(&self, _extent: usize, _size: u64, _total: u64) -> usize {
        usize::MAX
    }

    fn used_share(&self, _width: usize, _used: u64, _total: u64) -> usize {
        usize::MAX
    }

    fn size_label(&self, _bytes: u64) -> String {
        String::new()
    }
}

/// root(0) holding a(1) with a 30-byte file and b(2) with a 10-byte file.
fn sample() -> Session {
    let mut s = Session::new("r".to_string(), 3);
    s.apply_event(ScanEvent::Dir { parent_id: 0, name: "a".to_string(), path: PathBuf::from("a") });
    s.apply_event(ScanEvent::Dir { parent_id: 0, name: "b".to_string(), path: PathBuf::from("b") });
    s.apply_event(ScanEvent::File { parent_id: 1, name: "fa".to_string(), size: 30 });
    s.apply_event(ScanEvent::File { parent_id: 2, name: "fb".to_string(), size: 10 });
    s
}

fn lines(s: &str) -> Vec<Vec<char>> {
    s.lines().map(|l| l.chars().collect()).collect()
}

#[test]
fn items_are_placed_largest_first_keeping_ties_in_order() {
    let order = display_order(&vec![5, 0, 9, 5, 9]);
    assert_eq!(order, vec![(2, 9), (4, 9), (0, 5), (3, 5)]);
    assert!(display_order(&vec![0, 0]).is_empty());
}

#[test]
fn free_space_shares_are_widened_to_be_seen() {
    assert_eq!(free_space_widths(40, 1, 99, true, 0), (15, 25));
    assert_eq!(free_space_widths(40, 99, 1, true, 40), (25, 15));
    assert_eq!(free_space_widths(40, 50, 50, true, 20), (20, 20));
    assert_eq!(free_space_widths(20, 1, 1, true, 10), (5, 15));
    assert_eq!(free_space_widths(41, 1, 1, false, 0), (20, 21));
    assert_eq!(free_space_widths(10, 0, 0, true, 4), (4, 6));
}

#[test]
fn a_tree_is_drawn_inside_its_box() {
    let s = sample();
    let view = TreeMapView::new(30, 12).with_colors(false);
    let out = view.render_tree(&s.tree, None, false, &Rounded);
    let rows = lines(&out);
    assert_eq!(rows.len(), 12);
    assert!(rows.iter().all(|r| r.len() == 30));
    assert_eq!(rows[0][0], '┌');
    assert_eq!(rows[0][29], '┐');
    assert_eq!(rows[11][0], '└');
    assert_eq!(rows[11][29], '┘');
    let label: String = rows[1][2..9].iter().collect();
    assert_eq!(label, "r (40B)");
    // the children sit inside the root's outline, a first and larger
    assert_eq!(rows[2][2], '╔');
    let inner: String = rows[3][4..].iter().collect();
    assert!(inner.starts_with("a (30B)"));
    for r in 1..11 {
        assert_eq!(rows[r][0], '│');
        assert_eq!(rows[r][29], '│');
    }
}

#[test]
fn a_tree_beside_free_space_keeps_to_its_share() {
    let s = sample();
    let view = TreeMapView::new(40, 6).with_colors(false);
    let out = view.render_tree(&s.tree, Some((200, 40)), false, &Rounded);
    let rows = lines(&out);
    assert_eq!(rows[0][0], '┌');
    assert_eq!(rows[0][19], '┐');
    assert_eq!(rows[0][20], '┏');
    assert_eq!(rows[0][39], '┓');
    let free: String = rows[1][22..32].iter().collect();
    assert_eq!(free, "Free (40B)");
}

#[test]
fn shares_that_overrun_are_kept_in_bounds() {
    let s = sample();
    let view = TreeMapView::new(30, 10).with_colors(false);
    let out = view.render_tree(&s.tree, Some((100, 10)), true, &Greedy);
    let rows = lines(&out);
    assert_eq!(rows.len(), 10);
    assert!(rows.iter().all(|r| r.len() == 30));
    assert_eq!(rows[0][0], '┌');
    assert_eq!(rows[0][14], '┐');
}

#[test]
fn a_tiny_view_draws_nothing() {
    let s = sample();
    let view = TreeMapView::new(2, 2).with_colors(false);
    assert_eq!(view.render_tree(&s.tree, None, false, &Rounded), "  \n  \n");
}

#[test]
fn layout_items_report_their_sizes() {
    let s = sample();
    let f = LayoutItem::File(FileMetaData { name: "x".to_string(), size: 7, mtime: 0 });
    assert_eq!(f.size(&s.tree), 7);
    assert_eq!(LayoutItem::Folder(1).size(&s.tree), 30);
    assert_eq!(LayoutItem::Folder(0).clone_item().size(&s.tree), 40);
    assert!(check_layout_fits(&s.tree));
}

#[test]
fn the_default_view_is_wide() {
    let v = TreeMapView::default();
    assert_eq!((v.width(), v.height(), v.use_colors()), (120, 40, true));
}

#[test]
fn in_a_tall_block_items_are_stacked() {
    let s = sample();
    let view = TreeMapView::new(10, 30).with_colors(false);
    let out = view.render_tree(&s.tree, None, false, &Rounded);
    let rows = lines(&out);
    assert_eq!(rows[2][2], '╔');
    assert_eq!(rows[21][2], '╚');
    assert_eq!(rows[22][2], '╔');
    assert_eq!(rows[27][2], '╚');
}

#[test]
fn blocks_follow_the_share_of_the_bytes_left() {
    // root 40 bytes: a (30) then b (10) side by side in a wide view.
    let s = sample();
    let view = TreeMapView::new(44, 8).with_colors(false);
    let rows = lines(&view.render_tree(&s.tree, None, false, &Rounded));
    // inner width 40: a takes round(40 * 30/40) = 30 columns from column 2, b the last 10
    assert_eq!(rows[2][2], '╔');
    assert_eq!(rows[2][31], '╗');
    assert_eq!(rows[2][32], '╔');
    assert_eq!(rows[2][41], '╗');
}
