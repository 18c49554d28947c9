use dm_core::treemap::{color_for, make_sized_label, reset, truncate_name, Canvas, Cell, TreeMapView};

fn plain(view: &TreeMapView, c: &Canvas) -> String {
    view.canvas_to_string(c)
}

#[test]
fn a_box_has_corners_and_edges() {
    let view = TreeMapView::new(6, 4).with_colors(false);
    let mut c = Canvas::new(6, 4);
    view.draw_box(&mut c, 0, 0, 6, 4, 0);
    assert_eq!(plain(&view, &c), "┌────┐\n│    │\n│    │\n└────┘\n");
}

#[test]
fn a_box_is_clipped_to_the_canvas() {
    let view = TreeMapView::new(4, 3).with_colors(false);
    let mut c = Canvas::new(4, 3);
    view.draw_box(&mut c, 1, 1, 5, 5, 1);
    assert_eq!(plain(&view, &c), "    \n ╔═╗\n ╚═╝\n");
}

#[test]
fn a_thin_box_draws_nothing() {
    let view = TreeMapView::new(4, 3).with_colors(false);
    let mut c = Canvas::new(4, 3);
    view.draw_box(&mut c, 0, 0, 1, 3, 0);
    assert_eq!(plain(&view, &c), "    \n    \n    \n");
}

#[test]
fn text_stops_at_the_right_edge() {
    let view = TreeMapView::new(5, 1).with_colors(false);
    let mut c = Canvas::new(5, 1);
    view.draw_text(&mut c, 1, 0, "hello world", 10, 0);
    assert_eq!(plain(&view, &c), " hell\n");
    view.draw_text(&mut c, 0, 3, "x", 10, 0);
    assert_eq!(plain(&view, &c), " hell\n");
}

#[test]
fn names_are_truncated_by_bytes() {
    assert_eq!(truncate_name("document.txt", 20), "document.txt");
    assert_eq!(truncate_name("document.txt", 8), "docume..");
    assert_eq!(truncate_name("abc", 0), "");
    assert_eq!(truncate_name("abcdef", 2), "ab");
    assert_eq!(truncate_name("héllo", 5), "hél..");
}

#[test]
fn labels_put_the_size_after_the_name() {
    assert_eq!(make_sized_label("report.pdf", "1.5K", 12), "rep.. (1.5K)");
    assert_eq!(make_sized_label("a", "3B", 20), "a (3B)");
}

#[test]
fn colors_are_switched_on_and_off() {
    let view = TreeMapView::new(2, 1);
    let mut c = Canvas::new(2, 1);
    view.draw_text(&mut c, 0, 0, "ab", 2, 1);
    assert_eq!(view.canvas_to_string(&c), "\x1b[38;5;46mab\x1b[0m\n");
    assert_eq!(c.get(0, 0), Cell::with_color('a', 1));
    assert_eq!(view.get_color(9), color_for(1));
    assert_eq!(reset(), "\x1b[0m");
    let gray = TreeMapView::new(2, 1).with_colors(false);
    assert_eq!(gray.get_color(3), "");
}

#[test]
fn small_files_are_shaded() {
    let view = TreeMapView::new(4, 2).with_colors(false);
    let mut c = Canvas::new(4, 2);
    view.render_file(&mut c, 0, 0, 3, 1, 0, "xy", "1B");
    assert_eq!(plain(&view, &c), "xy░ \n    \n");
    assert_eq!(c.get(1, 0), Cell::new(' '));
}

#[test]
fn large_files_get_a_labelled_box() {
    let view = TreeMapView::new(12, 3).with_colors(false);
    let mut c = Canvas::new(12, 3);
    view.render_file(&mut c, 0, 0, 12, 3, 2, "a.bin", "2K");
    assert_eq!(plain(&view, &c), "╭──────────╮\n│ a.. (2K) │\n╰──────────╯\n");
}

#[test]
fn free_space_is_labelled() {
    let view = TreeMapView::new(14, 4).with_colors(false);
    let mut c = Canvas::new(14, 4);
    view.draw_free_space_box(&mut c, 0, 0, 14, 4, "2.0G");
    assert_eq!(plain(&view, &c), "┏━━━━━━━━━━━━┓\n┃ Free (2.0G ┃\n┃            ┃\n┗━━━━━━━━━━━━┛\n");
}

#[test]
fn view_settings_are_kept() {
    let v = TreeMapView::new(80, 24);
    assert_eq!((v.width(), v.height(), v.use_colors()), (80, 24, true));
    let c = Canvas::new(3, 2);
    assert_eq!((c.width(), c.height()), (3, 2));
}
