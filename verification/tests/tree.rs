use diskharitasi::builder::TreeBuilder;
use diskharitasi::nav::{darken, lighten, opens_on_double_click, sized_children, palette_index, selection_after_delete, zoom_in_target, zoom_move, ZoomMove};
use diskharitasi::tree::{Tree, NONE};

fn name(s: &str) -> String {
    s.to_string()
}

/// root/{a/{x 100, y 300}, b 50, c/ (empty)}
fn sample() -> Tree {
    let mut b = TreeBuilder::new(name("/data"), None, 4, 0, true, 1, true);
    let a = b.add_entry(0, name("a"), None, 4, 10, true, 1, 1, 10);
    assert!(a.descend);
    let x = b.add_entry(a.id, name("x"), None, 100, 11, false, 1, 1, 11);
    assert_eq!(x.size, 100);
    let y = b.add_entry(a.id, name("y"), None, 300, 12, false, 1, 1, 12);
    assert_eq!(y.id, 3);
    let bb = b.add_entry(0, name("b"), None, 50, 13, false, 1, 1, 13);
    assert_eq!(bb.id, 4);
    let c = b.add_entry(0, name("c"), None, 4, 14, true, 1, 1, 14);
    assert_eq!(c.id, 5);
    let mut t = b.into_tree(b"/data".to_vec(), 1000, 400, true);
    assert!(t.totals_fit());
    t.finalize();
    t
}

#[test]
fn finalize_adds_up_subtrees() {
    let t = sample();
    assert_eq!(t.nodes[2].depth, 2);
    assert_eq!(t.nodes[4].depth, 1);
    assert_eq!(t.nodes[0].depth, 0);
    assert_eq!(t.nodes[1].size, 404);
    assert_eq!(t.nodes[0].size, 4 + 404 + 50 + 4);
    assert_eq!(t.nodes[0].files, 3);
    assert_eq!(t.nodes[0].dirs, 3);
    assert_eq!(t.nodes[1].files, 2);
    assert_eq!(t.nodes[1].dirs, 1);
}

#[test]
fn finalize_sorts_children_largest_first() {
    let t = sample();
    assert_eq!(t.nodes[0].children, vec![1, 4, 5]);
    assert_eq!(t.nodes[1].children, vec![3, 2]);
}

#[test]
fn equal_sizes_keep_scan_order() {
    let mut b = TreeBuilder::new(name("/r"), None, 0, 0, true, 1, false);
    b.add_entry(0, name("p"), None, 7, 0, false, 1, 1, 1);
    b.add_entry(0, name("q"), None, 9, 0, false, 1, 1, 2);
    b.add_entry(0, name("r"), None, 7, 0, false, 1, 1, 3);
    let mut t = b.into_tree(b"/r".to_vec(), 0, 0, false);
    t.finalize();
    assert_eq!(t.nodes[0].children, vec![2, 1, 3]);
}

#[test]
fn hard_links_count_once() {
    let mut b = TreeBuilder::new(name("/r"), None, 0, 0, true, 1, false);
    let first = b.add_entry(0, name("f"), None, 8, 0, false, 2, 3, 77);
    let second = b.add_entry(0, name("g"), None, 8, 0, false, 2, 3, 77);
    let other_dev = b.add_entry(0, name("h"), None, 8, 0, false, 2, 4, 77);
    let single = b.add_entry(0, name("i"), None, 8, 0, false, 1, 3, 77);
    assert_eq!(first.size, 8);
    assert_eq!(second.size, 0);
    assert_eq!(other_dev.size, 8);
    assert_eq!(single.size, 8);
}

#[test]
fn other_file_systems_are_not_entered() {
    let mut b = TreeBuilder::new(name("/r"), None, 0, 0, true, 1, true);
    let same = b.add_entry(0, name("d"), None, 0, 0, true, 1, 1, 5);
    let other = b.add_entry(0, name("m"), None, 0, 0, true, 1, 2, 6);
    let file = b.add_entry(0, name("f"), None, 0, 0, false, 1, 1, 7);
    assert!(same.descend);
    assert!(!other.descend);
    assert!(!file.descend);
    let mut b2 = TreeBuilder::new(name("/r"), None, 0, 0, true, 1, false);
    assert!(b2.add_entry(0, name("m"), None, 0, 0, true, 1, 2, 6).descend);
}

#[test]
fn paths_of_nodes() {
    let t = sample();
    assert_eq!(t.path(0), b"/data".to_vec());
    assert_eq!(t.path(2), b"/data/a/x".to_vec());
    assert_eq!(t.path(NONE), b"/data".to_vec());
    assert_eq!(t.display_path(1), "/data/a/");
    assert_eq!(t.display_path(4), "/data/b");
    assert_eq!(t.display_path(0), "/data/");
}

#[test]
fn paths_under_the_file_system_root() {
    let mut b = TreeBuilder::new(name("/"), None, 0, 0, true, 1, false);
    b.add_entry(0, name("etc"), None, 0, 0, true, 1, 1, 2);
    b.add_entry(0, name("bad\u{fffd}"), Some(vec![b'b', b'a', b'd', 0xff]), 0, 0, false, 1, 1, 3);
    let t = b.into_tree(b"/".to_vec(), 0, 0, true);
    assert_eq!(t.path(1), b"/etc".to_vec());
    assert_eq!(t.display_path(0), "/");
    assert_eq!(t.path(2), vec![b'/', b'b', b'a', b'd', 0xff]);
    assert_eq!(t.display_path(2), "/bad\u{fffd}");
}

#[test]
fn ancestors() {
    let t = sample();
    assert!(t.is_ancestor_or_self(0, 2));
    assert!(t.is_ancestor_or_self(1, 2));
    assert!(t.is_ancestor_or_self(2, 2));
    assert!(!t.is_ancestor_or_self(4, 2));
    assert!(!t.is_ancestor_or_self(0, NONE));
}

#[test]
fn detach_takes_the_subtree_out() {
    let mut t = sample();
    t.detach(3);
    assert_eq!(t.nodes[3].parent, NONE);
    assert_eq!(t.nodes[1].children, vec![2]);
    assert_eq!(t.nodes[1].size, 104);
    assert_eq!(t.nodes[1].files, 1);
    assert_eq!(t.nodes[0].size, 4 + 104 + 50 + 4);
    assert_eq!(t.nodes[0].files, 2);
    assert!(!t.is_ancestor_or_self(0, 3));
    assert_eq!(t.nodes[0].children, vec![1, 4, 5]);
}

#[test]
fn detach_resorts_the_ancestors() {
    let mut t = sample();
    t.detach(3);
    t.detach(2);
    // a now holds only its own 4 bytes, less than b's 50.
    assert_eq!(t.nodes[1].size, 4);
    assert_eq!(t.nodes[0].children, vec![4, 1, 5]);
}

#[test]
fn detach_of_a_detached_node_does_nothing() {
    let mut t = sample();
    t.detach(4);
    let size = t.nodes[0].size;
    t.detach(4);
    t.detach(0);
    assert_eq!(t.nodes[0].size, size);
}

#[test]
fn navigation() {
    let t = sample();
    assert_eq!(zoom_in_target(&t, 0, NONE), None);
    assert_eq!(zoom_in_target(&t, 0, 1), Some(1));
    assert_eq!(zoom_in_target(&t, 0, 2), Some(1));
    assert_eq!(zoom_in_target(&t, 1, 2), None);
    assert_eq!(zoom_in_target(&t, 0, 5), None);
    assert_eq!(zoom_in_target(&t, 0, 4), None);
    assert!(zoom_move(&t, 0, 1, true) == ZoomMove::ZoomIn);
    assert!(zoom_move(&t, 1, 0, true) == ZoomMove::ZoomOut);
    assert!(zoom_move(&t, 1, 5, true) == ZoomMove::Jump);
    assert!(zoom_move(&t, 0, 1, false) == ZoomMove::Jump);
    assert!(zoom_move(&t, 0, 0, true) == ZoomMove::Stay);
    assert!(zoom_move(&t, 0, NONE, true) == ZoomMove::Stay);
    assert_eq!(selection_after_delete(&t, 1, 2), NONE);
    assert_eq!(selection_after_delete(&t, 1, 1), NONE);
    assert_eq!(selection_after_delete(&t, 1, 4), 4);
    assert!(opens_on_double_click(&t, 1));
    assert!(!opens_on_double_click(&t, 5));
    assert!(!opens_on_double_click(&t, 4));
    assert!(!opens_on_double_click(&t, NONE));
}

#[test]
fn palette_cycles_by_depth() {
    assert_eq!(palette_index(0), 0);
    assert_eq!(palette_index(1), 0);
    assert_eq!(palette_index(2), 1);
    assert_eq!(palette_index(8), 7);
    assert_eq!(palette_index(9), 0);
}

#[test]
fn edge_shades() {
    assert_eq!(lighten(0), 191);
    assert_eq!(lighten(255), 255);
    assert_eq!(lighten(127), 223);
    assert_eq!(darken(255), 191);
    assert_eq!(darken(0), 0);
    assert_eq!(darken(127), 95);
}

#[test]
fn only_sized_children_are_drawn() {
    let mut b = TreeBuilder::new(name("/r"), None, 0, 0, true, 1, false);
    b.add_entry(0, name("empty"), None, 0, 0, false, 1, 1, 1);
    b.add_entry(0, name("full"), None, 5, 0, false, 1, 1, 2);
    b.add_entry(0, name("dir"), None, 0, 0, true, 1, 1, 3);
    let t = b.into_tree(b"/r".to_vec(), 0, 0, false);
    assert_eq!(sized_children(&t, 0), vec![2]);
    assert!(sized_children(&t, 3).is_empty());
}

#[test]
fn detach_inside_a_detached_subtree() {
    let mut t = sample();
    t.detach(1);
    let root_size = t.nodes[0].size;
    assert_eq!(root_size, 4 + 50 + 4);
    t.detach(3);
    assert_eq!(t.nodes[0].size, root_size);
    assert_eq!(t.nodes[1].size, 104);
    assert_eq!(t.nodes[1].children, vec![2]);
}
