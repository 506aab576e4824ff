use ccdu::model::{flags, Kind, Meta, Node, NodeId, Tree, ROOT};
use ccdu::report::report;

fn file(size: u64) -> Meta {
    Meta { kind: Kind::File, apparent: size, disk: size, mtime: 0, dev: 1, ino: 0, nlink: 1 }
}

fn dir() -> Meta {
    Meta { kind: Kind::Dir, apparent: 0, disk: 0, mtime: 0, dev: 1, ino: 0, nlink: 2 }
}

fn root() -> Vec<u8> {
    b"/r".to_vec()
}

#[test]
fn node_is_48_bytes() {
    assert_eq!(std::mem::size_of::<Node>(), 48);
}

#[test]
fn sizes_propagate_to_every_ancestor() {
    let mut t = Tree::new(root(), &dir());
    let a = t.push_child(ROOT, b"a", &dir(), 0, true);
    let b = t.push_child(a, b"b", &dir(), 0, true);
    t.push_child(b, b"f", &file(100), 0, true);
    t.push_child(a, b"g", &file(30), 0, true);

    assert_eq!(t.node(ROOT).disk, 130);
    assert_eq!(t.node(a).disk, 130);
    assert_eq!(t.node(b).disk, 100);
    assert_eq!(t.node(ROOT).items, 4);
    assert_eq!(t.node(a).items, 3);
}

#[test]
fn uncounted_nodes_exist_but_weigh_nothing() {
    let mut t = Tree::new(root(), &dir());
    t.push_child(ROOT, b"real", &file(100), flags::HARDLINK, true);
    let dup = t.push_child(ROOT, b"dup", &file(100), flags::HARDLINK_DUP, false);

    assert_eq!(t.node(ROOT).disk, 100);
    assert_eq!(t.node(ROOT).items, 2);
    assert_eq!(t.node(dup).disk, 0);
    assert!(t.node(dup).has(flags::HARDLINK_DUP));
}

#[test]
fn finish_restores_insertion_order() {
    let mut t = Tree::new(root(), &dir());
    for name in [b"a", b"b", b"c"] {
        t.push_child(ROOT, name, &file(1), 0, true);
    }
    t.finish();
    let mut names = Vec::new();
    let mut children = t.children(ROOT);
    while let Some(c) = children.next() {
        names.push(String::from_utf8_lossy(t.name(c)).into_owned());
    }
    assert_eq!(names, ["a", "b", "c"]);
}

#[test]
fn finishing_twice_turns_the_children_round_again() {
    let mut t = Tree::new(root(), &dir());
    for name in [b"a", b"b", b"c"] {
        t.push_child(ROOT, name, &file(1), 0, true);
    }
    let before = t.child_ids(ROOT);
    t.finish();
    let total = t.node(ROOT).disk;
    t.finish();
    assert_eq!(t.child_ids(ROOT), before);
    assert_eq!(t.node(ROOT).disk, total);
}

#[test]
fn paths_are_rebuilt_from_the_name_chain() {
    let mut t = Tree::new(root(), &dir());
    let a = t.push_child(ROOT, b"a", &dir(), 0, true);
    let f = t.push_child(a, b"f.txt", &file(1), 0, true);
    assert_eq!(t.path_of(f), b"/r/a/f.txt");
    assert_eq!(t.path_of(ROOT), b"/r");
}

#[test]
fn raw_nodes_that_do_not_form_a_tree_are_rejected() {
    let mut t = Tree::new(root(), &dir());
    t.push_child(ROOT, b"a", &file(5), 0, true);
    t.finish();
    let (nodes, names) = (t.raw_nodes().clone(), t.raw_names().clone());

    let back = Tree::from_raw(root(), nodes.clone(), names.clone(), 0, false);
    assert_eq!(back.map(|b| b.len()).ok(), Some(2));

    let mut stray = nodes.clone();
    stray[1].parent = 7;
    assert!(Tree::from_raw(root(), stray, names.clone(), 0, false).is_err());

    // In range, but a ring.
    let mut ring = nodes.clone();
    ring[1].next_sibling = 1;
    assert!(Tree::from_raw(root(), ring, names.clone(), 0, false).is_err());

    let empty: Vec<Node> = Vec::new();
    assert!(Tree::from_raw(root(), empty, names, 0, false).is_err());
}

#[test]
fn the_arena_is_measured() {
    let mut t = Tree::new(root(), &dir());
    t.push_child(ROOT, b"abc", &file(5), 0, true);
    assert!(t.memory_bytes() >= 48 * t.len() + t.raw_names().len());
}

#[test]
fn the_report_lists_the_largest_entries_first() {
    let mut t = Tree::new(root(), &dir());
    let logs: NodeId = t.push_child(ROOT, b"logs", &dir(), 0, true);
    t.push_child(logs, b"a.log", &file(300_000), 0, true);
    t.push_child(ROOT, b"notes", &file(50_000), 0, true);
    t.push_child(ROOT, b"gone", &file(0), flags::ERR, true);
    t.add_errors(1);
    t.finish();
    let lines = report(&t, false, 2, "0.10s", 2048);
    assert_eq!(
        lines,
        [
            "/r",
            "  disk usage   341.8 KiB",
            "  entries      4",
            "  scanned in   0.10s (5 nodes, 2.0 KiB of arena)",
            "  unreadable   1 (sizes are a lower bound)",
            "",
            " 293.0 KiB  logs/",
            "  48.8 KiB  notes",
            "... and 1 more",
        ]
    );
    let all = report(&t, true, 20, "0.10s", 2048);
    assert_eq!(all[1], "  apparent     341.8 KiB");
    assert_eq!(all[8], "       0 B  gone  [unreadable]");
    assert_eq!(all.len(), 9);

    let empty = Tree::new(root(), &dir());
    assert_eq!(report(&empty, false, 20, "0.10s", 48).len(), 4);
}
