use std::collections::BTreeMap;

use ccdu::export::ncdu::{Dump, Entry, Item};
use ccdu::export::{native, ncdu, read, Format, Input, ReadError};
use ccdu::model::{flags, Kind, Meta, Node, NodeId, Tree, ROOT};
use serde_json::Value;

fn meta(kind: Kind, apparent: u64, disk: u64) -> Meta {
    Meta { kind, apparent, disk, mtime: 1_700_000_000, dev: 1, ino: 0, nlink: 1 }
}

/// A tree with a bit of everything: nested directories, a symlink and a hardlink pair.
fn fixture() -> Tree {
    let mut t = Tree::new(b"/data".to_vec(), &meta(Kind::Dir, 4096, 4096));
    let sub = t.push_child(ROOT, b"sub", &meta(Kind::Dir, 4096, 4096), 0, true);
    t.push_child(sub, b"big.bin", &meta(Kind::File, 300_000, 303_104), 0, true);
    let deep = t.push_child(sub, b"deep", &meta(Kind::Dir, 4096, 4096), 0, true);
    t.push_child(deep, b"leaf", &meta(Kind::File, 10, 4096), 0, true);
    t.push_child(ROOT, b"one", &meta(Kind::File, 5000, 8192), flags::HARDLINK, true);
    t.push_child(ROOT, b"two", &meta(Kind::File, 5000, 8192), flags::HARDLINK_DUP, false);
    t.push_child(ROOT, b"link", &meta(Kind::Symlink, 7, 0), 0, true);
    t.finish();
    t
}

/// Every entry below the root, by its path from there.
fn contents(tree: &Tree) -> BTreeMap<String, (u64, u64, u16)> {
    let mut out = BTreeMap::new();
    let mut stack: Vec<NodeId> = vec![ROOT];
    while let Some(id) = stack.pop() {
        for child in tree.child_ids(id) {
            let path = tree.path_of(child);
            let rel = String::from_utf8_lossy(&path[tree.root_path().len() + 1..]).into_owned();
            let node = tree.node(child);
            out.insert(rel, (node.apparent, node.disk, node.flags));
            if node.is_dir() {
                stack.push(child);
            }
        }
    }
    out
}

fn read_tree(bytes: &[u8]) -> Result<Tree, ReadError> {
    native::read(bytes)
}

fn said(r: Result<Tree, ReadError>) -> String {
    match r {
        Ok(_) => String::new(),
        Err(e) => e.message(),
    }
}

#[test]
fn the_native_format_is_sniffed_and_round_trips_exactly() {
    let tree = fixture();
    let buffer = ccdu::export::write(&tree, Format::Native, "0.1.0", 0);
    let Ok(Input::Tree(back)) = read(&buffer) else { panic!("not recognised") };
    assert_eq!(contents(&back), contents(&tree));
    assert_eq!(back.root_path(), tree.root_path());
    assert_eq!(back.errors, tree.errors);
    assert_eq!(back.node(ROOT).disk, tree.node(ROOT).disk);
}

#[test]
fn the_ncdu_format_is_sniffed_and_round_trips_what_it_can_carry() {
    let tree = fixture();
    let buffer = ccdu::export::write(&tree, Format::NcduJson, "0.1.0", 0);
    assert!(buffer.starts_with(b"[1,2,"), "{}", String::from_utf8_lossy(&buffer[..20]));
    assert!(matches!(read(&buffer), Ok(Input::Json)));

    let back = load(&String::from_utf8(buffer).unwrap()).unwrap();
    let (before, after) = (contents(&tree), contents(&back));
    assert_eq!(before.keys().collect::<Vec<_>>(), after.keys().collect::<Vec<_>>());
    for (path, (apparent, disk, _)) in &before {
        let (got_apparent, got_disk, _) = after[path];
        assert_eq!((got_apparent, got_disk), (*apparent, *disk), "sizes differ for {path}");
    }
}

#[test]
fn rubbish_is_rejected_rather_than_guessed_at() {
    for junk in [&b"hello"[..], &b"\x00\x01\x02"[..], &b""[..]] {
        assert!(read(junk).is_err(), "accepted {junk:?}");
    }
}

#[test]
fn flags_survive_the_native_format() {
    let tree = fixture();
    let back = read_tree(&native::write(&tree)).ok().unwrap();
    let has = |tree: &Tree, flag: u16| contents(tree).values().any(|(_, _, f)| f & flag != 0);
    assert!(has(&tree, flags::SYMLINK) && has(&back, flags::SYMLINK));
    assert!(has(&tree, flags::HARDLINK_DUP) && has(&back, flags::HARDLINK_DUP));
}

#[test]
fn formats_are_named() {
    assert_eq!(Format::Native.name(), "ccdu");
    assert_eq!(Format::NcduJson.name(), "ncdu-json");
}

#[test]
fn a_tree_survives_the_round_trip_unchanged() {
    let tree = fixture();
    let back = read_tree(&native::write(&tree)).ok().unwrap();

    assert_eq!(contents(&back), contents(&tree));
    assert_eq!(back.len(), tree.len());
    assert_eq!(back.root_path(), tree.root_path());
    assert_eq!(back.node(ROOT).items, tree.node(ROOT).items);
    assert_eq!(back.raw_nodes(), tree.raw_nodes());
}

#[test]
fn a_cancelled_scan_stays_marked_as_partial() {
    let mut tree = fixture();
    tree.cancelled = true;
    tree.errors = 7;

    let back = read_tree(&native::write(&tree)).ok().unwrap();
    assert!(back.cancelled, "a partial scan must not come back looking complete");
    assert_eq!(back.errors, 7);
}

#[test]
fn a_non_utf8_name_survives() {
    let mut tree = Tree::new(b"/data".to_vec(), &Meta::unknown(Kind::Dir));
    let meta =
        Meta { kind: Kind::File, apparent: 10, disk: 4096, mtime: 5, dev: 1, ino: 2, nlink: 1 };
    tree.push_child(ROOT, b"broken\xffname", &meta, 0, true);
    tree.finish();

    let back = read_tree(&native::write(&tree)).ok().unwrap();
    let child = back.children(ROOT).next().unwrap();
    assert_eq!(back.name(child), b"broken\xffname");
}

#[test]
fn a_newer_version_is_refused() {
    let tree = fixture();
    let mut bytes = native::write(&tree);
    bytes[4..6].copy_from_slice(&(native::VERSION + 1).to_le_bytes());

    let err = said(read_tree(&bytes));
    assert!(err.contains("newer than this build"), "{err}");
}

#[test]
fn a_truncated_file_is_an_error_not_a_panic() {
    let tree = fixture();
    let bytes = native::write(&tree);
    for cut in [1, 8, 20, bytes.len() / 2, bytes.len() - 1] {
        assert!(read_tree(&bytes[..cut]).is_err(), "accepted a {cut}-byte file");
    }
}

#[test]
fn an_out_of_range_index_is_rejected() {
    let tree = fixture();
    let mut bytes = native::write(&tree);

    // The last node's parent, pointed somewhere that does not exist.
    let last = bytes.len() - 48;
    bytes[last + 24..last + 28].copy_from_slice(&9_999_999u32.to_le_bytes());

    let err = said(read_tree(&bytes));
    assert!(err.contains("past the end"), "{err}");
}

#[test]
fn a_name_reaching_past_the_blob_is_rejected() {
    let tree = fixture();
    let mut bytes = native::write(&tree);
    let last = bytes.len() - 48;
    bytes[last + 40..last + 44].copy_from_slice(&u32::MAX.to_le_bytes());

    let err = said(read_tree(&bytes));
    assert!(err.contains("names bytes"), "{err}");
}

#[test]
fn an_absurd_header_does_not_try_to_allocate_it() {
    let tree = fixture();
    let mut bytes = native::write(&tree);
    let count_at = bytes.len() - 48 * tree.len() - 8 - tree.raw_names().len();

    // Claim more nodes than could exist. This must fail on the claim, not on the allocation.
    bytes[count_at..count_at + 8].copy_from_slice(&u64::MAX.to_le_bytes());
    let err = said(read_tree(&bytes));
    assert!(err.contains("node count claims"), "{err}");
}

#[test]
fn the_record_size_matches_the_node_size() {
    // If `Node` grows, the format must be versioned rather than silently reinterpreted.
    assert_eq!(std::mem::size_of::<Node>(), 48);
}

// ---------------------------------------------------------------------------------------------
// ncdu's format. Turning JSON text into a dump is the reader's business; what a dump means is not.

fn item_of(v: &Value) -> Option<Item> {
    let o = v.as_object()?;
    let number = |k: &str| o.get(k).and_then(Value::as_u64).unwrap_or(0);
    let truth = |k: &str| o.get(k).and_then(Value::as_bool).unwrap_or(false);
    Some(Item {
        name: o.get("name")?.as_str()?.to_string(),
        asize: number("asize"),
        dsize: number("dsize"),
        dev: number("dev"),
        ino: number("ino"),
        hlnkc: truth("hlnkc"),
        notreg: truth("notreg"),
        mtime: o.get("mtime").and_then(Value::as_i64).unwrap_or(0),
        read_error: truth("read_error"),
        excluded: o.get("excluded").and_then(Value::as_str).map(str::to_string),
    })
}

fn entry_of(v: &Value) -> Option<Entry> {
    match v.as_array() {
        Some(items) => Some(Entry::Dir(items.iter().map(entry_of).collect::<Option<Vec<_>>>()?)),
        None => Some(Entry::Item(item_of(v)?)),
    }
}

fn load(text: &str) -> Result<Tree, ReadError> {
    let bad = || ReadError::Invalid("not a dump".to_string());
    let v: Value = serde_json::from_str(text).map_err(|_| bad())?;
    let parts = v.as_array().ok_or_else(bad)?;
    if parts.len() != 4 {
        return Err(bad());
    }
    let major = parts[0].as_u64().ok_or_else(bad)? as u32;
    let root = entry_of(&parts[3]).ok_or_else(bad)?;
    ncdu::read(&Dump { major, root })
}

fn encoded(tree: &Tree) -> String {
    ncdu::write(tree, "0.1.0", 1_700_000_000)
}

#[test]
fn sizes_survive_the_round_trip() {
    let tree = fixture();
    let back = load(&encoded(&tree)).unwrap();

    assert_eq!(back.node(ROOT).disk, tree.node(ROOT).disk, "root totals differ");
    assert_eq!(back.node(ROOT).apparent, tree.node(ROOT).apparent);
    assert_eq!(back.node(ROOT).items, tree.node(ROOT).items);

    for (path, (apparent, disk, _)) in contents(&tree) {
        let got = contents(&back);
        let (a, d, _) = got[&path];
        assert_eq!((a, d), (apparent, disk), "sizes differ for {path}");
    }
}

#[test]
fn a_real_ncdu_dump_is_understood() {
    // The shape ncdu 1.x actually writes, including fields we ignore.
    let dump = r#"[1,2,{"progname":"ncdu","progver":"1.16","timestamp":1690000000},
    [{"name":"/data","asize":4096,"dsize":4096,"dev":2049,"ino":2},
     {"name":"notes.txt","asize":900,"dsize":4096,"ino":3},
     [{"name":"logs","asize":4096,"dsize":4096,"ino":4},
      {"name":"a.log","asize":50000,"dsize":53248,"ino":5},
      {"name":"broken","asize":0,"dsize":0,"ino":6,"read_error":true}
     ]
    ]]"#;

    let tree = load(dump).unwrap();
    assert_eq!(tree.root_path(), b"/data");
    assert_eq!(tree.node(ROOT).items, 4);
    assert_eq!(tree.node(ROOT).disk, 4096 + 4096 + 4096 + 53248);
    assert_eq!(tree.errors, 1);

    let found = contents(&tree);
    assert_eq!(found["logs/a.log"].1, 53248);
    assert!(found["logs/broken"].2 & flags::ERR != 0);
}

#[test]
fn hardlinks_in_a_dump_are_counted_once() {
    let dump = r#"[1,2,{"progname":"ncdu"},
    [{"name":"/data","dsize":4096,"dev":1,"ino":2},
     {"name":"first","asize":5000,"dsize":8192,"dev":1,"ino":99,"hlnkc":true},
     {"name":"second","asize":5000,"dsize":8192,"dev":1,"ino":99,"hlnkc":true}
    ]]"#;

    let tree = load(dump).unwrap();
    // One inode, counted once, however many names point at it.
    assert_eq!(tree.node(ROOT).disk, 4096 + 8192);
    assert_eq!(tree.node(ROOT).items, 2);
}

#[test]
fn a_dump_without_inode_numbers_still_loads() {
    let dump = r#"[1,2,{},
    [{"name":"/data"},
     {"name":"a","asize":10,"dsize":4096,"hlnkc":true},
     {"name":"b","asize":10,"dsize":4096,"hlnkc":true}
    ]]"#;

    // Nothing to deduplicate by, so both count; the total errs high rather than low.
    let tree = load(dump).unwrap();
    assert_eq!(tree.node(ROOT).disk, 8192);
}

#[test]
fn totals_agree_after_a_round_trip_through_hardlinks() {
    let tree = fixture();
    let back = load(&encoded(&tree)).unwrap();
    // The fixture has a hardlink pair. Its total must survive exactly: not doubled by a reader
    // that counts both names, nor short by one that discards both.
    assert_eq!(back.node(ROOT).disk, tree.node(ROOT).disk);
    assert_eq!(back.node(ROOT).apparent, tree.node(ROOT).apparent);
}

#[test]
fn symlinks_come_back_marked_as_irregular() {
    let tree = fixture();
    let text = encoded(&tree);
    assert!(text.contains("\"notreg\":true"), "{text}");

    let back = load(&text).unwrap();
    assert!(contents(&back).values().any(|(_, _, f)| f & flags::OTHER != 0));
}

#[test]
fn malformed_dumps_are_rejected() {
    for junk in [
        "[]",
        "[1,2]",
        r#"[9,9,{},[{"name":"/x"}]]"#,
        r#"[1,2,{},{"name":"/x"}]"#,
        r#"[1,2,{},[]]"#,
        "not json at all",
    ] {
        assert!(load(junk).is_err(), "accepted {junk:?}");
    }
}

fn nested(depth: usize) -> Dump {
    let mut entry = Entry::Item(Item {
        name: "leaf".to_string(),
        dsize: 4096,
        ..Item::default()
    });
    for i in 0..depth {
        let info = Entry::Item(Item { name: format!("d{i}"), ..Item::default() });
        entry = Entry::Dir(vec![info, entry]);
    }
    Dump { major: 1, root: entry }
}

#[test]
fn deep_nesting_is_refused_rather_than_recursed() {
    // Either it loads correctly or it is refused; what it must not do is crash.
    match ncdu::read(&nested(200)) {
        Ok(tree) => assert!(tree.len() > 1),
        Err(e) => assert!(!e.message().is_empty()),
    }
    assert!(ncdu::read(&nested(ncdu::MAX_DEPTH + 10)).is_err());
}

#[test]
fn the_written_header_names_ccdu() {
    let tree = fixture();
    let text = encoded(&tree);
    assert!(text.starts_with("[1,2,{\"progname\":\"ccdu\""), "{}", &text[..40]);
    assert!(text.ends_with("]\n"));
}

#[test]
fn an_entry_is_written_with_its_own_size() {
    let tree = fixture();
    let text = encoded(&tree);
    // The directory's total is 311 296 and 303 106; itself it takes a block.
    assert!(
        text.contains(
            "{\"name\":\"sub\",\"asize\":4096,\"dsize\":4096,\"mtime\":1700000000}"
        ),
        "{text}"
    );
    // A name is quoted the way JSON wants it.
    let mut odd = Tree::new(b"/d".to_vec(), &meta(Kind::Dir, 0, 0));
    odd.push_child(ROOT, b"a\"b\n", &meta(Kind::File, 1, 1), flags::ERR, true);
    odd.finish();
    assert!(encoded(&odd).contains("{\"name\":\"a\\\"b\\n\",\"asize\":1"), "{}", encoded(&odd));
    assert!(encoded(&odd).contains("\"read_error\":true"));
}

#[test]
fn a_name_is_escaped_the_way_json_wants_it() {
    let written = |name: &[u8]| {
        let mut tree = Tree::new(b"/d".to_vec(), &meta(Kind::Dir, 0, 0));
        tree.push_child(ROOT, name, &meta(Kind::File, 1, 1), 0, true);
        tree.finish();
        encoded(&tree)
    };
    for (name, quoted) in [
        ("a\\b", r#""a\\b""#),
        ("\u{8}\t\n\u{c}\r", r#""\b\t\n\f\r""#),
        ("\u{0}\u{1f}\u{1b}", r#""\u0000\u001f\u001b""#),
        // Nothing else is touched.
        ("/é€😀'\u{7f}", "\"/é€😀'\u{7f}\""),
    ] {
        let text = written(name.as_bytes());
        assert!(text.contains(&format!("{{\"name\":{quoted},")), "{text}");
        assert!(serde_json::from_str::<Value>(&text).is_ok());
    }
}

#[test]
fn a_dump_that_overflows_is_refused() {
    let big = |name: &str| {
        Entry::Item(Item { name: name.to_string(), dsize: u64::MAX, ..Item::default() })
    };
    let root = Entry::Item(Item { name: "/d".to_string(), ..Item::default() });
    let dump = Dump { major: 1, root: Entry::Dir(vec![root, big("a"), big("b")]) };
    assert!(ncdu::read(&dump).is_err());
}
