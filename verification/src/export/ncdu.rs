//! ncdu's JSON export format.
//!
//! `[major, minor, metadata, tree]`, where the tree is an array whose first element describes the
//! directory itself and whose remaining elements are its entries: a nested array for each
//! subdirectory, an object for everything else.
//!
//! The important difference from the tree here: ncdu records each entry's own size, while nodes
//! carry subtree totals. Writing subtracts the children back out; reading lets the tree accumulate
//! them again.

pub mod mirror;
pub mod told;
pub mod written;

use std::collections::HashSet;

use vstd::prelude::*;

use crate::export::ReadError;
use crate::inode::{inode_key, key_of};
use crate::model::grow::{
    apparent_weights, disk_weights, errors_in, grown, lemma_grown_none, root_model, takes,
    with_added, Added, Growth,
};
use crate::model::own::{chain_weight, lemma_parts};
use crate::model::{
    accounted, flags, is_kid, law_order_keeps_totals, linked, same_but_links, turned, weight_below,
    Kind, Meta, Node, NodeId, Tree, ROOT,
};
use crate::plan::path_repr::hex_char;
use crate::text::{cat2, cat3, copy_bytes, dec, decimal, show, shown};

verus! {

broadcast use vstd::std_specs::hash::group_hash_axioms;

pub const MAJOR: u32 = 1;

/// Deepest nesting accepted from a dump. Guards the recursive build against a hostile file.
pub const MAX_DEPTH: usize = 1024;

// ---------------------------------------------------------------------------------------------
// Writing

/// A character as JSON writes it inside a string.
pub open spec fn json_char(c: char) -> Seq<char> {
    if c == '"' || c == '\\' {
        seq!['\\', c]
    } else if c == '\u{8}' {
        seq!['\\', 'b']
    } else if c == '\u{9}' {
        seq!['\\', 't']
    } else if c == '\u{a}' {
        seq!['\\', 'n']
    } else if c == '\u{c}' {
        seq!['\\', 'f']
    } else if c == '\u{d}' {
        seq!['\\', 'r']
    } else if (c as u32) < 32 {
        seq!['\\', 'u', '0', '0', hex_char(c as nat / 16), hex_char(c as nat % 16)]
    } else {
        seq![c]
    }
}

pub open spec fn json_chars(s: Seq<char>) -> Seq<char>
    decreases s.len(),
{
    if s.len() == 0 {
        Seq::empty()
    } else {
        json_chars(s.drop_last()) + json_char(s.last())
    }
}

/// A string as JSON writes it, quotes and all.
pub open spec fn json_text(s: Seq<char>) -> Seq<char> {
    seq!['"'] + json_chars(s) + seq!['"']
}

/// `serde_json::to_string` on a string. It cannot fail there; the contract claims that the text
/// comes out between quotes, with quotes, backslashes and control characters escaped and every
/// other character as it is.
#[verifier::external_body]
fn json_string(s: &str) -> (r: String)
    ensures
        r@ == json_text(s@),
{
    serde_json::to_string(s).unwrap_or_default()
}

pub open spec fn signed_text(n: int) -> Seq<char> {
    if n < 0 {
        "-"@ + dec((-n) as nat)
    } else {
        dec(n as nat)
    }
}

/// What the first `n` children of some chain add up to.
pub open spec fn apparent_of(nodes: Seq<Node>, chain: Seq<NodeId>, n: int) -> nat
    decreases n,
{
    if n <= 0 {
        0
    } else {
        apparent_of(nodes, chain, n - 1) + nodes[chain[n - 1] as int].apparent as nat
    }
}

pub open spec fn disk_of(nodes: Seq<Node>, chain: Seq<NodeId>, n: int) -> nat
    decreases n,
{
    if n <= 0 {
        0
    } else {
        disk_of(nodes, chain, n - 1) + nodes[chain[n - 1] as int].disk as nat
    }
}

/// What is left of a total once the children are taken out.
pub open spec fn own(total: u64, children: nat) -> nat {
    if children >= total {
        0
    } else {
        (total - children) as nat
    }
}

pub open spec fn text_if(holds: bool, text: Seq<char>) -> Seq<char> {
    if holds {
        text
    } else {
        Seq::empty()
    }
}

/// One entry.
///
/// There is no `hlnkc`. Hardlinks are resolved already, the duplicates carry no size, and the
/// marker is only useful to a reader alongside inode numbers, which a node has no room for.
pub open spec fn item_text(t: Tree, id: NodeId, name: Seq<char>) -> Seq<char> {
    let node = t.nodes()[id as int];
    let chain = t.kids()[id as int];
    "{\"name\":"@ + json_text(name) + ",\"asize\":"@ + dec(
        own(node.apparent, apparent_of(t.nodes(), chain, chain.len() as int)),
    ) + ",\"dsize\":"@ + dec(own(node.disk, disk_of(t.nodes(), chain, chain.len() as int)))
        + ",\"mtime\":"@ + signed_text(node.mtime as int) + text_if(
        node.carries(flags::SYMLINK) || node.carries(flags::OTHER),
        ",\"notreg\":true"@,
    ) + text_if(node.carries(flags::ERR), ",\"read_error\":true"@) + text_if(
        node.carries(flags::EXCLUDED),
        ",\"excluded\":\"pattern\""@,
    ) + text_if(node.carries(flags::OTHER_FS), ",\"excluded\":\"otherfs\""@) + "}"@
}

/// A directory: itself, then its entries.
pub open spec fn dir_text(t: Tree, id: NodeId, name: Seq<char>) -> Seq<char>
    decreases t.nodes().len() - id, t.kids()[id as int].len() + 1,
{
    "["@ + item_text(t, id, name) + entries_text(t, id, t.kids()[id as int].len() as int) + "]"@
}

/// The first `n` entries of a directory.
pub open spec fn entries_text(t: Tree, id: NodeId, n: int) -> Seq<char>
    decreases t.nodes().len() - id, n,
{
    if n <= 0 {
        Seq::empty()
    } else {
        let child = t.kids()[id as int][n - 1];
        let name = shown(t.spec_name(child));
        entries_text(t, id, n - 1) + ",\n"@ + (if child <= id || child >= t.nodes().len() {
            Seq::empty()
        } else if t.nodes()[child as int].carries(flags::DIR) {
            dir_text(t, child, name)
        } else {
            item_text(t, child, name)
        })
    }
}

/// A whole dump.
pub open spec fn dump_text(t: Tree, version: Seq<char>, timestamp: nat) -> Seq<char> {
    "[1,2,{\"progname\":\"ccdu\",\"progver\":\""@ + version + "\",\"timestamp\":"@ + dec(timestamp)
        + "},"@ + dir_text(t, ROOT, shown(t.root())) + "]\n"@
}

fn signed_decimal(n: i64) -> (r: String)
    ensures
        r@ == signed_text(n as int),
{
    if n < 0 {
        let up: u64 = (-(n + 1)) as u64 + 1;
        let digits = decimal(up);
        cat2("-", digits.as_str())
    } else {
        decimal(n as u64)
    }
}

fn own_size(total: u64, children: u128) -> (r: u64)
    ensures
        r == own(total, children as nat),
{
    if children >= total as u128 {
        0
    } else {
        total - children as u64
    }
}

/// What the children of a node add up to.
fn children_totals(tree: &Tree, id: NodeId) -> (r: (u128, u128))
    requires
        tree.wf(),
        tree.holds(id),
    ensures
        r.0 == apparent_of(
            tree.nodes(),
            tree.kids()[id as int],
            tree.kids()[id as int].len() as int,
        ),
        r.1 == disk_of(
            tree.nodes(),
            tree.kids()[id as int],
            tree.kids()[id as int].len() as int,
        ),
{
    let kids = tree.child_ids(id);
    let mut apparent: u128 = 0;
    let mut disk: u128 = 0;
    let mut i: usize = 0;
    while i < kids.len()
        invariant
            i <= kids@.len(),
            tree.wf(),
            tree.holds(id),
            kids@ == tree.kids()[id as int],
            apparent == apparent_of(tree.nodes(), kids@, i as int),
            disk == disk_of(tree.nodes(), kids@, i as int),
            apparent <= i * 0xffff_ffff_ffff_ffff,
            disk <= i * 0xffff_ffff_ffff_ffff,
        decreases kids.len() - i,
    {
        proof {
            assert(is_kid(tree.nodes(), tree.kids()[id as int][i as int], id as int));
            assert(kids.len() <= usize::MAX);
        }
        let child = tree.node(kids[i]);
        apparent = apparent + child.apparent as u128;
        disk = disk + child.disk as u128;
        i += 1;
    }
    (apparent, disk)
}

fn write_when(out: &mut String, holds: bool, text: &str)
    ensures
        final(out)@ == old(out)@ + text_if(holds, text@),
{
    if holds {
        out.append(text);
    }
    proof {
        assert(out@ =~= old(out)@ + text_if(holds, text@));
    }
}

fn write_item(tree: &Tree, id: NodeId, name: &str, out: &mut String)
    requires
        tree.wf(),
        tree.holds(id),
    ensures
        final(out)@ == old(out)@ + item_text(*tree, id, name@),
{
    let ghost start = out@;
    let node = tree.node(id);
    let (apparent, disk): (u128, u128) = children_totals(tree, id);
    let quoted = json_string(name);
    let a = decimal(own_size(node.apparent, apparent));
    let d = decimal(own_size(node.disk, disk));
    let m = signed_decimal(node.mtime);
    let mut item = cat3("{\"name\":", quoted.as_str(), ",\"asize\":");
    item.append(a.as_str());
    item.append(",\"dsize\":");
    item.append(d.as_str());
    item.append(",\"mtime\":");
    item.append(m.as_str());
    write_when(
        &mut item,
        node.has(flags::SYMLINK) || node.has(flags::OTHER),
        ",\"notreg\":true",
    );
    write_when(&mut item, node.has(flags::ERR), ",\"read_error\":true");
    write_when(&mut item, node.has(flags::EXCLUDED), ",\"excluded\":\"pattern\"");
    write_when(&mut item, node.has(flags::OTHER_FS), ",\"excluded\":\"otherfs\"");
    item.append("}");
    out.append(item.as_str());
}

fn write_dir(tree: &Tree, id: NodeId, name: &str, out: &mut String)
    requires
        tree.wf(),
        tree.holds(id),
    ensures
        final(out)@ == old(out)@ + dir_text(*tree, id, name@),
    decreases tree.nodes().len() - id,
{
    let ghost start = out@;
    out.append("[");
    write_item(tree, id, name, out);
    let ghost lead = out@;
    let kids = tree.child_ids(id);
    let mut i: usize = 0;
    proof {
        assert(out@ =~= lead + entries_text(*tree, id, 0));
    }
    while i < kids.len()
        invariant
            i <= kids@.len(),
            tree.wf(),
            tree.holds(id),
            kids@ == tree.kids()[id as int],
            out@ == lead + entries_text(*tree, id, i as int),
        decreases kids.len() - i,
    {
        let child: NodeId = kids[i];
        proof {
            assert(is_kid(tree.nodes(), tree.kids()[id as int][i as int], id as int));
            assert(tree.nodes()[child as int].parent < child);
        }
        let ghost here = out@;
        out.append(",\n");
        let child_name = show(tree.name(child));
        if tree.node(child).is_dir() {
            write_dir(tree, child, child_name.as_str(), out);
        } else {
            write_item(tree, child, child_name.as_str(), out);
        }
        proof {
            assert(out@ =~= lead + entries_text(*tree, id, i + 1));
        }
        i += 1;
    }
    out.append("]");
    proof {
        assert(out@ =~= start + dir_text(*tree, id, name@));
    }
}

/// A tree as a dump, written by `version` of the program at `timestamp`.
pub fn write(tree: &Tree, version: &str, timestamp: u64) -> (r: String)
    requires
        tree.wf(),
    ensures
        r@ == dump_text(*tree, version@, timestamp as nat),
{
    let mut out = cat3(
        "[1,2,{\"progname\":\"ccdu\",\"progver\":\"",
        version,
        "\",\"timestamp\":",
    );
    let ts = decimal(timestamp);
    out.append(ts.as_str());
    out.append("},");
    let root = show(tree.root_path());
    write_dir(tree, ROOT, root.as_str(), &mut out);
    out.append("]\n");
    out
}

proof fn lemma_children_sum(
    nodes: Seq<Node>,
    kids: Seq<Seq<NodeId>>,
    wa: Seq<nat>,
    wd: Seq<nat>,
    i: int,
    n: int,
)
    requires
        linked(nodes, kids),
        accounted(nodes, wa, wd),
        0 <= i < nodes.len(),
        0 <= n <= kids[i].len(),
    ensures
        apparent_of(nodes, kids[i], n) == chain_weight(
            nodes,
            wa,
            kids[i],
            n,
            nodes.len() as int,
        ),
        disk_of(nodes, kids[i], n) == chain_weight(nodes, wd, kids[i], n, nodes.len() as int),
    decreases n,
{
    if n > 0 {
        lemma_children_sum(nodes, kids, wa, wd, i, n - 1);
        assert(is_kid(nodes, kids[i][n - 1], i));
        let c = kids[i][n - 1] as int;
        assert(nodes[c].apparent == weight_below(nodes, wa, c, nodes.len() as int));
    }
}

/// The sizes written for an entry are the entry's own: where the totals of a tree add up, taking
/// the children back out leaves exactly what each node weighs by itself. A reader that adds the
/// written sizes up again arrives at the same totals.
pub proof fn law_own_sizes_are_written(t: Tree, wa: Seq<nat>, wd: Seq<nat>, id: NodeId)
    requires
        t.wf(),
        t.holds(id),
        accounted(t.nodes(), wa, wd),
    ensures
        own(
            t.nodes()[id as int].apparent,
            apparent_of(t.nodes(), t.kids()[id as int], t.kids()[id as int].len() as int),
        ) == wa[id as int],
        own(
            t.nodes()[id as int].disk,
            disk_of(t.nodes(), t.kids()[id as int], t.kids()[id as int].len() as int),
        ) == wd[id as int],
{
    let (nodes, kids, i) = (t.nodes(), t.kids(), id as int);
    lemma_children_sum(nodes, kids, wa, wd, i, kids[i].len() as int);
    lemma_parts(nodes, kids, wa, i, nodes.len() as int);
    lemma_parts(nodes, kids, wd, i, nodes.len() as int);
    assert(nodes[i].apparent == weight_below(nodes, wa, i, nodes.len() as int));
}

// ---------------------------------------------------------------------------------------------
// Reading

/// One entry: an object, or an array meaning a directory and its contents.
#[derive(Debug)]
pub enum Entry {
    Item(Item),
    Dir(Vec<Entry>),
}

#[derive(Clone, Debug, PartialEq, Eq)]
pub struct Item {
    pub name: String,
    pub asize: u64,
    pub dsize: u64,
    pub dev: u64,
    pub ino: u64,
    pub hlnkc: bool,
    pub notreg: bool,
    pub mtime: i64,
    pub read_error: bool,
    pub excluded: Option<String>,
}

/// A dump, as far as it matters. The metadata varies between versions and holds nothing needed.
#[derive(Debug)]
pub struct Dump {
    pub major: u32,
    pub root: Entry,
}

impl Default for Item {
    fn default() -> (r: Self)
        ensures
            r.name@.len() == 0,
            r.asize == 0,
            r.dsize == 0,
            r.dev == 0,
            r.ino == 0,
            !r.hlnkc,
            !r.notreg,
            r.mtime == 0,
            !r.read_error,
            r.excluded is None,
    {
        Item {
            name: String::new(),
            asize: 0,
            dsize: 0,
            dev: 0,
            ino: 0,
            hlnkc: false,
            notreg: false,
            mtime: 0,
            read_error: false,
            excluded: None,
        }
    }
}

impl Item {
    pub open spec fn spec_meta(&self, kind: Kind) -> Meta {
        Meta {
            kind,
            apparent: self.asize,
            disk: self.dsize,
            mtime: self.mtime,
            dev: self.dev,
            ino: self.ino,
            nlink: if self.hlnkc {
                2
            } else {
                1
            },
        }
    }

    pub fn meta(&self, kind: Kind) -> (r: Meta)
        ensures
            r == self.spec_meta(kind),
    {
        Meta {
            kind,
            apparent: self.asize,
            disk: self.dsize,
            mtime: self.mtime,
            dev: self.dev,
            ino: self.ino,
            nlink: if self.hlnkc {
                2
            } else {
                1
            },
        }
    }

    pub open spec fn spec_flags(&self) -> u16 {
        (if self.read_error {
            flags::ERR
        } else {
            0
        }) | (match self.excluded {
            Some(why) => if why@ == "otherfs"@ {
                flags::OTHER_FS
            } else {
                flags::EXCLUDED
            },
            None => 0,
        })
    }

    pub fn extra_flags(&self) -> (r: u16)
        ensures
            r == self.spec_flags(),
    {
        let a: u16 = if self.read_error {
            flags::ERR
        } else {
            0
        };
        let b: u16 = match &self.excluded {
            Some(why) => if *why == String::from_str("otherfs") {
                flags::OTHER_FS
            } else {
                flags::EXCLUDED
            },
            None => 0,
        };
        a | b
    }
}

/// One node to add to a tree.
#[derive(Debug)]
pub struct Push {
    pub parent: usize,
    pub name: Vec<u8>,
    pub meta: Meta,
    pub flags: u16,
    pub counted: bool,
    pub error: bool,
}

impl View for Push {
    type V = Added;

    open spec fn view(&self) -> Added {
        Added {
            parent: self.parent as int,
            name: self.name@,
            meta: self.meta,
            flags: self.flags,
            counted: self.counted,
            error: self.error,
        }
    }
}

pub open spec fn added(pushes: Seq<Push>) -> Seq<Added> {
    pushes.map_values(|p: Push| p@)
}

/// What a dump has come to so far: the nodes to add, in order, and the inodes that have been
/// counted.
pub struct Flat {
    pub list: Seq<Added>,
    pub seen: Set<u128>,
}

/// Whether an item is a further name for an inode that has been counted. A dump without inode
/// numbers cannot be deduplicated, so every copy counts and the total errs high rather than low.
pub open spec fn is_repeat(item: Item, seen: Set<u128>) -> bool {
    item.hlnkc && item.ino != 0 && seen.contains(key_of(item.dev, item.ino))
}

pub open spec fn item_flags(item: Item, seen: Set<u128>) -> u16 {
    if !item.hlnkc {
        item.spec_flags()
    } else if is_repeat(item, seen) {
        item.spec_flags() | flags::HARDLINK_DUP
    } else {
        item.spec_flags() | flags::HARDLINK
    }
}

pub open spec fn with_item(st: Flat, parent: int, item: Item) -> Flat {
    Flat {
        list: st.list.push(
            Added {
                parent,
                name: vstd::utf8::encode_utf8(item.name@),
                meta: item.spec_meta(
                    if item.notreg {
                        Kind::Other
                    } else {
                        Kind::File
                    },
                ),
                flags: item_flags(item, st.seen),
                counted: !is_repeat(item, st.seen),
                error: item.read_error,
            },
        ),
        seen: if item.hlnkc && item.ino != 0 {
            st.seen.insert(key_of(item.dev, item.ino))
        } else {
            st.seen
        },
    }
}

pub open spec fn with_dir(st: Flat, parent: int, info: Item) -> Flat {
    Flat {
        list: st.list.push(
            Added {
                parent,
                name: vstd::utf8::encode_utf8(info.name@),
                meta: info.spec_meta(Kind::Dir),
                flags: info.spec_flags(),
                counted: true,
                error: info.read_error,
            },
        ),
        seen: st.seen,
    }
}

pub open spec fn deep_text() -> Seq<char> {
    "dump nests deeper than 1024 levels"@
}

/// The entries of a directory, added below `parent`.
pub open spec fn flat_dir(entries: Seq<Entry>, parent: int, st: Flat, depth: int) -> Result<
    Flat,
    Seq<char>,
>
    decreases MAX_DEPTH + 1 - depth, entries.len() + 1,
{
    if depth > MAX_DEPTH {
        Err(deep_text())
    } else {
        flat_from(entries, 0, parent, st, depth)
    }
}

/// The entries from `i` on, added below `parent`.
pub open spec fn flat_from(
    entries: Seq<Entry>,
    i: int,
    parent: int,
    st: Flat,
    depth: int,
) -> Result<Flat, Seq<char>>
    decreases MAX_DEPTH + 1 - depth, entries.len() - i,
{
    if i < 0 || i >= entries.len() || depth > MAX_DEPTH {
        Ok(st)
    } else {
        match entries[i] {
            Entry::Item(item) => flat_from(
                entries,
                i + 1,
                parent,
                with_item(st, parent, item),
                depth,
            ),
            Entry::Dir(inner) => if inner@.len() > 0 && inner@[0] is Item {
                let id = 1 + st.list.len() as int;
                let st1 = with_dir(st, parent, inner@[0]->Item_0);
                match flat_dir(inner@.skip(1), id, st1, depth + 1) {
                    Err(e) => Err(e),
                    Ok(st2) => flat_from(entries, i + 1, parent, st2, depth),
                }
            } else {
                Err("a directory in the dump has no directory record"@)
            },
        }
    }
}

/// What a dump is made of: the record of its root, and the nodes below it.
pub open spec fn dump_parts(dump: Dump) -> Result<(Item, Seq<Added>), Seq<char>> {
    if dump.major != MAJOR {
        Err("ncdu dump format v"@ + dec(dump.major as nat) + " is not supported"@)
    } else {
        match dump.root {
            Entry::Item(_) => Err("the dump's root is not a directory"@),
            Entry::Dir(entries) => if entries@.len() > 0 && entries@[0] is Item {
                match flat_dir(
                    entries@.skip(1),
                    0,
                    Flat { list: Seq::empty(), seen: Set::empty() },
                    1,
                ) {
                    Ok(st) => Ok((entries@[0]->Item_0, st.list)),
                    Err(e) => Err(e),
                }
            } else {
                Err("the dump's root has no directory record"@)
            },
        }
    }
}

pub open spec fn crowded_text() -> Seq<char> {
    "the dump holds more than a tree can"@
}

/// Whether every node to add comes after its parent.
pub open spec fn parents_first(list: Seq<Added>) -> bool {
    forall|k: int| 0 <= k < list.len() ==> 0 <= (#[trigger] list[k]).parent <= k
}

fn note(pushes: &mut Vec<Push>, p: Push)
    ensures
        added(final(pushes)@) == added(old(pushes)@).push(p@),
{
    let ghost before = pushes@;
    pushes.push(p);
    proof {
        assert(added(pushes@) =~= added(before).push(p@));
    }
}

/// Lists the nodes that some entries stand for.
fn add_children(
    entries: &Vec<Entry>,
    from: usize,
    parent: usize,
    pushes: &mut Vec<Push>,
    seen: &mut HashSet<u128>,
    depth: usize,
) -> (r: Result<(), ReadError>)
    requires
        from <= entries@.len(),
        depth <= MAX_DEPTH + 1,
        parent <= old(pushes)@.len(),
        parents_first(added(old(pushes)@)),
    ensures
        ({
            let st = Flat { list: added(old(pushes)@), seen: old(seen)@ };
            let out = flat_dir(entries@.skip(from as int), parent as int, st, depth as int);
            match r {
                Ok(_) => {
                    &&& out == Ok::<Flat, Seq<char>>(
                        Flat { list: added(final(pushes)@), seen: final(seen)@ },
                    )
                    &&& old(pushes)@.len() <= final(pushes)@.len()
                    &&& parents_first(added(final(pushes)@))
                },
                Err(e) => out is Err && e.text() == out->Err_0,
            }
        }),
    decreases MAX_DEPTH + 1 - depth,
{
    if depth > MAX_DEPTH {
        return Err(ReadError::Invalid(String::from_str("dump nests deeper than 1024 levels")));
    }
    let ghost all = entries@.skip(from as int);
    let ghost st = Flat { list: added(pushes@), seen: seen@ };
    let ghost goal = flat_dir(all, parent as int, st, depth as int);
    let mut i: usize = from;
    while i < entries.len()
        invariant
            from <= i <= entries@.len(),
            depth <= MAX_DEPTH,
            all == entries@.skip(from as int),
            goal == flat_from(
                all,
                i - from,
                parent as int,
                Flat { list: added(pushes@), seen: seen@ },
                depth as int,
            ),
            parent <= old(pushes)@.len() <= pushes@.len(),
            parents_first(added(pushes@)),
            goal == flat_dir(
                all,
                parent as int,
                Flat { list: added(old(pushes)@), seen: old(seen)@ },
                depth as int,
            ),
        decreases entries.len() - i,
    {
        let ghost k = i - from;
        let ghost here = Flat { list: added(pushes@), seen: seen@ };
        proof {
            assert(all[k] == entries@[i as int]);
        }
        match &entries[i] {
            Entry::Item(item) => {
                let kind = if item.notreg {
                    Kind::Other
                } else {
                    Kind::File
                };
                let mut extra: u16 = item.extra_flags();
                let mut counted = true;
                if item.hlnkc {
                    if item.ino != 0 {
                        let key: u128 = inode_key(item.dev, item.ino);
                        let fresh = seen.insert(key);
                        if fresh {
                            extra = extra | flags::HARDLINK;
                        } else {
                            extra = extra | flags::HARDLINK_DUP;
                            counted = false;
                        }
                    } else {
                        extra = extra | flags::HARDLINK;
                    }
                }
                let p = Push {
                    parent,
                    name: copy_bytes(item.name.as_str().as_bytes()),
                    meta: item.meta(kind),
                    flags: extra,
                    counted,
                    error: item.read_error,
                };
                note(pushes, p);
                proof {
                    let next = with_item(here, parent as int, *item);
                    assert(added(pushes@) =~= next.list);
                    assert(seen@ =~= next.seen);
                    assert(parents_first(added(pushes@)));
                }
            },
            Entry::Dir(inner) => {
                if inner.len() == 0 {
                    return Err(
                        ReadError::Invalid(
                            String::from_str("a directory in the dump has no directory record"),
                        ),
                    );
                }
                match &inner[0] {
                    Entry::Dir(_) => {
                        return Err(
                            ReadError::Invalid(
                                String::from_str("a directory in the dump has no directory record"),
                            ),
                        );
                    },
                    Entry::Item(info) => {
                        let p = Push {
                            parent,
                            name: copy_bytes(info.name.as_str().as_bytes()),
                            meta: info.meta(Kind::Dir),
                            flags: info.extra_flags(),
                            counted: true,
                            error: info.read_error,
                        };
                        note(pushes, p);
                        let id: usize = pushes.len();
                        let ghost st1 = with_dir(here, parent as int, *info);
                        proof {
                            assert(added(pushes@) =~= st1.list);
                            assert(parents_first(added(pushes@)));
                        }
                        match add_children(inner, 1, id, pushes, seen, depth + 1) {
                            Ok(_) => {},
                            Err(e) => {
                                return Err(e);
                            },
                        }
                    },
                }
            },
        }
        i += 1;
    }
    Ok(())
}

/// What the error says when a dump cannot be read.
pub open spec fn is_dump_error(dump: Dump, e: Seq<char>) -> bool {
    match dump_parts(dump) {
        Err(why) => e == why,
        Ok((info, list)) => e == crowded_text() && grown(
            root_model(info.spec_meta(Kind::Dir)),
            list,
            list.len() as int,
        ) is None,
    }
}

/// Whether a tree is what a dump stands for: every record added below its parent in the order they
/// come, hardlinks counted once.
pub open spec fn is_dump_tree(dump: Dump, t: Tree) -> bool {
    dump_parts(dump) matches Ok((info, list)) && is_built(info, list, t)
}

/// Whether a tree is what comes of a root and the nodes below it.
pub open spec fn is_built(info: Item, list: Seq<Added>, t: Tree) -> bool {
    let m = grown(root_model(info.spec_meta(Kind::Dir)), list, list.len() as int);
    &&& m is Some
    &&& t.wf()
    &&& t.root() == vstd::utf8::encode_utf8(info.name@)
    &&& t.names() == m->0.names
    &&& t.kids() == turned(m->0.kids)
    &&& t.nodes().len() == m->0.nodes.len()
    &&& forall|k: int|
        0 <= k < t.nodes().len() ==> same_but_links(m->0.nodes[k], #[trigger] t.nodes()[k])
    &&& accounted(
        t.nodes(),
        apparent_weights(info.asize, list),
        disk_weights(info.dsize, list),
    )
    &&& t.missed() == errors_in(list, list.len() as int) + (if info.read_error {
        1int
    } else {
        0int
    })
    &&& !t.partial()
}

/// Adds one node after another, and puts siblings in the order they came.
fn build(info: &Item, pushes: &Vec<Push>) -> (r: Result<Tree, ReadError>)
    requires
        parents_first(added(pushes@)),
    ensures
        match r {
            Ok(t) => is_built(*info, added(pushes@), t),
            Err(e) => e.text() == crowded_text() && grown(
                root_model(info.spec_meta(Kind::Dir)),
                added(pushes@),
                pushes@.len() as int,
            ) is None,
        },
{
    let ghost list = added(pushes@);
    let root = copy_bytes(info.name.as_str().as_bytes());
    let meta = info.meta(Kind::Dir);
    let mut growth = Growth::new(root, &meta);
    let mut errors: u64 = if info.read_error {
        1
    } else {
        0
    };
    let ghost start = root_model(meta);
    let mut i: usize = 0;
    proof {
        assert(growth.wa@ =~= apparent_weights(info.asize, list.take(0)));
        assert(growth.wd@ =~= disk_weights(info.dsize, list.take(0)));
    }
    while i < pushes.len()
        invariant
            i <= pushes@.len(),
            list == added(pushes@),
            parents_first(list),
            growth.wf(),
            growth.wa@ == apparent_weights(info.asize, list.take(i as int)),
            growth.wd@ == disk_weights(info.dsize, list.take(i as int)),
            growth.tree.nodes().len() == i + 1,
            grown(start, list, i as int) == Some(growth.model()),
            growth.tree.root() == vstd::utf8::encode_utf8(info.name@),
            growth.tree.missed() == 0,
            !growth.tree.partial(),
            errors == errors_in(list, i as int) + (if info.read_error {
                1int
            } else {
                0int
            }),
            errors <= i + 1,
            i < 0x1_0000_0000,
            start == root_model(info.spec_meta(Kind::Dir)),
        decreases pushes.len() - i,
    {
        let p = &pushes[i];
        let ghost a = list[i as int];
        proof {
            assert(a == p@);
            assert(0 <= list[i as int].parent <= i);
        }
        if !growth.takes(p.name.as_slice(), &p.meta, p.counted) {
            proof {
                assert(!takes(growth.model(), a));
                assert(grown(start, list, i + 1) is None);
                lemma_grown_none(start, list, list.len() as int, i + 1);
            }
            return Err(ReadError::Invalid(String::from_str("the dump holds more than a tree can")));
        }
        proof {
            assert(takes(growth.model(), a));
            assert(takes(growth.model(), Added { error: false, ..a }));
        }
        let ghost before = growth.model();
        growth.add_node(p.parent as NodeId, p.name.as_slice(), &p.meta, p.flags, p.counted);
        proof {
            assert(growth.model() == with_added(before, a));
            assert(growth.wa@ =~= apparent_weights(info.asize, list.take(i + 1)));
            assert(growth.wd@ =~= disk_weights(info.dsize, list.take(i + 1)));
        }
        if p.error {
            errors = errors + 1;
        }
        i += 1;
    }
    let ghost before = growth.tree.nodes();
    let mut tree = growth.tree;
    tree.add_errors(errors);
    tree.finish();
    proof {
        assert(list.take(i as int) =~= list);
        law_order_keeps_totals(
            before,
            tree.nodes(),
            apparent_weights(info.asize, list),
            disk_weights(info.dsize, list),
        );
    }
    Ok(tree)
}

/// Builds the tree that a dump stands for. Anything that cannot be one is an error.
pub fn read(dump: &Dump) -> (r: Result<Tree, ReadError>)
    ensures
        match r {
            Ok(t) => is_dump_tree(*dump, t),
            Err(e) => is_dump_error(*dump, e.text()),
        },
{
    if dump.major != MAJOR {
        let v = decimal(dump.major as u64);
        return Err(
            ReadError::Invalid(cat3("ncdu dump format v", v.as_str(), " is not supported")),
        );
    }
    let entries = match &dump.root {
        Entry::Item(_) => {
            return Err(
                ReadError::Invalid(String::from_str("the dump's root is not a directory")),
            );
        },
        Entry::Dir(entries) => entries,
    };
    if entries.len() == 0 {
        return Err(
            ReadError::Invalid(String::from_str("the dump's root has no directory record")),
        );
    }
    let info = match &entries[0] {
        Entry::Dir(_) => {
            return Err(
                ReadError::Invalid(String::from_str("the dump's root has no directory record")),
            );
        },
        Entry::Item(info) => info,
    };
    let mut pushes: Vec<Push> = Vec::new();
    let mut seen: HashSet<u128> = HashSet::new();
    let ghost none = Flat { list: Seq::empty(), seen: Set::empty() };
    proof {
        assert(added(pushes@) =~= none.list);
        assert(seen@ =~= none.seen);
    }
    match add_children(entries, 1, 0, &mut pushes, &mut seen, 1) {
        Ok(_) => {},
        Err(e) => {
            return Err(e);
        },
    }
    build(info, &pushes)
}

// ---------------------------------------------------------------------------------------------
// Hardlinks

/// Whether a node stands for one of several names of an inode that can be told apart.
pub open spec fn is_link(a: Added) -> bool {
    a.meta.kind != Kind::Dir && a.meta.nlink == 2 && a.meta.ino != 0
}

/// Whether every inode with several names has been seen, and is counted at one of them at most.
pub open spec fn counted_once(st: Flat) -> bool {
    &&& forall|k: int|
        0 <= k < st.list.len() && is_link(#[trigger] st.list[k]) ==> st.seen.contains(
            key_of(st.list[k].meta.dev, st.list[k].meta.ino),
        )
    &&& forall|i: int, j: int|
        0 <= i < j < st.list.len() && is_link(#[trigger] st.list[i]) && is_link(
            #[trigger] st.list[j],
        ) && st.list[i].counted && st.list[j].counted ==> key_of(
            st.list[i].meta.dev,
            st.list[i].meta.ino,
        ) != key_of(st.list[j].meta.dev, st.list[j].meta.ino)
}

proof fn lemma_item_once(st: Flat, parent: int, item: Item)
    requires
        counted_once(st),
    ensures
        counted_once(with_item(st, parent, item)),
{
    let next = with_item(st, parent, item);
    assert forall|k: int| 0 <= k < next.list.len() && is_link(#[trigger] next.list[k]) implies next.seen.contains(
        key_of(next.list[k].meta.dev, next.list[k].meta.ino),
    ) by {
        if k < st.list.len() {
            assert(is_link(st.list[k]));
        }
    }
    assert forall|i: int, j: int|
        0 <= i < j < next.list.len() && is_link(#[trigger] next.list[i]) && is_link(
            #[trigger] next.list[j],
        ) && next.list[i].counted && next.list[j].counted implies key_of(
        next.list[i].meta.dev,
        next.list[i].meta.ino,
    ) != key_of(next.list[j].meta.dev, next.list[j].meta.ino) by {
        assert(is_link(st.list[i]));
        if j < st.list.len() {
            assert(is_link(st.list[j]));
        }
    }
}

proof fn lemma_dir_once(entries: Seq<Entry>, parent: int, st: Flat, depth: int)
    requires
        counted_once(st),
    ensures
        flat_dir(entries, parent, st, depth) matches Ok(out) ==> counted_once(out),
    decreases MAX_DEPTH + 1 - depth, entries.len() + 1,
{
    if depth <= MAX_DEPTH {
        lemma_from_once(entries, 0, parent, st, depth);
    }
}

proof fn lemma_from_once(entries: Seq<Entry>, i: int, parent: int, st: Flat, depth: int)
    requires
        counted_once(st),
    ensures
        flat_from(entries, i, parent, st, depth) matches Ok(out) ==> counted_once(out),
    decreases MAX_DEPTH + 1 - depth, entries.len() - i,
{
    if !(i < 0 || i >= entries.len() || depth > MAX_DEPTH) {
        match entries[i] {
            Entry::Item(item) => {
                lemma_item_once(st, parent, item);
                lemma_from_once(entries, i + 1, parent, with_item(st, parent, item), depth);
            },
            Entry::Dir(inner) => {
                if inner@.len() > 0 && inner@[0] is Item {
                    let id = 1 + st.list.len() as int;
                    let st1 = with_dir(st, parent, inner@[0]->Item_0);
                    assert forall|k: int| 0 <= k < st1.list.len() && is_link(#[trigger] st1.list[k])
                        implies k < st.list.len() && is_link(st.list[k]) by {}
                    assert(counted_once(st1));
                    lemma_dir_once(inner@.skip(1), id, st1, depth + 1);
                    match flat_dir(inner@.skip(1), id, st1, depth + 1) {
                        Err(e) => {},
                        Ok(st2) => {
                            lemma_from_once(entries, i + 1, parent, st2, depth);
                        },
                    }
                }
            },
        }
    }
}

/// Of the names a dump gives for one inode, one at most adds to the totals.
pub proof fn law_hardlinks_are_counted_once(dump: Dump, i: int, j: int)
    requires
        dump_parts(dump) matches Ok((info, list)) && 0 <= i < j < list.len() && is_link(list[i])
            && is_link(list[j]) && list[i].meta.dev == list[j].meta.dev && list[i].meta.ino
            == list[j].meta.ino,
    ensures
        !(dump_parts(dump)->Ok_0.1[i].counted && dump_parts(dump)->Ok_0.1[j].counted),
{
    let none = Flat { list: Seq::empty(), seen: Set::empty() };
    let entries = dump.root->Dir_0@;
    assert(counted_once(none));
    lemma_dir_once(entries.skip(1), 0, none, 1);
}

} // verus!
