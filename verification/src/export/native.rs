//! The export format of its own.
//!
//! The file mirrors the in-memory arena: a header, the name blob, then the nodes as fixed 48-byte
//! records. That makes writing close to a memcpy and reading a single allocation plus a validation
//! pass, which matters when the tree has millions of entries.

use vstd::prelude::*;

use crate::bytes::{
    law_numbers_round_trip, le_bytes, le_range, le_value, lemma_le_len, lemma_le_ranges, push_le,
    read_le,
};
use crate::export::ReadError;
use crate::model::{raw_fault, Node, Tree};
use crate::text::{cat2, cat3, copy_bytes, dec, decimal};

verus! {

/// What a file starts with.
pub open spec fn magic() -> Seq<u8> {
    seq![67u8, 67u8, 68u8, 85u8]
}

/// Bumped when the layout changes incompatibly. A file from the future is refused.
pub const VERSION: u16 = 1;

/// Guards against a corrupt header asking for an absurd allocation before anything is read.
pub const MAX_NODES: u64 = 0x1_0000_0000;

pub const MAX_NAMES: u64 = 0x10_0000_0000;

pub const MAX_ROOT: u64 = 0x1_0000;

/// How many bytes a node takes up.
pub const RECORD: usize = 48;

/// A signed number as the unsigned one with the same bits.
pub open spec fn unsigned(x: i64) -> u64 {
    if x < 0 {
        (x + 0x1_0000_0000_0000_0000) as u64
    } else {
        x as u64
    }
}

pub open spec fn signed(x: u64) -> i64 {
    if x >= 0x8000_0000_0000_0000 {
        (x - 0x1_0000_0000_0000_0000) as i64
    } else {
        x as i64
    }
}

/// A node as a record.
pub open spec fn record_of(n: Node) -> Seq<u8> {
    le_bytes(n.apparent as nat, 8) + le_bytes(n.disk as nat, 8) + le_bytes(
        unsigned(n.mtime) as nat,
        8,
    ) + le_bytes(n.parent as nat, 4) + le_bytes(n.first_child as nat, 4) + le_bytes(
        n.next_sibling as nat,
        4,
    ) + le_bytes(n.items as nat, 4) + le_bytes(n.name_off as nat, 4) + le_bytes(
        n.name_len as nat,
        2,
    ) + le_bytes(n.flags as nat, 2)
}

/// The number at `at`, `n` bytes long.
pub open spec fn number_at(b: Seq<u8>, at: int, n: int) -> nat {
    le_value(b.subrange(at, at + n))
}

/// The node whose record starts at `at`.
pub open spec fn node_at(b: Seq<u8>, at: int) -> Node {
    Node {
        apparent: number_at(b, at, 8) as u64,
        disk: number_at(b, at + 8, 8) as u64,
        mtime: signed(number_at(b, at + 16, 8) as u64),
        parent: number_at(b, at + 24, 4) as u32,
        first_child: number_at(b, at + 28, 4) as u32,
        next_sibling: number_at(b, at + 32, 4) as u32,
        items: number_at(b, at + 36, 4) as u32,
        name_off: number_at(b, at + 40, 4) as u32,
        name_len: number_at(b, at + 44, 2) as u16,
        flags: number_at(b, at + 46, 2) as u16,
    }
}

/// The records of some nodes, one after the other.
pub open spec fn records_of(nodes: Seq<Node>) -> Seq<u8>
    decreases nodes.len(),
{
    if nodes.len() == 0 {
        Seq::empty()
    } else {
        records_of(nodes.drop_last()) + record_of(nodes.last())
    }
}

/// What a file holds.
pub struct Parts {
    pub root: Seq<u8>,
    pub errors: u64,
    pub cancelled: bool,
    pub names: Seq<u8>,
    pub nodes: Seq<Node>,
}

pub open spec fn parts_of(t: Tree) -> Parts {
    Parts {
        root: t.root(),
        errors: t.missed(),
        cancelled: t.partial(),
        names: t.names(),
        nodes: t.nodes(),
    }
}

/// Everything of a file that stands before the names.
pub open spec fn header_of(p: Parts) -> Seq<u8> {
    magic() + le_bytes(VERSION as nat, 2) + le_bytes(p.root.len(), 4) + p.root + le_bytes(
        p.errors as nat,
        8,
    ) + seq![
        if p.cancelled {
            1u8
        } else {
            0u8
        },
    ] + le_bytes(p.names.len(), 8) + le_bytes(p.nodes.len(), 8)
}

/// A tree as a file.
pub open spec fn file_of(p: Parts) -> Seq<u8> {
    header_of(p) + p.names + records_of(p.nodes)
}

/// What a file amounts to.
pub enum Reading {
    Tree(Parts),
    /// It ends before it should.
    Truncated,
    Invalid(Seq<char>),
}

/// What follows the root path, which ends at `h`.
pub open spec fn read_rest(b: Seq<u8>, root: Seq<u8>, h: int) -> Reading {
    let names_len = number_at(b, h + 9, 8);
    let count = number_at(b, h + 17, 8);
    let base = h + 25 + names_len;
    if b.len() < h + 25 {
        Reading::Truncated
    } else if names_len > MAX_NAMES {
        Reading::Invalid("name blob claims "@ + dec(names_len) + " bytes"@)
    } else if count == 0 || count > MAX_NODES {
        Reading::Invalid("node count claims "@ + dec(count))
    } else if b.len() < base + 48 * count {
        Reading::Truncated
    } else {
        let names = b.subrange(h + 25, base);
        let nodes = Seq::new(count, |i: int| node_at(b, base + 48 * i));
        match raw_fault(nodes, names) {
            Some(e) => Reading::Invalid(e),
            None => Reading::Tree(
                Parts {
                    root,
                    errors: number_at(b, h, 8) as u64,
                    cancelled: b[h + 8] != 0,
                    names,
                    nodes,
                },
            ),
        }
    }
}

/// What a file amounts to. What stands behind the tree is not looked at.
pub open spec fn reading_of(b: Seq<u8>) -> Reading {
    let version = number_at(b, 4, 2);
    let root_len = number_at(b, 6, 4);
    if b.len() < 4 {
        Reading::Truncated
    } else if b.take(4) != magic() {
        Reading::Invalid("not a ccdu export"@)
    } else if b.len() < 6 {
        Reading::Truncated
    } else if version > VERSION {
        Reading::Invalid(
            "export format v"@ + dec(version) + " is newer than this build understands (v"@ + dec(
                VERSION as nat,
            ) + ")"@,
        )
    } else if b.len() < 10 {
        Reading::Truncated
    } else if root_len > MAX_ROOT {
        Reading::Invalid("implausible root path length"@)
    } else if b.len() < 10 + root_len {
        Reading::Truncated
    } else {
        read_rest(b, b.subrange(10, 10 + root_len as int), 10 + root_len as int)
    }
}

fn to_unsigned(x: i64) -> (r: u64)
    ensures
        r == unsigned(x),
{
    if x >= 0 {
        x as u64
    } else {
        let up: u64 = (-(x + 1)) as u64;
        u64::MAX - up
    }
}

fn to_signed(x: u64) -> (r: i64)
    ensures
        r == signed(x),
{
    if x < 0x8000_0000_0000_0000 {
        x as i64
    } else {
        let down: u64 = u64::MAX - x;
        -(down as i64) - 1
    }
}

fn encode(node: &Node, out: &mut Vec<u8>)
    ensures
        final(out)@ == old(out)@ + record_of(*node),
{
    let ghost start = out@;
    push_le(out, node.apparent, 8);
    push_le(out, node.disk, 8);
    push_le(out, to_unsigned(node.mtime), 8);
    push_le(out, node.parent as u64, 4);
    push_le(out, node.first_child as u64, 4);
    push_le(out, node.next_sibling as u64, 4);
    push_le(out, node.items as u64, 4);
    push_le(out, node.name_off as u64, 4);
    push_le(out, node.name_len as u64, 2);
    push_le(out, node.flags as u64, 2);
    proof {
        assert(out@ =~= start + record_of(*node));
    }
}

fn decode(b: &[u8], at: usize) -> (r: Node)
    requires
        at + 48 <= b@.len(),
    ensures
        r == node_at(b@, at as int),
{
    proof {
        lemma_le_ranges();
        assert(b@.len() == b.len());
    }
    Node {
        apparent: read_le(b, at, 8),
        disk: read_le(b, at + 8, 8),
        mtime: to_signed(read_le(b, at + 16, 8)),
        parent: read_le(b, at + 24, 4) as u32,
        first_child: read_le(b, at + 28, 4) as u32,
        next_sibling: read_le(b, at + 32, 4) as u32,
        items: read_le(b, at + 36, 4) as u32,
        name_off: read_le(b, at + 40, 4) as u32,
        name_len: read_le(b, at + 44, 2) as u16,
        flags: read_le(b, at + 46, 2) as u16,
    }
}

/// The bytes a tree is written as.
pub fn write(tree: &Tree) -> (r: Vec<u8>)
    requires
        tree.root().len() <= u32::MAX,
    ensures
        r@ == file_of(parts_of(*tree)),
{
    let nodes = tree.raw_nodes();
    let names = tree.raw_names();
    let root = tree.root_path();
    let mut out: Vec<u8> = Vec::new();
    out.push(67);
    out.push(67);
    out.push(68);
    out.push(85);
    proof {
        assert(out@ =~= magic());
    }
    push_le(&mut out, VERSION as u64, 2);
    push_le(&mut out, root.len() as u64, 4);
    let ghost a = out@;
    out.extend_from_slice(root);
    proof {
        assert(out@ =~= a + root@);
    }
    push_le(&mut out, tree.error_count(), 8);
    let ghost c = out@;
    let flag: u8 = if tree.is_cancelled() {
        1
    } else {
        0
    };
    out.push(flag);
    proof {
        assert(out@ =~= c + seq![flag]);
    }
    push_le(&mut out, names.len() as u64, 8);
    push_le(&mut out, nodes.len() as u64, 8);
    proof {
        assert(out@ =~= header_of(parts_of(*tree)));
    }
    let ghost d = out@;
    out.extend_from_slice(names.as_slice());
    proof {
        assert(out@ =~= d + names@);
    }
    let ghost e = out@;
    let mut i: usize = 0;
    proof {
        assert(nodes@.take(0) =~= Seq::<Node>::empty());
        assert(out@ =~= e + records_of(nodes@.take(0)));
    }
    while i < nodes.len()
        invariant
            i <= nodes@.len(),
            out@ == e + records_of(nodes@.take(i as int)),
        decreases nodes.len() - i,
    {
        encode(&nodes[i], &mut out);
        proof {
            assert(nodes@.take(i + 1).drop_last() =~= nodes@.take(i as int));
            assert(out@ =~= e + records_of(nodes@.take(i + 1)));
        }
        i += 1;
    }
    proof {
        assert(nodes@.take(i as int) =~= nodes@);
    }
    out
}

fn read_header(b: &[u8]) -> (r: Result<usize, ReadError>)
    ensures
        match r {
            Ok(h) => {
                &&& 10 <= h <= b@.len()
                &&& reading_of(b@) == read_rest(b@, b@.subrange(10, h as int), h as int)
            },
            Err(e) => e.is_reading(reading_of(b@)),
        },
{
    proof {
        lemma_le_ranges();
    }
    if b.len() < 4 {
        return Err(ReadError::Truncated);
    }
    proof {
        if b@[0] == 67 && b@[1] == 67 && b@[2] == 68 && b@[3] == 85 {
            assert(b@.take(4) =~= magic());
        } else {
            assert(b@.take(4)[0] == b@[0] && b@.take(4)[1] == b@[1] && b@.take(4)[2] == b@[2]
                && b@.take(4)[3] == b@[3]);
        }
    }
    if !(b[0] == 67 && b[1] == 67 && b[2] == 68 && b[3] == 85) {
        return Err(ReadError::Invalid(String::from_str("not a ccdu export")));
    }
    if b.len() < 6 {
        return Err(ReadError::Truncated);
    }
    let version: u64 = read_le(b, 4, 2);
    if version > VERSION as u64 {
        let v = decimal(version);
        let mine = decimal(VERSION as u64);
        let mut text = cat3(
            "export format v",
            v.as_str(),
            " is newer than this build understands (v",
        );
        text.append(mine.as_str());
        text.append(")");
        return Err(ReadError::Invalid(text));
    }
    if b.len() < 10 {
        return Err(ReadError::Truncated);
    }
    let root_len: u64 = read_le(b, 6, 4);
    if root_len > MAX_ROOT {
        return Err(ReadError::Invalid(String::from_str("implausible root path length")));
    }
    if b.len() - 10 < root_len as usize {
        return Err(ReadError::Truncated);
    }
    Ok(10 + root_len as usize)
}

/// Reads a tree back. Nothing is allocated before the file is known to be long enough for what it
/// claims.
pub fn read(b: &[u8]) -> (r: Result<Tree, ReadError>)
    ensures
        match r {
            Ok(t) => t.wf() && reading_of(b@) == Reading::Tree(parts_of(t)),
            Err(e) => e.is_reading(reading_of(b@)),
        },
{
    let h = match read_header(b) {
        Ok(h) => h,
        Err(e) => return Err(e),
    };
    proof {
        lemma_le_ranges();
    }
    if b.len() - h < 25 {
        return Err(ReadError::Truncated);
    }
    let errors: u64 = read_le(b, h, 8);
    let cancelled = b[h + 8] != 0;
    let names_len: u64 = read_le(b, h + 9, 8);
    let count: u64 = read_le(b, h + 17, 8);
    if names_len > MAX_NAMES {
        let n = decimal(names_len);
        return Err(ReadError::Invalid(cat3("name blob claims ", n.as_str(), " bytes")));
    }
    if count == 0 || count > MAX_NODES {
        let n = decimal(count);
        return Err(ReadError::Invalid(cat2("node count claims ", n.as_str())));
    }
    let left: u64 = (b.len() - h - 25) as u64;
    if left < names_len || left - names_len < 48 * count {
        return Err(ReadError::Truncated);
    }
    let base: usize = h + 25 + names_len as usize;
    let names = copy_bytes(&b[h + 25..base]);
    let mut nodes: Vec<Node> = Vec::new();
    let mut i: u64 = 0;
    while i < count
        invariant
            i <= count,
            count <= MAX_NODES,
            base + 48 * count <= b@.len() <= usize::MAX,
            nodes@ == Seq::new(i as nat, |k: int| node_at(b@, base + 48 * k)),
        decreases count - i,
    {
        let at: usize = base + 48 * i as usize;
        let ghost before = nodes@;
        nodes.push(decode(b, at));
        proof {
            assert(nodes@ =~= Seq::new((i + 1) as nat, |k: int| node_at(b@, base + 48 * k)));
        }
        i += 1;
    }
    let root = copy_bytes(&b[10..h]);
    proof {
        assert(nodes@ =~= Seq::new(number_at(b@, h + 17, 8), |k: int| node_at(b@, base + 48 * k)));
    }
    match Tree::from_raw(root, nodes, names, errors, cancelled) {
        Ok(t) => Ok(t),
        Err(e) => Err(ReadError::Invalid(e)),
    }
}

proof fn lemma_number_at(b: Seq<u8>, at: int, x: nat, n: nat)
    requires
        0 <= at,
        at + n <= b.len(),
        b.subrange(at, at + n) == le_bytes(x, n),
        x < le_range(n),
    ensures
        number_at(b, at, n as int) == x,
{
    law_numbers_round_trip(x, n);
}

proof fn lemma_record_len(n: Node)
    ensures
        record_of(n).len() == 48,
{
    lemma_le_len(n.apparent as nat, 8);
    lemma_le_len(n.disk as nat, 8);
    lemma_le_len(unsigned(n.mtime) as nat, 8);
    lemma_le_len(n.parent as nat, 4);
    lemma_le_len(n.first_child as nat, 4);
    lemma_le_len(n.next_sibling as nat, 4);
    lemma_le_len(n.items as nat, 4);
    lemma_le_len(n.name_off as nat, 4);
    lemma_le_len(n.name_len as nat, 2);
    lemma_le_len(n.flags as nat, 2);
}

/// A node comes back from its record.
proof fn lemma_record_round_trip(n: Node, b: Seq<u8>, at: int)
    requires
        0 <= at,
        at + 48 <= b.len(),
        b.subrange(at, at + 48) == record_of(n),
    ensures
        node_at(b, at) == n,
{
    lemma_le_ranges();
    lemma_record_len(n);
    let r = record_of(n);
    let m = unsigned(n.mtime) as nat;
    lemma_le_len(n.apparent as nat, 8);
    lemma_le_len(n.disk as nat, 8);
    lemma_le_len(m, 8);
    lemma_le_len(n.parent as nat, 4);
    lemma_le_len(n.first_child as nat, 4);
    lemma_le_len(n.next_sibling as nat, 4);
    lemma_le_len(n.items as nat, 4);
    lemma_le_len(n.name_off as nat, 4);
    lemma_le_len(n.name_len as nat, 2);
    lemma_le_len(n.flags as nat, 2);
    assert forall|s: int, e: int| 0 <= s <= e <= 48 implies #[trigger] b.subrange(at + s, at + e)
        == r.subrange(s, e) by {
        assert(b.subrange(at + s, at + e) =~= b.subrange(at, at + 48).subrange(s, e));
    }
    assert(r.subrange(0, 8) =~= le_bytes(n.apparent as nat, 8));
    assert(r.subrange(8, 16) =~= le_bytes(n.disk as nat, 8));
    assert(r.subrange(16, 24) =~= le_bytes(m, 8));
    assert(r.subrange(24, 28) =~= le_bytes(n.parent as nat, 4));
    assert(r.subrange(28, 32) =~= le_bytes(n.first_child as nat, 4));
    assert(r.subrange(32, 36) =~= le_bytes(n.next_sibling as nat, 4));
    assert(r.subrange(36, 40) =~= le_bytes(n.items as nat, 4));
    assert(r.subrange(40, 44) =~= le_bytes(n.name_off as nat, 4));
    assert(r.subrange(44, 46) =~= le_bytes(n.name_len as nat, 2));
    assert(r.subrange(46, 48) =~= le_bytes(n.flags as nat, 2));
    assert(b.subrange(at + 0, at + 8) == r.subrange(0, 8));
    assert(b.subrange(at + 8, at + 16) == r.subrange(8, 16));
    assert(b.subrange(at + 16, at + 24) == r.subrange(16, 24));
    assert(b.subrange(at + 24, at + 28) == r.subrange(24, 28));
    assert(b.subrange(at + 28, at + 32) == r.subrange(28, 32));
    assert(b.subrange(at + 32, at + 36) == r.subrange(32, 36));
    assert(b.subrange(at + 36, at + 40) == r.subrange(36, 40));
    assert(b.subrange(at + 40, at + 44) == r.subrange(40, 44));
    assert(b.subrange(at + 44, at + 46) == r.subrange(44, 46));
    assert(b.subrange(at + 46, at + 48) == r.subrange(46, 48));
    lemma_number_at(b, at, n.apparent as nat, 8);
    lemma_number_at(b, at + 8, n.disk as nat, 8);
    lemma_number_at(b, at + 16, m, 8);
    lemma_number_at(b, at + 24, n.parent as nat, 4);
    lemma_number_at(b, at + 28, n.first_child as nat, 4);
    lemma_number_at(b, at + 32, n.next_sibling as nat, 4);
    lemma_number_at(b, at + 36, n.items as nat, 4);
    lemma_number_at(b, at + 40, n.name_off as nat, 4);
    lemma_number_at(b, at + 44, n.name_len as nat, 2);
    lemma_number_at(b, at + 46, n.flags as nat, 2);
    assert(signed(unsigned(n.mtime)) == n.mtime);
}

proof fn lemma_records_at(nodes: Seq<Node>, i: int)
    requires
        0 <= i < nodes.len(),
    ensures
        records_of(nodes).len() == 48 * nodes.len(),
        records_of(nodes).subrange(48 * i, 48 * i + 48) == record_of(nodes[i]),
    decreases nodes.len(),
{
    let front = nodes.drop_last();
    lemma_records_len(front);
    lemma_record_len(nodes.last());
    if i == nodes.len() - 1 {
        assert(records_of(nodes).subrange(48 * i, 48 * i + 48) =~= record_of(nodes[i]));
    } else {
        lemma_records_at(front, i);
        assert(records_of(nodes).subrange(48 * i, 48 * i + 48) =~= records_of(front).subrange(
            48 * i,
            48 * i + 48,
        ));
    }
}

proof fn lemma_records_len(nodes: Seq<Node>)
    ensures
        records_of(nodes).len() == 48 * nodes.len(),
    decreases nodes.len(),
{
    if nodes.len() > 0 {
        lemma_records_len(nodes.drop_last());
        lemma_record_len(nodes.last());
    }
}

/// Whether a tree is within what a reader accepts.
pub open spec fn is_exportable(p: Parts) -> bool {
    &&& p.root.len() <= MAX_ROOT
    &&& p.names.len() <= MAX_NAMES
    &&& 0 < p.nodes.len() <= MAX_NODES
    &&& raw_fault(p.nodes, p.names) is None
}

/// Where the parts of a file stand.
proof fn lemma_layout(p: Parts, rest: Seq<u8>)
    requires
        is_exportable(p),
    ensures
        ({
            let b = file_of(p) + rest;
            let h = 10 + p.root.len() as int;
            let base = h + 25 + p.names.len();
            &&& b.len() == base + 48 * p.nodes.len() + rest.len()
            &&& b.take(4) == magic()
            &&& b.subrange(4, 6) == le_bytes(VERSION as nat, 2)
            &&& b.subrange(6, 10) == le_bytes(p.root.len(), 4)
            &&& b.subrange(10, h) == p.root
            &&& b.subrange(h, h + 8) == le_bytes(p.errors as nat, 8)
            &&& b[h + 8] == (if p.cancelled {
                1u8
            } else {
                0u8
            })
            &&& b.subrange(h + 9, h + 17) == le_bytes(p.names.len(), 8)
            &&& b.subrange(h + 17, h + 25) == le_bytes(p.nodes.len(), 8)
            &&& b.subrange(h + 25, base) == p.names
            &&& b.subrange(base, base + 48 * p.nodes.len()) == records_of(p.nodes)
        }),
{
    let b = file_of(p) + rest;
    let n = p.root.len();
    let h = 10 + n as int;
    let base = h + 25 + p.names.len();
    lemma_le_len(VERSION as nat, 2);
    lemma_le_len(n, 4);
    lemma_le_len(p.errors as nat, 8);
    lemma_le_len(p.names.len(), 8);
    lemma_le_len(p.nodes.len(), 8);
    lemma_records_len(p.nodes);
    assert(header_of(p).len() == h + 25);
    assert(b.take(4) =~= magic());
    assert(b.subrange(4, 6) =~= le_bytes(VERSION as nat, 2));
    assert(b.subrange(6, 10) =~= le_bytes(n, 4));
    assert(b.subrange(10, h) =~= p.root);
    assert(b.subrange(h, h + 8) =~= le_bytes(p.errors as nat, 8));
    assert(b.subrange(h + 9, h + 17) =~= le_bytes(p.names.len(), 8));
    assert(b.subrange(h + 17, h + 25) =~= le_bytes(p.nodes.len(), 8));
    assert(b.subrange(h + 25, base) =~= p.names);
    assert(b.subrange(base, base + 48 * p.nodes.len()) =~= records_of(p.nodes));
}

/// Nodes that are written and read come back as they were.
proof fn lemma_nodes_round_trip(nodes: Seq<Node>, b: Seq<u8>, base: int)
    requires
        0 <= base,
        base + 48 * nodes.len() <= b.len(),
        b.subrange(base, base + 48 * nodes.len()) == records_of(nodes),
    ensures
        Seq::new(nodes.len(), |i: int| node_at(b, base + 48 * i)) == nodes,
{
    let read = Seq::new(nodes.len(), |i: int| node_at(b, base + 48 * i));
    assert forall|i: int| 0 <= i < nodes.len() implies read[i] == nodes[i] by {
        lemma_records_at(nodes, i);
        assert(b.subrange(base + 48 * i, base + 48 * i + 48) =~= records_of(nodes).subrange(
            48 * i,
            48 * i + 48,
        ));
        lemma_record_round_trip(nodes[i], b, base + 48 * i);
    }
    assert(read =~= nodes);
}

/// A tree that is written and read comes back as it was, whatever follows it in the file.
pub proof fn law_trees_round_trip(p: Parts, rest: Seq<u8>)
    requires
        is_exportable(p),
    ensures
        reading_of(file_of(p) + rest) == Reading::Tree(p),
{
    let b = file_of(p) + rest;
    let n = p.root.len();
    let h = 10 + n as int;
    let base = h + 25 + p.names.len();
    lemma_layout(p, rest);
    lemma_le_ranges();
    lemma_number_at(b, 4, VERSION as nat, 2);
    lemma_number_at(b, 6, n, 4);
    lemma_number_at(b, h, p.errors as nat, 8);
    lemma_number_at(b, h + 9, p.names.len(), 8);
    lemma_number_at(b, h + 17, p.nodes.len(), 8);
    lemma_nodes_round_trip(p.nodes, b, base);
}

/// Every tree whose root path and names are within bounds can be read back: no tree that is well
/// formed is refused.
pub proof fn law_every_tree_is_exportable(t: Tree)
    requires
        t.wf(),
        t.root().len() <= MAX_ROOT,
        t.names().len() <= MAX_NAMES,
    ensures
        is_exportable(parts_of(t)),
{
    crate::model::lemma_wf_has_no_fault(t);
}

/// What a file holds, byte by byte: what it is and which version of it, the path of the root, how much
/// could not be read and whether the scan was broken off, how long the names are and how many nodes
/// there are, then the names and the nodes, forty-eight bytes each.
pub proof fn law_what_a_file_holds(p: Parts)
    requires
        p.root.len() <= 0x1_0000,
        p.names.len() <= 0x10_0000_0000,
        0 < p.nodes.len() <= 0xffff_ffff,
        raw_fault(p.nodes, p.names) is None,
    ensures
        ({
            let b = file_of(p);
            let h = 10 + p.root.len() as int;
            let base = h + 25 + p.names.len();
            &&& b.len() == base + 48 * p.nodes.len()
            &&& b.take(4) == seq![67u8, 67u8, 68u8, 85u8]
            &&& b.subrange(4, 6) == le_bytes(1, 2)
            &&& b.subrange(6, 10) == le_bytes(p.root.len(), 4)
            &&& b.subrange(10, h) == p.root
            &&& b.subrange(h, h + 8) == le_bytes(p.errors as nat, 8)
            &&& b[h + 8] == (if p.cancelled {
                1u8
            } else {
                0u8
            })
            &&& b.subrange(h + 9, h + 17) == le_bytes(p.names.len(), 8)
            &&& b.subrange(h + 17, h + 25) == le_bytes(p.nodes.len(), 8)
            &&& b.subrange(h + 25, base) == p.names
            &&& forall|i: int|
                0 <= i < p.nodes.len() ==> b.subrange(base + 48 * i, base + 48 * i + 48)
                    == record_of(#[trigger] p.nodes[i])
        }),
{
    let none = Seq::<u8>::empty();
    assert(file_of(p) + none =~= file_of(p));
    lemma_layout(p, none);
    lemma_records_in(p.nodes, file_of(p), 10 + p.root.len() as int + 25 + p.names.len());
}

proof fn lemma_records_in(nodes: Seq<Node>, b: Seq<u8>, base: int)
    requires
        0 <= base,
        base + 48 * nodes.len() <= b.len(),
        b.subrange(base, base + 48 * nodes.len()) == records_of(nodes),
    ensures
        forall|i: int|
            0 <= i < nodes.len() ==> b.subrange(base + 48 * i, base + 48 * i + 48) == record_of(
                #[trigger] nodes[i],
            ),
{
    assert forall|i: int| 0 <= i < nodes.len() implies b.subrange(
        base + 48 * i,
        base + 48 * i + 48,
    ) == record_of(#[trigger] nodes[i]) by {
        lemma_records_at(nodes, i);
        assert(b.subrange(base + 48 * i, base + 48 * i + 48) =~= records_of(nodes).subrange(
            48 * i,
            48 * i + 48,
        ));
    }
}

/// Every tree is read back that is no larger than the format allows.
pub proof fn law_every_file_is_read_back(p: Parts)
    requires
        p.root.len() <= 0x1_0000,
        p.names.len() <= 0x10_0000_0000,
        0 < p.nodes.len() <= 0xffff_ffff,
        raw_fault(p.nodes, p.names) is None,
    ensures
        reading_of(file_of(p)) == Reading::Tree(p),
{
    let none = Seq::<u8>::empty();
    assert(file_of(p) + none =~= file_of(p));
    law_trees_round_trip(p, none);
}

/// Where each number of a node stands in its forty-eight bytes.
pub proof fn law_what_a_record_holds(n: Node)
    ensures
        ({
            let b = record_of(n);
            &&& b.len() == 48
            &&& b.subrange(0, 8) == le_bytes(n.apparent as nat, 8)
            &&& b.subrange(8, 16) == le_bytes(n.disk as nat, 8)
            &&& b.subrange(16, 24) == le_bytes(unsigned(n.mtime) as nat, 8)
            &&& b.subrange(24, 28) == le_bytes(n.parent as nat, 4)
            &&& b.subrange(28, 32) == le_bytes(n.first_child as nat, 4)
            &&& b.subrange(32, 36) == le_bytes(n.next_sibling as nat, 4)
            &&& b.subrange(36, 40) == le_bytes(n.items as nat, 4)
            &&& b.subrange(40, 44) == le_bytes(n.name_off as nat, 4)
            &&& b.subrange(44, 46) == le_bytes(n.name_len as nat, 2)
            &&& b.subrange(46, 48) == le_bytes(n.flags as nat, 2)
        }),
        n.mtime >= 0 ==> unsigned(n.mtime) == n.mtime,
        n.mtime < 0 ==> unsigned(n.mtime) == 0x1_0000_0000_0000_0000 + n.mtime,
{
    lemma_le_len(n.apparent as nat, 8);
    lemma_le_len(n.disk as nat, 8);
    lemma_le_len(unsigned(n.mtime) as nat, 8);
    lemma_le_len(n.parent as nat, 4);
    lemma_le_len(n.first_child as nat, 4);
    lemma_le_len(n.next_sibling as nat, 4);
    lemma_le_len(n.items as nat, 4);
    lemma_le_len(n.name_off as nat, 4);
    lemma_le_len(n.name_len as nat, 2);
    lemma_le_len(n.flags as nat, 2);
    let b = record_of(n);
    assert(b.subrange(0, 8) =~= le_bytes(n.apparent as nat, 8));
    assert(b.subrange(8, 16) =~= le_bytes(n.disk as nat, 8));
    assert(b.subrange(16, 24) =~= le_bytes(unsigned(n.mtime) as nat, 8));
    assert(b.subrange(24, 28) =~= le_bytes(n.parent as nat, 4));
    assert(b.subrange(28, 32) =~= le_bytes(n.first_child as nat, 4));
    assert(b.subrange(32, 36) =~= le_bytes(n.next_sibling as nat, 4));
    assert(b.subrange(36, 40) =~= le_bytes(n.items as nat, 4));
    assert(b.subrange(40, 44) =~= le_bytes(n.name_off as nat, 4));
    assert(b.subrange(44, 46) =~= le_bytes(n.name_len as nat, 2));
    assert(b.subrange(46, 48) =~= le_bytes(n.flags as nat, 2));
}

/// What is written of a tree is all of it.
pub proof fn law_all_of_a_tree_is_written(t: Tree)
    ensures
        parts_of(t).root == t.root(),
        parts_of(t).errors == t.missed(),
        parts_of(t).cancelled == t.partial(),
        parts_of(t).names == t.names(),
        parts_of(t).nodes == t.nodes(),
{
}

/// A file that was cut off anywhere is not taken for a whole one.
pub proof fn law_a_torn_file_is_not_read(p: Parts, k: int)
    requires
        p.root.len() <= 0x1_0000,
        p.names.len() <= 0x10_0000_0000,
        0 < p.nodes.len() <= 0xffff_ffff,
        raw_fault(p.nodes, p.names) is None,
        0 <= k < file_of(p).len(),
    ensures
        reading_of(file_of(p).take(k)) == Reading::Truncated,
{
    let none = Seq::<u8>::empty();
    let whole = file_of(p);
    assert(whole + none =~= whole);
    lemma_layout(p, none);
    lemma_le_ranges();
    let n = p.root.len();
    let h = 10 + n as int;
    let b = whole.take(k);
    lemma_number_at(whole, 4, VERSION as nat, 2);
    lemma_number_at(whole, 6, n, 4);
    lemma_number_at(whole, h + 9, p.names.len(), 8);
    lemma_number_at(whole, h + 17, p.nodes.len(), 8);
    if k >= 4 {
        assert(b.take(4) =~= whole.take(4));
    }
    if k >= 6 {
        assert(b.subrange(4, 6) =~= whole.subrange(4, 6));
    }
    if k >= 10 {
        assert(b.subrange(6, 10) =~= whole.subrange(6, 10));
    }
    if k >= h + 25 {
        assert(b.subrange(h + 9, h + 17) =~= whole.subrange(h + 9, h + 17));
        assert(b.subrange(h + 17, h + 25) =~= whole.subrange(h + 17, h + 25));
    }
}

/// What does not begin as an export does is none, and one of a later version is refused.
pub proof fn law_what_is_not_an_export(b: Seq<u8>)
    requires
        b.len() >= 6,
    ensures
        b.take(4) != seq![67u8, 67u8, 68u8, 85u8] ==> reading_of(b) is Invalid,
        b.take(4) == seq![67u8, 67u8, 68u8, 85u8] && b[4] as int + 256 * b[5] as int > 1
            ==> reading_of(b) is Invalid,
{
    reveal_with_fuel(le_value, 3);
    let v = b.subrange(4, 6);
    assert(v.drop_first().drop_first() =~= Seq::<u8>::empty());
    assert(v[0] == b[4] && v.drop_first()[0] == b[5]);
}

} // verus!
