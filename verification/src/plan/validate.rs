//! Deciding whether a plan is safe to run.
//!
//! Validation is deliberately paranoid and deliberately cheap to re-run: it is called every time
//! the plan view is opened and before a commit. Everything it reports is attributed to an
//! operation so the user can see which line is the problem.

use vstd::prelude::*;

use crate::format::times::law_times_are_told_apart;
use crate::format::{format_time_secs, human_size, size_text, time_text_secs};
use crate::order::{comes_first, ints, is_order, stable_order, Rank};
use crate::path::{
    inside, is_inside, parent, parent_of, path_starts_with, paths_match, same_path, starts_with,
};
use crate::plan::{Conflict, EntryKind, Ident, Op, Plan, PLAN_VERSION};
use crate::text::{
    cat2, cat3, copy_bytes, dec, decimal, lemma_dec_distinct, quote, quoted, show, shown,
};

verus! {

#[derive(Clone, Copy, Debug, PartialEq, Eq, Structural)]
pub enum Severity {
    /// Blocks the commit.
    Error,
    /// Worth reading before committing, but not a reason to stop.
    Warning,
}

#[derive(Clone, Debug, PartialEq, Eq)]
pub struct Finding {
    pub severity: Severity,
    /// Which operation this is about, or `None` for something about the plan as a whole.
    pub op: Option<usize>,
    pub message: String,
}

/// A finding, in terms of text.
pub struct Note {
    pub severity: Severity,
    pub op: Option<usize>,
    pub message: Seq<char>,
}

impl View for Finding {
    type V = Note;

    open spec fn view(&self) -> Note {
        Note { severity: self.severity, op: self.op, message: self.message@ }
    }
}

pub open spec fn bad(op: Option<usize>, message: Seq<char>) -> Note {
    Note { severity: Severity::Error, op, message }
}

pub open spec fn caution(op: Option<usize>, message: Seq<char>) -> Note {
    Note { severity: Severity::Warning, op, message }
}

impl Finding {
    pub fn error(op: Option<usize>, message: String) -> (r: Finding)
        ensures
            r@ == bad(op, message@),
    {
        Finding { severity: Severity::Error, op, message }
    }

    pub fn warn(op: Option<usize>, message: String) -> (r: Finding)
        ensures
            r@ == caution(op, message@),
    {
        Finding { severity: Severity::Warning, op, message }
    }
}

pub open spec fn notes(findings: Seq<Finding>) -> Seq<Note> {
    findings.map_values(|f: Finding| f@)
}

/// The note, where the condition holds.
pub open spec fn when(holds: bool, note: Note) -> Seq<Note> {
    if holds {
        seq![note]
    } else {
        Seq::empty()
    }
}

pub struct ValidateOptions {
    /// Permit operations on paths outside the scanned tree.
    pub allow_outside_root: bool,
    /// Paths that may never be operated on, matched exactly. Their contents are fair game; the
    /// directories themselves are not.
    pub protected: Vec<Vec<u8>>,
    /// How much of a destination filesystem is left free after a move, in percent, as it is shown.
    pub headroom_percent: u64,
    /// Skip checks that need to look at the machine. Used by callers inspecting a plan for a host
    /// they are not on.
    pub offline: bool,
}

/// What a Unix system starts from, and its libraries.
pub open spec fn boot_dirs() -> Seq<Seq<char>> {
    seq![
        "/"@,
        "/bin"@,
        "/boot"@,
        "/dev"@,
        "/etc"@,
        "/home"@,
        "/lib"@,
        "/lib32"@,
        "/lib64"@,
        "/libx32"@,
    ]
}

/// What a Unix system runs on.
pub open spec fn run_dirs() -> Seq<Seq<char>> {
    seq![
        "/opt"@,
        "/proc"@,
        "/root"@,
        "/run"@,
        "/sbin"@,
        "/srv"@,
        "/sys"@,
        "/tmp"@,
        "/usr"@,
        "/var"@,
    ]
}

/// What macOS adds.
pub open spec fn mac_dirs() -> Seq<Seq<char>> {
    seq!["/System"@, "/Applications"@, "/Library"@, "/Users"@, "/private"@, "/Volumes"@]
}

/// Directories that exist to hold a running system.
pub open spec fn system_dirs() -> Seq<Seq<char>> {
    boot_dirs() + run_dirs() + mac_dirs()
}

pub open spec fn as_paths(texts: Seq<Seq<char>>) -> Seq<Seq<u8>> {
    texts.map_values(|t: Seq<char>| vstd::utf8::encode_utf8(t))
}

pub open spec fn path_views(paths: Seq<Vec<u8>>) -> Seq<Seq<u8>> {
    paths.map_values(|p: Vec<u8>| p@)
}

fn list_path(out: &mut Vec<Vec<u8>>, text: &str)
    ensures
        path_views(final(out)@) == path_views(old(out)@).push(vstd::utf8::encode_utf8(text@)),
{
    let ghost before = out@;
    let p = copy_bytes(text.as_bytes());
    out.push(p);
    proof {
        assert(path_views(out@) =~= path_views(before).push(p@));
    }
}

fn list_boot_dirs(out: &mut Vec<Vec<u8>>)
    ensures
        path_views(final(out)@) == path_views(old(out)@) + as_paths(boot_dirs()),
{
    let ghost before = path_views(out@);
    list_path(out, "/");
    list_path(out, "/bin");
    list_path(out, "/boot");
    list_path(out, "/dev");
    list_path(out, "/etc");
    list_path(out, "/home");
    list_path(out, "/lib");
    list_path(out, "/lib32");
    list_path(out, "/lib64");
    list_path(out, "/libx32");
    proof {
        assert(path_views(out@) =~= before + as_paths(boot_dirs()));
    }
}

fn list_run_dirs(out: &mut Vec<Vec<u8>>)
    ensures
        path_views(final(out)@) == path_views(old(out)@) + as_paths(run_dirs()),
{
    let ghost before = path_views(out@);
    list_path(out, "/opt");
    list_path(out, "/proc");
    list_path(out, "/root");
    list_path(out, "/run");
    list_path(out, "/sbin");
    list_path(out, "/srv");
    list_path(out, "/sys");
    list_path(out, "/tmp");
    list_path(out, "/usr");
    list_path(out, "/var");
    proof {
        assert(path_views(out@) =~= before + as_paths(run_dirs()));
    }
}

fn list_mac_dirs(out: &mut Vec<Vec<u8>>)
    ensures
        path_views(final(out)@) == path_views(old(out)@) + as_paths(mac_dirs()),
{
    let ghost before = path_views(out@);
    list_path(out, "/System");
    list_path(out, "/Applications");
    list_path(out, "/Library");
    list_path(out, "/Users");
    list_path(out, "/private");
    list_path(out, "/Volumes");
    proof {
        assert(path_views(out@) =~= before + as_paths(mac_dirs()));
    }
}

/// Directories that exist to hold a running system, and the home directory itself. Deleting or
/// moving any of them is never what somebody meant, and the cost of being wrong is the machine.
pub fn default_protected(home: &Option<Vec<u8>>) -> (r: Vec<Vec<u8>>)
    ensures
        path_views(r@) == as_paths(system_dirs()) + (match home {
            Some(h) => seq![h@],
            None => Seq::empty(),
        }),
{
    let mut paths: Vec<Vec<u8>> = Vec::new();
    list_boot_dirs(&mut paths);
    list_run_dirs(&mut paths);
    list_mac_dirs(&mut paths);
    proof {
        assert(path_views(paths@) =~= as_paths(system_dirs()));
    }
    match home {
        Some(h) => {
            let ghost before = paths@;
            let p = copy_bytes(h.as_slice());
            paths.push(p);
            proof {
                assert(path_views(paths@) =~= path_views(before).push(p@));
                assert(path_views(before).push(p@) =~= path_views(before) + seq![p@]);
            }
        },
        None => {
            proof {
                assert(path_views(paths@) =~= path_views(paths@) + Seq::<Seq<u8>>::empty());
            }
        },
    }
    paths
}

impl ValidateOptions {
    /// The options a plan is checked with unless something else is asked for.
    pub fn standard(home: &Option<Vec<u8>>) -> (r: ValidateOptions)
        ensures
            !r.allow_outside_root,
            !r.offline,
            r.headroom_percent == 2,
            path_views(r.protected@) == as_paths(system_dirs()) + (match home {
                Some(h) => seq![h@],
                None => Seq::empty(),
            }),
    {
        ValidateOptions {
            allow_outside_root: false,
            protected: default_protected(home),
            headroom_percent: 2,
            offline: false,
        }
    }
}

/// What a stat made of an entry.
#[derive(Clone, Debug)]
pub enum IdentLook {
    Found(Ident),
    /// There is no such entry.
    Gone,
    Failed(String),
}

/// What was found on disk about one operation.
#[derive(Clone, Debug)]
pub struct OpLook {
    pub source: IdentLook,
    /// Whether the directory the source is in can be written to.
    pub parent_writable: bool,
    /// Whether there is anything at the destination.
    pub dst_exists: bool,
    /// The directory the destination is in, if it is there.
    pub dst_parent: Option<Ident>,
    /// Whether that directory can be written to.
    pub dst_parent_writable: bool,
}

/// What is known of the room on a filesystem.
#[derive(Clone, Copy, Debug)]
pub struct Space {
    pub dev: u64,
    pub available: u64,
    /// How much of that is to be left free.
    pub reserve: u64,
}

/// What was found on the machine.
pub struct World {
    pub host: String,
    /// One for each operation, in order.
    pub looks: Vec<OpLook>,
    pub spaces: Vec<Space>,
}

// ---------------------------------------------------------------------------------------------
// The plan by itself

/// The last operation before `i` that acts on the same path.
pub open spec fn earlier_source(ops: Seq<Op>, i: int, j: int) -> Option<int>
    decreases j,
{
    if j <= 0 {
        None
    } else if same_path(ops[j - 1].from(), ops[i].from()) {
        Some(j - 1)
    } else {
        earlier_source(ops, i, j - 1)
    }
}

/// Whether two operations write to the same path.
pub open spec fn same_target(a: Op, b: Op) -> bool {
    a.to() is Some && b.to() is Some && same_path(a.to()->0, b.to()->0)
}

/// The last operation before `i` that writes to the same path.
pub open spec fn earlier_target(ops: Seq<Op>, i: int, j: int) -> Option<int>
    decreases j,
{
    if j <= 0 {
        None
    } else if same_target(ops[j - 1], ops[i]) {
        Some(j - 1)
    } else {
        earlier_target(ops, i, j - 1)
    }
}

/// The first deleted directory, from `j` on, that `path` lies in.
pub open spec fn deleted_around(ops: Seq<Op>, path: Seq<u8>, j: int) -> Option<int>
    decreases ops.len() - j,
{
    if j < 0 || j >= ops.len() {
        None
    } else if ops[j].deletes_dir() && inside(path, ops[j].from()) {
        Some(j)
    } else {
        deleted_around(ops, path, j + 1)
    }
}

pub open spec fn is_protected(protected: Seq<Vec<u8>>, path: Seq<u8>) -> bool {
    exists|k: int| 0 <= k < protected.len() && same_path(#[trigger] protected[k]@, path)
}

pub open spec fn twice_note(ops: Seq<Op>, i: int) -> Seq<Note> {
    let twice = earlier_source(ops, i, i);
    when(
        twice is Some,
        bad(
            Some(i as usize),
            "same path is already operated on by #"@ + dec(twice->0 as nat),
        ),
    )
}

pub open spec fn protected_note(protected: Seq<Vec<u8>>, path: Seq<u8>, i: int) -> Seq<Note> {
    when(
        is_protected(protected, path),
        bad(Some(i as usize), shown(path) + " is a protected path"@),
    )
}

pub open spec fn root_note(root: Seq<u8>, src: Seq<u8>, i: int) -> Seq<Note> {
    when(
        same_path(src, root),
        bad(Some(i as usize), "refusing to operate on the scan root itself"@),
    )
}

pub open spec fn outside_note(root: Seq<u8>, allowed: bool, src: Seq<u8>, i: int) -> Seq<Note> {
    when(
        !same_path(src, root) && !allowed && !starts_with(src, root),
        bad(
            Some(i as usize),
            shown(src) + " is outside the scanned tree "@ + shown(root),
        ),
    )
}

pub open spec fn covered_note(ops: Seq<Op>, i: int) -> Seq<Note> {
    let around = deleted_around(ops, ops[i].from(), 0);
    let dir = ops[around->0].from();
    when(
        around is Some,
        if ops[i] is Delete {
            caution(
                Some(i as usize),
                "redundant: already covered by the deletion of "@ + shown(dir),
            )
        } else {
            bad(
                Some(i as usize),
                "cannot move out of "@ + shown(dir) + ", which this plan deletes"@,
            )
        },
    )
}

/// What is wrong with the source of an operation.
pub open spec fn source_notes(plan: Plan, opts: ValidateOptions, i: int) -> Seq<Note> {
    let src = plan.ops@[i].from();
    twice_note(plan.ops@, i) + protected_note(opts.protected@, src, i) + root_note(
        plan.root@,
        src,
        i,
    ) + outside_note(plan.root@, opts.allow_outside_root, src, i) + covered_note(plan.ops@, i)
}

pub open spec fn itself_note(dst: Seq<u8>, src: Seq<u8>, i: int) -> Seq<Note> {
    when(same_path(dst, src), bad(Some(i as usize), "destination is the source"@))
}

pub open spec fn within_note(dst: Seq<u8>, src: Seq<u8>, i: int) -> Seq<Note> {
    when(
        inside(dst, src),
        bad(Some(i as usize), "destination is inside the directory being moved"@),
    )
}

pub open spec fn shared_note(ops: Seq<Op>, i: int) -> Seq<Note> {
    let twice = earlier_target(ops, i, i);
    when(
        twice is Some,
        bad(
            Some(i as usize),
            "#"@ + dec(twice->0 as nat) + " already writes to this destination"@,
        ),
    )
}

pub open spec fn doomed_note(ops: Seq<Op>, dst: Seq<u8>, i: int) -> Seq<Note> {
    let around = deleted_around(ops, dst, 0);
    when(
        around is Some,
        bad(
            Some(i as usize),
            "destination is inside "@ + shown(ops[around->0].from())
                + ", which this plan deletes"@,
        ),
    )
}

/// What is wrong with the destination of an operation.
pub open spec fn target_notes(plan: Plan, opts: ValidateOptions, i: int) -> Seq<Note> {
    match plan.ops@[i] {
        Op::Delete { .. } => Seq::empty(),
        Op::Move { src, dst, .. } => itself_note(dst@, src@, i) + within_note(dst@, src@, i)
            + protected_note(opts.protected@, dst@, i) + shared_note(plan.ops@, i) + doomed_note(
            plan.ops@,
            dst@,
            i,
        ),
    }
}

/// What the first `n` operations have wrong with them, by their shape alone: overlaps, collisions,
/// and forbidden targets.
pub open spec fn shape_notes(plan: Plan, opts: ValidateOptions, n: int) -> Seq<Note>
    decreases n,
{
    if n <= 0 {
        Seq::empty()
    } else {
        shape_notes(plan, opts, n - 1) + source_notes(plan, opts, n - 1) + target_notes(
            plan,
            opts,
            n - 1,
        )
    }
}

fn find_source(ops: &Vec<Op>, i: usize) -> (r: Option<usize>)
    requires
        i < ops@.len(),
    ensures
        match r {
            Some(j) => earlier_source(ops@, i as int, i as int) == Some(j as int),
            None => earlier_source(ops@, i as int, i as int) is None,
        },
{
    let mut j: usize = i;
    while j > 0
        invariant
            j <= i < ops@.len(),
            earlier_source(ops@, i as int, i as int) == earlier_source(ops@, i as int, j as int),
        decreases j,
    {
        if paths_match(ops[j - 1].source(), ops[i].source()) {
            return Some(j - 1);
        }
        j -= 1;
    }
    None
}

fn find_target(ops: &Vec<Op>, i: usize) -> (r: Option<usize>)
    requires
        i < ops@.len(),
    ensures
        match r {
            Some(j) => earlier_target(ops@, i as int, i as int) == Some(j as int),
            None => earlier_target(ops@, i as int, i as int) is None,
        },
{
    let mut j: usize = i;
    while j > 0
        invariant
            j <= i < ops@.len(),
            earlier_target(ops@, i as int, i as int) == earlier_target(ops@, i as int, j as int),
        decreases j,
    {
        let same = match (ops[j - 1].destination(), ops[i].destination()) {
            (Some(a), Some(b)) => paths_match(a, b),
            _ => false,
        };
        if same {
            return Some(j - 1);
        }
        j -= 1;
    }
    None
}

fn find_deleted(ops: &Vec<Op>, path: &[u8]) -> (r: Option<usize>)
    ensures
        match r {
            Some(j) => j < ops@.len() && deleted_around(ops@, path@, 0) == Some(j as int),
            None => deleted_around(ops@, path@, 0) is None,
        },
{
    let mut j: usize = 0;
    while j < ops.len()
        invariant
            j <= ops@.len(),
            deleted_around(ops@, path@, 0) == deleted_around(ops@, path@, j as int),
        decreases ops.len() - j,
    {
        if ops[j].is_delete() && ops[j].ident().kind == EntryKind::Dir && is_inside(
            path,
            ops[j].source(),
        ) {
            return Some(j);
        }
        j += 1;
    }
    None
}

fn protects(protected: &Vec<Vec<u8>>, path: &[u8]) -> (r: bool)
    ensures
        r == is_protected(protected@, path@),
{
    let mut k: usize = 0;
    while k < protected.len()
        invariant
            k <= protected@.len(),
            forall|x: int| 0 <= x < k ==> !same_path(#[trigger] protected@[x]@, path@),
        decreases protected.len() - k,
    {
        if paths_match(protected[k].as_slice(), path) {
            proof {
                assert(same_path(protected@[k as int]@, path@));
            }
            return true;
        }
        k += 1;
    }
    false
}

fn note_if(out: &mut Vec<Finding>, finding: Option<Finding>)
    ensures
        notes(final(out)@) == notes(old(out)@) + (match finding {
            Some(f) => seq![f@],
            None => Seq::empty(),
        }),
{
    let ghost before = out@;
    match finding {
        Some(f) => {
            out.push(f);
            proof {
                assert(notes(out@) =~= notes(before) + seq![f@]);
            }
        },
        None => {
            proof {
                assert(notes(out@) =~= notes(before) + Seq::<Note>::empty());
            }
        },
    }
}

fn shown_and(path: &[u8], rest: &str) -> (r: String)
    ensures
        r@ == shown(path@) + rest@,
{
    let p = show(path);
    cat2(p.as_str(), rest)
}

fn around_text(before: &str, path: &[u8], rest: &str) -> (r: String)
    ensures
        r@ == before@ + shown(path@) + rest@,
{
    let p = show(path);
    cat3(before, p.as_str(), rest)
}

fn check_source(plan: &Plan, opts: &ValidateOptions, i: usize, out: &mut Vec<Finding>)
    requires
        i < plan.ops@.len(),
    ensures
        notes(final(out)@) == notes(old(out)@) + source_notes(*plan, *opts, i as int),
{
    let ghost start = notes(out@);
    let op = &plan.ops[i];
    let src = op.source();
    let ghost a = twice_note(plan.ops@, i as int);
    let ghost b = protected_note(opts.protected@, src@, i as int);
    let ghost c = root_note(plan.root@, src@, i as int);
    let ghost d = outside_note(plan.root@, opts.allow_outside_root, src@, i as int);
    let ghost e = covered_note(plan.ops@, i as int);
    let twice = match find_source(&plan.ops, i) {
        Some(first) => {
            let n = decimal(first as u64);
            Some(
                Finding::error(
                    Some(i),
                    cat2("same path is already operated on by #", n.as_str()),
                ),
            )
        },
        None => None,
    };
    note_if(out, twice);
    proof {
        assert(notes(out@) == start + a);
    }
    let guarded = if protects(&opts.protected, src) {
        Some(Finding::error(Some(i), shown_and(src, " is a protected path")))
    } else {
        None
    };
    note_if(out, guarded);
    proof {
        assert(notes(out@) == start + a + b);
    }
    let is_root = paths_match(src, plan.root.as_slice());
    let rooted = if is_root {
        Some(
            Finding::error(
                Some(i),
                String::from_str("refusing to operate on the scan root itself"),
            ),
        )
    } else {
        None
    };
    note_if(out, rooted);
    proof {
        assert(notes(out@) == start + a + b + c);
    }
    let outside = if !is_root && !opts.allow_outside_root && !path_starts_with(
        src,
        plan.root.as_slice(),
    ) {
        let root = show(plan.root.as_slice());
        let mut text = shown_and(src, " is outside the scanned tree ");
        text.append(root.as_str());
        Some(Finding::error(Some(i), text))
    } else {
        None
    };
    note_if(out, outside);
    proof {
        assert(notes(out@) == start + a + b + c + d);
    }
    let covered = match find_deleted(&plan.ops, src) {
        Some(d) => {
            let dir = plan.ops[d].source();
            if op.is_delete() {
                let p = show(dir);
                let text = cat2("redundant: already covered by the deletion of ", p.as_str());
                Some(Finding::warn(Some(i), text))
            } else {
                Some(
                    Finding::error(
                        Some(i),
                        around_text("cannot move out of ", dir, ", which this plan deletes"),
                    ),
                )
            }
        },
        None => None,
    };
    note_if(out, covered);
    proof {
        assert(notes(out@) == start + a + b + c + d + e);
        lemma_five(start, a, b, c, d, e);
    }
}

proof fn lemma_five(
    start: Seq<Note>,
    a: Seq<Note>,
    b: Seq<Note>,
    c: Seq<Note>,
    d: Seq<Note>,
    e: Seq<Note>,
)
    ensures
        start + a + b + c + d + e == start + (a + b + c + d + e),
{
    assert(start + a + b + c + d + e =~= start + (a + b + c + d + e));
}

fn check_target(plan: &Plan, opts: &ValidateOptions, i: usize, out: &mut Vec<Finding>)
    requires
        i < plan.ops@.len(),
    ensures
        notes(final(out)@) == notes(old(out)@) + target_notes(*plan, *opts, i as int),
{
    let ghost start = notes(out@);
    match &plan.ops[i] {
        Op::Delete { .. } => {
            proof {
                assert(notes(out@) =~= start + Seq::<Note>::empty());
            }
        },
        Op::Move { src, dst, .. } => {
            let src = src.as_slice();
            let dst = dst.as_slice();
            let ghost a = itself_note(dst@, src@, i as int);
            let ghost b = within_note(dst@, src@, i as int);
            let ghost c = protected_note(opts.protected@, dst@, i as int);
            let ghost d = shared_note(plan.ops@, i as int);
            let ghost e = doomed_note(plan.ops@, dst@, i as int);
            let same = if paths_match(dst, src) {
                Some(Finding::error(Some(i), String::from_str("destination is the source")))
            } else {
                None
            };
            note_if(out, same);
            proof {
                assert(notes(out@) == start + a);
            }
            let within = if is_inside(dst, src) {
                Some(
                    Finding::error(
                        Some(i),
                        String::from_str("destination is inside the directory being moved"),
                    ),
                )
            } else {
                None
            };
            note_if(out, within);
            proof {
                assert(notes(out@) == start + a + b);
            }
            let guarded = if protects(&opts.protected, dst) {
                Some(Finding::error(Some(i), shown_and(dst, " is a protected path")))
            } else {
                None
            };
            note_if(out, guarded);
            proof {
                assert(notes(out@) == start + a + b + c);
            }
            let twice = match find_target(&plan.ops, i) {
                Some(first) => {
                    let n = decimal(first as u64);
                    Some(
                        Finding::error(
                            Some(i),
                            cat3("#", n.as_str(), " already writes to this destination"),
                        ),
                    )
                },
                None => None,
            };
            note_if(out, twice);
            proof {
                assert(notes(out@) == start + a + b + c + d);
            }
            let doomed = match find_deleted(&plan.ops, dst) {
                Some(d) => Some(
                    Finding::error(
                        Some(i),
                        around_text(
                            "destination is inside ",
                            plan.ops[d].source(),
                            ", which this plan deletes",
                        ),
                    ),
                ),
                None => None,
            };
            note_if(out, doomed);
            proof {
                lemma_five(start, a, b, c, d, e);
            }
        },
    }
}

/// Checks that need only the plan itself: overlaps, collisions, and forbidden targets.
pub fn check_shape(plan: &Plan, opts: &ValidateOptions, out: &mut Vec<Finding>)
    ensures
        notes(final(out)@) == notes(old(out)@) + shape_notes(
            *plan,
            *opts,
            plan.ops@.len() as int,
        ),
{
    let ghost start = notes(out@);
    let mut i: usize = 0;
    proof {
        assert(notes(out@) =~= start + shape_notes(*plan, *opts, 0));
    }
    while i < plan.ops.len()
        invariant
            i <= plan.ops@.len(),
            notes(out@) == start + shape_notes(*plan, *opts, i as int),
        decreases plan.ops.len() - i,
    {
        check_source(plan, opts, i, out);
        check_target(plan, opts, i, out);
        proof {
            assert(notes(out@) =~= start + shape_notes(*plan, *opts, i + 1));
        }
        i += 1;
    }
}

// ---------------------------------------------------------------------------------------------
// The plan against the machine

/// Two sizes as they are quoted side by side: rounded, unless they would read the same.
pub open spec fn sizes_told_apart(was: u64, now: u64) -> (Seq<char>, Seq<char>) {
    let before = size_text(was as nat);
    let after = size_text(now as nat);
    if before == after {
        (dec(was as nat) + " B"@, dec(now as nat) + " B"@)
    } else {
        (before, after)
    }
}

/// Which part of an identity moved, so the user can judge whether they still mean it.
pub open spec fn changed_text(was: Ident, now: Ident) -> Seq<char> {
    if was.ino != now.ino || was.dev != now.dev {
        "changed since staging: a different file now occupies this path"@
    } else if was.kind != now.kind {
        "changed since staging: now a "@ + crate::exec::kind_word(now.kind)
    } else if was.size != now.size {
        let (before, after) = sizes_told_apart(was.size, now.size);
        "changed since staging: size "@ + before + " -> "@ + after
    } else {
        // For a directory this is the usual signal: something was added or removed inside it.
        "changed since staging: modified at "@ + time_text_secs(now.mtime as int) + " (was "@
            + time_text_secs(was.mtime as int) + ")"@
    }
}

/// Say which part of the identity moved, so the user can judge whether they still mean it. A bare
/// "it changed" leaves them re-deriving what is already known.
pub fn changed_message(was: &Ident, now: &Ident) -> (r: String)
    ensures
        r@ == changed_text(*was, *now),
{
    if was.ino != now.ino || was.dev != now.dev {
        String::from_str("changed since staging: a different file now occupies this path")
    } else if was.kind != now.kind {
        cat2(
            "changed since staging: now a ",
            match now.kind {
                EntryKind::Dir => "dir",
                EntryKind::File => "file",
                EntryKind::Symlink => "symlink",
                EntryKind::Other => "other",
            },
        )
    } else if was.size != now.size {
        let mut a = human_size(was.size);
        let mut b = human_size(now.size);
        if a == b {
            let x = decimal(was.size);
            a = cat2(x.as_str(), " B");
            let y = decimal(now.size);
            b = cat2(y.as_str(), " B");
        }
        let mut text = cat3("changed since staging: size ", a.as_str(), " -> ");
        text.append(b.as_str());
        text
    } else {
        let a = format_time_secs(now.mtime);
        let b = format_time_secs(was.mtime);
        let mut text = cat3("changed since staging: modified at ", a.as_str(), " (was ");
        text.append(b.as_str());
        text.append(")");
        text
    }
}

/// A change is never reported by quoting a value against itself: two sizes that differ are quoted
/// differently, and so are two times.
pub proof fn law_changes_are_told_apart(was: Ident, now: Ident)
    ensures
        was.size != now.size ==> sizes_told_apart(was.size, now.size).0 != sizes_told_apart(
            was.size,
            now.size,
        ).1,
        was.mtime != now.mtime ==> time_text_secs(was.mtime as int) != time_text_secs(
            now.mtime as int,
        ),
{
    if was.size != now.size {
        let a = dec(was.size as nat);
        let b = dec(now.size as nat);
        if a + " B"@ == b + " B"@ {
            assert((a + " B"@).len() == a.len() + " B"@.len());
            assert(a =~= (a + " B"@).take(a.len() as int));
            assert(b =~= (b + " B"@).take(b.len() as int));
            lemma_dec_distinct(was.size as nat, now.size as nat);
        }
    }
    if was.mtime != now.mtime {
        law_times_are_told_apart(was.mtime as int, now.mtime as int);
    }
}

/// What is wrong where a move is to go, and whether it needs room there: the device, and the
/// directory.
pub open spec fn arrival(
    dst: Seq<u8>,
    ident: Ident,
    on_conflict: Conflict,
    look: OpLook,
    at: Option<usize>,
) -> (Seq<Note>, Option<(u64, Seq<u8>)>) {
    if look.dst_exists && on_conflict == Conflict::Fail {
        (seq![bad(at, shown(dst) + " already exists"@)], None)
    } else {
        let there = when(
            look.dst_exists,
            caution(at, shown(dst) + " exists; will be skipped"@),
        );
        match parent_of(dst) {
            None => (there, None),
            Some(dir) => match look.dst_parent {
                None => (
                    there + seq![
                        bad(at, "destination directory "@ + shown(dir) + " does not exist"@),
                    ],
                    None,
                ),
                Some(id) => if id.kind != EntryKind::Dir {
                    (there + seq![bad(at, shown(dir) + " is not a directory"@)], None)
                } else {
                    let locked = there + when(
                        !look.dst_parent_writable,
                        bad(at, "no write permission on "@ + shown(dir)),
                    );
                    // A move within one filesystem is a rename: instant, and it consumes nothing.
                    if id.dev == ident.dev {
                        (locked, None)
                    } else {
                        (
                            locked + seq![
                                caution(
                                    at,
                                    "crosses filesystems: will be copied and verified, then the source removed"@,
                                ),
                            ],
                            Some((id.dev, dir)),
                        )
                    }
                },
            },
        }
    }
}

/// What is wrong with an operation as things stand on disk, and what room it needs.
pub open spec fn op_notes(op: Op, look: OpLook, at: Option<usize>) -> (
    Seq<Note>,
    Option<(u64, Seq<u8>)>,
) {
    let src = op.from();
    match look.source {
        IdentLook::Gone => (seq![bad(at, shown(src) + " no longer exists"@)], None),
        IdentLook::Failed(e) => (
            seq![bad(at, "cannot stat "@ + shown(src) + ": "@ + e@)],
            None,
        ),
        IdentLook::Found(now) => if now != op.staged() {
            (seq![bad(at, changed_text(op.staged(), now))], None)
        } else {
            // Removing or renaming an entry is a write to its parent, not to the entry itself.
            let locked = when(
                parent_of(src) is Some && !look.parent_writable,
                bad(at, "no write permission on "@ + shown(parent_of(src)->0)),
            );
            match op {
                Op::Delete { .. } => (locked, None),
                Op::Move { dst, ident, on_conflict, .. } => {
                    let (rest, room) = arrival(dst@, ident, on_conflict, look, at);
                    (locked + rest, room)
                },
            }
        },
    }
}

/// What a filesystem is asked to take in.
#[derive(Debug)]
pub struct Demand {
    pub dev: u64,
    pub needed: u64,
    pub dir: Vec<u8>,
}

pub struct Need {
    pub dev: u64,
    pub needed: u64,
    pub dir: Seq<u8>,
}

impl View for Demand {
    type V = Need;

    open spec fn view(&self) -> Need {
        Need { dev: self.dev, needed: self.needed, dir: self.dir@ }
    }
}

pub open spec fn needs(demands: Seq<Demand>) -> Seq<Need> {
    demands.map_values(|d: Demand| d@)
}

/// The first demand on `dev`, from `k` on.
pub open spec fn demand_on(list: Seq<Need>, dev: u64, k: int) -> int
    decreases list.len() - k,
{
    if k < 0 || k >= list.len() || list[k].dev == dev {
        k
    } else {
        demand_on(list, dev, k + 1)
    }
}

pub open spec fn capped(n: int) -> u64 {
    if n > u64::MAX {
        u64::MAX
    } else {
        n as u64
    }
}

/// The demands once `bytes` more are asked of `dev`. The directory named first stands for it.
pub open spec fn asked(list: Seq<Need>, dev: u64, dir: Seq<u8>, bytes: u64) -> Seq<Need> {
    let k = demand_on(list, dev, 0);
    if k < list.len() {
        list.update(k, Need { needed: capped(list[k].needed + bytes), ..list[k] })
    } else {
        list.push(Need { dev, needed: capped(bytes as int), dir })
    }
}

/// What the first `n` operations have wrong with them as things stand on disk, and what they ask
/// of each filesystem.
pub open spec fn disk_notes(ops: Seq<Op>, looks: Seq<OpLook>, n: int) -> (Seq<Note>, Seq<Need>)
    decreases n,
{
    if n <= 0 {
        (Seq::empty(), Seq::empty())
    } else {
        let (found, list) = disk_notes(ops, looks, n - 1);
        let (more, room) = op_notes(ops[n - 1], looks[n - 1], Some((n - 1) as usize));
        (
            found + more,
            match room {
                Some((dev, dir)) => asked(list, dev, dir, ops[n - 1].bytes()),
                None => list,
            },
        )
    }
}

/// The first thing known of the room on `dev`, from `k` on.
pub open spec fn space_on(spaces: Seq<Space>, dev: u64, k: int) -> int
    decreases spaces.len() - k,
{
    if k < 0 || k >= spaces.len() || spaces[k].dev == dev {
        k
    } else {
        space_on(spaces, dev, k + 1)
    }
}

/// What is wrong with the room a filesystem has.
pub open spec fn room_note(need: Need, spaces: Seq<Space>, percent: u64) -> Seq<Note> {
    let k = space_on(spaces, need.dev, 0);
    if k >= spaces.len() {
        Seq::empty()
    } else {
        let space = spaces[k];
        when(
            need.needed + space.reserve > space.available,
            bad(
                None,
                shown(need.dir) + " needs "@ + size_text(need.needed as nat) + " but "@ + shown(
                    need.dir,
                ) + " has "@ + size_text(space.available as nat) + " free ("@ + dec(percent as nat)
                    + "% reserved)"@,
            ),
        )
    }
}

pub open spec fn room_notes(list: Seq<Need>, spaces: Seq<Space>, percent: u64, n: int) -> Seq<Note>
    decreases n,
{
    if n <= 0 {
        Seq::empty()
    } else {
        room_notes(list, spaces, percent, n - 1) + room_note(list[n - 1], spaces, percent)
    }
}

fn check_arrival(
    dst: &[u8],
    ident: &Ident,
    on_conflict: Conflict,
    look: &OpLook,
    at: usize,
    out: &mut Vec<Finding>,
) -> (r: Option<(u64, Vec<u8>)>)
    ensures
        notes(final(out)@) == notes(old(out)@) + arrival(
            dst@,
            *ident,
            on_conflict,
            *look,
            Some(at),
        ).0,
        match r {
            Some((dev, dir)) => arrival(dst@, *ident, on_conflict, *look, Some(at)).1 == Some(
                (dev, dir@),
            ),
            None => arrival(dst@, *ident, on_conflict, *look, Some(at)).1 is None,
        },
{
    let ghost start = notes(out@);
    let ghost all = arrival(dst@, *ident, on_conflict, *look, Some(at)).0;
    if look.dst_exists && on_conflict == Conflict::Fail {
        note_if(out, Some(Finding::error(Some(at), shown_and(dst, " already exists"))));
        return None;
    }
    let there = if look.dst_exists {
        Some(Finding::warn(Some(at), shown_and(dst, " exists; will be skipped")))
    } else {
        None
    };
    note_if(out, there);
    let dir = match parent(dst) {
        Some(dir) => dir,
        None => {
            proof {
                assert(notes(out@) =~= start + all);
            }
            return None;
        },
    };
    let id = match &look.dst_parent {
        Some(id) => *id,
        None => {
            note_if(
                out,
                Some(
                    Finding::error(
                        Some(at),
                        around_text("destination directory ", dir.as_slice(), " does not exist"),
                    ),
                ),
            );
            proof {
                assert(notes(out@) =~= start + all);
            }
            return None;
        },
    };
    if id.kind != EntryKind::Dir {
        note_if(
            out,
            Some(Finding::error(Some(at), shown_and(dir.as_slice(), " is not a directory"))),
        );
        proof {
            assert(notes(out@) =~= start + all);
        }
        return None;
    }
    let locked = if look.dst_parent_writable {
        None
    } else {
        let p = show(dir.as_slice());
        Some(Finding::error(Some(at), cat2("no write permission on ", p.as_str())))
    };
    note_if(out, locked);
    if id.dev == ident.dev {
        proof {
            assert(notes(out@) =~= start + all);
        }
        return None;
    }
    note_if(
        out,
        Some(
            Finding::warn(
                Some(at),
                String::from_str(
                    "crosses filesystems: will be copied and verified, then the source removed",
                ),
            ),
        ),
    );
    proof {
        assert(notes(out@) =~= start + all);
    }
    Some((id.dev, dir))
}

fn check_op(op: &Op, look: &OpLook, at: usize, out: &mut Vec<Finding>) -> (r: Option<
    (u64, Vec<u8>),
>)
    ensures
        notes(final(out)@) == notes(old(out)@) + op_notes(*op, *look, Some(at)).0,
        match r {
            Some((dev, dir)) => op_notes(*op, *look, Some(at)).1 == Some((dev, dir@)),
            None => op_notes(*op, *look, Some(at)).1 is None,
        },
{
    let ghost start = notes(out@);
    let ghost all = op_notes(*op, *look, Some(at)).0;
    let src = op.source();
    match &look.source {
        IdentLook::Gone => {
            note_if(out, Some(Finding::error(Some(at), shown_and(src, " no longer exists"))));
            return None;
        },
        IdentLook::Failed(e) => {
            let mut text = around_text("cannot stat ", src, ": ");
            text.append(e.as_str());
            note_if(out, Some(Finding::error(Some(at), text)));
            return None;
        },
        IdentLook::Found(now) => {
            if *now != *op.ident() {
                note_if(out, Some(Finding::error(Some(at), changed_message(op.ident(), now))));
                return None;
            }
        },
    }
    let locked = match parent(src) {
        Some(dir) => if look.parent_writable {
            None
        } else {
            let p = show(dir.as_slice());
            Some(Finding::error(Some(at), cat2("no write permission on ", p.as_str())))
        },
        None => None,
    };
    note_if(out, locked);
    match op {
        Op::Delete { .. } => None,
        Op::Move { dst, ident, on_conflict, .. } => {
            let room = check_arrival(dst.as_slice(), ident, *on_conflict, look, at, out);
            proof {
                assert(notes(out@) =~= start + all);
            }
            room
        },
    }
}

fn ask_room(list: &mut Vec<Demand>, dev: u64, dir: Vec<u8>, bytes: u64)
    ensures
        needs(final(list)@) == asked(needs(old(list)@), dev, dir@, bytes),
{
    let ghost before = needs(list@);
    let mut k: usize = 0;
    while k < list.len()
        invariant
            k <= list@.len(),
            before == needs(list@),
            before == needs(old(list)@),
            demand_on(before, dev, 0) == demand_on(before, dev, k as int),
        decreases list.len() - k,
    {
        if list[k].dev == dev {
            let needed: u64 = list[k].needed.saturating_add(bytes);
            let old_dir = copy_bytes(list[k].dir.as_slice());
            let grown = Demand { dev, needed, dir: old_dir };
            proof {
                assert(before[k as int] == list@[k as int]@);
            }
            let ghost was = list@;
            list.set(k, grown);
            proof {
                assert(needs(list@) =~= asked(before, dev, dir@, bytes));
            }
            return;
        }
        k += 1;
    }
    let fresh = Demand { dev, needed: bytes, dir };
    list.push(fresh);
    proof {
        assert(needs(list@) =~= asked(before, dev, fresh.dir@, bytes));
    }
}

fn check_room(demand: &Demand, spaces: &Vec<Space>, percent: u64, out: &mut Vec<Finding>)
    ensures
        notes(final(out)@) == notes(old(out)@) + room_note(demand@, spaces@, percent),
{
    let ghost start = notes(out@);
    let mut k: usize = 0;
    while k < spaces.len() && spaces[k].dev != demand.dev
        invariant
            k <= spaces@.len(),
            space_on(spaces@, demand.dev, 0) == space_on(spaces@, demand.dev, k as int),
        decreases spaces.len() - k,
    {
        k += 1;
    }
    if k < spaces.len() {
        let space = spaces[k];
        if demand.needed as u128 + space.reserve as u128 > space.available as u128 {
            let dir = show(demand.dir.as_slice());
            let needed = human_size(demand.needed);
            let available = human_size(space.available);
            let pct = decimal(percent);
            let mut text = cat3(dir.as_str(), " needs ", needed.as_str());
            text.append(" but ");
            text.append(dir.as_str());
            text.append(" has ");
            text.append(available.as_str());
            text.append(" free (");
            text.append(pct.as_str());
            text.append("% reserved)");
            note_if(out, Some(Finding::error(None, text)));
            return;
        }
    }
    proof {
        assert(notes(out@) =~= start + room_note(demand@, spaces@, percent));
    }
}

/// Checks that need to look at the disk: does the source still match, is the destination clear,
/// is there room, and are the parent directories writable.
pub fn check_filesystem(
    plan: &Plan,
    looks: &Vec<OpLook>,
    spaces: &Vec<Space>,
    percent: u64,
    out: &mut Vec<Finding>,
)
    requires
        looks@.len() == plan.ops@.len(),
    ensures
        ({
            let (found, list) = disk_notes(plan.ops@, looks@, plan.ops@.len() as int);
            notes(final(out)@) == notes(old(out)@) + found + room_notes(
                list,
                spaces@,
                percent,
                list.len() as int,
            )
        }),
{
    let ghost start = notes(out@);
    let mut list: Vec<Demand> = Vec::new();
    let mut i: usize = 0;
    proof {
        assert(notes(out@) =~= start + disk_notes(plan.ops@, looks@, 0).0);
        assert(needs(list@) =~= disk_notes(plan.ops@, looks@, 0).1);
    }
    while i < plan.ops.len()
        invariant
            i <= plan.ops@.len(),
            looks@.len() == plan.ops@.len(),
            notes(out@) == start + disk_notes(plan.ops@, looks@, i as int).0,
            needs(list@) == disk_notes(plan.ops@, looks@, i as int).1,
        decreases plan.ops.len() - i,
    {
        let ghost here = notes(out@);
        let room = check_op(&plan.ops[i], &looks[i], i, out);
        match room {
            Some((dev, dir)) => {
                ask_room(&mut list, dev, dir, plan.ops[i].est_bytes());
            },
            None => {},
        }
        proof {
            assert(notes(out@) =~= start + disk_notes(plan.ops@, looks@, i + 1).0);
        }
        i += 1;
    }
    let ghost found = disk_notes(plan.ops@, looks@, plan.ops@.len() as int).0;
    let mut k: usize = 0;
    proof {
        assert(notes(out@) =~= start + found + room_notes(needs(list@), spaces@, percent, 0));
    }
    while k < list.len()
        invariant
            k <= list@.len(),
            notes(out@) == start + found + room_notes(needs(list@), spaces@, percent, k as int),
        decreases list.len() - k,
    {
        check_room(&list[k], spaces, percent, out);
        proof {
            assert(needs(list@)[k as int] == list@[k as int]@);
            assert(notes(out@) =~= start + found + room_notes(
                needs(list@),
                spaces@,
                percent,
                k + 1,
            ));
        }
        k += 1;
    }
}

// ---------------------------------------------------------------------------------------------
// The whole

/// Everything that is found, in the order the checks are made.
pub open spec fn all_notes(plan: Plan, opts: ValidateOptions, world: World) -> Seq<Note> {
    let (found, list) = disk_notes(plan.ops@, world.looks@, plan.ops@.len() as int);
    let shape = when(plan.ops@.len() == 0, caution(None, "plan is empty"@)) + when(
        !opts.offline && plan.host@ != world.host@,
        bad(
            None,
            "plan was made on "@ + quoted(plan.host@) + " but this is "@ + quoted(world.host@)
                + "; inode identities do not carry across machines"@,
        ),
    ) + shape_notes(plan, opts, plan.ops@.len() as int);
    if opts.offline {
        shape
    } else {
        shape + found + room_notes(list, world.spaces@, opts.headroom_percent, list.len() as int)
    }
}

/// What findings are put in order by: errors first, then by operation, those about the whole plan
/// before the rest.
pub open spec fn note_rank(note: Note) -> Rank {
    Rank {
        major: match note.severity {
            Severity::Error => 0,
            Severity::Warning => 1,
        },
        minor: match note.op {
            None => 0,
            Some(i) => (i + 1) as u64,
        },
    }
}

pub open spec fn note_ranks(list: Seq<Note>) -> Seq<Rank> {
    list.map_values(|n: Note| note_rank(n))
}

/// Whether `sorted` holds `list` in order, findings that rank alike as they came.
pub open spec fn in_note_order(list: Seq<Note>, sorted: Seq<Note>) -> bool {
    exists|p: Seq<int>| #[trigger]
        is_order(note_ranks(list), p) && sorted == p.map_values(|k: int| list[k])
}

/// The newer-format finding, after which nothing else is looked at: nothing can be trusted about a
/// format that is not known.
pub open spec fn newer_note(version: u32) -> Note {
    bad(
        None,
        "plan format v"@ + dec(version as nat) + " is newer than this build understands (v"@ + dec(
            PLAN_VERSION as nat,
        ) + ")"@,
    )
}

/// Whether every finding about an operation speaks of one the plan has.
spec fn ops_in_range(list: Seq<Note>, n: nat) -> bool {
    forall|k: int| 0 <= k < list.len() ==> ((#[trigger] list[k]).op matches Some(i) ==> i < n)
}

proof fn lemma_shape_range(plan: Plan, opts: ValidateOptions, n: int)
    requires
        0 <= n <= plan.ops@.len() <= usize::MAX,
    ensures
        ops_in_range(shape_notes(plan, opts, n), plan.ops@.len()),
    decreases n,
{
    if n > 0 {
        lemma_shape_range(plan, opts, n - 1);
        let m = plan.ops@.len();
        let i = n - 1;
        let src = plan.ops@[i].from();
        let a = twice_note(plan.ops@, i);
        let b = protected_note(opts.protected@, src, i);
        let c = root_note(plan.root@, src, i);
        let d = outside_note(plan.root@, opts.allow_outside_root, src, i);
        let e = covered_note(plan.ops@, i);
        lemma_range_cat(a, b, m);
        lemma_range_cat(a + b, c, m);
        lemma_range_cat(a + b + c, d, m);
        lemma_range_cat(a + b + c + d, e, m);
        match plan.ops@[i] {
            Op::Delete { .. } => {
                assert(ops_in_range(target_notes(plan, opts, i), m));
            },
            Op::Move { src: from, dst, .. } => {
                let a = itself_note(dst@, from@, i);
                let b = within_note(dst@, from@, i);
                let c = protected_note(opts.protected@, dst@, i);
                let d = shared_note(plan.ops@, i);
                let e = doomed_note(plan.ops@, dst@, i);
                lemma_range_cat(a, b, m);
                lemma_range_cat(a + b, c, m);
                lemma_range_cat(a + b + c, d, m);
                lemma_range_cat(a + b + c + d, e, m);
            },
        }
        lemma_range_cat(shape_notes(plan, opts, i), source_notes(plan, opts, i), m);
        lemma_range_cat(
            shape_notes(plan, opts, i) + source_notes(plan, opts, i),
            target_notes(plan, opts, i),
            m,
        );
    }
}

proof fn lemma_range_cat(a: Seq<Note>, b: Seq<Note>, n: nat)
    requires
        ops_in_range(a, n),
        ops_in_range(b, n),
    ensures
        ops_in_range(a + b, n),
{
    assert forall|k: int| 0 <= k < (a + b).len() implies ((#[trigger] (a + b)[k]).op matches Some(
        i,
    ) ==> i < n) by {
        if k < a.len() {
            assert((a + b)[k] == a[k]);
        } else {
            assert((a + b)[k] == b[k - a.len()]);
        }
    }
}

proof fn lemma_disk_range(ops: Seq<Op>, looks: Seq<OpLook>, n: int)
    requires
        0 <= n <= ops.len() <= usize::MAX,
    ensures
        ops_in_range(disk_notes(ops, looks, n).0, ops.len()),
    decreases n,
{
    if n > 0 {
        lemma_disk_range(ops, looks, n - 1);
    }
}

proof fn lemma_room_range(list: Seq<Need>, spaces: Seq<Space>, percent: u64, n: int, ops: nat)
    ensures
        ops_in_range(room_notes(list, spaces, percent, n), ops),
    decreases n,
{
    if n > 0 {
        lemma_room_range(list, spaces, percent, n - 1, ops);
    }
}

fn sort_findings(list: Vec<Finding>, Ghost(n): Ghost<nat>) -> (r: Vec<Finding>)
    requires
        ops_in_range(notes(list@), n),
        n <= usize::MAX,
    ensures
        in_note_order(notes(list@), notes(r@)),
{
    let mut ranks: Vec<Rank> = Vec::new();
    while ranks.len() < list.len()
        invariant
            ranks@.len() <= list@.len(),
            ops_in_range(notes(list@), n),
            n <= usize::MAX,
            ranks@ == note_ranks(notes(list@)).take(ranks@.len() as int),
        decreases list.len() - ranks.len(),
    {
        let ghost k = ranks@.len() as int;
        let f = &list[ranks.len()];
        proof {
            assert(notes(list@)[k] == f@);
        }
        let major: u64 = match f.severity {
            Severity::Error => 0,
            Severity::Warning => 1,
        };
        let minor: u64 = match f.op {
            None => 0,
            Some(i) => i as u64 + 1,
        };
        ranks.push(Rank { major, minor });
        proof {
            assert(ranks@ =~= note_ranks(notes(list@)).take(k + 1));
        }
    }
    proof {
        assert(ranks@ =~= note_ranks(notes(list@)));
    }
    let order = stable_order(&ranks);
    let mut out: Vec<Finding> = Vec::new();
    let mut i: usize = 0;
    while i < order.len()
        invariant
            i <= order@.len(),
            forall|k: int| 0 <= k < order@.len() ==> #[trigger] order@[k] < list@.len(),
            notes(out@) == ints(order@).take(i as int).map_values(|k: int| notes(list@)[k]),
        decreases order.len() - i,
    {
        let f = &list[order[i]];
        let copy = Finding { severity: f.severity, op: f.op, message: f.message.clone() };
        let ghost before = out@;
        out.push(copy);
        proof {
            assert(notes(out@) =~= notes(before).push(copy@));
            assert(notes(list@)[order@[i as int] as int] == list@[order@[i as int] as int]@);
            assert(notes(out@) =~= ints(order@).take(i + 1).map_values(|k: int| notes(list@)[k]));
        }
        i += 1;
    }
    proof {
        let p = ints(order@);
        assert(p.take(i as int) =~= p);
        assert(is_order(note_ranks(notes(list@)), p));
    }
    out
}

/// Check a plan. No errors means it is safe to run.
pub fn validate(plan: &Plan, opts: &ValidateOptions, world: &World) -> (r: Vec<Finding>)
    requires
        !opts.offline ==> world.looks@.len() == plan.ops@.len(),
    ensures
        plan.version > PLAN_VERSION ==> notes(r@) == seq![newer_note(plan.version)],
        plan.version <= PLAN_VERSION ==> in_note_order(all_notes(*plan, *opts, *world), notes(r@)),
{
    let mut out: Vec<Finding> = Vec::new();
    if plan.version > PLAN_VERSION {
        let v = decimal(plan.version as u64);
        let mine = decimal(PLAN_VERSION as u64);
        let mut text = cat3("plan format v", v.as_str(), " is newer than this build understands (v");
        text.append(mine.as_str());
        text.append(")");
        out.push(Finding::error(None, text));
        proof {
            assert(notes(out@) =~= seq![newer_note(plan.version)]);
        }
        // Nothing below can be trusted about a format that is not known.
        return out;
    }
    proof {
        assert(notes(out@) =~= Seq::<Note>::empty());
    }
    let empty = if plan.ops.len() == 0 {
        Some(Finding::warn(None, String::from_str("plan is empty")))
    } else {
        None
    };
    note_if(&mut out, empty);
    let elsewhere = if !opts.offline && plan.host != world.host {
        let theirs = quote(plan.host.as_str());
        let ours = quote(world.host.as_str());
        let mut text = cat3("plan was made on ", theirs.as_str(), " but this is ");
        text.append(ours.as_str());
        text.append("; inode identities do not carry across machines");
        Some(Finding::error(None, text))
    } else {
        None
    };
    note_if(&mut out, elsewhere);
    check_shape(plan, opts, &mut out);
    if !opts.offline {
        check_filesystem(plan, &world.looks, &world.spaces, opts.headroom_percent, &mut out);
    }
    let ghost n = plan.ops@.len();
    proof {
        assert(notes(out@) =~= all_notes(*plan, *opts, *world));
        assert(plan.ops.len() == n);
        lemma_shape_range(*plan, *opts, n as int);
        let (found, list) = disk_notes(plan.ops@, world.looks@, n as int);
        lemma_disk_range(plan.ops@, world.looks@, n as int);
        lemma_room_range(list, world.spaces@, opts.headroom_percent, list.len() as int, n);
        assert(ops_in_range(notes(out@), n));
    }
    sort_findings(out, Ghost(n))
}

/// Errors come before warnings.
pub proof fn law_errors_come_first(list: Seq<Note>, sorted: Seq<Note>, i: int, j: int)
    requires
        in_note_order(list, sorted),
        0 <= i < j < sorted.len(),
        sorted[j].severity == Severity::Error,
    ensures
        sorted[i].severity == Severity::Error,
{
    let p = choose|p: Seq<int>| #[trigger]
        is_order(note_ranks(list), p) && sorted == p.map_values(|k: int| list[k]);
    assert(comes_first(note_ranks(list), p[i], p[j]));
    assert(sorted[i] == list[p[i]] && sorted[j] == list[p[j]]);
    assert(note_ranks(list)[p[i]] == note_rank(list[p[i]]));
    assert(note_ranks(list)[p[j]] == note_rank(list[p[j]]));
}

/// The directories that the system needs.
pub proof fn law_what_the_system_needs()
    ensures
        system_dirs() == seq![
            "/"@,
            "/bin"@,
            "/boot"@,
            "/dev"@,
            "/etc"@,
            "/home"@,
            "/lib"@,
            "/lib32"@,
            "/lib64"@,
            "/libx32"@,
            "/opt"@,
            "/proc"@,
            "/root"@,
            "/run"@,
            "/sbin"@,
            "/srv"@,
            "/sys"@,
            "/tmp"@,
            "/usr"@,
            "/var"@,
            "/System"@,
            "/Applications"@,
            "/Library"@,
            "/Users"@,
            "/private"@,
            "/Volumes"@,
        ],
        forall|k: int|
            0 <= k < system_dirs().len() ==> as_paths(system_dirs())[k] == vstd::utf8::encode_utf8(
                #[trigger] system_dirs()[k],
            ),
{
}

} // verus!
