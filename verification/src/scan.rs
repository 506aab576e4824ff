//! Parallel filesystem scanner.
//!
//! Worker threads read directories and stat their entries; a single builder owns the tree and
//! assembles it from their results. The tree is always internally consistent, so a frontend can
//! render it while the scan is still running.
//!
//! Directories are handed to workers as open descriptors wherever possible, so a subdirectory is
//! reached from its parent rather than by walking its path again. Symlinks are never followed.
//!
//! What decides anything is here; the descriptors themselves, of some type `F`, are only carried
//! through.

pub mod builder;
pub mod found;

use std::sync::atomic::{AtomicUsize, Ordering};

use vstd::prelude::*;

use crate::exec::remove::{is_dot, is_dot_name};
use crate::model::{Kind, Meta, NodeId};
use crate::stat::Stat;
use crate::text::{copy_bytes, same_bytes};

verus! {

/// Options controlling a scan.
#[derive(Debug)]
pub struct ScanOptions {
    /// Number of directory-reading threads.
    pub threads: usize,
    /// Do not descend into directories on a different filesystem than the root.
    pub one_file_system: bool,
    /// Entry names to skip entirely (exact match, e.g. `.git`, `node_modules`).
    pub exclude_names: Vec<Vec<u8>>,
    /// Upper bound on directory descriptors held open by the queue at once. Beyond this, pending
    /// directories fall back to being reopened by path, which is slower but cannot exhaust the
    /// process's descriptor limit on very wide trees.
    pub max_open_dirs: usize,
}

/// How many threads read directories on a machine that can run this many at once.
pub open spec fn threads_for(parallelism: Option<usize>) -> usize {
    match parallelism {
        None => 4,
        Some(n) => if n < 1 {
            1
        } else if n > 8 {
            8
        } else {
            n
        },
    }
}

impl ScanOptions {
    /// The options a scan has unless something else is asked for.
    pub fn standard(parallelism: Option<usize>) -> (r: Self)
        ensures
            r.threads == threads_for(parallelism),
            !r.one_file_system,
            r.exclude_names@.len() == 0,
            r.max_open_dirs == 256,
    {
        let threads: usize = match parallelism {
            None => 4,
            Some(n) => if n < 1 {
                1
            } else if n > 8 {
                8
            } else {
                n
            },
        };
        ScanOptions {
            threads,
            one_file_system: false,
            exclude_names: Vec::new(),
            max_open_dirs: 256,
        }
    }

    /// How many threads to start: one at least.
    pub fn workers(&self) -> (r: usize)
        ensures
            r == (if self.threads < 1 {
                1
            } else {
                self.threads
            }),
    {
        if self.threads < 1 {
            1
        } else {
            self.threads
        }
    }

    pub open spec fn excludes(&self, name: Seq<u8>) -> bool {
        exists|k: int| 0 <= k < self.exclude_names@.len() && #[trigger] self.exclude_names@[k]@ == name
    }

    pub fn is_excluded(&self, name: &[u8]) -> (r: bool)
        ensures
            r == self.excludes(name@),
    {
        let mut i: usize = 0;
        while i < self.exclude_names.len()
            invariant
                i <= self.exclude_names@.len(),
                forall|k: int| 0 <= k < i ==> #[trigger] self.exclude_names@[k]@ != name@,
            decreases self.exclude_names.len() - i,
        {
            if same_bytes(self.exclude_names[i].as_slice(), name) {
                return true;
            }
            i += 1;
        }
        false
    }
}

/// Periodic progress, for frontends that want to show a live count.
#[derive(Debug)]
pub struct Progress {
    pub dirs: u64,
    pub entries: u64,
    pub disk: u64,
    pub current: Vec<u8>,
}

/// How many descriptors are held once one more is, if there is one to be had.
pub fn next_held(held: usize, max: usize) -> (r: Option<usize>)
    ensures
        r == (if held < max {
            Some((held + 1) as usize)
        } else {
            None
        }),
{
    if held < max {
        Some(held + 1)
    } else {
        None
    }
}

/// `AtomicUsize::fetch_update`, which says whether the count could go up. Other threads take
/// descriptors and give them back at the same time, so nothing is claimed of the outcome but that
/// there is no room where there is none for anyone.
#[verifier::external_body]
fn hold_one(held: &AtomicUsize, max: usize) -> (r: bool)
    ensures
        max == 0 ==> !r,
{
    held.fetch_update(Ordering::Relaxed, Ordering::Relaxed, |n| next_held(n, max)).is_ok()
}

/// Caps how many directory descriptors the pending queue holds at once.
#[derive(Debug)]
pub struct FdBudget {
    held: AtomicUsize,
    max: usize,
}

impl FdBudget {
    pub closed spec fn limit(&self) -> usize {
        self.max
    }

    pub fn new(max: usize) -> (r: FdBudget)
        ensures
            r.limit() == max,
    {
        FdBudget { held: AtomicUsize::new(0), max }
    }

    /// Take a descriptor from the budget, unless it is used up. Little can be said beforehand of
    /// what comes back: other threads share the budget.
    pub fn try_acquire(&self) -> (r: bool)
        ensures
            self.limit() == 0 ==> !r,
    {
        hold_one(&self.held, self.max)
    }

    /// Give a descriptor back.
    pub fn release(&self) {
        self.held.fetch_sub(1, Ordering::Relaxed);
    }
}

/// What every worker goes by.
#[derive(Debug)]
pub struct Ctx {
    pub opts: ScanOptions,
    pub root_dev: u64,
}

impl Ctx {
    /// Whether a directory is on another filesystem and is to be left alone for that.
    pub open spec fn is_foreign(&self, meta: Meta) -> bool {
        self.opts.one_file_system && meta.dev != self.root_dev
    }

    /// Whether an entry is a directory to be entered.
    pub open spec fn enters(&self, meta: Meta, excluded: bool) -> bool {
        meta.kind == Kind::Dir && !excluded && !self.is_foreign(meta)
    }
}

/// How a directory is reached.
#[derive(Debug)]
pub enum Handle<F> {
    /// An open descriptor for this directory.
    Fd(F),
    /// Reopen by path: used for the root, and when the descriptor budget is exhausted.
    Path(Vec<u8>),
}

#[derive(Debug)]
pub struct Task<F> {
    pub id: NodeId,
    pub handle: Handle<F>,
}

/// How the builder should reach a subdirectory's contents.
#[derive(Debug)]
pub enum Descend<F> {
    /// Not a directory, or one that is deliberately not entered.
    No,
    Fd(F),
    /// A directory no descriptor could be kept for; queue it by path instead.
    Reopen,
}

#[derive(Debug)]
pub struct Entry<F> {
    pub name: Vec<u8>,
    pub meta: Meta,
    /// Could not be stat'd, or is a directory that could not be opened: its contents are
    /// unaccounted for.
    pub err: bool,
    pub excluded: bool,
    pub descend: Descend<F>,
}

#[derive(Debug)]
pub struct DirResult<F> {
    pub id: NodeId,
    pub entries: Vec<Entry<F>>,
    /// Reading the directory itself failed or was cut short.
    pub read_error: bool,
    /// Reading it took a descriptor from the budget.
    pub used_fd: bool,
}

/// What reading on in a directory gave.
#[derive(Debug)]
pub enum Read {
    Entry { name: Vec<u8>, kind: Kind },
    Broken,
    End,
}

/// What opening a subdirectory gave.
#[derive(Debug)]
pub enum ChildOpen<F> {
    Fd(F),
    /// The process or the system is out of descriptors.
    Scarce,
    Failed,
}

/// What the reading of a directory is waiting for.
#[derive(Debug)]
pub enum ReadWait {
    Open,
    List,
    Next,
    Stat { name: Vec<u8>, kind: Kind, excluded: bool },
    Acquire { name: Vec<u8>, meta: Meta },
    Child { name: Vec<u8>, meta: Meta },
    Over,
}

/// What the reading of a directory asks for next.
#[derive(Debug)]
pub enum ReadAct<F> {
    /// Open the directory at this path, without following a symlink.
    Open(Vec<u8>),
    /// Get ready to read the directory this descriptor is for.
    ListFd(F),
    /// Get ready to read the directory that was opened.
    List,
    /// Read on.
    Next,
    /// Stat an entry of the directory, without following a symlink.
    Stat(Vec<u8>),
    /// Take a descriptor from the budget.
    Acquire,
    /// Open a subdirectory, without following a symlink.
    OpenChild(Vec<u8>),
    /// Give the descriptor back to the budget, and read on.
    ReleaseAndNext,
    /// That was all. Where it says so, a descriptor goes back to the budget.
    Over { release: bool },
}

/// The reading of one directory: every entry is looked at, and the subdirectories that are to be
/// entered are opened.
pub struct DirRead<F> {
    pub out: DirResult<F>,
    pub wait: ReadWait,
}

impl<F> Entry<F> {
    pub open spec fn is(
        &self,
        name: Seq<u8>,
        meta: Meta,
        err: bool,
        excluded: bool,
        descend: Descend<F>,
    ) -> bool {
        self.name@ == name && self.meta == meta && self.err == err && self.excluded == excluded
            && self.descend == descend
    }
}

impl<F> DirRead<F> {
    /// Only directories that can be read, are not excluded, and are not on another filesystem when
    /// that matters, are ever queued.
    pub open spec fn wf(&self, ctx: Ctx) -> bool {
        &&& forall|k: int|
            0 <= k < self.out.entries@.len() && !((#[trigger] self.out.entries@[k]).descend is No)
                ==> ctx.enters(self.out.entries@[k].meta, self.out.entries@[k].excluded)
                && !self.out.entries@[k].err
        &&& (self.wait matches ReadWait::Acquire { meta, .. } ==> ctx.enters(meta, false))
        &&& (self.wait matches ReadWait::Child { meta, .. } ==> ctx.enters(meta, false))
    }

    /// Whether everything but what is being waited for is as it was.
    pub open spec fn keeps(&self, was: Self) -> bool {
        self.out == was.out
    }

    /// Whether one entry was added and nothing else changed.
    pub open spec fn adds(
        &self,
        was: Self,
        name: Seq<u8>,
        meta: Meta,
        err: bool,
        excluded: bool,
        descend: Descend<F>,
    ) -> bool {
        &&& self.out.id == was.out.id
        &&& self.out.read_error == was.out.read_error
        &&& self.out.used_fd == was.out.used_fd
        &&& self.out.entries@.len() == was.out.entries@.len() + 1
        &&& self.out.entries@.drop_last() == was.out.entries@
        &&& self.out.entries@.last().is(name, meta, err, excluded, descend)
    }

    /// Whether the reading was cut short or marked as such, and nothing else changed.
    pub open spec fn fails(&self, was: Self) -> bool {
        &&& self.out.read_error
        &&& self.out.id == was.out.id
        &&& self.out.used_fd == was.out.used_fd
        &&& self.out.entries@ == was.out.entries@
    }

    pub fn begin(task: Task<F>) -> (r: (Self, ReadAct<F>))
        ensures
            r.0.out.id == task.id,
            r.0.out.entries@.len() == 0,
            !r.0.out.read_error,
            forall|ctx: Ctx| #[trigger] r.0.wf(ctx),
            match task.handle {
                Handle::Fd(fd) => {
                    &&& r.0.out.used_fd
                    &&& r.0.wait is List
                    &&& r.1 == ReadAct::ListFd(fd)
                },
                Handle::Path(path) => {
                    &&& !r.0.out.used_fd
                    &&& r.0.wait is Open
                    &&& r.1 == ReadAct::<F>::Open(path)
                },
            },
    {
        let id = task.id;
        match task.handle {
            Handle::Fd(fd) => {
                let out = DirResult { id, entries: Vec::new(), read_error: false, used_fd: true };
                (DirRead { out, wait: ReadWait::List }, ReadAct::ListFd(fd))
            },
            Handle::Path(path) => {
                let out = DirResult { id, entries: Vec::new(), read_error: false, used_fd: false };
                (DirRead { out, wait: ReadWait::Open }, ReadAct::Open(path))
            },
        }
    }

    /// The directory was opened by its path, or was not.
    pub fn opened(&mut self, ok: bool) -> (r: ReadAct<F>)
        requires
            old(self).wait is Open,
        ensures
            forall|ctx: Ctx| old(self).wf(ctx) ==> #[trigger] final(self).wf(ctx),
            if ok {
                &&& r is List
                &&& final(self).wait is List
                &&& final(self).keeps(*old(self))
            } else {
                &&& r == ReadAct::<F>::Over { release: false }
                &&& final(self).wait is Over
                &&& final(self).fails(*old(self))
            },
    {
        if ok {
            self.wait = ReadWait::List;
            ReadAct::List
        } else {
            self.out.read_error = true;
            self.wait = ReadWait::Over;
            ReadAct::Over { release: false }
        }
    }

    /// The directory can be read, or cannot.
    pub fn listed(&mut self, ok: bool) -> (r: ReadAct<F>)
        requires
            old(self).wait is List,
        ensures
            forall|ctx: Ctx| old(self).wf(ctx) ==> #[trigger] final(self).wf(ctx),
            if ok {
                &&& r is Next
                &&& final(self).wait is Next
                &&& final(self).keeps(*old(self))
            } else {
                &&& r == ReadAct::<F>::Over { release: old(self).out.used_fd }
                &&& final(self).wait is Over
                &&& final(self).fails(*old(self))
            },
    {
        if ok {
            self.wait = ReadWait::Next;
            ReadAct::Next
        } else {
            self.out.read_error = true;
            self.wait = ReadWait::Over;
            ReadAct::Over { release: self.out.used_fd }
        }
    }

    /// Something was read. An entry that cannot be read does not stop the rest.
    pub fn read(&mut self, ctx: &Ctx, what: Read) -> (r: ReadAct<F>)
        requires
            old(self).wait is Next,
            old(self).wf(*ctx),
        ensures
            final(self).wf(*ctx),
            match what {
                Read::End => {
                    &&& r == ReadAct::<F>::Over { release: old(self).out.used_fd }
                    &&& final(self).wait is Over
                    &&& final(self).keeps(*old(self))
                },
                Read::Broken => {
                    &&& r is Next
                    &&& final(self).wait is Next
                    &&& final(self).fails(*old(self))
                },
                Read::Entry { name, kind } => {
                    &&& final(self).keeps(*old(self))
                    &&& if is_dot_name(name@) {
                        r is Next && final(self).wait is Next
                    } else {
                        &&& r matches ReadAct::Stat(n) && n@ == name@
                        &&& final(self).wait matches ReadWait::Stat {
                            name: n,
                            kind: k,
                            excluded,
                        } && n@ == name@ && k == kind && excluded == ctx.opts.excludes(name@)
                    }
                },
            },
    {
        match what {
            Read::End => {
                self.wait = ReadWait::Over;
                ReadAct::Over { release: self.out.used_fd }
            },
            Read::Broken => {
                self.out.read_error = true;
                ReadAct::Next
            },
            Read::Entry { name, kind } => {
                if is_dot(name.as_slice()) {
                    return ReadAct::Next;
                }
                let excluded = ctx.opts.is_excluded(name.as_slice());
                let again = copy_bytes(name.as_slice());
                self.wait = ReadWait::Stat { name, kind, excluded };
                ReadAct::Stat(again)
            },
        }
    }

    fn push(
        &mut self,
        name: Vec<u8>,
        meta: Meta,
        err: bool,
        excluded: bool,
        descend: Descend<F>,
    )
        ensures
            final(self).adds(*old(self), name@, meta, err, excluded, descend),
            final(self).wait is Next,
            forall|ctx: Ctx|
                old(self).wf(ctx) && (!(descend is No) ==> ctx.enters(meta, excluded) && !err)
                    ==> #[trigger] final(self).wf(ctx),
    {
        let ghost before = self.out.entries@;
        self.out.entries.push(Entry { name, meta, err, excluded, descend });
        self.wait = ReadWait::Next;
        proof {
            assert(self.out.entries@.drop_last() =~= before);
            assert forall|ctx: Ctx|
                old(self).wf(ctx) && (!(descend is No) ==> ctx.enters(meta, excluded)
                    && !err) implies #[trigger] self.wf(ctx) by {
                assert forall|k: int|
                    0 <= k < self.out.entries@.len() && !((
                    #[trigger] self.out.entries@[k]).descend is No) implies ctx.enters(
                    self.out.entries@[k].meta,
                    self.out.entries@[k].excluded,
                ) && !self.out.entries@[k].err by {
                    if k < before.len() {
                        assert(self.out.entries@[k] == before[k]);
                    }
                }
            }
        }
    }

    /// An entry was stat'd, or could not be. Only what could be is ever entered.
    pub fn looked(&mut self, ctx: &Ctx, stat: Option<Stat>) -> (r: ReadAct<F>)
        requires
            old(self).wait is Stat,
            old(self).wf(*ctx),
        ensures
            final(self).wf(*ctx),
            ({
                let name = old(self).wait->Stat_name@;
                let excluded = old(self).wait->Stat_excluded;
                match stat {
                    None => {
                        &&& r is Next
                        &&& final(self).wait is Next
                        &&& final(self).adds(
                            *old(self),
                            name,
                            Meta::spec_unknown(old(self).wait->Stat_kind),
                            true,
                            excluded,
                            Descend::No,
                        )
                    },
                    Some(st) => if ctx.enters(st.spec_meta(), excluded) {
                        &&& r is Acquire
                        &&& final(self).keeps(*old(self))
                        &&& final(self).wait matches ReadWait::Acquire { name: n, meta } && n@
                            == name && meta == st.spec_meta()
                    } else {
                        &&& r is Next
                        &&& final(self).wait is Next
                        &&& final(self).adds(
                            *old(self),
                            name,
                            st.spec_meta(),
                            false,
                            excluded,
                            Descend::No,
                        )
                    },
                }
            }),
    {
        let mut wait = ReadWait::Next;
        std::mem::swap(&mut wait, &mut self.wait);
        match wait {
            ReadWait::Stat { name, kind, excluded } => match stat {
                None => {
                    self.push(name, Meta::unknown(kind), true, excluded, Descend::No);
                    ReadAct::Next
                },
                Some(st) => {
                    let meta = st.meta();
                    let foreign = ctx.opts.one_file_system && meta.dev != ctx.root_dev;
                    if meta.kind == Kind::Dir && !excluded && !foreign {
                        self.wait = ReadWait::Acquire { name, meta };
                        ReadAct::Acquire
                    } else {
                        self.push(name, meta, false, excluded, Descend::No);
                        ReadAct::Next
                    }
                },
            },
            _ => ReadAct::Next,
        }
    }

    /// A descriptor was to be had, or was not: then the directory is reopened by path later.
    pub fn acquired(&mut self, ctx: &Ctx, got: bool) -> (r: ReadAct<F>)
        requires
            old(self).wait is Acquire,
            old(self).wf(*ctx),
        ensures
            final(self).wf(*ctx),
            ({
                let name = old(self).wait->Acquire_name@;
                let meta = old(self).wait->Acquire_meta;
                if got {
                    &&& r matches ReadAct::OpenChild(n) && n@ == name
                    &&& final(self).keeps(*old(self))
                    &&& final(self).wait matches ReadWait::Child { name: n, meta: m } && n@ == name
                        && m == meta
                } else {
                    &&& r is Next
                    &&& final(self).wait is Next
                    &&& final(self).adds(*old(self), name, meta, false, false, Descend::Reopen)
                }
            }),
    {
        let mut wait = ReadWait::Next;
        std::mem::swap(&mut wait, &mut self.wait);
        match wait {
            ReadWait::Acquire { name, meta } => {
                if got {
                    let again = copy_bytes(name.as_slice());
                    self.wait = ReadWait::Child { name, meta };
                    ReadAct::OpenChild(again)
                } else {
                    self.push(name, meta, false, false, Descend::Reopen);
                    ReadAct::Next
                }
            },
            _ => ReadAct::Next,
        }
    }

    /// A subdirectory was opened, or was not. Where descriptors are scarce it is reopened by path
    /// later; where it cannot be opened its contents are unaccounted for.
    pub fn child_opened(&mut self, ctx: &Ctx, child: ChildOpen<F>) -> (r: ReadAct<F>)
        requires
            old(self).wait is Child,
            old(self).wf(*ctx),
        ensures
            final(self).wf(*ctx),
            final(self).wait is Next,
            ({
                let name = old(self).wait->Child_name@;
                let meta = old(self).wait->Child_meta;
                match child {
                    ChildOpen::Fd(fd) => {
                        &&& r is Next
                        &&& final(self).adds(*old(self), name, meta, false, false, Descend::Fd(fd))
                    },
                    ChildOpen::Scarce => {
                        &&& r is ReleaseAndNext
                        &&& final(self).adds(*old(self), name, meta, false, false, Descend::Reopen)
                    },
                    ChildOpen::Failed => {
                        &&& r is ReleaseAndNext
                        &&& final(self).adds(*old(self), name, meta, true, false, Descend::No)
                    },
                }
            }),
    {
        let mut wait = ReadWait::Next;
        std::mem::swap(&mut wait, &mut self.wait);
        match wait {
            ReadWait::Child { name, meta } => match child {
                ChildOpen::Fd(fd) => {
                    self.push(name, meta, false, false, Descend::Fd(fd));
                    ReadAct::Next
                },
                ChildOpen::Scarce => {
                    self.push(name, meta, false, false, Descend::Reopen);
                    ReadAct::ReleaseAndNext
                },
                ChildOpen::Failed => {
                    self.push(name, meta, true, false, Descend::No);
                    ReadAct::ReleaseAndNext
                },
            },
            _ => ReadAct::Next,
        }
    }
}

/// A scan uses as many threads as the machine runs at once, but at least one, at most eight, and four
/// where that is unknown.
pub proof fn law_how_many_threads_there_are(n: usize)
    ensures
        1 <= n <= 8 ==> threads_for(Some(n)) == n,
        n == 0 ==> threads_for(Some(n)) == 1,
        n > 8 ==> threads_for(Some(n)) == 8,
        threads_for(None) == 4,
{
}

/// A name is excluded exactly where it is one of those to exclude, to the last byte.
pub proof fn law_which_names_are_excluded(opts: ScanOptions, name: Seq<u8>)
    ensures
        opts.excludes(name) == opts.exclude_names@.map_values(|n: Vec<u8>| n@).contains(name),
{
    let all = opts.exclude_names@.map_values(|n: Vec<u8>| n@);
    if all.contains(name) {
        let k = choose|k: int| 0 <= k < all.len() && all[k] == name;
        assert(opts.exclude_names@[k]@ == name);
    }
    if opts.excludes(name) {
        let k = choose|k: int|
            0 <= k < opts.exclude_names@.len() && #[trigger] opts.exclude_names@[k]@ == name;
        assert(all[k] == name);
    }
}

/// A directory is gone into unless it is excluded, or lies on another filesystem than the root while
/// only that one was asked for. Nothing else is gone into.
pub proof fn law_what_is_gone_into(ctx: Ctx, meta: Meta, excluded: bool)
    ensures
        ctx.enters(meta, excluded) == (meta.kind == Kind::Dir && !excluded && (meta.dev
            == ctx.root_dev || !ctx.opts.one_file_system)),
        ctx.is_foreign(meta) == (meta.dev != ctx.root_dev && ctx.opts.one_file_system),
{
}

} // verus!
