//! The builder: everything in a scan that must be decided globally rather than per directory.

use std::collections::HashSet;

use vstd::prelude::*;

use crate::inode::{inode_key, key_of};
use crate::model::grow::{
    errors_in, grown, lemma_grown_none, marked, root_model, takes, with_added, Added, Growth, Model,
};
use crate::model::{
    clipped, flags, same_but_links, turned, Kind, NodeId, Tree, MAX_NAME, NO_NODE, ROOT,
};
use crate::path::{join, joined};
use crate::scan::{Ctx, Descend, DirResult, Entry, Handle, Progress, Task};
use crate::stat::Stat;
use crate::text::copy_bytes;

verus! {

broadcast use vstd::std_specs::hash::group_hash_axioms;

/// How many results come in between two reports of progress.
pub const REPORT_EVERY: u32 = 64;

/// Whether an entry is a file that has other names, too.
pub open spec fn is_shared<F>(e: Entry<F>) -> bool {
    e.meta.kind == Kind::File && e.meta.nlink > 1
}

pub open spec fn entry_key<F>(e: Entry<F>) -> u128 {
    key_of(e.meta.dev, e.meta.ino)
}

/// The inodes with several names that are counted once the first `n` entries are in.
pub open spec fn links_after<F>(entries: Seq<Entry<F>>, n: int, links: Set<u128>) -> Set<u128>
    decreases n,
{
    if n <= 0 {
        links
    } else if is_shared(entries[n - 1]) {
        links_after(entries, n - 1, links).insert(entry_key(entries[n - 1]))
    } else {
        links_after(entries, n - 1, links)
    }
}

/// The directories that are queued or entered once the first `n` entries are in.
pub open spec fn dirs_after<F>(entries: Seq<Entry<F>>, n: int, dirs: Set<u128>) -> Set<u128>
    decreases n,
{
    if n <= 0 {
        dirs
    } else if !(entries[n - 1].descend is No) {
        dirs_after(entries, n - 1, dirs).insert(entry_key(entries[n - 1]))
    } else {
        dirs_after(entries, n - 1, dirs)
    }
}

pub open spec fn flag_if(holds: bool, flag: u16) -> u16 {
    if holds {
        flag
    } else {
        0
    }
}

/// Whether an entry is a further name of a file that is counted already.
pub open spec fn is_repeat<F>(e: Entry<F>, links: Set<u128>) -> bool {
    is_shared(e) && links.contains(entry_key(e))
}

/// Whether an entry is a directory that has been queued before: a bind mount can lead back to one
/// that contains it.
pub open spec fn is_loop<F>(e: Entry<F>, dirs: Set<u128>) -> bool {
    !(e.descend is No) && dirs.contains(entry_key(e))
}

pub open spec fn entry_flags<F>(ctx: Ctx, e: Entry<F>, links: Set<u128>, dirs: Set<u128>) -> u16 {
    flag_if(e.err, flags::ERR) | flag_if(e.excluded, flags::EXCLUDED) | flag_if(
        e.meta.kind == Kind::Dir && ctx.is_foreign(e.meta),
        flags::OTHER_FS,
    ) | flag_if(is_shared(e) && !is_repeat(e, links), flags::HARDLINK) | flag_if(
        is_repeat(e, links),
        flags::HARDLINK_DUP,
    ) | flag_if(is_loop(e, dirs), flags::LOOP)
}

/// The node that an entry becomes. One that could not be read, and a further name of a file that
/// is counted already, add nothing to the totals.
pub open spec fn node_for<F>(
    ctx: Ctx,
    parent: int,
    e: Entry<F>,
    links: Set<u128>,
    dirs: Set<u128>,
) -> Added {
    Added {
        parent,
        name: e.name@,
        meta: e.meta,
        flags: entry_flags(ctx, e, links, dirs),
        counted: !e.err && !is_repeat(e, links),
        error: e.err,
    }
}

/// The nodes that the entries of a directory become.
pub open spec fn nodes_for<F>(
    ctx: Ctx,
    parent: int,
    entries: Seq<Entry<F>>,
    links: Set<u128>,
    dirs: Set<u128>,
) -> Seq<Added> {
    Seq::new(
        entries.len(),
        |k: int|
            node_for(
                ctx,
                parent,
                entries[k],
                links_after(entries, k, links),
                dirs_after(entries, k, dirs),
            ),
    )
}

/// Whether the entry at `k` is a directory that is to be read next, not having been before.
pub open spec fn is_queued<F>(entries: Seq<Entry<F>>, k: int, dirs: Set<u128>) -> bool {
    !(entries[k].descend is No) && !dirs_after(entries, k, dirs).contains(entry_key(entries[k]))
}

/// How a directory is reached, in terms of its path.
pub enum Reach<F> {
    Fd(F),
    Path(Seq<u8>),
}

pub open spec fn task_view<F>(t: Task<F>) -> (int, Reach<F>) {
    (
        t.id as int,
        match t.handle {
            Handle::Fd(fd) => Reach::Fd(fd),
            Handle::Path(path) => Reach::Path(path@),
        },
    )
}

/// The task that reads the directory `e` became.
pub open spec fn task_for<F>(e: Entry<F>, id: int, dir: Seq<u8>) -> (int, Reach<F>) {
    (
        id,
        match e.descend {
            Descend::Fd(fd) => Reach::Fd(fd),
            _ => Reach::Path(joined(dir, clipped(e.name@))),
        },
    )
}

/// The tasks that the first `n` entries of the directory at `dir` give rise to, where the first of
/// them becomes the node `base`.
pub open spec fn tasks_for<F>(
    entries: Seq<Entry<F>>,
    n: int,
    dirs: Set<u128>,
    base: int,
    dir: Seq<u8>,
) -> Seq<(int, Reach<F>)>
    decreases n,
{
    if n <= 0 {
        Seq::empty()
    } else if is_queued(entries, n - 1, dirs) {
        tasks_for(entries, n - 1, dirs, base, dir).push(
            task_for(entries[n - 1], base + n - 1, dir),
        )
    } else {
        tasks_for(entries, n - 1, dirs, base, dir)
    }
}

/// How many of the descriptors among the first `n` entries are of no use after all.
pub open spec fn dropped_by<F>(entries: Seq<Entry<F>>, n: int, dirs: Set<u128>) -> nat
    decreases n,
{
    if n <= 0 {
        0
    } else if entries[n - 1].descend is Fd && !is_queued(entries, n - 1, dirs) {
        dropped_by(entries, n - 1, dirs) + 1
    } else {
        dropped_by(entries, n - 1, dirs)
    }
}

/// The tree before the entries are in: a directory that could not be read is marked.
pub open spec fn model_before(m: Model, id: int, read_error: bool) -> Model {
    if read_error {
        marked(m, id, flags::ERR)
    } else {
        m
    }
}

/// The tree once a directory is in, as long as there is room.
pub open spec fn model_after<F>(
    ctx: Ctx,
    m: Model,
    result: DirResult<F>,
    links: Set<u128>,
    dirs: Set<u128>,
) -> Option<Model> {
    grown(
        model_before(m, result.id as int, result.read_error),
        nodes_for(ctx, result.id as int, result.entries@, links, dirs),
        result.entries@.len() as int,
    )
}

/// What comes of taking in a directory.
pub struct Absorbed<F> {
    /// The subdirectories to be read next.
    pub tasks: Vec<Task<F>>,
    /// How many descriptors go back to the budget.
    pub dropped: usize,
}

/// What has been seen so far.
pub struct Builder {
    /// Every file with `nlink > 1` that is counted, so its other links are free.
    pub hardlinks: HashSet<u128>,
    /// Every directory entered, which stops bind-mount loops from being scanned forever. Symlink
    /// loops cannot occur: symlinks are never followed.
    pub visited_dirs: HashSet<u128>,
    pub dirs: u64,
    pub last_dir: Vec<u8>,
}

impl Builder {
    /// Starts with the root, which is entered first.
    pub fn new(root_dev: u64, root_ino: u64) -> (r: Builder)
        ensures
            r.hardlinks@ == Set::<u128>::empty(),
            r.visited_dirs@ == Set::<u128>::empty().insert(key_of(root_dev, root_ino)),
            r.dirs == 0,
            r.last_dir@.len() == 0,
    {
        let hardlinks: HashSet<u128> = HashSet::new();
        let mut visited_dirs: HashSet<u128> = HashSet::new();
        visited_dirs.insert(inode_key(root_dev, root_ino));
        proof {
            assert(hardlinks@ =~= Set::<u128>::empty());
            assert(visited_dirs@ =~= Set::<u128>::empty().insert(key_of(root_dev, root_ino)));
        }
        Builder { hardlinks, visited_dirs, dirs: 0, last_dir: Vec::new() }
    }

    /// Whether there is room in the tree, and in the counts, for what a directory holds.
    pub open spec fn can_absorb<F>(&self, ctx: Ctx, growth: Growth, result: DirResult<F>) -> bool {
        &&& growth.tree.holds(result.id)
        &&& self.dirs < u64::MAX
        &&& growth.tree.missed() + result.entries@.len() < u64::MAX
        &&& model_after(
            ctx,
            growth.model(),
            result,
            self.hardlinks@,
            self.visited_dirs@,
        ) is Some
    }

    /// Insert one directory's entries, and say which subdirectories are to be read next.
    pub fn absorb<F>(&mut self, ctx: &Ctx, growth: &mut Growth, result: DirResult<F>) -> (r:
        Absorbed<F>)
        requires
            old(growth).wf(),
            old(self).can_absorb(*ctx, *old(growth), result),
        ensures
            final(growth).wf(),
            model_after(
                *ctx,
                old(growth).model(),
                result,
                old(self).hardlinks@,
                old(self).visited_dirs@,
            ) == Some(final(growth).model()),
            final(growth).tree.nodes().len() == old(growth).tree.nodes().len()
                + result.entries@.len(),
            final(growth).tree.root() == old(growth).tree.root(),
            final(growth).tree.partial() == old(growth).tree.partial(),
            final(growth).tree.missed() == old(growth).tree.missed() + (if result.read_error {
                1int
            } else {
                0int
            }) + errors_in(
                nodes_for(
                    *ctx,
                    result.id as int,
                    result.entries@,
                    old(self).hardlinks@,
                    old(self).visited_dirs@,
                ),
                result.entries@.len() as int,
            ),
            final(self).hardlinks@ == links_after(
                result.entries@,
                result.entries@.len() as int,
                old(self).hardlinks@,
            ),
            final(self).visited_dirs@ == dirs_after(
                result.entries@,
                result.entries@.len() as int,
                old(self).visited_dirs@,
            ),
            final(self).dirs == old(self).dirs + 1,
            final(self).last_dir@ == (if final(self).dirs % 64 == 0 {
                old(growth).tree.spec_path(result.id)
            } else {
                old(self).last_dir@
            }),
            r.tasks@.map_values(|t: Task<F>| task_view(t)) == tasks_for(
                result.entries@,
                result.entries@.len() as int,
                old(self).visited_dirs@,
                old(growth).tree.nodes().len() as int,
                old(growth).tree.spec_path(result.id),
            ),
            r.tasks@.len() <= result.entries@.len(),
            r.dropped == dropped_by(
                result.entries@,
                result.entries@.len() as int,
                old(self).visited_dirs@,
            ),
    {
        let ghost links = self.hardlinks@;
        let ghost dirs = self.visited_dirs@;
        let ghost base = growth.tree.nodes().len() as int;
        let ghost first = growth.model();
        let ghost missed = growth.tree.missed();
        let parent: NodeId = result.id;
        let dir = growth.tree.path_of(parent);
        self.dirs = self.dirs + 1;
        if result.read_error {
            growth.mark(parent, flags::ERR);
            growth.miss(1);
        }
        let ghost extra = growth.tree.missed();
        let ghost m0 = growth.model();
        let ghost all = result.entries@;
        let ghost list = nodes_for(*ctx, parent as int, all, links, dirs);
        let ghost n = all.len() as int;
        let mut tasks: Vec<Task<F>> = Vec::new();
        let mut dropped: usize = 0;
        let mut done: usize = 0;
        let total: usize = result.entries.len();
        proof {
            assert(tasks@.map_values(|t: Task<F>| task_view(t)) =~= tasks_for(
                all,
                0,
                dirs,
                base,
                dir@,
            ));
        }
        for entry in it: result.entries
            invariant
                it.seq() == all,
                done == it.index(),
                total == all.len(),
                n == all.len(),
                dropped <= done,
                list == nodes_for(*ctx, parent as int, all, links, dirs),
                growth.wf(),
                parent < base,
                growth.tree.nodes().len() == base + done,
                grown(m0, list, n) is Some,
                grown(m0, list, done as int) == Some(growth.model()),
                growth.tree.root() == old(growth).tree.root(),
                growth.tree.partial() == old(growth).tree.partial(),
                growth.tree.missed() == extra + errors_in(list, done as int),
                errors_in(list, done as int) <= done,
                extra + n <= u64::MAX,
                self.hardlinks@ == links_after(all, done as int, links),
                self.visited_dirs@ == dirs_after(all, done as int, dirs),
                self.dirs == old(self).dirs + 1,
                self.last_dir == old(self).last_dir,
                tasks@.map_values(|t: Task<F>| task_view(t)) == tasks_for(
                    all,
                    done as int,
                    dirs,
                    base,
                    dir@,
                ),
                tasks@.len() <= done,
                dropped == dropped_by(all, done as int, dirs),
        {
            let ghost k = done as int;
            let ghost a = list[k];
            let ghost ls = self.hardlinks@;
            let ghost ds = self.visited_dirs@;
            proof {
                assert(entry == all[k]);
                assert(a == node_for(*ctx, parent as int, entry, ls, ds));
                if grown(m0, list, k + 1) is None {
                    lemma_grown_none(m0, list, n, k + 1);
                }
                assert(takes(growth.model(), a));
                assert(takes(growth.model(), Added { error: false, ..a }));
            }
            let key: u128 = inode_key(entry.meta.dev, entry.meta.ino);
            let mut counted = !entry.err;
            let mut extra_flags: u16 = if entry.err {
                flags::ERR
            } else {
                0
            };
            extra_flags = extra_flags | (if entry.excluded {
                flags::EXCLUDED
            } else {
                0
            });
            extra_flags = extra_flags | (if entry.meta.kind == Kind::Dir && ctx.opts.one_file_system
                && entry.meta.dev != ctx.root_dev {
                flags::OTHER_FS
            } else {
                0
            });
            let mut first_name = false;
            let mut further_name = false;
            if entry.meta.kind == Kind::File && entry.meta.nlink > 1 {
                if self.hardlinks.insert(key) {
                    first_name = true;
                } else {
                    further_name = true;
                    counted = false;
                }
            }
            extra_flags = extra_flags | (if first_name {
                flags::HARDLINK
            } else {
                0
            });
            extra_flags = extra_flags | (if further_name {
                flags::HARDLINK_DUP
            } else {
                0
            });
            let enters = match &entry.descend {
                Descend::No => false,
                _ => true,
            };
            let fresh = if enters {
                self.visited_dirs.insert(key)
            } else {
                false
            };
            extra_flags = extra_flags | (if enters && !fresh {
                flags::LOOP
            } else {
                0
            });
            proof {
                assert(extra_flags == a.flags);
                assert(counted == a.counted);
                assert(self.hardlinks@ =~= links_after(all, k + 1, links));
                assert(self.visited_dirs@ =~= dirs_after(all, k + 1, dirs));
                assert(fresh == is_queued(all, k, dirs));
            }
            let ghost before = growth.model();
            let id = growth.add_node(
                parent,
                entry.name.as_slice(),
                &entry.meta,
                extra_flags,
                counted,
            );
            proof {
                assert(growth.model() == with_added(before, a));
                assert(grown(m0, list, k + 1) == Some(growth.model()));
            }
            if entry.err {
                growth.miss(1);
            }
            let ghost tasks_before = tasks@;
            match entry.descend {
                Descend::No => {},
                Descend::Fd(fd) => {
                    if fresh {
                        let t = Task { id, handle: Handle::Fd(fd) };
                        tasks.push(t);
                        proof {
                            assert(tasks@.map_values(|t: Task<F>| task_view(t))
                                =~= tasks_before.map_values(|t: Task<F>| task_view(t)).push(
                                task_view(t),
                            ));
                        }
                    } else {
                        dropped = dropped + 1;
                    }
                },
                Descend::Reopen => {
                    if fresh {
                        let path = join_clipped(dir.as_slice(), entry.name.as_slice());
                        let t = Task { id, handle: Handle::Path(path) };
                        tasks.push(t);
                        proof {
                            assert(tasks@.map_values(|t: Task<F>| task_view(t))
                                =~= tasks_before.map_values(|t: Task<F>| task_view(t)).push(
                                task_view(t),
                            ));
                        }
                    }
                },
            }
            done = done + 1;
        }
        if self.dirs % 64 == 0 {
            self.last_dir = dir;
        }
        Absorbed { tasks, dropped }
    }
}

/// The path of the entry `name` of the directory at `dir`, as the tree has it.
fn join_clipped(dir: &[u8], name: &[u8]) -> (r: Vec<u8>)
    ensures
        r@ == joined(dir@, clipped(name@)),
{
    if name.len() > MAX_NAME {
        let kept = vstd::slice::slice_subrange(name, 0, MAX_NAME);
        proof {
            assert(kept@ =~= name@.take(MAX_NAME as int));
        }
        join(dir, kept)
    } else {
        join(dir, name)
    }
}

/// How long the first `n` names are together, as far as they are kept.
pub open spec fn names_len<F>(entries: Seq<Entry<F>>, n: int) -> nat
    decreases n,
{
    if n <= 0 {
        0
    } else {
        names_len(entries, n - 1) + clipped(entries[n - 1].name@).len()
    }
}

pub open spec fn apparent_len<F>(entries: Seq<Entry<F>>, n: int) -> nat
    decreases n,
{
    if n <= 0 {
        0
    } else {
        apparent_len(entries, n - 1) + entries[n - 1].meta.apparent as nat
    }
}

pub open spec fn disk_len<F>(entries: Seq<Entry<F>>, n: int) -> nat
    decreases n,
{
    if n <= 0 {
        0
    } else {
        disk_len(entries, n - 1) + entries[n - 1].meta.disk as nat
    }
}

proof fn lemma_lengths_grow<F>(entries: Seq<Entry<F>>, i: int, j: int)
    requires
        0 <= i <= j,
    ensures
        names_len(entries, i) <= names_len(entries, j),
        apparent_len(entries, i) <= apparent_len(entries, j),
        disk_len(entries, i) <= disk_len(entries, j),
    decreases j - i,
{
    if i < j {
        lemma_lengths_grow(entries, i, j - 1);
    }
}

/// What fits when everything counts, fits.
proof fn lemma_roomy<F>(
    ctx: Ctx,
    m: Model,
    parent: int,
    entries: Seq<Entry<F>>,
    links: Set<u128>,
    dirs: Set<u128>,
    n: int,
)
    requires
        0 <= n <= entries.len(),
        m.nodes.len() > 0,
        m.nodes.len() + n <= NO_NODE,
        m.names.len() + names_len(entries, n) <= u32::MAX,
        m.nodes[0].apparent + apparent_len(entries, n) <= u64::MAX,
        m.nodes[0].disk + disk_len(entries, n) <= u64::MAX,
    ensures
        grown(m, nodes_for(ctx, parent, entries, links, dirs), n) matches Some(k)
            && k.nodes.len() == m.nodes.len() + n && k.names.len() == m.names.len() + names_len(
            entries,
            n,
        ) && k.nodes[0].apparent <= m.nodes[0].apparent + apparent_len(entries, n)
            && k.nodes[0].disk <= m.nodes[0].disk + disk_len(entries, n),
    decreases n,
{
    if n > 0 {
        lemma_roomy(ctx, m, parent, entries, links, dirs, n - 1);
        let list = nodes_for(ctx, parent, entries, links, dirs);
        let k = grown(m, list, n - 1)->0;
        assert(takes(k, list[n - 1]));
    }
}

/// A scan: the tree as far as it has got, and how many directories are still out to be read.
pub struct Scan {
    pub growth: Growth,
    pub builder: Builder,
    pub outstanding: usize,
    pub since_report: u32,
}

/// What a scan asks for once it has taken a directory in.
pub struct Taken<F> {
    /// Directories to be read.
    pub tasks: Vec<Task<F>>,
    /// How many descriptors go back to the budget.
    pub dropped: usize,
    /// How far the scan has got, every so often.
    pub progress: Option<Progress>,
}

impl Scan {
    pub open spec fn wf(&self) -> bool {
        &&& self.growth.wf()
        &&& self.outstanding <= self.growth.tree.nodes().len()
        &&& self.since_report < REPORT_EVERY
    }

    /// Start at `root`, of which `stat` is known. Only a directory has anything to be read.
    pub fn begin<F>(root: Vec<u8>, stat: &Stat) -> (r: (Scan, Option<Task<F>>))
        ensures
            r.0.wf(),
            r.0.growth.model() == root_model(stat.spec_meta()),
            r.0.growth.tree.root() == root@,
            r.0.growth.tree.missed() == 0,
            !r.0.growth.tree.partial(),
            r.0.since_report == 0,
            r.0.builder.dirs == 0,
            r.0.builder.hardlinks@ == Set::<u128>::empty(),
            r.0.builder.visited_dirs@ == Set::<u128>::empty().insert(key_of(stat.dev, stat.ino)),
            if stat.spec_kind() == Kind::Dir {
                &&& r.0.outstanding == 1
                &&& r.1 matches Some(t) && task_view(t) == (0int, Reach::<F>::Path(root@))
            } else {
                r.0.outstanding == 0 && r.1 is None
            },
    {
        let meta = stat.meta();
        let again = copy_bytes(root.as_slice());
        let growth = Growth::new(root, &meta);
        let builder = Builder::new(stat.dev, stat.ino);
        if meta.kind == Kind::Dir {
            (
                Scan { growth, builder, outstanding: 1, since_report: 0 },
                Some(Task { id: ROOT, handle: Handle::Path(again) }),
            )
        } else {
            (Scan { growth, builder, outstanding: 0, since_report: 0 }, None)
        }
    }

    /// Whether every directory that was queued has been taken in.
    pub fn is_over(&self) -> (r: bool)
        ensures
            r == (self.outstanding == 0),
    {
        self.outstanding == 0
    }

    /// Whether there is room for what a directory holds even if nothing in it turns out to be
    /// counted already.
    pub open spec fn is_roomy<F>(&self, result: DirResult<F>) -> bool {
        let tree = self.growth.tree;
        let entries = result.entries@;
        let n = entries.len() as int;
        &&& result.id < tree.nodes().len()
        &&& self.builder.dirs < u64::MAX
        &&& tree.nodes().len() + n <= NO_NODE
        &&& tree.missed() + n < u64::MAX
        &&& tree.names().len() + names_len(entries, n) <= u32::MAX
        &&& tree.nodes()[0].apparent + apparent_len(entries, n) <= u64::MAX
        &&& tree.nodes()[0].disk + disk_len(entries, n) <= u64::MAX
    }

    /// Whether there is certain to be room for what a directory holds: it fits even if nothing in
    /// it turns out to be counted already.
    pub fn fits<F>(&self, ctx: &Ctx, result: &DirResult<F>) -> (r: bool)
        requires
            self.wf(),
        ensures
            r == self.is_roomy(*result),
            r ==> self.builder.can_absorb(*ctx, self.growth, *result),
    {
        let tree = &self.growth.tree;
        if result.id as u64 >= tree.len() as u64 || self.builder.dirs == u64::MAX {
            return false;
        }
        let n: usize = result.entries.len();
        if n as u64 > 0xffff_ffff || tree.len() as u64 > 0xffff_ffff || tree.len() as u64
            + n as u64 > NO_NODE as u64 || tree.error_count() >= u64::MAX - n as u64 {
            return false;
        }
        let top = tree.node(ROOT);
        let mut names: u64 = tree.raw_names().len() as u64;
        let mut apparent: u64 = top.apparent;
        let mut disk: u64 = top.disk;
        let ghost all = result.entries@;
        let mut i: usize = 0;
        if names > 0xffff_ffff {
            return false;
        }
        while i < n
            invariant
                n == all.len(),
                all == result.entries@,
                i <= n,
                names == self.growth.tree.names().len() + names_len(all, i as int),
                names <= 0xffff_ffff,
                apparent == self.growth.tree.nodes()[0].apparent + apparent_len(all, i as int),
                disk == self.growth.tree.nodes()[0].disk + disk_len(all, i as int),
            decreases n - i,
        {
            let e = &result.entries[i];
            let kept: usize = if e.name.len() > MAX_NAME {
                MAX_NAME
            } else {
                e.name.len()
            };
            proof {
                assert(clipped(e.name@).len() == kept);
            }
            if names + kept as u64 > 0xffff_ffff || e.meta.apparent > u64::MAX - apparent
                || e.meta.disk > u64::MAX - disk {
                proof {
                    lemma_lengths_grow(all, i + 1, n as int);
                }
                return false;
            }
            names = names + kept as u64;
            apparent = apparent + e.meta.apparent;
            disk = disk + e.meta.disk;
            i += 1;
        }
        proof {
            let m = model_before(self.growth.model(), result.id as int, result.read_error);
            lemma_roomy(
                *ctx,
                m,
                result.id as int,
                all,
                self.builder.hardlinks@,
                self.builder.visited_dirs@,
                n as int,
            );
        }
        true
    }

    /// Take in what was read of a directory.
    pub fn absorb<F>(&mut self, ctx: &Ctx, result: DirResult<F>) -> (r: Taken<F>)
        requires
            old(self).wf(),
            old(self).outstanding > 0,
            old(self).builder.can_absorb(*ctx, old(self).growth, result),
        ensures
            final(self).wf(),
            model_after(
                *ctx,
                old(self).growth.model(),
                result,
                old(self).builder.hardlinks@,
                old(self).builder.visited_dirs@,
            ) == Some(final(self).growth.model()),
            final(self).growth.tree.root() == old(self).growth.tree.root(),
            final(self).growth.tree.partial() == old(self).growth.tree.partial(),
            final(self).growth.tree.missed() == old(self).growth.tree.missed() + (
            if result.read_error {
                1int
            } else {
                0int
            }) + errors_in(
                nodes_for(
                    *ctx,
                    result.id as int,
                    result.entries@,
                    old(self).builder.hardlinks@,
                    old(self).builder.visited_dirs@,
                ),
                result.entries@.len() as int,
            ),
            final(self).builder.hardlinks@ == links_after(
                result.entries@,
                result.entries@.len() as int,
                old(self).builder.hardlinks@,
            ),
            final(self).builder.visited_dirs@ == dirs_after(
                result.entries@,
                result.entries@.len() as int,
                old(self).builder.visited_dirs@,
            ),
            final(self).builder.dirs == old(self).builder.dirs + 1,
            final(self).builder.last_dir@ == (if final(self).builder.dirs % 64 == 0 {
                old(self).growth.tree.spec_path(result.id)
            } else {
                old(self).builder.last_dir@
            }),
            final(self).outstanding == old(self).outstanding - 1 + r.tasks@.len(),
            r.tasks@.map_values(|t: Task<F>| task_view(t)) == tasks_for(
                result.entries@,
                result.entries@.len() as int,
                old(self).builder.visited_dirs@,
                old(self).growth.tree.nodes().len() as int,
                old(self).growth.tree.spec_path(result.id),
            ),
            r.dropped == dropped_by(
                result.entries@,
                result.entries@.len() as int,
                old(self).builder.visited_dirs@,
            ),
            final(self).since_report == (old(self).since_report + 1) % 64,
            match r.progress {
                Some(p) => {
                    &&& old(self).since_report == REPORT_EVERY - 1
                    &&& p.dirs == final(self).builder.dirs
                    &&& p.entries == final(self).growth.tree.nodes().len() - 1
                    &&& p.disk == final(self).growth.tree.nodes()[0].disk
                    &&& p.current@ == final(self).builder.last_dir@
                },
                None => old(self).since_report < REPORT_EVERY - 1,
            },
    {
        let ghost before = self.growth.tree.nodes().len();
        let Absorbed { tasks, dropped } = self.builder.absorb(ctx, &mut self.growth, result);
        proof {
            assert(tasks@.len() == tasks.len());
        }
        let len: usize = self.growth.tree.len();
        self.outstanding = (self.outstanding - 1) + tasks.len();
        self.since_report = self.since_report + 1;
        if self.since_report >= REPORT_EVERY {
            self.since_report = 0;
            let current = copy_bytes(self.builder.last_dir.as_slice());
            let progress = Progress {
                dirs: self.builder.dirs,
                entries: len as u64 - 1,
                disk: self.growth.tree.node(ROOT).disk,
                current,
            };
            Taken { tasks, dropped, progress: Some(progress) }
        } else {
            Taken { tasks, dropped, progress: None }
        }
    }

    /// The tree, with siblings in the order they were found. A scan that is cut short gives what
    /// it had, marked as partial so that its totals are not mistaken for the whole.
    pub fn finish(self) -> (t: Tree)
        requires
            self.wf(),
        ensures
            t.wf(),
            t.kids() == turned(self.growth.tree.kids()),
            t.nodes().len() == self.growth.tree.nodes().len(),
            forall|k: int|
                0 <= k < t.nodes().len() ==> same_but_links(
                    self.growth.tree.nodes()[k],
                    #[trigger] t.nodes()[k],
                ),
            t.names() == self.growth.tree.names(),
            t.root() == self.growth.tree.root(),
            t.missed() == self.growth.tree.missed(),
            t.partial() == (self.growth.tree.partial() || self.outstanding > 0),
    {
        let mut tree = self.growth.tree;
        tree.finish();
        if self.outstanding > 0 {
            tree.mark_cancelled();
        }
        tree
    }
}

proof fn lemma_links_grow<F>(entries: Seq<Entry<F>>, i: int, j: int, links: Set<u128>, key: u128)
    requires
        0 <= i <= j,
        links_after(entries, i, links).contains(key),
    ensures
        links_after(entries, j, links).contains(key),
    decreases j - i,
{
    if i < j {
        assert(links_after(entries, i + 1, links).contains(key));
        lemma_links_grow(entries, i + 1, j, links, key);
    }
}

proof fn lemma_dirs_grow<F>(entries: Seq<Entry<F>>, i: int, j: int, dirs: Set<u128>, key: u128)
    requires
        0 <= i <= j,
        dirs_after(entries, i, dirs).contains(key),
    ensures
        dirs_after(entries, j, dirs).contains(key),
    decreases j - i,
{
    if i < j {
        assert(dirs_after(entries, i + 1, dirs).contains(key));
        lemma_dirs_grow(entries, i + 1, j, dirs, key);
    }
}

/// A file with several names adds to the totals once: of two of its names in a directory one at
/// most counts, none does if another directory had one before, and once one has been seen no later
/// directory counts it.
pub proof fn law_hardlinks_are_counted_once<F>(
    ctx: Ctx,
    parent: int,
    entries: Seq<Entry<F>>,
    links: Set<u128>,
    dirs: Set<u128>,
    i: int,
    j: int,
)
    requires
        0 <= i < j < entries.len(),
        is_shared(entries[i]),
        is_shared(entries[j]),
        entry_key(entries[i]) == entry_key(entries[j]),
    ensures
        !nodes_for(ctx, parent, entries, links, dirs)[j].counted,
        links.contains(entry_key(entries[i])) ==> !nodes_for(
            ctx,
            parent,
            entries,
            links,
            dirs,
        )[i].counted,
        links_after(entries, entries.len() as int, links).contains(entry_key(entries[i])),
{
    let key = entry_key(entries[i]);
    assert(links_after(entries, i + 1, links).contains(key));
    lemma_links_grow(entries, i + 1, j, links, key);
    lemma_links_grow(entries, i + 1, entries.len() as int, links, key);
    if links.contains(key) {
        assert(links_after(entries, 0, links).contains(key));
        lemma_links_grow(entries, 0, i, links, key);
    }
}

/// No directory is read twice: one that was queued before is not queued again, and one that is
/// queued is remembered.
pub proof fn law_directories_are_entered_once<F>(entries: Seq<Entry<F>>, dirs: Set<u128>, j: int)
    requires
        0 <= j < entries.len(),
        is_queued(entries, j, dirs),
    ensures
        !dirs.contains(entry_key(entries[j])),
        forall|i: int|
            0 <= i < j && !((#[trigger] entries[i]).descend is No) ==> entry_key(entries[i])
                != entry_key(entries[j]),
        dirs_after(entries, entries.len() as int, dirs).contains(entry_key(entries[j])),
{
    let key = entry_key(entries[j]);
    if dirs.contains(key) {
        assert(dirs_after(entries, 0, dirs).contains(key));
        lemma_dirs_grow(entries, 0, j, dirs, key);
    }
    assert forall|i: int| 0 <= i < j && !((#[trigger] entries[i]).descend is No) implies entry_key(
        entries[i],
    ) != key by {
        if entry_key(entries[i]) == key {
            assert(dirs_after(entries, i + 1, dirs).contains(key));
            lemma_dirs_grow(entries, i + 1, j, dirs, key);
        }
    }
    assert(dirs_after(entries, j + 1, dirs).contains(key));
    lemma_dirs_grow(entries, j + 1, entries.len() as int, dirs, key);
}

} // verus!
