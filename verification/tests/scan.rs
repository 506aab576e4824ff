//! Scanning a disk that is made of a map, and finding what is on it twice.

use std::collections::{BTreeMap, HashSet};

use ccdu::dup::{
    can_count, can_total_wasted, candidates_by_size, shares_inode, total_wasted, Depth, DupGroup, DupOptions,
    FileDigest, Hashed, Search, SearchAct, Want, SAMPLE,
};
use ccdu::model::{flags, Kind, NodeId, Tree, ROOT};
use ccdu::path::{file_name, join, parent};
use ccdu::remote::agent::scan_options;
use ccdu::scan::builder::Scan;
use ccdu::scan::{
    next_held, ChildOpen, Ctx, DirRead, FdBudget, Progress, Read, ReadAct, ScanOptions, Task,
};
use ccdu::stat::Stat;

const DIR: u32 = 0o040755;
const FILE: u32 = 0o100644;
const LINK: u32 = 0o120777;

#[derive(Default)]
struct Disk {
    stats: BTreeMap<Vec<u8>, Stat>,
    data: BTreeMap<Vec<u8>, Vec<u8>>,
    locked: HashSet<Vec<u8>>,
    next: u64,
}

impl Disk {
    fn add(&mut self, path: &str, mode: u32, data: Vec<u8>) {
        self.next += 1;
        let stat = Stat {
            dev: if path.starts_with("/r/other") { 2 } else { 1 },
            ino: self.next,
            size: data.len() as i64,
            mtime: 7,
            mode,
            blocks: (data.len() as u64).div_ceil(4096) * 8,
            nlink: 1,
        };
        self.stats.insert(path.as_bytes().to_vec(), stat);
        self.data.insert(path.as_bytes().to_vec(), data);
    }

    fn file(&mut self, path: &str, size: usize) {
        self.add(path, FILE, vec![0u8; size]);
    }

    fn dir(&mut self, path: &str) {
        self.add(path, DIR, Vec::new());
    }

    fn link(&mut self, first: &str, second: &str) {
        let ino = self.stats[first.as_bytes()].ino;
        let mut stat = self.stats[first.as_bytes()];
        self.data.insert(second.as_bytes().to_vec(), self.data[first.as_bytes()].clone());
        self.stats.insert(second.as_bytes().to_vec(), stat);
        stat.nlink = self.stats.values().filter(|s| s.ino == ino).count() as u64;
        for s in self.stats.values_mut().filter(|s| s.ino == ino) {
            s.nlink = stat.nlink;
        }
    }

    fn kind(stat: &Stat) -> Kind {
        stat.kind()
    }

    /// Read one directory the way a worker does. A descriptor is the path it was opened by.
    fn read(&self, ctx: &Ctx, budget: &FdBudget, task: Task<Vec<u8>>) -> DirRead<Vec<u8>> {
        let (mut reading, mut act) = DirRead::begin(task);
        let mut here: Vec<u8> = Vec::new();
        let mut names: Vec<Vec<u8>> = Vec::new();
        loop {
            act = match act {
                ReadAct::Open(path) => {
                    let ok = !self.locked.contains(&path);
                    here = path;
                    reading.opened(ok)
                }
                ReadAct::ListFd(fd) => {
                    here = fd;
                    names = self.names_in(&here);
                    reading.listed(true)
                }
                ReadAct::List => {
                    names = self.names_in(&here);
                    reading.listed(true)
                }
                ReadAct::Next => {
                    let what = match names.pop() {
                        None => Read::End,
                        Some(name) => {
                            let kind = match self.stats.get(&join(&here, &name)) {
                                Some(s) => Self::kind(s),
                                None => Kind::Dir,
                            };
                            Read::Entry { name, kind }
                        }
                    };
                    reading.read(ctx, what)
                }
                ReadAct::Stat(name) => {
                    reading.looked(ctx, self.stats.get(&join(&here, &name)).copied())
                }
                ReadAct::Acquire => reading.acquired(ctx, budget.try_acquire()),
                ReadAct::OpenChild(name) => {
                    let path = join(&here, &name);
                    let child = if self.locked.contains(&path) {
                        ChildOpen::Failed
                    } else {
                        ChildOpen::Fd(path)
                    };
                    reading.child_opened(ctx, child)
                }
                ReadAct::ReleaseAndNext => {
                    budget.release();
                    ReadAct::Next
                }
                ReadAct::Over { release } => {
                    if release {
                        budget.release();
                    }
                    return reading;
                }
            }
        }
    }

    fn names_in(&self, dir: &[u8]) -> Vec<Vec<u8>> {
        let mut names: Vec<Vec<u8>> = self
            .stats
            .keys()
            .filter(|k| parent(k).as_deref() == Some(dir))
            .map(|k| file_name(k).unwrap())
            .collect();
        names.push(b".".to_vec());
        names.push(b"..".to_vec());
        names.reverse();
        names
    }

    /// Scan, stopping after so many directories.
    fn scan_for(&self, root: &str, opts: ScanOptions, limit: usize) -> (Tree, Vec<Progress>) {
        let budget = FdBudget::new(opts.max_open_dirs);
        let stat = self.stats[root.as_bytes()];
        let ctx = Ctx { opts, root_dev: stat.dev };
        let (mut scan, first) = Scan::begin(root.as_bytes().to_vec(), &stat);
        let mut queue: Vec<Task<Vec<u8>>> = Vec::new();
        queue.extend(first);
        let mut said = Vec::new();
        let mut done = 0;
        while !scan.is_over() && done < limit {
            let task = queue.pop().unwrap();
            let result = self.read(&ctx, &budget, task).out;
            assert!(scan.fits(&ctx, &result));
            let taken = scan.absorb(&ctx, result);
            for _ in 0..taken.dropped {
                budget.release();
            }
            queue.extend(taken.tasks);
            said.extend(taken.progress);
            done += 1;
        }
        (scan.finish(), said)
    }

    fn scan(&self, root: &str, opts: ScanOptions) -> Tree {
        self.scan_for(root, opts, usize::MAX).0
    }
}

fn opts() -> ScanOptions {
    ScanOptions::standard(Some(4))
}

/// Every entry below the root, by its path from there, with its apparent size.
fn collect(tree: &Tree) -> BTreeMap<String, u64> {
    let mut out = BTreeMap::new();
    let mut stack: Vec<NodeId> = vec![ROOT];
    while let Some(id) = stack.pop() {
        for child in tree.child_ids(id) {
            let path = tree.path_of(child);
            let rel = String::from_utf8_lossy(&path[tree.root_path().len() + 1..]).into_owned();
            out.insert(rel, tree.node(child).apparent);
            stack.push(child);
        }
    }
    out
}

fn disk_with(dirs: &[&str]) -> Disk {
    let mut disk = Disk::default();
    disk.dir("/r");
    for dir in dirs {
        disk.dir(dir);
    }
    disk
}

#[test]
fn scans_a_nested_tree() {
    let mut disk = disk_with(&["/r/a", "/r/a/b", "/r/empty"]);
    disk.file("/r/a/b/big", 8192);
    disk.file("/r/a/small", 2);

    let tree = disk.scan("/r", opts());
    let found = collect(&tree);

    assert!(found.contains_key("a/b/big"));
    assert!(found.contains_key("empty"));
    assert_eq!(found["a/b/big"], 8192);
    // Every ancestor carries the file's weight.
    assert!(tree.node(ROOT).disk >= 8192);
    assert_eq!(tree.node(ROOT).items as usize, tree.len() - 1);
    assert_eq!(tree.errors, 0);
    assert!(!tree.is_cancelled());
}

#[test]
fn hardlinks_are_counted_once() {
    let mut disk = disk_with(&[]);
    disk.file("/r/original", 16384);
    disk.link("/r/original", "/r/link1");
    disk.link("/r/original", "/r/link2");

    let tree = disk.scan("/r", opts());

    let total: u64 = tree.child_ids(ROOT).iter().map(|&c| tree.node(c).disk).sum();
    assert_eq!(total, 16384, "three links to one inode must count as one file");
    let dups =
        tree.child_ids(ROOT).iter().filter(|&&c| tree.node(c).has(flags::HARDLINK_DUP)).count();
    assert_eq!(dups, 2);
}

#[test]
fn symlinks_are_not_followed() {
    let mut disk = disk_with(&["/r/real"]);
    disk.file("/r/real/f", 4096);
    disk.add("/r/real/loop", LINK, b"/r".to_vec());

    let tree = disk.scan("/r", opts());
    let found = collect(&tree);
    assert!(found.contains_key("real/loop"));
    assert!(!found.keys().any(|k| k.starts_with("real/loop/")), "symlink was traversed");
    let real = tree.child_ids(ROOT)[0];
    assert!(tree.child_ids(real).iter().any(|&c| tree.node(c).has(flags::SYMLINK)));
}

#[test]
fn excluded_names_are_recorded_but_not_entered() {
    let mut disk = disk_with(&["/r/node_modules", "/r/node_modules/pkg"]);
    disk.file("/r/node_modules/pkg/blob", 65536);
    disk.file("/r/keep", 1024);

    let o = ScanOptions { exclude_names: vec![b"node_modules".to_vec()], ..opts() };
    let tree = disk.scan("/r", o);
    let found = collect(&tree);
    assert!(found.contains_key("node_modules"));
    assert!(!found.contains_key("node_modules/pkg"));
    assert!(tree.node(ROOT).disk < 65536);
    let skipped = tree.child_ids(ROOT);
    assert!(skipped.iter().any(|&c| tree.node(c).has(flags::EXCLUDED)));
}

#[test]
fn other_filesystems_are_left_alone_when_asked() {
    let mut disk = disk_with(&["/r/other"]);
    disk.file("/r/other/f", 4096);
    let o = ScanOptions { one_file_system: true, ..opts() };
    let tree = disk.scan("/r", o);
    assert!(!collect(&tree).contains_key("other/f"));
    assert!(tree.node(tree.child_ids(ROOT)[0]).has(flags::OTHER_FS));
    assert!(collect(&disk.scan("/r", opts())).contains_key("other/f"));
}

#[test]
fn unreadable_directories_are_flagged_not_fatal() {
    let mut disk = disk_with(&["/r/locked"]);
    disk.file("/r/locked/hidden", 2048);
    disk.locked.insert(b"/r/locked".to_vec());
    disk.file("/r/visible", 512);

    let tree = disk.scan("/r", opts());
    let locked = *tree.child_ids(ROOT).iter().find(|&&c| tree.name(c) == b"locked").unwrap();
    assert_eq!(tree.errors, 1);
    assert!(tree.node(locked).has(flags::ERR));
    assert!(collect(&tree).contains_key("visible"));
}

#[test]
fn a_directory_is_entered_once() {
    let mut disk = disk_with(&["/r/a", "/r/b"]);
    disk.file("/r/a/f", 4096);
    // The same directory, mounted twice.
    let twin = disk.stats[b"/r/a".as_slice()];
    disk.stats.insert(b"/r/b".to_vec(), twin);
    disk.file("/r/b/f", 4096);
    let tree = disk.scan("/r", opts());
    let found = collect(&tree);
    assert_ne!(found.contains_key("a/f"), found.contains_key("b/f"));
    assert!(tree.child_ids(ROOT).iter().any(|&c| tree.node(c).has(flags::LOOP)));
}

#[test]
fn descriptor_budget_falls_back_to_paths() {
    let mut disk = disk_with(&[]);
    for i in 0..40 {
        disk.dir(&format!("/r/d{i}"));
        disk.file(&format!("/r/d{i}/f"), 1024);
    }
    // A budget of one forces almost every subdirectory down the reopen-by-path path.
    let o = ScanOptions { max_open_dirs: 1, ..opts() };
    let tree = disk.scan("/r", o);
    assert_eq!(collect(&tree).keys().filter(|k| k.ends_with("/f")).count(), 40);
    assert_eq!(tree.errors, 0);

    let budget = FdBudget::new(1);
    assert!(budget.try_acquire());
    assert!(!budget.try_acquire());
    budget.release();
    assert!(budget.try_acquire());
    assert_eq!(next_held(0, 1), Some(1));
    assert_eq!(next_held(1, 1), None);
}

#[test]
fn scanning_a_plain_file_yields_just_the_root() {
    let mut disk = Disk::default();
    disk.file("/lonely", 300);
    let tree = disk.scan("/lonely", opts());
    assert_eq!(tree.len(), 1);
    assert_eq!(tree.node(ROOT).apparent, 300);
}

#[test]
fn a_scan_that_is_cut_short_is_marked_as_partial() {
    let mut disk = disk_with(&["/r/a", "/r/b"]);
    disk.file("/r/a/f", 4096);
    let (tree, _) = disk.scan_for("/r", opts(), 1);
    assert!(tree.is_cancelled());
    assert_eq!(tree.node(ROOT).items, 2);
}

#[test]
fn progress_is_reported_every_so_often() {
    let mut disk = disk_with(&[]);
    for i in 0..300 {
        disk.dir(&format!("/r/d{i:03}"));
        disk.file(&format!("/r/d{i:03}/f"), 1024);
    }
    let (tree, said) = disk.scan_for("/r", opts(), usize::MAX);
    assert_eq!(tree.node(ROOT).items, 600);
    assert!(!said.is_empty(), "no progress arrived during a 600-entry scan");
    assert!(said.iter().all(|p| p.entries <= 600 && p.dirs <= 301));
}

#[test]
fn threads_are_bounded_by_what_there_is() {
    assert_eq!(ScanOptions::standard(None).workers(), ScanOptions::standard(Some(4)).workers());
    assert_eq!(ScanOptions { threads: 0, ..opts() }.workers(), 1);
    assert!(ScanOptions { exclude_names: vec![b".git".to_vec()], ..opts() }.is_excluded(b".git"));
    assert!(!opts().is_excluded(b".git"));
}

// ---------------------------------------------------------------------------------------------
// Duplicates

fn dup_opts() -> DupOptions {
    DupOptions { min_size: 1, threads: 2 }
}

fn digest(data: &[u8], depth: Depth) -> [u8; 32] {
    let mut d = FileDigest::begin(data.len() as u64, depth);
    let mut at = 0;
    let sample = SAMPLE as usize;
    loop {
        match d.want {
            Want::Chunk => {
                let end = (at + 5000).min(data.len());
                d.take_in(&data[at..end]);
                at = end;
            }
            Want::Head => d.take_in(&data[..sample]),
            Want::Tail => d.take_in(&data[data.len() - sample..]),
            Want::Nothing => return d.finish().0,
        }
    }
}

/// Search for duplicates, with some files that cannot be read.
fn find_but(disk: &Disk, tree: &Tree, opts: &DupOptions, unreadable: &[&str]) -> Vec<DupGroup> {
    assert!(can_count(tree));
    let (mut search, act) = Search::begin(tree, opts);
    let hash = |ids: Vec<NodeId>, depth: Depth| -> Vec<Hashed> {
        ids.into_iter()
            .filter(|&id| !unreadable.contains(&String::from_utf8_lossy(tree.name(id)).as_ref()))
            .map(|id| Hashed { id, digest: digest(&disk.data[&tree.path_of(id)], depth) })
            .collect()
    };
    match act {
        SearchAct::Over(groups) => groups,
        SearchAct::Hash { ids, depth } => {
            let found = hash(ids, depth);
            match search.sampled(tree, &found) {
                SearchAct::Over(groups) => groups,
                SearchAct::Hash { ids, depth } => search.hashed(tree, &hash(ids, depth)),
            }
        }
    }
}

fn find(disk: &Disk, tree: &Tree, opts: &DupOptions) -> Vec<DupGroup> {
    find_but(disk, tree, opts, &[])
}

fn names(tree: &Tree, group: &DupGroup) -> Vec<String> {
    let mut out: Vec<String> = group
        .nodes
        .iter()
        .map(|&id| {
            let path = tree.path_of(id);
            String::from_utf8_lossy(&path[tree.root_path().len() + 1..]).into_owned()
        })
        .collect();
    out.sort();
    out
}

#[test]
fn finds_identical_files_and_ignores_the_rest() {
    let mut disk = disk_with(&["/r/sub"]);
    disk.add("/r/a.bin", FILE, vec![1u8; 20_000]);
    disk.add("/r/sub/b.bin", FILE, vec![1u8; 20_000]);
    disk.add("/r/different.bin", FILE, vec![2u8; 20_000]);
    disk.add("/r/shorter.bin", FILE, vec![1u8; 19_000]);

    let tree = disk.scan("/r", opts());
    let groups = find(&disk, &tree, &dup_opts());

    assert_eq!(groups.len(), 1, "{groups:?}");
    assert_eq!(names(&tree, &groups[0]), ["a.bin", "sub/b.bin"]);
    assert_eq!(groups[0].size, 20_000);
    assert!(groups[0].wasted >= 20_000);
    assert_eq!(candidates_by_size(&tree, &dup_opts()).len(), 3);
}

#[test]
fn files_that_differ_only_in_the_middle_are_not_duplicates() {
    // Identical first and last 4 KiB, different in between: exactly what the sampling stage cannot
    // see, so this is what proves the full pass runs.
    let mut a = vec![7u8; 40_000];
    let mut b = vec![7u8; 40_000];
    a[20_000] = 1;
    b[20_000] = 2;
    assert_eq!(digest(&a, Depth::Ends), digest(&b, Depth::Ends));
    assert_ne!(digest(&a, Depth::Whole), digest(&b, Depth::Whole));
    let mut disk = disk_with(&[]);
    disk.add("/r/a.bin", FILE, a);
    disk.add("/r/b.bin", FILE, b);
    let tree = disk.scan("/r", opts());
    assert!(find(&disk, &tree, &dup_opts()).is_empty());
}

#[test]
fn a_digest_is_the_one_the_hash_function_gives() {
    let data = vec![9u8; 12_345];
    assert_eq!(digest(&data, Depth::Whole), *blake3::hash(&data).as_bytes());
    let mut ends = data[..4096].to_vec();
    ends.extend_from_slice(&data[12_345 - 4096..]);
    ends.extend_from_slice(&12_345u64.to_le_bytes());
    assert_eq!(digest(&data, Depth::Ends), *blake3::hash(&ends).as_bytes());
}

#[test]
fn hardlinks_are_not_reported_as_duplicates() {
    let mut disk = disk_with(&[]);
    disk.add("/r/original", FILE, vec![3u8; 30_000]);
    disk.link("/r/original", "/r/second-name");
    let tree = disk.scan("/r", opts());
    // Two names, one inode, nothing to reclaim by deleting either.
    assert!(find(&disk, &tree, &dup_opts()).is_empty());
}

#[test]
fn a_hardlink_pair_still_counts_once_against_a_real_duplicate() {
    let mut disk = disk_with(&[]);
    disk.add("/r/original", FILE, vec![3u8; 30_000]);
    disk.link("/r/original", "/r/second-name");
    disk.add("/r/real-copy", FILE, vec![3u8; 30_000]);

    let tree = disk.scan("/r", opts());
    let groups = find(&disk, &tree, &dup_opts());

    assert_eq!(groups.len(), 1, "{groups:?}");
    assert_eq!(groups[0].nodes.len(), 2, "the hardlink should not appear as a third copy");
    let found = names(&tree, &groups[0]);
    assert!(found.contains(&"real-copy".to_string()), "{found:?}");
    assert!(
        found.contains(&"original".to_string()) || found.contains(&"second-name".to_string()),
        "{found:?}"
    );
    let linked = groups[0].nodes.iter().filter(|&&id| shares_inode(&tree, id)).count();
    assert_eq!(linked, 1);
    assert!(
        groups[0].wasted <= tree.node(groups[0].nodes[0]).disk,
        "waste {} counts space that removing one name would not free",
        groups[0].wasted
    );
}

#[test]
fn small_files_are_skipped_by_default() {
    let mut disk = disk_with(&[]);
    disk.add("/r/a.txt", FILE, b"tiny".to_vec());
    disk.add("/r/b.txt", FILE, b"tiny".to_vec());
    let tree = disk.scan("/r", opts());
    assert!(find(&disk, &tree, &DupOptions::standard(Some(2))).is_empty());
    assert_eq!(find(&disk, &tree, &dup_opts()).len(), 1);
    assert_eq!(dup_opts().threads_over(1), 1);
}

#[test]
fn symlinks_and_directories_are_never_candidates() {
    let mut disk = disk_with(&["/r/dir-a", "/r/dir-b"]);
    disk.file("/r/target", 10_000);
    disk.add("/r/link-a", LINK, b"/r/target".to_vec());
    disk.add("/r/link-b", LINK, b"/r/target".to_vec());
    let tree = disk.scan("/r", opts());
    assert!(find(&disk, &tree, &dup_opts()).is_empty());
}

#[test]
fn three_copies_report_two_copies_worth_of_waste() {
    let mut disk = disk_with(&[]);
    for name in ["/r/one", "/r/two", "/r/three"] {
        disk.add(name, FILE, vec![5u8; 8192]);
    }
    let tree = disk.scan("/r", opts());
    let groups = find(&disk, &tree, &dup_opts());
    assert_eq!(groups.len(), 1);
    assert_eq!(groups[0].nodes.len(), 3);
    let each = tree.node(groups[0].nodes[0]).disk;
    assert_eq!(groups[0].wasted, each * 2, "keeping one of three should free the other two");
    assert_eq!(total_wasted(&groups), each * 2);
}

#[test]
fn groups_come_back_worst_waste_first() {
    let mut disk = disk_with(&[]);
    disk.add("/r/small-a", FILE, vec![1u8; 8_000]);
    disk.add("/r/small-b", FILE, vec![1u8; 8_000]);
    disk.add("/r/big-a", FILE, vec![2u8; 200_000]);
    disk.add("/r/big-b", FILE, vec![2u8; 200_000]);
    let tree = disk.scan("/r", opts());
    let groups = find(&disk, &tree, &dup_opts());
    assert_eq!(groups.len(), 2);
    assert!(groups[0].wasted > groups[1].wasted);
    assert_eq!(groups[0].size, 200_000);
}

#[test]
fn the_copy_to_keep_is_the_largest_on_disk() {
    let mut disk = disk_with(&[]);
    disk.add("/r/sparse", FILE, vec![1u8; 20_000]);
    disk.add("/r/full", FILE, vec![1u8; 20_000]);
    disk.stats.get_mut(b"/r/sparse".as_slice()).unwrap().blocks = 8;
    let tree = disk.scan("/r", opts());
    let groups = find(&disk, &tree, &dup_opts());
    assert_eq!(tree.name(groups[0].nodes[0]), b"full");
}

#[test]
fn excludes_are_honoured_on_the_far_side() {
    let mut disk = disk_with(&["/r/logs", "/r/logs/2026"]);
    disk.add("/r/logs/2026/a.log", FILE, vec![1u8; 40_000]);
    disk.add("/r/logs/2026/b.log", FILE, vec![2u8; 10_000]);
    disk.add("/r/readme.txt", FILE, vec![3u8; 500]);
    disk.add("/r/pointer", LINK, b"readme.txt".to_vec());

    let tree = disk.scan("/r", scan_options(false, 2, &Vec::new()));
    assert_eq!(tree.node(ROOT).items, 6);
    let tree = disk.scan("/r", scan_options(false, 2, &vec!["logs".to_string()]));

    // The directory is still listed, but nothing under it was walked: logs, readme.txt, pointer.
    assert_eq!(tree.node(ROOT).items, 3);
    assert!(tree.node(ROOT).disk < 40_000, "the excluded subtree was counted");
}

#[test]
fn an_unreadable_file_is_left_out_rather_than_grouped() {
    let mut disk = disk_with(&[]);
    for name in ["/r/a.bin", "/r/b.bin", "/r/locked.bin"] {
        disk.add(name, FILE, vec![6u8; 20_000]);
    }
    let tree = disk.scan("/r", opts());
    let groups = find_but(&disk, &tree, &dup_opts(), &["locked.bin"]);
    assert_eq!(groups.len(), 1);
    assert!(groups[0].nodes.len() >= 2);
    assert!(names(&tree, &groups[0]).contains(&"a.bin".to_string()));
    assert_eq!(names(&tree, &groups[0]), ["a.bin", "b.bin"]);
    assert!(can_total_wasted(&groups));
    let huge = DupGroup { nodes: groups[0].nodes.clone(), size: 1, wasted: u64::MAX };
    assert!(!can_total_wasted(&[groups[0].clone(), huge]));
}
