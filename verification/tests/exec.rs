//! A disk that is made of maps, and the machines driven against it.

use std::collections::BTreeMap;

use ccdu::digest::Digest;
use ccdu::exec::copy::{
    copy_chunk, copy_file, copy_regular, copy_symlink, ChunkAct, ChunkReply, Contents, ContentsAct,
    CopyAct, CopyTree, DirReply, FileAct, FileReply, FileRequest, Linked, Sought, CHUNK,
};
use ccdu::exec::journal::{
    blank, mend, read, read_dir, split_lines, Event, Journal, Line, Mend, Record,
};
use ccdu::exec::moves::{run_move, temp_name, MoveAct, MoveReply, MoveRequest, Renamed};
use ccdu::exec::remove::{
    run_op, DeleteAct, DeleteReply, DeleteRequest, FrameReply, Listed, Removal, RemoveAct,
};
use ccdu::exec::run::{Act, OpResult, Run, Turn};
use ccdu::exec::{
    can_tally, difference, execution_order, replay, state, Control, ExecEvent, ExecOptions,
    FaultPoint, Looked, Opened, Outcome, Removed, RunState, Step, Verify,
};
use ccdu::path::{join, parent, path_starts_with};
use ccdu::plan::{Conflict, EntryKind, Ident, Op, Plan};
use ccdu::stat::Stat;

const DIR: u32 = 0o040755;
const FILE: u32 = 0o100644;
const LINK: u32 = 0o120777;
const FIFO: u32 = 0o010644;
const SOCKET: u32 = 0o140755;

#[derive(Clone)]
struct Inode {
    mode: u32,
    data: Vec<u8>,
    mtime: i64,
}

#[derive(Clone, Default)]
struct Disk {
    names: BTreeMap<Vec<u8>, u64>,
    inodes: BTreeMap<u64, Inode>,
    next: u64,
    /// Directories that nothing can be removed from.
    locked: Vec<Vec<u8>>,
    /// Files whose copies come out wrong.
    corrupting: bool,
}

fn p(text: &str) -> Vec<u8> {
    text.as_bytes().to_vec()
}

impl Disk {
    fn put(&mut self, path: &[u8], mode: u32, data: Vec<u8>) {
        self.next += 1;
        self.inodes.insert(self.next, Inode { mode, data, mtime: 100 });
        self.names.insert(path.to_vec(), self.next);
        self.touch(path);
    }

    fn link(&mut self, first: &[u8], second: &[u8]) {
        let ino = self.names[first];
        self.names.insert(second.to_vec(), ino);
    }

    /// Whatever happens in a directory moves its time.
    fn touch(&mut self, path: &[u8]) {
        if let Some(dir) = parent(path) {
            if let Some(ino) = self.names.get(&dir) {
                self.inodes.get_mut(ino).unwrap().mtime += 1;
            }
        }
    }

    fn dev(path: &[u8]) -> u64 {
        if path_starts_with(path, b"/mnt") { 2 } else { 1 }
    }

    fn stat(&self, path: &[u8]) -> Option<Stat> {
        let ino = *self.names.get(path)?;
        let inode = &self.inodes[&ino];
        Some(Stat {
            dev: Self::dev(path),
            ino,
            size: inode.data.len() as i64,
            mtime: inode.mtime,
            mode: inode.mode,
            blocks: (inode.data.len() as u64).div_ceil(512),
            nlink: self.names.values().filter(|i| **i == ino).count() as u64,
        })
    }

    fn look(&self, path: &[u8]) -> Looked {
        match self.stat(path) {
            Some(stat) => Looked::Found(stat),
            None => Looked::Gone,
        }
    }

    fn list(&self, dir: &[u8]) -> Vec<Vec<u8>> {
        self.names
            .keys()
            .filter(|k| parent(k).as_deref() == Some(dir))
            .map(|k| ccdu::path::file_name(k).unwrap())
            .collect()
    }

    fn remove(&mut self, path: &[u8]) {
        self.names.remove(path);
        self.touch(path);
    }

    fn rename(&mut self, from: &[u8], to: &[u8]) {
        let moved: Vec<(Vec<u8>, u64)> = self
            .names
            .iter()
            .filter(|(k, _)| path_starts_with(k, from))
            .map(|(k, v)| (k.clone(), *v))
            .collect();
        for (k, v) in moved {
            self.names.remove(&k);
            let mut there = to.to_vec();
            there.extend_from_slice(&k[from.len()..]);
            self.names.insert(there, v);
        }
        self.touch(from);
        self.touch(to);
    }

    fn has(&self, path: &str) -> bool {
        self.names.contains_key(path.as_bytes())
    }

    fn under(&self, dir: &str) -> Vec<String> {
        self.names
            .keys()
            .filter(|k| k.as_slice() != dir.as_bytes() && path_starts_with(k, dir.as_bytes()))
            .map(|k| String::from_utf8_lossy(&k[dir.len() + 1..]).into_owned())
            .collect()
    }

    /// Everything under a directory: what it is, and how much is in it.
    fn shape(&self, dir: &str) -> BTreeMap<String, (u32, Vec<u8>)> {
        self.under(dir)
            .into_iter()
            .map(|name| {
                let inode = &self.inodes[&self.names[&p(&format!("{dir}/{name}"))]];
                (name, (inode.mode, inode.data.clone()))
            })
            .collect()
    }

    fn data(&self, path: &str) -> &Vec<u8> {
        &self.inodes[&self.names[path.as_bytes()]].data
    }

    fn ident(&self, path: &str) -> Ident {
        Ident::of(&self.stat(path.as_bytes()).unwrap())
    }

    fn delete_op(&self, path: &str) -> Op {
        Op::Delete { path: p(path), ident: self.ident(path), est_bytes: 0 }
    }

    fn move_op(&self, src: &str, dst: &str) -> Op {
        Op::Move {
            src: p(src),
            dst: p(dst),
            ident: self.ident(src),
            est_bytes: 0,
            on_conflict: Conflict::Fail,
        }
    }
}

/// A run that was cut down, the way a crash would.
struct Crash;

struct World<'a> {
    disk: &'a mut Disk,
    opts: ExecOptions,
    /// Where the run is cut down, if anywhere.
    fault: Option<(FaultPoint, usize)>,
    /// Where somebody asks the run to stop, if anywhere.
    pause_at: Option<FaultPoint>,
    /// How many more times nobody has asked to stop.
    patience: usize,
    index: usize,
}

impl World<'_> {
    fn fault(&mut self, point: FaultPoint) -> Result<(), Crash> {
        if self.pause_at == Some(point) {
            self.patience = 0;
        }
        if self.fault == Some((point, self.index)) { Err(Crash) } else { Ok(()) }
    }

    fn paused(&mut self) -> bool {
        if self.patience == 0 {
            return true;
        }
        self.patience -= 1;
        false
    }

    fn remove_tree(
        &mut self,
        dir: &[u8],
        name: Vec<u8>,
        disk: u64,
        may_stop: bool,
    ) -> Result<Result<Step, String>, Crash> {
        let (mut removal, mut act) = Removal::begin(name, disk);
        let mut here = dir.to_vec();
        loop {
            act = match act {
                RemoveAct::Open { name } => {
                    let path = join(&here, &name);
                    let reply = if self.disk.locked.contains(&path) {
                        FrameReply::NotWritable
                    } else {
                        let entries = self
                            .disk
                            .list(&path)
                            .into_iter()
                            .map(|name| Listed { look: self.disk.look(&join(&path, &name)), name })
                            .collect();
                        FrameReply::Entries { entries, broke: None }
                    };
                    here = path;
                    removal.opened(&reply)
                }
                RemoveAct::CheckPause => {
                    let paused = may_stop && self.paused();
                    removal.go_on(paused)
                }
                RemoveAct::Unlink { name } => {
                    self.disk.remove(&join(&here, &name));
                    removal.unlinked(&Removed::Yes)
                }
                RemoveAct::RemoveDir { name } => {
                    here = parent(&here).unwrap();
                    let path = join(&here, &name);
                    assert!(self.disk.list(&path).is_empty(), "a directory that was not empty");
                    self.disk.remove(&path);
                    removal.dir_removed(&Removed::Yes)
                }
                RemoveAct::Announce => {
                    self.fault(FaultPoint::MidDelete)?;
                    RemoveAct::CheckPause
                }
                RemoveAct::Finished(step) => return Ok(Ok(step)),
                RemoveAct::Failed(e) => return Ok(Err(e)),
            }
        }
    }

    fn delete(&mut self, req: &DeleteRequest) -> Result<Result<Step, String>, Crash> {
        let mut reply = DeleteReply::Start;
        let mut dir = Vec::new();
        loop {
            reply = match run_op(req, &reply) {
                DeleteAct::OpenParent { parent } => {
                    let there = self.disk.names.contains_key(&parent);
                    dir = parent;
                    DeleteReply::Parent(if there { Opened::Yes } else { Opened::Gone })
                }
                DeleteAct::Look { name } => {
                    DeleteReply::Entry(self.disk.look(&join(&dir, &name)))
                }
                DeleteAct::Unlink { name, disk } => {
                    self.disk.remove(&join(&dir, &name));
                    DeleteReply::Unlinked { disk, error: None }
                }
                DeleteAct::RemoveTree { name, disk } => {
                    return self.remove_tree(&dir, name, disk, true)
                }
                DeleteAct::Announce { disk } => {
                    self.fault(FaultPoint::MidDelete)?;
                    DeleteReply::Announced { disk }
                }
                DeleteAct::Finished(step) => return Ok(Ok(step)),
                DeleteAct::Failed(e) => return Ok(Err(e)),
            }
        }
    }

    fn digest(&self, path: &[u8]) -> [u8; 32] {
        let mut digest = Digest::new();
        digest.add_bytes(&self.disk.inodes[&self.disk.names[path]].data);
        digest.value()
    }

    fn copy_one(&mut self, src: &[u8], dst: &[u8], source: Stat) -> FileAct {
        let req = FileRequest {
            src_name: ccdu::path::file_name(src).unwrap(),
            dst_name: ccdu::path::file_name(dst).unwrap(),
            source,
            verify: self.opts.verify,
        };
        let mut reply = FileReply::Start;
        loop {
            reply = match copy_file(&req, &reply) {
                FileAct::LookExisting => FileReply::Existing(self.disk.look(dst)),
                FileAct::DigestExisting => FileReply::ExistingDigests {
                    source: self.digest(src),
                    copy: self.digest(dst),
                },
                FileAct::Clear => {
                    self.disk.remove(dst);
                    FileReply::Cleared
                }
                FileAct::OpenSource => FileReply::SourceOpened { error: None },
                FileAct::Create => {
                    self.disk.put(dst, FILE, Vec::new());
                    FileReply::Created { error: None }
                }
                FileAct::Clone => FileReply::Cloned { shared: false },
                FileAct::CopyContents { size } => {
                    let mut data = self.disk.inodes[&self.disk.names[src]].data.clone();
                    assert_eq!(data.len() as u64, size);
                    if self.paused() {
                        return FileAct::Stopped;
                    }
                    if self.disk.corrupting && !data.is_empty() {
                        data[0] ^= 1;
                    }
                    let ino = self.disk.names[dst];
                    self.disk.inodes.get_mut(&ino).unwrap().data = data;
                    FileReply::ContentsCopied { complete: true }
                }
                FileAct::Seal => {
                    self.seal(dst, &source);
                    FileReply::Flushed { error: None }
                }
                FileAct::Measure => FileReply::Measured {
                    size: self.disk.stat(dst).unwrap().size as u64,
                },
                FileAct::Digest => FileReply::Digests {
                    source: self.digest(src),
                    copy: self.digest(dst),
                },
                over => return over,
            }
        }
    }

    fn seal(&mut self, path: &[u8], source: &Stat) {
        let ino = self.disk.names[path];
        let inode = self.disk.inodes.get_mut(&ino).unwrap();
        inode.mode = source.mode;
        inode.mtime = source.mtime;
    }

    fn copy_tree(
        &mut self,
        src: &[u8],
        source: Stat,
        dst: &[u8],
        temp: Vec<u8>,
    ) -> Result<Result<Step, String>, Crash> {
        let to = join(&parent(dst).unwrap(), &temp);
        let (mut copy, mut act) = CopyTree::begin(src.to_vec(), source, dst, temp);
        let mut stack: Vec<(Vec<u8>, Vec<u8>)> = Vec::new();
        loop {
            let here = stack.last().cloned().unwrap_or((src.to_vec(), to.clone()));
            act = match act {
                CopyAct::OpenRoot => {
                    if !self.disk.names.contains_key(&to) {
                        self.disk.put(&to, DIR, Vec::new());
                    }
                    stack.push((src.to_vec(), to.clone()));
                    copy.root_opened(&DirReply::Names(self.disk.list(src)))
                }
                CopyAct::CheckPause => {
                    let paused = self.paused();
                    copy.go_on(paused)
                }
                CopyAct::SealDir { source } => {
                    self.seal(&here.1, &source);
                    stack.pop();
                    copy.sealed(&None)
                }
                CopyAct::Look { name } => copy.looked(&self.disk.look(&join(&here.0, &name))),
                CopyAct::OpenDir { name, .. } => {
                    let (a, b) = (join(&here.0, &name), join(&here.1, &name));
                    if !self.disk.names.contains_key(&b) {
                        self.disk.put(&b, DIR, Vec::new());
                    }
                    stack.push((a.clone(), b));
                    copy.dir_opened(&DirReply::Names(self.disk.list(&a)))
                }
                CopyAct::CopySymlink { name } => {
                    let (a, b) = (join(&here.0, &name), join(&here.1, &name));
                    let data = self.disk.inodes[&self.disk.names[&a]].data.clone();
                    let there = self.disk.names.contains_key(&b);
                    if !there {
                        self.disk.put(&b, LINK, data);
                    }
                    copy.symlinked(&if there { Linked::AlreadyThere } else { Linked::Yes })
                }
                CopyAct::LinkTo { first, name } => {
                    let path = join(&here.1, &name);
                    let there = self.disk.names.contains_key(&path);
                    if !there {
                        self.disk.link(&first, &path);
                    }
                    copy.linked(&if there { Linked::AlreadyThere } else { Linked::Yes })
                }
                CopyAct::Clear { name } => {
                    self.disk.remove(&join(&here.1, &name));
                    copy.cleared()
                }
                CopyAct::CopyFile { name, source } => {
                    match self.copy_one(&join(&here.0, &name), &join(&here.1, &name), source) {
                        FileAct::Finished { copied } => copy.file_copied(&Ok(copied)),
                        FileAct::Stopped => copy.file_stopped(),
                        FileAct::Failed(e) => copy.file_copied(&Err(e)),
                        other => panic!("{other:?}"),
                    }
                }
                CopyAct::MakeFifo { name, source } => {
                    let path = join(&here.1, &name);
                    let there = self.disk.names.contains_key(&path);
                    if !there {
                        self.disk.put(&path, source.mode, Vec::new());
                    }
                    copy.fifo_made(&if there { Linked::AlreadyThere } else { Linked::Yes })
                }
                CopyAct::Announce => {
                    self.fault(FaultPoint::MidCopy)?;
                    CopyAct::CheckPause
                }
                CopyAct::Finished(step) => return Ok(Ok(step)),
                CopyAct::Failed(e) => return Ok(Err(e)),
            }
        }
    }

    fn relocate(
        &mut self,
        req: &MoveRequest,
        record: &mut dyn FnMut(Ident),
    ) -> Result<Result<Step, String>, Crash> {
        let mut reply = MoveReply::Start;
        let (mut out, mut into) = (Vec::new(), Vec::new());
        loop {
            reply = match run_move(req, &reply) {
                MoveAct::OpenDstDir { parent } => {
                    let there = self.disk.names.contains_key(&parent);
                    into = parent;
                    let error = if there { None } else { Some("No such directory".to_string()) };
                    MoveReply::DstDir { error }
                }
                MoveAct::OpenSrcDir { parent } => {
                    out = parent;
                    MoveReply::SrcDir(Opened::Yes)
                }
                MoveAct::LookSource { name } => {
                    MoveReply::Source(self.disk.look(&join(&out, &name)))
                }
                MoveAct::LookArrived { name } => MoveReply::Arrived {
                    found: self.disk.names.contains_key(&join(&into, &name)),
                },
                MoveAct::LookDestination { source, name } => MoveReply::Destination {
                    source,
                    look: self.disk.look(&join(&into, &name)),
                },
                MoveAct::Rename { source, from, to } => {
                    let how = if Disk::dev(&out) == Disk::dev(&into) {
                        self.disk.rename(&join(&out, &from), &join(&into, &to));
                        Renamed::Yes
                    } else {
                        Renamed::CrossDevice
                    };
                    MoveReply::Renamed { source, how }
                }
                MoveAct::Copy { source, kind, from, temp } => {
                    let (a, b) = (join(&out, &from), join(&into, &temp));
                    let result = match kind {
                        EntryKind::Dir => self.copy_tree(&a, source, &req.dst, temp)?,
                        EntryKind::Symlink => {
                            let data = self.disk.inodes[&self.disk.names[&a]].data.clone();
                            self.disk.put(&b, LINK, data);
                            copy_symlink(&from, &temp, &Linked::Yes)
                        }
                        _ => match self.copy_one(&a, &b, source) {
                            FileAct::Failed(e) => Err(e),
                            act => Ok(copy_regular(&act, false).unwrap()),
                        },
                    };
                    MoveReply::Copied { source, result }
                }
                MoveAct::LookTemporary { source, temp } => MoveReply::Temporary {
                    source,
                    look: self.disk.look(&join(&into, &temp)),
                },
                MoveAct::Record { source, entry } => {
                    record(entry);
                    MoveReply::Recorded { source }
                }
                MoveAct::Announce { source } => {
                    self.fault(FaultPoint::BeforeSourceRemoval)?;
                    MoveReply::Announced { source }
                }
                MoveAct::Publish { source, temp, name } => {
                    self.disk.rename(&join(&into, &temp), &join(&into, &name));
                    MoveReply::Published { source, error: None }
                }
                MoveAct::RemoveSourceTree { name, disk } => {
                    return self.remove_tree(&out, name, disk, false)
                }
                MoveAct::UnlinkSource { source, name } => {
                    self.disk.remove(&join(&out, &name));
                    MoveReply::Unlinked { source, error: None }
                }
                MoveAct::Finished(step) => return Ok(Ok(step)),
                MoveAct::Failed(e) => return Ok(Err(e)),
            }
        }
    }

    fn perform(
        &mut self,
        op: &Op,
        index: usize,
        strict: bool,
        published: Option<Ident>,
        record: &mut dyn FnMut(Ident),
    ) -> Result<OpResult, Crash> {
        self.index = index;
        let came = match op {
            Op::Delete { path, ident, est_bytes } => self.delete(&DeleteRequest {
                path: path.clone(),
                ident: *ident,
                est_bytes: *est_bytes,
                strict,
                dry_run: self.opts.dry_run,
            })?,
            Op::Move { src, dst, ident, est_bytes, on_conflict } => {
                let req = MoveRequest {
                    src: src.clone(),
                    dst: dst.clone(),
                    ident: *ident,
                    est_bytes: *est_bytes,
                    on_conflict: *on_conflict,
                    strict,
                    index,
                    published,
                    dry_run: self.opts.dry_run,
                };
                self.relocate(&req, record)?
            }
        };
        Ok(match came {
            Ok(Step::Done(freed)) => OpResult::Done(freed),
            Ok(Step::Paused(freed)) => OpResult::Paused(freed),
            Err(e) => OpResult::Failed(e),
        })
    }
}

/// A journal that is kept in memory, and what was told while a run went on.
#[derive(Default)]
struct Notes {
    records: Vec<Record>,
    told: Vec<ExecEvent>,
}

impl Notes {
    /// What the first operation that failed says.
    fn failure(&self) -> Option<String> {
        self.records.iter().find_map(|r| match &r.event {
            Event::OpFailed { error, .. } => Some(error.clone()),
            _ => None,
        })
    }
}

fn keep(
    world: &mut World,
    journal: &mut Journal,
    notes: &mut Notes,
    plan: &Plan,
    run: &mut Run,
    acts: Vec<Act>,
) -> Result<Option<OpResult>, Crash> {
    let mut result = None;
    for act in acts {
        match act {
            Act::Record(event) => notes.records.push(journal.append(1, event)),
            Act::Fault(point, index) => {
                world.index = index;
                world.fault(point)?;
            }
            Act::Tell(event) => notes.told.push(event),
            Act::Perform { index, strict, published } => {
                let mut record = |entry: Ident| {
                    for act in run.publishing(entry) {
                        let Act::Record(event) = act else { panic!("{act:?}") };
                        notes.records.push(journal.append(1, event));
                    }
                };
                let op = &plan.ops[index];
                result = Some(world.perform(op, index, strict, published, &mut record)?);
            }
        }
    }
    Ok(result)
}

fn execute(plan: &Plan, world: &mut World, notes: &mut Notes) -> Result<Outcome, Crash> {
    let mut journal = Journal::open(b"/state", &notes.records);
    let (mut run, acts) = Run::begin(plan, &notes.records, world.opts.dry_run, 7);
    keep(world, &mut journal, notes, plan, &mut run, acts)?;
    loop {
        match run.next() {
            Turn::Over => break,
            Turn::Skip(index) => notes.told.push(ExecEvent::AlreadyDone { index }),
            Turn::Ready(index) => {
                let paused = world.paused();
                let acts = run.start(&plan.ops[index], paused);
                match keep(world, &mut journal, notes, plan, &mut run, acts)? {
                    None => return Ok(run.totals),
                    Some(result) => {
                        let stopped = matches!(&result, OpResult::Paused(_));
                        let acts = run.settle(result);
                        keep(world, &mut journal, notes, plan, &mut run, acts)?;
                        if stopped {
                            return Ok(run.totals);
                        }
                    }
                }
            }
        }
    }
    let acts = run.finish();
    keep(world, &mut journal, notes, plan, &mut run, acts)?;
    Ok(run.totals)
}

fn world(disk: &mut Disk) -> World<'_> {
    World {
        disk,
        opts: ExecOptions::default(),
        fault: None,
        pause_at: None,
        patience: usize::MAX,
        index: 0,
    }
}

fn run(plan: &Plan, disk: &mut Disk, notes: &mut Notes) -> Outcome {
    match execute(plan, &mut world(disk), notes) {
        Ok(outcome) => outcome,
        Err(Crash) => panic!("a crash that nobody asked for"),
    }
}

/// A tree with a bit of everything: nested directories, several files, an empty directory, and a
/// symlink pointing outside the part being deleted.
fn fixture() -> Disk {
    let mut disk = Disk::default();
    for dir in ["/r", "/r/logs", "/r/logs/2026", "/r/logs/2026/01", "/r/logs/empty", "/r/cache"] {
        disk.put(dir.as_bytes(), DIR, Vec::new());
    }
    disk.put(b"/r/logs/2026/01/a.log", FILE, vec![0u8; 40_000]);
    disk.put(b"/r/logs/2026/01/b.log", FILE, vec![0u8; 8_000]);
    disk.put(b"/r/logs/2026/index", FILE, vec![0u8; 1_000]);
    disk.put(b"/r/cache/blob", FILE, vec![0u8; 20_000]);
    disk.put(b"/r/keep.txt", FILE, vec![0u8; 500]);
    disk.put(b"/r/lonely.tmp", FILE, vec![0u8; 700]);
    disk.put(b"/r/cache/link", LINK, p("/r/keep.txt"));
    disk.put(b"/mnt", DIR, Vec::new());
    disk
}

/// A tree covering the cases a copy has to get right.
fn source_tree() -> Disk {
    let mut disk = Disk::default();
    for dir in ["/r", "/r/dest", "/r/tree", "/r/tree/nested", "/r/tree/empty", "/mnt"] {
        disk.put(dir.as_bytes(), DIR, Vec::new());
    }
    disk.put(b"/r/tree/plain.bin", 0o100640, vec![7u8; 40_000]);
    disk.put(b"/r/tree/nested/deep.bin", FILE, vec![9u8; 3_000]);
    // Two names, one inode: must arrive as two names and one inode.
    disk.put(b"/r/tree/linked", FILE, vec![1u8; 5_000]);
    disk.link(b"/r/tree/linked", b"/r/tree/nested/linked-too");
    disk.put(b"/r/tree/pointer", LINK, p("plain.bin"));
    disk
}

fn plan_with(ops: Vec<Op>) -> Plan {
    let mut plan = Plan::new(p("/r"));
    plan.ops = ops;
    plan
}

/// A plan deleting `logs/`, `cache/` and a stray file.
fn plan_for(disk: &Disk) -> Plan {
    plan_with(vec![
        disk.delete_op("/r/logs"),
        disk.delete_op("/r/lonely.tmp"),
        disk.delete_op("/r/cache"),
    ])
}

#[test]
fn deletes_files_directories_and_symlinks() {
    let mut disk = fixture();
    let plan = plan_for(&disk);
    let mut notes = Notes::default();

    let outcome = run(&plan, &mut disk, &mut notes);

    assert_eq!(outcome.done, 3);
    assert_eq!(outcome.failed, 0);
    assert!(outcome.is_complete());
    assert!(outcome.freed >= 69_000, "freed {} looks too low", outcome.freed);

    assert_eq!(disk.under("/r"), ["keep.txt"]);
    // The symlink inside cache/ was removed; what it pointed at was not.
    assert!(disk.has("/r/keep.txt"));
}

#[test]
fn resuming_after_a_fault_anywhere_matches_a_clean_run() {
    let points = [
        FaultPoint::BeforeOpBegin,
        FaultPoint::AfterOpBegin,
        FaultPoint::MidDelete,
        FaultPoint::BeforeOpDone,
        FaultPoint::AfterOpDone,
    ];

    // What a run that is never interrupted leaves behind.
    let mut clean = fixture();
    let clean_plan = plan_for(&clean);
    let clean_outcome = run(&clean_plan, &mut clean, &mut Notes::default());
    let expected = clean.shape("/r");

    for point in points {
        for op_index in 0..3 {
            let mut disk = fixture();
            let plan = plan_for(&disk);
            let mut notes = Notes::default();
            let mut faulty = world(&mut disk);
            faulty.fault = Some((point, op_index));
            let crashed = execute(&plan, &mut faulty, &mut notes).is_err();
            assert_eq!(
                state(&notes.records) == RunState::Interrupted,
                crashed,
                "journal state disagrees with what happened at {point:?} op {op_index}"
            );

            let resumed = run(&plan, &mut disk, &mut notes);

            assert_eq!(
                disk.shape("/r"),
                expected,
                "resuming after {point:?} on op {op_index} left a different tree"
            );
            assert_eq!(
                resumed.failed, 0,
                "resuming after {point:?} on op {op_index} reported failures: {resumed:?}"
            );
            assert_eq!(state(&notes.records), RunState::Finished);
            assert!(
                resumed.freed <= clean_outcome.freed,
                "resuming after {point:?} on op {op_index} counted {} bytes freed, more than the \
                 {} a clean run frees: something is being counted twice",
                resumed.freed,
                clean_outcome.freed
            );
        }
    }
}

#[test]
fn a_completed_operation_is_never_run_twice() {
    let mut disk = fixture();
    let plan = plan_for(&disk);
    let mut notes = Notes::default();

    let first = run(&plan, &mut disk, &mut notes);
    let second = run(&plan, &mut disk, &mut notes);

    // The second run recognises all three as finished and does nothing, but still reports the
    // totals of the commit as a whole.
    assert_eq!(second.done, first.done);
    assert_eq!(second.freed, first.freed);
    assert_eq!(first.done + first.failed + first.skipped, plan.ops.len());
    assert_eq!(second, first);
    let begun = notes.records.iter().filter(|r| matches!(r.event, Event::OpBegin { .. })).count();
    assert_eq!(begun, 3);
    let done = notes.records.iter().filter(|r| matches!(r.event, Event::OpDone { .. })).count();
    assert_eq!(done, 3);
    let told = notes.told.iter().filter(|e| matches!(e, ExecEvent::AlreadyDone { .. })).count();
    assert_eq!(told, 3);
}

#[test]
fn an_entry_that_changed_since_staging_is_refused() {
    let mut disk = fixture();
    let plan = plan_with(vec![disk.delete_op("/r/lonely.tmp")]);

    // Same path, different file.
    disk.remove(b"/r/lonely.tmp");
    disk.put(b"/r/lonely.tmp", FILE, vec![0u8; 999]);

    let mut notes = Notes::default();
    let outcome = run(&plan, &mut disk, &mut notes);

    assert_eq!(outcome.failed, 1);
    assert_eq!(outcome.done, 0);
    assert!(!outcome.is_complete());
    assert!(disk.has("/r/lonely.tmp"), "a file we did not review was deleted");

    // The message names the path and says it is not what was staged.
    let failure = notes.failure().expect("no failure recorded");
    assert!(failure.contains("is not what was staged"), "unhelpful failure message: {failure}");
    assert!(failure.contains("lonely.tmp"), "failure does not say what failed: {failure}");
}

#[test]
fn an_entry_that_is_already_gone_counts_as_done() {
    let mut disk = fixture();
    let plan = plan_with(vec![disk.delete_op("/r/lonely.tmp")]);
    disk.remove(b"/r/lonely.tmp");

    let outcome = run(&plan, &mut disk, &mut Notes::default());
    assert_eq!(outcome.done, 1);
    assert_eq!(outcome.failed, 0);
    assert_eq!(outcome.freed, 0, "nothing was reclaimed by us");
}

#[test]
fn pausing_between_operations_stops_and_resumes() {
    let mut disk = fixture();
    let plan = plan_for(&disk);
    let before = disk.shape("/r");
    let mut notes = Notes::default();

    let control = Control::new();
    control.pause();
    assert!(control.is_paused());
    let mut impatient = world(&mut disk);
    impatient.patience = 0;
    let paused = execute(&plan, &mut impatient, &mut notes).ok().unwrap();

    assert!(paused.paused);
    assert_eq!(paused.done, 0);
    assert_eq!(disk.shape("/r"), before, "something was removed");
    assert!(disk.has("/r/logs/2026/01/a.log"));
    assert_eq!(state(&notes.records), RunState::Paused);

    let resumed = run(&plan, &mut disk, &mut notes);
    assert_eq!(resumed.done, 3);
    assert_eq!(state(&notes.records), RunState::Finished);
    assert_eq!(disk.under("/r"), ["keep.txt"]);
}

#[test]
fn pausing_part_way_through_a_tree_resumes_and_finishes() {
    let mut disk = Disk::default();
    disk.put(b"/r", DIR, Vec::new());
    disk.put(b"/r/big", DIR, Vec::new());
    for i in 0..40 {
        disk.put(format!("/r/big/f{i:02}").as_bytes(), FILE, vec![0u8; 4096]);
    }
    let plan = plan_with(vec![disk.delete_op("/r/big")]);
    let mut notes = Notes::default();

    // Pause as soon as the first entry has come out, leaving the directory half-emptied.
    let mut impatient = world(&mut disk);
    impatient.pause_at = Some(FaultPoint::MidDelete);
    let paused = execute(&plan, &mut impatient, &mut notes).ok().unwrap();

    assert!(paused.paused);
    assert!(disk.has("/r/big"), "the directory should still be there, part-emptied");
    assert!(disk.list(b"/r/big").len() < 40);
    assert_eq!(state(&notes.records), RunState::Paused);

    // Resuming finishes the job although the directory's time has moved, which we caused.
    let resumed = run(&plan, &mut disk, &mut notes);
    assert_eq!(resumed.failed, 0, "{resumed:?}");
    assert!(!disk.has("/r/big"));

    // The reported total covers both attempts: the resumed run can only measure what was left.
    assert!(
        paused.freed > 0,
        "the pause reported reclaiming nothing after emptying part of a tree"
    );
    assert!(
        resumed.freed > paused.freed,
        "resume reported {} but the pause alone had freed {}",
        resumed.freed,
        paused.freed
    );
    assert_eq!(resumed.freed, 40 * 4096);
    assert_eq!(
        notes
            .records
            .iter()
            .filter_map(|r| match r.event {
                Event::Paused { freed, .. } => Some(freed),
                _ => None,
            })
            .sum::<u64>(),
        paused.freed,
        "the pause record must carry what it reclaimed, or the total is lost on resume"
    );
}

#[test]
fn a_resumed_operation_still_refuses_a_different_inode() {
    let mut disk = Disk::default();
    disk.put(b"/r", DIR, Vec::new());
    disk.put(b"/r/target", DIR, Vec::new());
    disk.put(b"/r/target/f", FILE, vec![0u8; 100]);
    let plan = plan_with(vec![disk.delete_op("/r/target")]);
    let mut notes = Notes::default();

    // Crash after recording the intent, so the operation resumes with a relaxed check.
    let mut faulty = world(&mut disk);
    faulty.fault = Some((FaultPoint::AfterOpBegin, 0));
    assert!(execute(&plan, &mut faulty, &mut notes).is_err());

    // Somebody replaces the directory entirely while we were down.
    disk.put(b"/r/replacement", DIR, Vec::new());
    disk.put(b"/r/replacement/precious", FILE, vec![0u8; 10]);
    disk.remove(b"/r/target/f");
    disk.remove(b"/r/target");
    disk.rename(b"/r/replacement", b"/r/target");

    let resumed = run(&plan, &mut disk, &mut notes);
    assert_eq!(resumed.failed, 1, "relaxing the mtime check must not relax the inode check");
    assert!(disk.has("/r/target/precious"), "a directory we never reviewed was deleted");
}

#[test]
fn a_dry_run_checks_everything_and_changes_nothing() {
    let mut disk = fixture();
    let before = disk.under("/r");
    let mut plan = plan_for(&disk);
    // Give the operations an estimate to report.
    for op in &mut plan.ops {
        if let Op::Delete { est_bytes, .. } = op {
            *est_bytes = 1000;
        }
    }
    let mut notes = Notes::default();
    let mut rehearsal = world(&mut disk);
    rehearsal.opts = ExecOptions { dry_run: true, ..ExecOptions::default() };
    let outcome = execute(&plan, &mut rehearsal, &mut notes).ok().unwrap();

    assert_eq!(outcome.done, 3);
    assert_eq!(outcome.freed, 3000, "a dry run reports the estimate, not a measurement");
    assert_eq!(disk.under("/r"), before, "a dry run changed the filesystem");

    // Nothing journaled: otherwise the plan would look executed and the real run would skip it.
    assert_eq!(state(&notes.records), RunState::NotStarted);
    assert!(notes.records.is_empty());

    // And the real run afterwards does the whole job.
    let outcome = run(&plan, &mut disk, &mut notes);
    assert_eq!(outcome.done, 3);
    assert_eq!(disk.under("/r"), ["keep.txt"]);
}

#[test]
fn a_dry_run_still_catches_an_entry_that_changed() {
    let mut disk = fixture();
    let plan = plan_with(vec![disk.delete_op("/r/lonely.tmp")]);
    disk.remove(b"/r/lonely.tmp");
    disk.put(b"/r/lonely.tmp", FILE, vec![0u8; 3]);
    let mut rehearsal = world(&mut disk);
    rehearsal.opts.dry_run = true;
    let outcome = execute(&plan, &mut rehearsal, &mut Notes::default()).ok().unwrap();
    assert_eq!(outcome.failed, 1, "a dry run that misses this is worthless as a rehearsal");
}

#[test]
fn nested_deletions_run_deepest_first() {
    let mut disk = fixture();
    let plan = plan_with(vec![disk.delete_op("/r/logs"), disk.delete_op("/r/logs/2026/01")]);
    assert_eq!(execution_order(&plan), [1, 0]);
    let mut notes = Notes::default();

    let outcome = run(&plan, &mut disk, &mut notes);
    assert_eq!(outcome.failed, 0, "{outcome:?}");
    assert!(!disk.has("/r/logs"));

    // The inner operation ran first and accounted for its own bytes; the outer one swept the rest.
    let freed: Vec<u64> = notes
        .records
        .iter()
        .filter_map(|r| match r.event {
            Event::OpDone { freed, .. } => Some(freed),
            _ => None,
        })
        .collect();
    assert_eq!(freed.len(), 2);
    assert!(freed[0] > 0, "the deeper operation should have removed something");
}

#[test]
fn a_plan_can_mix_moves_and_deletions() {
    let mut disk = fixture();
    disk.put(b"/r/archive", DIR, Vec::new());
    let plan =
        plan_with(vec![disk.delete_op("/r/logs"), disk.move_op("/r/cache", "/r/archive/cache")]);
    let mut notes = Notes::default();
    let outcome = run(&plan, &mut disk, &mut notes);
    assert_eq!(outcome.done, 2, "{outcome:?}");
    assert_eq!(outcome.failed, 0);
    assert!(!disk.has("/r/logs"));
    assert!(disk.has("/r/archive/cache/blob"), "the move did not arrive");
    assert_eq!(state(&notes.records), RunState::Finished);
}

#[test]
fn run_state_tracks_the_journal() {
    let mut disk = fixture();
    let plan = plan_for(&disk);
    let mut notes = Notes::default();
    assert_eq!(state(&notes.records), RunState::NotStarted);

    let mut faulty = world(&mut disk);
    faulty.fault = Some((FaultPoint::AfterOpBegin, execution_order(&plan)[0]));
    assert!(execute(&plan, &mut faulty, &mut notes).is_err());
    assert_eq!(state(&notes.records), RunState::Interrupted);

    run(&plan, &mut disk, &mut notes);
    assert_eq!(state(&notes.records), RunState::Finished);
}

#[test]
fn progress_is_reported_for_every_operation() {
    let mut disk = fixture();
    let plan = plan_for(&disk);
    let mut notes = Notes::default();
    run(&plan, &mut disk, &mut notes);
    let count = |f: fn(&ExecEvent) -> bool| notes.told.iter().filter(|e| f(e)).count();
    assert_eq!(count(|e| matches!(e, ExecEvent::Started { .. })), 3);
    assert_eq!(count(|e| matches!(e, ExecEvent::Finished { .. })), 3);
}

/// An unwritable directory must be caught before its contents are gone, not after.
#[test]
fn a_permission_error_fails_one_operation_without_stopping_the_rest() {
    let mut disk = Disk::default();
    disk.put(b"/r", DIR, Vec::new());
    disk.put(b"/r/locked", DIR, Vec::new());
    disk.put(b"/r/locked/inner", DIR, Vec::new());
    disk.put(b"/r/locked/inner/f", FILE, vec![0u8; 10]);
    disk.put(b"/r/removable", FILE, vec![0u8; 10]);
    let plan = plan_with(vec![disk.delete_op("/r/locked"), disk.delete_op("/r/removable")]);
    disk.locked = vec![p("/r/locked")];

    let outcome = run(&plan, &mut disk, &mut Notes::default());

    assert!(!disk.has("/r/removable"), "one failure stopped unrelated work");
    assert_eq!(outcome.failed, 1);
    assert_eq!(outcome.done, 1);
    assert!(
        disk.has("/r/locked/inner/f"),
        "the removal got part way in before discovering it could not finish"
    );
}

#[test]
fn a_symlinked_directory_is_removed_as_a_link_not_followed() {
    let mut disk = Disk::default();
    for dir in ["/r", "/r/real", "/r/staged"] {
        disk.put(dir.as_bytes(), DIR, Vec::new());
    }
    disk.put(b"/r/real/precious", FILE, vec![0u8; 10]);
    disk.put(b"/r/staged/pointer", LINK, p("/r/real"));
    let plan = plan_with(vec![disk.delete_op("/r/staged")]);

    let outcome = run(&plan, &mut disk, &mut Notes::default());

    assert_eq!(outcome.failed, 0, "{outcome:?}");
    assert!(!disk.has("/r/staged"));
    assert!(disk.has("/r/real/precious"), "deletion followed a symlink out of the tree");
}

#[test]
fn deleting_a_symlink_to_a_directory_does_not_touch_the_target() {
    let mut disk = Disk::default();
    disk.put(b"/r", DIR, Vec::new());
    disk.put(b"/r/real", DIR, Vec::new());
    disk.put(b"/r/real/precious", FILE, vec![0u8; 10]);
    disk.put(b"/r/pointer", LINK, p("/r/real"));
    let plan = plan_with(vec![disk.delete_op("/r/pointer")]);

    let outcome = run(&plan, &mut disk, &mut Notes::default());

    assert_eq!(outcome.done, 1, "{outcome:?}");
    assert!(!disk.has("/r/pointer"));
    assert!(disk.has("/r/real/precious"));
}

#[test]
fn an_empty_plan_is_a_finished_run() {
    let mut notes = Notes::default();
    let outcome = run(&Plan::new(p("/data")), &mut Disk::default(), &mut notes);
    assert_eq!(outcome, Outcome { done: 0, failed: 0, skipped: 0, freed: 0, paused: false });
    assert_eq!(state(&notes.records), RunState::Finished);
}

#[test]
fn identity_matching_relaxes_time_but_never_identity() {
    let staged = Ident { dev: 1, ino: 2, size: 10, mtime: 100, kind: EntryKind::Dir };

    let touched = Ident { mtime: 200, ..staged.clone() };
    assert!(!ccdu::exec::matches(&staged, &touched, true), "a strict check should notice a new mtime");
    assert!(ccdu::exec::matches(&staged, &touched, false), "a resumed operation caused that mtime itself");

    let replaced = Ident { ino: 99, ..staged.clone() };
    assert!(!ccdu::exec::matches(&staged, &replaced, false), "a new inode is a different object, always");

    let retyped = Ident { kind: EntryKind::File, ..staged.clone() };
    assert!(!ccdu::exec::matches(&staged, &retyped, false));
    assert!(!difference(&staged, &replaced).is_empty());
}

// ---------------------------------------------------------------------------------------------
// Moving

#[test]
fn a_move_within_one_filesystem_is_a_rename() {
    let mut disk = source_tree();
    let before = disk.shape("/r/tree");
    let inode = disk.ident("/r/tree").ino;

    let plan = plan_with(vec![disk.move_op("/r/tree", "/r/dest/tree")]);
    let outcome = run(&plan, &mut disk, &mut Notes::default());

    assert_eq!(outcome.done, 1, "{outcome:?}");
    assert_eq!(outcome.freed, 0, "a rename reclaims nothing: the data never moved");
    assert!(!disk.has("/r/tree"));
    assert_eq!(disk.shape("/r/dest/tree"), before);
    assert_eq!(
        disk.ident("/r/dest/tree").ino,
        inode,
        "a rename should not have copied anything"
    );
}

#[test]
fn moving_a_single_file_preserves_its_contents_and_mode() {
    let mut disk = Disk::default();
    disk.put(b"/r", DIR, Vec::new());
    disk.put(b"/r/dest", DIR, Vec::new());
    disk.put(b"/mnt", DIR, Vec::new());
    for dst in ["/r/dest/file.bin", "/mnt/file.bin"] {
        disk.put(b"/r/file.bin", 0o100600, vec![3u8; 12_345]);
        let plan = plan_with(vec![disk.move_op("/r/file.bin", dst)]);
        assert_eq!(run(&plan, &mut disk, &mut Notes::default()).done, 1);

        assert_eq!(*disk.data(dst), vec![3u8; 12_345]);
        assert_eq!(disk.stat(dst.as_bytes()).unwrap().mode & 0o7777, 0o600);
        assert!(!disk.has("/r/file.bin"));
    }
}

#[test]
fn a_source_that_changed_since_staging_is_not_moved() {
    let mut disk = Disk::default();
    disk.put(b"/r", DIR, Vec::new());
    disk.put(b"/r/dest", DIR, Vec::new());
    disk.put(b"/r/file.bin", FILE, vec![1u8; 100]);
    let plan = plan_with(vec![disk.move_op("/r/file.bin", "/r/dest/file.bin")]);

    disk.remove(b"/r/file.bin");
    disk.put(b"/r/file.bin", FILE, vec![2u8; 200]);

    let outcome = run(&plan, &mut disk, &mut Notes::default());
    assert_eq!(outcome.failed, 1);
    assert!(disk.has("/r/file.bin"), "a file we did not review was moved");
    assert!(!disk.has("/r/dest/file.bin"));
}

#[test]
fn an_occupied_destination_stops_the_move() {
    let mut disk = Disk::default();
    disk.put(b"/r", DIR, Vec::new());
    disk.put(b"/r/dest", DIR, Vec::new());
    disk.put(b"/r/file.bin", FILE, vec![1u8; 100]);
    disk.put(b"/r/dest/file.bin", FILE, p("someone else's"));

    let plan = plan_with(vec![disk.move_op("/r/file.bin", "/r/dest/file.bin")]);
    let outcome = run(&plan, &mut disk, &mut Notes::default());

    assert_eq!(outcome.failed, 1);
    assert_eq!(*disk.data("/r/dest/file.bin"), p("someone else's"));
    assert!(disk.has("/r/file.bin"));
}

#[test]
fn skip_on_conflict_leaves_both_sides_alone() {
    let mut disk = Disk::default();
    disk.put(b"/r", DIR, Vec::new());
    disk.put(b"/r/dest", DIR, Vec::new());
    disk.put(b"/r/file.bin", FILE, vec![1u8; 100]);
    disk.put(b"/r/dest/file.bin", FILE, p("already here"));

    let mut plan = plan_with(vec![disk.move_op("/r/file.bin", "/r/dest/file.bin")]);
    let Op::Move { on_conflict, .. } = &mut plan.ops[0] else { unreachable!() };
    *on_conflict = Conflict::Skip;

    let outcome = run(&plan, &mut disk, &mut Notes::default());
    assert_eq!(outcome.done, 1);
    assert_eq!(outcome.failed, 0);
    assert!(disk.has("/r/file.bin"), "skipping must not remove the source");
    assert_eq!(*disk.data("/r/dest/file.bin"), p("already here"));
}

#[test]
fn a_resumed_move_leaves_what_it_did_not_publish_alone() {
    for (conflict, done, failed) in [(Conflict::Skip, 1, 0), (Conflict::Fail, 0, 1)] {
        let mut disk = fixture();
        let mut op = disk.move_op("/r/logs", "/mnt/logs");
        if let Op::Move { on_conflict, .. } = &mut op {
            *on_conflict = conflict;
        }
        let plan = plan_with(vec![op]);
        let mut notes = Notes::default();
        let mut faulty = world(&mut disk);
        faulty.fault = Some((FaultPoint::MidCopy, 0));
        assert!(execute(&plan, &mut faulty, &mut notes).is_err());

        // Someone else takes the name before the move is resumed.
        disk.put(b"/mnt/logs", FILE, b"someone else's".to_vec());
        let before = disk.shape("/r");
        let outcome = run(&plan, &mut disk, &mut notes);
        assert_eq!((outcome.done, outcome.failed, outcome.freed), (done, failed, 0));
        assert_eq!(disk.shape("/r"), before, "the source was touched");
        assert_eq!(disk.inodes[&disk.names[&p("/mnt/logs")]].data, b"someone else's");
    }
}

#[test]
fn an_entry_that_replaced_the_published_copy_is_not_taken_for_it() {
    let mut disk = fixture();
    let plan = plan_with(vec![disk.move_op("/r/logs", "/mnt/logs")]);
    let mut notes = Notes::default();
    let mut faulty = world(&mut disk);
    faulty.fault = Some((FaultPoint::BeforeSourceRemoval, 0));
    assert!(execute(&plan, &mut faulty, &mut notes).is_err());
    let entry = disk.ident("/mnt/logs");
    assert!(notes.records.iter().any(|r| matches!(
        &r.event,
        Event::Published { op: 0, entry: e } if e.ino == entry.ino && e.dev == entry.dev
    )));

    disk.rename(b"/mnt/logs", b"/mnt/elsewhere");
    disk.put(b"/mnt/logs", DIR, Vec::new());
    let outcome = run(&plan, &mut disk, &mut notes);
    assert_eq!(outcome.failed, 1);
    assert!(disk.has("/r/logs/2026/01/a.log"), "the source went for somebody else's directory");
    assert!(notes.told.iter().any(
        |e| matches!(e, ExecEvent::Failed { error, .. } if error == "/mnt/logs already exists")
    ));
}

#[test]
fn hash_verification_reads_a_copy_that_was_there_before() {
    let plan_of = |disk: &Disk| plan_with(vec![disk.move_op("/r/cache", "/mnt/cache")]);
    for (verify, bytes) in [(Verify::Hash, 0u8), (Verify::Size, 9u8)] {
        let mut disk = fixture();
        let plan = plan_of(&disk);
        let temp = join(b"/mnt", &temp_name(0, b"cache"));
        disk.put(&temp, DIR, Vec::new());
        // As long as the source, and something else.
        disk.put(&join(&temp, b"blob"), FILE, vec![9u8; 20_000]);
        let mut w = world(&mut disk);
        w.opts.verify = verify;
        let outcome = execute(&plan, &mut w, &mut Notes::default()).ok().unwrap();
        assert_eq!((outcome.done, outcome.failed), (1, 0));
        assert_eq!(disk.inodes[&disk.names[&p("/mnt/cache/blob")]].data, vec![bytes; 20_000]);
    }
    // One that is the same need not be copied again.
    let mut disk = fixture();
    let plan = plan_of(&disk);
    let temp = join(b"/mnt", &temp_name(0, b"cache"));
    disk.put(&temp, DIR, Vec::new());
    disk.put(&join(&temp, b"blob"), FILE, vec![0u8; 20_000]);
    let ino = disk.next;
    let mut w = world(&mut disk);
    w.opts.verify = Verify::Hash;
    assert_eq!(execute(&plan, &mut w, &mut Notes::default()).ok().unwrap().done, 1);
    assert_eq!(disk.names[&p("/mnt/cache/blob")], ino);
}

#[test]
fn a_resumed_copy_takes_up_what_is_there_already() {
    let mut disk = fixture();
    disk.link(b"/r/cache/blob", b"/r/cache/same");
    disk.put(b"/r/cache/pipe", FIFO, Vec::new());
    let expected = disk.shape("/r/cache");
    let plan = plan_with(vec![disk.move_op("/r/cache", "/mnt/cache")]);
    // An earlier attempt got this far, and the file it had linked turned out to be torn.
    let temp = join(b"/mnt", &temp_name(0, b"cache"));
    disk.put(&temp, DIR, Vec::new());
    disk.put(&join(&temp, b"blob"), FILE, vec![9u8; 100]);
    disk.link(&join(&temp, b"blob"), &join(&temp, b"same"));
    disk.put(&join(&temp, b"pipe"), FIFO, Vec::new());
    disk.put(&join(&temp, b"link"), LINK, p("/r/keep.txt"));
    let outcome = run(&plan, &mut disk, &mut Notes::default());
    assert_eq!((outcome.done, outcome.failed), (1, 0));
    assert_eq!(disk.shape("/mnt/cache"), expected);
    assert_eq!(disk.names[&p("/mnt/cache/blob")], disk.names[&p("/mnt/cache/same")]);
}

#[test]
fn links_and_modes_survive_below_a_name_that_is_not_utf8() {
    let mut disk = fixture();
    disk.link(b"/r/cache/blob", b"/r/cache/same");
    disk.put(b"/r/cache/inner", 0o040500, Vec::new());
    let cache = disk.names[&p("/r/cache")];
    disk.inodes.get_mut(&cache).unwrap().mode = 0o040711;
    let mut op = disk.move_op("/r/cache", "/mnt/x");
    if let Op::Move { dst, .. } = &mut op {
        *dst = b"/mnt/caf\xe9".to_vec();
    }
    let outcome = run(&plan_with(vec![op]), &mut disk, &mut Notes::default());
    assert_eq!((outcome.done, outcome.failed), (1, 0));
    let at = |name: &[u8]| [b"/mnt/caf\xe9".as_slice(), name].concat();
    assert_eq!(disk.names[&at(b"/blob")], disk.names[&at(b"/same")]);
    assert_eq!(disk.inodes[&disk.names[&at(b"")]].mode, 0o040711);
    assert_eq!(disk.inodes[&disk.names[&at(b"/inner")]].mode, 0o040500);
}

#[test]
fn a_name_that_is_not_utf8_is_escaped_in_messages() {
    let told = |name: &[u8]| {
        let (mut removal, _) = Removal::begin(name.to_vec(), 0);
        let RemoveAct::Failed(e) = removal.opened(&FrameReply::NotWritable) else {
            panic!("nothing stopped it")
        };
        e
    };
    assert_eq!(told(b"plain"), "no write permission on \"plain\"");
    assert_eq!(
        told(b"caf\xe9 \xe2\x82 \"x\"\t\n\x7f"),
        "no write permission on \"caf\\xe9 \\xe2\\x82 \\\"x\\\"\\t\\n\\x7f\""
    );
    // What is UTF-8 is shown as the characters it stands for.
    assert_eq!(told("é'\u{301}€😀".as_bytes()), "no write permission on \"é\\'\\u{301}€😀\"");
    assert_eq!(told(b"\xf0\x9f\x98\x80\xf0\x9f"), "no write permission on \"😀\\xf0\\x9f\"");
}

#[test]
fn moves_run_before_deletions() {
    let mut disk = Disk::default();
    disk.put(b"/r", DIR, Vec::new());
    disk.put(b"/r/dest", DIR, Vec::new());
    disk.put(b"/r/keep.bin", FILE, vec![1u8; 100]);
    disk.put(b"/r/junk.bin", FILE, vec![2u8; 100]);
    let plan = plan_with(vec![
        disk.delete_op("/r/junk.bin"),
        disk.move_op("/r/keep.bin", "/r/dest/keep.bin"),
    ]);
    assert_eq!(execution_order(&plan), [1, 0]);

    let mut notes = Notes::default();
    run(&plan, &mut disk, &mut notes);

    // Order matters if a run stops half way: what survives should be everything meant to be kept.
    let ops: Vec<usize> = notes
        .records
        .iter()
        .filter_map(|r| match r.event {
            Event::OpBegin { op } => Some(op),
            _ => None,
        })
        .collect();
    assert_eq!(ops, [1, 0], "the move should have been attempted first");
}

#[test]
fn a_dry_run_moves_nothing() {
    let mut disk = source_tree();
    let before = disk.shape("/r");

    let mut plan = plan_with(vec![disk.move_op("/r/tree", "/r/dest/tree")]);
    let Op::Move { est_bytes, .. } = &mut plan.ops[0] else { unreachable!() };
    *est_bytes = 4242;

    let mut rehearsal = world(&mut disk);
    rehearsal.opts = ExecOptions { dry_run: true, ..ExecOptions::default() };
    let outcome = execute(&plan, &mut rehearsal, &mut Notes::default()).ok().unwrap();

    assert_eq!(outcome.done, 1);
    assert_eq!(outcome.freed, 4242);
    assert_eq!(disk.shape("/r"), before, "a dry run moved something");
}

#[test]
fn a_dry_run_of_an_unfinished_move_removes_nothing() {
    // The copy was published and the run cut down before the original was reclaimed.
    let mut disk = fixture();
    let plan = plan_with(vec![disk.move_op("/r/cache", "/mnt/cache")]);
    disk.put(b"/mnt/cache", DIR, Vec::new());
    let mut notes = Notes::default();
    let mut journal = Journal::open(b"/state", &notes.records);
    notes.records.push(journal.append(1, Event::OpBegin { op: 0 }));
    let entry = disk.ident("/mnt/cache");
    notes.records.push(journal.append(1, Event::Published { op: 0, entry }));
    let before = disk.names.clone();
    let mut rehearsal = world(&mut disk);
    rehearsal.opts.dry_run = true;
    assert!(execute(&plan, &mut rehearsal, &mut notes).is_ok());
    assert_eq!(disk.names, before, "a dry run removed the original");
    // The real run finishes the job.
    run(&plan, &mut disk, &mut notes);
    assert!(!disk.has("/r/cache"));
}

#[test]
fn a_special_file_is_refused_rather_than_silently_dropped() {
    let mut disk = Disk::default();
    disk.put(b"/r", DIR, Vec::new());
    disk.put(b"/r/tree", DIR, Vec::new());
    disk.put(b"/r/tree/ordinary", FILE, vec![1u8; 10]);
    // A socket cannot be recreated by copying. Moving the tree would otherwise delete the
    // original after quietly leaving it behind.
    disk.put(b"/r/tree/sock", SOCKET, Vec::new());
    disk.put(b"/mnt", DIR, Vec::new());

    let plan = plan_with(vec![disk.move_op("/r/tree", "/mnt/tree")]);
    let outcome = run(&plan, &mut disk, &mut Notes::default());

    assert_eq!(outcome.failed, 1, "{outcome:?}");
    assert!(disk.has("/r/tree/ordinary"), "the source was removed despite the failure");
    assert!(disk.has("/r/tree/sock"));
    assert!(!disk.has("/mnt/tree"));
}

#[test]
fn a_lone_special_file_is_refused_too() {
    let mut disk = Disk::default();
    disk.put(b"/r", DIR, Vec::new());
    disk.put(b"/r/alone", SOCKET, Vec::new());
    disk.put(b"/mnt", DIR, Vec::new());
    let plan = plan_with(vec![disk.move_op("/r/alone", "/mnt/alone")]);
    let outcome = run(&plan, &mut disk, &mut Notes::default());
    assert_eq!(outcome.failed, 1);
    assert!(disk.has("/r/alone") && !disk.has("/mnt/alone"));
}

#[test]
fn a_cross_filesystem_move_copies_verifies_then_reclaims() {
    let mut disk = source_tree();
    let before = disk.shape("/r/tree");
    let plan = plan_with(vec![disk.move_op("/r/tree", "/mnt/tree")]);

    let outcome = run(&plan, &mut disk, &mut Notes::default());

    assert_eq!(outcome.failed, 0, "{outcome:?}");
    assert!(!disk.has("/r/tree"), "the source survived a completed move");
    assert_eq!(disk.shape("/mnt/tree"), before, "the copy is not the same tree");
    assert!(outcome.freed > 40_000, "freed {} does not account for the source", outcome.freed);

    // Contents, not just shapes.
    assert_eq!(*disk.data("/mnt/tree/plain.bin"), vec![7u8; 40_000]);
    assert_eq!(
        *disk.data("/mnt/tree/pointer"),
        p("plain.bin"),
        "the symlink was resolved instead of recreated"
    );

    // One inode, two names: a copy that duplicated it would double the space used.
    let a = disk.ident("/mnt/tree/linked");
    let b = disk.ident("/mnt/tree/nested/linked-too");
    assert_eq!(a.ino, b.ino, "hardlinked files arrived as two separate copies");

    // No temporary left behind.
    let leftovers: Vec<Vec<u8>> =
        disk.list(b"/mnt").into_iter().filter(|n| n.starts_with(b".ccdu-part")).collect();
    assert!(leftovers.is_empty(), "left a temporary behind: {leftovers:?}");
}

#[test]
fn a_pipe_crosses_filesystems_with_its_tree() {
    let mut disk = source_tree();
    disk.put(b"/r/tree/pipe", FIFO, Vec::new());
    let before = disk.shape("/r/tree");
    let plan = plan_with(vec![disk.move_op("/r/tree", "/mnt/tree")]);
    let mut w = world(&mut disk);
    w.opts.verify = Verify::Hash;
    let outcome = execute(&plan, &mut w, &mut Notes::default()).ok().unwrap();
    assert_eq!((outcome.done, outcome.failed), (1, 0));
    assert_eq!(disk.shape("/mnt/tree"), before);
    assert!(!disk.has("/r/tree"));
}

#[test]
fn a_single_file_and_a_symlink_cross_filesystems() {
    let mut disk = fixture();
    let plan = plan_with(vec![
        disk.move_op("/r/lonely.tmp", "/mnt/lonely"),
        disk.move_op("/r/cache/link", "/mnt/link"),
    ]);
    let outcome = run(&plan, &mut disk, &mut Notes::default());
    assert_eq!((outcome.done, outcome.failed), (2, 0));
    assert_eq!(disk.under("/mnt"), ["link", "lonely"]);
    assert_eq!(outcome.freed, 1024 + 512);
}

#[test]
fn an_interrupted_cross_filesystem_move_resumes_without_losing_the_source() {
    let points = [
        FaultPoint::AfterOpBegin,
        FaultPoint::MidCopy,
        FaultPoint::BeforeSourceRemoval,
        FaultPoint::MidDelete,
        FaultPoint::BeforeOpDone,
    ];

    for point in points {
        let mut disk = source_tree();
        let expected = disk.shape("/r/tree");
        let plan = plan_with(vec![disk.move_op("/r/tree", "/mnt/tree")]);
        let mut notes = Notes::default();
        let mut faulty = world(&mut disk);
        faulty.fault = Some((point, 0));
        assert!(execute(&plan, &mut faulty, &mut notes).is_err(), "{point:?}");

        // Until the copy is published and the source reclaimed, the data must still exist
        // somewhere complete, and that somewhere is the source.
        assert!(
            disk.has("/r/tree/plain.bin") || disk.has("/mnt/tree/plain.bin"),
            "after a crash at {point:?} the data is nowhere"
        );
        // The copy is published before anything of the source goes, and only once it is complete.
        let published = !matches!(point, FaultPoint::AfterOpBegin | FaultPoint::MidCopy);
        assert_eq!(disk.has("/mnt/tree"), published, "{point:?}");
        if point == FaultPoint::BeforeSourceRemoval {
            assert_eq!(disk.shape("/r/tree"), expected);
            assert_eq!(disk.shape("/mnt/tree"), expected);
        }

        let resumed = run(&plan, &mut disk, &mut notes);
        assert_eq!(resumed.failed, 0, "resuming after {point:?} failed: {resumed:?}");
        assert_eq!(resumed.done, 1, "{point:?}");
        assert_eq!(
            disk.shape("/mnt/tree"),
            expected,
            "resuming after {point:?} produced a different tree"
        );
        assert!(!disk.has("/r/tree"), "after {point:?} the source was left behind");
        assert_eq!(*disk.data("/mnt/tree/plain.bin"), vec![7u8; 40_000]);
        assert_eq!(disk.list(b"/mnt"), [p("tree")], "a temporary was left behind");
    }
}

#[test]
fn a_commit_interrupted_again_and_again_ends_as_a_clean_one() {
    // A move to another disk, a move on this one, and deletions, one of them inside another.
    let ops = |disk: &Disk| {
        vec![
            disk.delete_op("/r/logs"),
            disk.move_op("/r/cache", "/mnt/cache"),
            disk.delete_op("/r/logs/2026/01"),
            disk.move_op("/r/lonely.tmp", "/r/kept.tmp"),
        ]
    };
    let mut clean = fixture();
    let plan = plan_with(ops(&clean));
    let whole = run(&plan, &mut clean, &mut Notes::default());
    assert_eq!((whole.done, whole.failed, whole.skipped), (4, 0, 0));

    let points = [
        FaultPoint::BeforeOpBegin,
        FaultPoint::AfterOpBegin,
        FaultPoint::MidCopy,
        FaultPoint::BeforeSourceRemoval,
        FaultPoint::MidDelete,
        FaultPoint::BeforeOpDone,
        FaultPoint::AfterOpDone,
    ];
    let mut disk = fixture();
    let plan = plan_with(ops(&disk));
    let mut notes = Notes::default();
    let mut crashes = 0;
    for index in execution_order(&plan) {
        for point in points {
            let reached = match point {
                FaultPoint::MidCopy | FaultPoint::BeforeSourceRemoval => index == 1,
                FaultPoint::MidDelete => index != 3,
                _ => true,
            };
            if reached {
                let mut faulty = world(&mut disk);
                faulty.fault = Some((point, index));
                assert!(execute(&plan, &mut faulty, &mut notes).is_err(), "{point:?} {index}");
                assert_eq!(state(&notes.records), RunState::Interrupted);
                crashes += 1;
            }
        }
    }
    assert_eq!(crashes, 21);
    let resumed = run(&plan, &mut disk, &mut notes);
    assert_eq!((resumed.done, resumed.failed, resumed.skipped), (4, 0, 0));
    assert!(resumed.freed <= whole.freed, "{} of {}", resumed.freed, whole.freed);
    assert_eq!(disk.shape("/r"), clean.shape("/r"));
    assert_eq!(disk.shape("/mnt"), clean.shape("/mnt"));
    assert_eq!(state(&notes.records), RunState::Finished);
}

#[test]
fn a_run_paused_anywhere_ends_as_if_it_never_had_been() {
    for moved in [false, true] {
        let ops = |disk: &Disk| {
            if moved {
                vec![disk.move_op("/r/logs", "/mnt/logs")]
            } else {
                vec![disk.delete_op("/r/logs")]
            }
        };
        let mut clean = fixture();
        let plan = plan_with(ops(&clean));
        run(&plan, &mut clean, &mut Notes::default());
        let (here, there) = (clean.shape("/r"), clean.shape("/mnt"));

        let mut pauses = 0;
        for patience in 0..30 {
            let mut disk = fixture();
            let plan = plan_with(ops(&disk));
            let mut notes = Notes::default();
            let mut impatient = world(&mut disk);
            impatient.patience = patience;
            let first = execute(&plan, &mut impatient, &mut notes).ok().unwrap();
            pauses += first.paused as usize;
            for name in disk.names.keys() {
                let dir = parent(name).unwrap();
                assert!(
                    dir == b"/" || disk.names.contains_key(&dir),
                    "after {patience} steps {} has no directory",
                    String::from_utf8_lossy(name)
                );
            }
            assert!(disk.has("/r/keep.txt") && disk.has("/r/cache/blob"));
            run(&plan, &mut disk, &mut notes);
            assert_eq!(disk.shape("/r"), here, "after {patience} steps");
            assert_eq!(disk.shape("/mnt"), there, "after {patience} steps");
        }
        assert!(pauses > 5);
    }
}

#[test]
fn a_torn_copy_is_redone_rather_than_trusted() {
    let mut disk = Disk::default();
    disk.put(b"/r", DIR, Vec::new());
    disk.put(b"/r/tree", DIR, Vec::new());
    disk.put(b"/r/tree/big.bin", FILE, vec![5u8; 100_000]);
    disk.put(b"/mnt", DIR, Vec::new());
    let plan = plan_with(vec![disk.move_op("/r/tree", "/mnt/tree")]);
    let mut notes = Notes::default();

    // Crash after the first file, then truncate what landed, the way a torn write would.
    let mut faulty = world(&mut disk);
    faulty.fault = Some((FaultPoint::MidCopy, 0));
    assert!(execute(&plan, &mut faulty, &mut notes).is_err());
    let ino = disk.names[&p("/mnt/.ccdu-part-0-tree/big.bin")];
    disk.inodes.get_mut(&ino).unwrap().data.truncate(10_000);

    let resumed = run(&plan, &mut disk, &mut notes);
    assert_eq!(resumed.failed, 0, "{resumed:?}");
    assert_eq!(
        *disk.data("/mnt/tree/big.bin"),
        vec![5u8; 100_000],
        "a short file was accepted as complete"
    );
}

#[test]
fn hash_verification_rejects_a_corrupted_copy() {
    let mut disk = Disk::default();
    disk.put(b"/r", DIR, Vec::new());
    disk.put(b"/r/file.bin", FILE, vec![4u8; 50_000]);
    disk.put(b"/mnt", DIR, Vec::new());
    let plan = plan_with(vec![disk.move_op("/r/file.bin", "/mnt/file.bin")]);

    let mut spoilt = disk.clone();
    spoilt.corrupting = true;
    let mut w = world(&mut spoilt);
    w.opts = ExecOptions { verify: Verify::Hash, ..ExecOptions::default() };
    let mut notes = Notes::default();
    let outcome = execute(&plan, &mut w, &mut notes).ok().unwrap();
    assert_eq!(outcome.failed, 1);
    assert!(spoilt.has("/r/file.bin"), "the only good copy was removed");
    assert!(!spoilt.has("/mnt/file.bin"));
    assert!(notes.failure().unwrap().contains("does not match"));

    let mut w = world(&mut disk);
    w.opts = ExecOptions { verify: Verify::Hash, ..ExecOptions::default() };
    let outcome = execute(&plan, &mut w, &mut Notes::default()).ok().unwrap();
    assert_eq!(outcome.failed, 0, "a good copy failed hash verification: {outcome:?}");
    assert_eq!(*disk.data("/mnt/file.bin"), vec![4u8; 50_000]);
}

#[test]
fn a_paused_copy_reclaims_nothing() {
    let mut disk = fixture();
    let plan = plan_with(vec![disk.move_op("/r/logs", "/mnt/logs")]);
    let mut impatient = world(&mut disk);
    impatient.patience = 6;
    let mut notes = Notes::default();
    let paused = execute(&plan, &mut impatient, &mut notes).ok().unwrap();
    assert!(paused.paused);
    assert_eq!(paused.freed, 0);
    assert!(disk.has("/r/logs/2026/01/a.log") && !disk.has("/mnt/logs"));
    assert_eq!(run(&plan, &mut disk, &mut notes).done, 1);
}

#[test]
fn the_temporary_is_named_after_the_operation() {
    assert_eq!(temp_name(3, b"cache"), p(".ccdu-part-3-cache"));
}

#[test]
fn a_sparse_file_stays_sparse() {
    // Holes are stepped over: only what holds data is copied.
    let (mut contents, act) = Contents::begin(20 * CHUNK as u64);
    assert!(matches!(act, ContentsAct::CheckPause));
    assert!(matches!(contents.go_on(false), ContentsAct::SeekData { offset: 0 }));
    assert!(matches!(
        contents.data_at(Sought::At(4096)),
        ContentsAct::SeekHole { offset: 4096 }
    ));
    let ContentsAct::CheckPause = contents.hole_at(Sought::At(8192)) else { panic!("no check") };
    assert!(matches!(
        contents.go_on(false),
        ContentsAct::CopyChunk { offset: 4096, len: 4096 }
    ));
    let next = contents.moved(4096);
    assert!(matches!(next, ContentsAct::CheckPause), "{next:?}");
    assert!(matches!(contents.go_on(false), ContentsAct::SeekData { offset: 8192 }));
    // Nothing but a hole is left: the length makes up for it.
    let last = contents.data_at(Sought::OnlyHoles);
    assert!(matches!(last, ContentsAct::SetLength { size } if size == 20 * CHUNK as u64), "{last:?}");
    assert!(matches!(contents.sized(&None), ContentsAct::Finished));
}

#[test]
fn a_sparse_file_stays_sparse_across_filesystems() {
    // 64 MiB of hole with a little data at each end.
    let apparent: u64 = 64 * 1024 * 1024 + 3;
    let held = [(0u64, 4096u64), (64 * 1024 * 1024, apparent)];
    let (mut contents, mut act) = Contents::begin(apparent);
    let mut written: u64 = 0;
    let mut length = None;
    loop {
        act = match act {
            ContentsAct::CheckPause => contents.go_on(false),
            ContentsAct::SeekData { offset } => {
                contents.data_at(match held.iter().find(|(_, end)| offset < *end) {
                    Some((start, _)) => Sought::At(offset.max(*start)),
                    None => Sought::OnlyHoles,
                })
            }
            ContentsAct::SeekHole { offset } => {
                contents.hole_at(Sought::At(held.iter().find(|(_, end)| offset < *end).unwrap().1))
            }
            ContentsAct::CopyChunk { offset, len } => {
                let (start, end) = *held.iter().find(|(_, end)| offset < *end).unwrap();
                assert!(start <= offset && offset + len as u64 <= end, "a hole was read");
                written += len as u64;
                contents.moved(len)
            }
            ContentsAct::SetLength { size } => {
                length = Some(size);
                contents.sized(&None)
            }
            ContentsAct::Finished => break,
            other => panic!("{other:?}"),
        }
    }
    assert_eq!(length, Some(apparent), "length changed");
    // The point of the exercise: the copy must not have written 64 MiB of zeroes.
    assert_eq!(written, 4096 + 3);
    assert!(
        written < apparent / 2,
        "the copy occupies {written} bytes for a {apparent}-byte sparse file"
    );
}

#[test]
fn a_link_that_cannot_be_put_in_place_fails_the_copy() {
    let root = Stat { dev: 1, ino: 1, size: 0, mtime: 0, mode: DIR, blocks: 0, nlink: 2 };
    let file = Stat { dev: 1, ino: 2, size: 5, mtime: 0, mode: FILE, blocks: 1, nlink: 2 };
    let (mut copy, act) = CopyTree::begin(p("/r/tree"), root, b"/mnt/tree", p(".part"));
    assert!(matches!(act, CopyAct::OpenRoot));
    let mut act = copy.root_opened(&DirReply::Names(vec![p("a"), p("b")]));
    let mut tries = 0;
    let error = loop {
        act = match act {
            CopyAct::CheckPause | CopyAct::Announce => copy.go_on(false),
            CopyAct::Look { .. } => copy.looked(&Looked::Found(file)),
            CopyAct::CopyFile { .. } => copy.file_copied(&Ok(5)),
            // Whatever is there comes back as often as it is cleared away.
            CopyAct::LinkTo { .. } => {
                tries += 1;
                copy.linked(&Linked::AlreadyThere)
            }
            CopyAct::Clear { .. } => copy.cleared(),
            CopyAct::Failed(e) => break e,
            other => panic!("{other:?}"),
        }
    };
    assert_eq!(tries, 2);
    assert!(error.starts_with("linking "), "{error}");
    assert!(error.contains("something is in the way"), "{error}");
}

#[test]
fn a_file_with_two_names_is_copied_once() {
    let root = Stat { dev: 1, ino: 1, size: 0, mtime: 0, mode: DIR, blocks: 0, nlink: 2 };
    let (mut copy, _) = CopyTree::begin(p("/r/tree"), root, b"/mnt/tree", p(".part"));
    let mut act = copy.root_opened(&DirReply::Names(vec![p("a"), p("b"), p("c")]));
    let mut asked = Vec::new();
    let step = loop {
        act = match act {
            CopyAct::CheckPause | CopyAct::Announce => copy.go_on(false),
            CopyAct::Look { name } => {
                let (ino, size, nlink) = if name == b"c" { (3, 40, 1) } else { (2, 500, 2) };
                let look = Stat { dev: 1, ino, size, mtime: 0, mode: FILE, blocks: 1, nlink };
                copy.looked(&Looked::Found(look))
            }
            CopyAct::CopyFile { source, .. } => {
                asked.push(source.ino);
                copy.file_copied(&Ok(source.size as u64))
            }
            CopyAct::LinkTo { .. } => copy.linked(&Linked::Yes),
            CopyAct::SealDir { .. } => copy.sealed(&None),
            CopyAct::Finished(step) => break step,
            other => panic!("{other:?}"),
        }
    };
    asked.sort();
    assert_eq!(asked, [2, 3], "the two names of one file were copied apart");
    assert!(matches!(step, Step::Done(540)), "{step:?}");
}

#[test]
fn a_chunk_is_copied_by_hand_where_the_kernel_refuses() {
    let ask = |reply: ChunkReply| copy_chunk(100, 50, &reply);
    assert!(matches!(ask(ChunkReply::Start), ChunkAct::CopyRange { offset: 100, len: 50 }));
    assert!(matches!(ask(ChunkReply::Moved { count: 50 }), ChunkAct::Finished { moved: 50 }));
    assert!(matches!(ask(ChunkReply::Refused), ChunkAct::SeekSource { offset: 100 }));
    assert!(matches!(
        ask(ChunkReply::SourceSought { error: None }),
        ChunkAct::SeekDestination { offset: 100 }
    ));
    assert!(matches!(
        ask(ChunkReply::DestinationSought { error: None }),
        ChunkAct::Read { len: 50 }
    ));
    assert!(matches!(ask(ChunkReply::Read { got: 50 }), ChunkAct::Write { from: 0, to: 50 }));
    assert!(matches!(
        ask(ChunkReply::Wrote { got: 50, written: 0, count: 30 }),
        ChunkAct::Write { from: 30, to: 50 }
    ));
    assert!(matches!(
        ask(ChunkReply::Wrote { got: 50, written: 30, count: 20 }),
        ChunkAct::Finished { moved: 50 }
    ));
    assert!(matches!(
        ask(ChunkReply::Wrote { got: 50, written: 30, count: 0 }),
        ChunkAct::Failed(_)
    ));
    let disk_full = ChunkReply::WriteFailed("No space left on device".to_string());
    assert!(matches!(ask(disk_full), ChunkAct::Failed(e) if e.contains("No space left")));
}

// ---------------------------------------------------------------------------------------------
// The journal

#[test]
fn records_round_trip_in_order() {
    let mut journal = Journal::open(b"/state", &Vec::new());
    assert_eq!(journal.path(), b"/state/journal.jsonl");
    let lines = vec![
        Line::Good(journal.append(5, Event::RunBegin { plan: "p1".to_string(), pid: 7, ops: 2 })),
        Line::Good(journal.append(6, Event::OpBegin { op: 0 })),
        Line::Good(journal.append(7, Event::OpDone { op: 0, freed: 4096 })),
    ];
    let records = read_dir(b"/state", lines).unwrap();
    assert_eq!(records.len(), 3);
    assert_eq!(records.iter().map(|r| r.seq).collect::<Vec<_>>(), [1, 2, 3]);
    assert_eq!(records[2].event, Event::OpDone { op: 0, freed: 4096 });
    assert_eq!(records[2].ts, 7);
}

#[test]
fn reopening_continues_the_sequence() {
    let mut journal = Journal::open(b"/state", &Vec::new());
    let mut records = vec![journal.append(1, Event::OpBegin { op: 0 })];
    let mut journal = Journal::open(b"/state", &records);
    records.push(journal.append(1, Event::OpDone { op: 0, freed: 1 }));
    assert_eq!(records[1].seq, 2);
    let lines = records.into_iter().map(Line::Good).collect();
    assert_eq!(read_dir(b"/state", lines).unwrap().len(), 2);
}

#[test]
fn a_torn_final_line_is_dropped_not_fatal() {
    let mut journal = Journal::open(b"/state", &Vec::new());
    let lines = vec![
        Line::Good(journal.append(1, Event::OpBegin { op: 0 })),
        Line::Good(journal.append(1, Event::OpDone { op: 0, freed: 8 })),
        // A crash part-way through writing the next record.
        Line::Bad("EOF while parsing a string".to_string()),
    ];
    let records = read(b"/state/journal.jsonl", lines).unwrap();
    assert_eq!(records.len(), 2, "torn tail should be dropped");
    assert_eq!(records[1].event, Event::OpDone { op: 0, freed: 8 });

    // And the journal reopens cleanly, continuing after the last intact record.
    let mut journal = Journal::open(b"/state", &records);
    assert_eq!(journal.append(1, Event::Paused { at: 1, freed: 0 }).seq, 3);
}

#[test]
fn a_torn_journal_is_mended_before_it_goes_on() {
    let good = |seq| Line::Good(Record { seq, ts: 1, event: Event::OpBegin { op: 0 } });
    let torn = || Line::Bad("EOF while parsing".to_string());
    assert_eq!(mend(b"", &Vec::new()), Mend::Nothing);
    assert_eq!(mend(b"{1}\n", &vec![good(1)]), Mend::Nothing);
    assert_eq!(mend(b"{1}", &vec![good(1)]), Mend::EndLine);
    assert_eq!(mend(b"{1}\n{2", &vec![good(1), torn()]), Mend::DropLine { keep: 4 });
    assert_eq!(mend(b"{1}\n{2\n", &vec![good(1), torn()]), Mend::DropLine { keep: 4 });
    assert_eq!(mend(b"{2", &vec![torn()]), Mend::DropLine { keep: 0 });

    // Left where it was, the torn line would be taken for corruption.
    assert!(read(b"/j", vec![good(1), torn(), good(2)]).is_err());
    assert_eq!(read(b"/j", vec![good(1), good(2)]).unwrap().len(), 2);
}

#[test]
fn a_journal_file_is_taken_apart_line_by_line() {
    assert!(split_lines(b"").is_empty());
    assert_eq!(split_lines(b"a\nb\n"), [b"a".to_vec(), b"b".to_vec()]);
    assert_eq!(split_lines(b"a\n\nb"), [b"a".to_vec(), Vec::new(), b"b".to_vec()]);
    // Cut off inside a character.
    assert_eq!(split_lines(b"a\n\xc3"), [b"a".to_vec(), b"\xc3".to_vec()]);
    assert!(blank(b"") && blank(b" \t\r") && blank("\u{3000}".as_bytes()));
    assert!(!blank(b" x") && !blank(b"\xc3"));
}

#[test]
fn what_a_journal_says_was_reclaimed_can_be_added_up_or_not() {
    let done = |freed| Record { seq: 1, ts: 1, event: Event::OpDone { op: 0, freed } };
    let paused = |freed| Record { seq: 1, ts: 1, event: Event::Paused { at: 0, freed } };
    assert!(can_tally(&vec![done(u64::MAX), paused(0)]));
    assert!(!can_tally(&vec![done(u64::MAX), paused(1)]));
    assert!(!can_tally(&vec![paused(u64::MAX), done(1), done(u64::MAX)]));
}

#[test]
fn corruption_in_the_middle_is_reported() {
    let good = |seq| Line::Good(Record { seq, ts: 1, event: Event::OpBegin { op: 0 } });
    let lines = vec![good(1), Line::Bad("expected value".to_string()), good(3)];
    let err = read(b"/state/journal.jsonl", lines).unwrap_err();
    assert_eq!(err, "/state/journal.jsonl: line 2: expected value");
    // Blank lines are nothing to complain of.
    assert_eq!(read(b"/j", vec![good(1), Line::Blank, good(3)]).unwrap().len(), 2);
}

#[test]
fn an_absent_journal_reads_as_empty() {
    assert!(read_dir(b"/state", Vec::new()).unwrap().is_empty());
}

#[test]
fn terminal_states_are_the_ones_resume_should_skip() {
    assert!(Event::OpDone { op: 0, freed: 0 }.is_terminal());
    assert!(Event::OpFailed { op: 0, error: String::new() }.is_terminal());
    assert!(Event::OpSkipped { op: 0, reason: String::new() }.is_terminal());
    assert!(!Event::OpBegin { op: 0 }.is_terminal());
    assert!(!Event::Paused { at: 0, freed: 0 }.is_terminal());
    assert_eq!(Event::OpBegin { op: 4 }.op(), Some(4));
    assert_eq!(Event::Paused { at: 4, freed: 0 }.op(), None);
}

#[test]
fn a_journal_is_replayed() {
    let events = [
        Event::RunBegin { plan: "p".to_string(), pid: 1, ops: 3 },
        Event::OpBegin { op: 0 },
        Event::OpDone { op: 0, freed: 10 },
        Event::OpBegin { op: 1 },
        Event::Paused { at: 1, freed: 5 },
    ];
    let mut journal = Journal::open(b"/state", &Vec::new());
    let records: Vec<Record> = events.into_iter().map(|e| journal.append(1, e)).collect();
    let back = replay(&records);
    assert_eq!((back.totals.done, back.totals.freed), (1, 15));
    assert!(back.terminal.contains(&0) && !back.terminal.contains(&1));
    assert!(back.in_flight.contains(&1) && !back.in_flight.contains(&0));
    assert_eq!(state(&records), RunState::Paused);
}
