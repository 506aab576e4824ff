//! Staging: recording what is to be done with an entry, and what it looked like at that moment.

use vstd::prelude::*;

use crate::format::{human_size, size_text};
use crate::model::{NodeId, Tree};
use crate::path::{is_absolute, join, joined, SEP};
use crate::plan::Ident;
use crate::text::{cat2, cat3, copy_bytes, dec, decimal, is_space, is_white, show, shown};
use crate::tui::app::ids::{ids_in, sorted_keys};
use crate::tui::app::{
    all_held, staged_notes, App, Ask, Face, Pending, PendingNote, Prompt, PromptNote, Staged,
    StagedKind, StagedNote, Staging,
};

verus! {

broadcast use vstd::std_specs::hash::group_hash_axioms;

/// What those of the first `n` of some staged entries take up together that are to be deleted, or
/// the largest number there is.
pub open spec fn staged_sum(staged: Map<NodeId, StagedNote>, ids: Seq<NodeId>, n: int) -> u64
    decreases n,
{
    if n <= 0 {
        0
    } else {
        let note = staged[ids[n - 1]];
        let sum = staged_sum(staged, ids, n - 1) + if note.to is None {
            note.est_bytes
        } else {
            0
        };
        if sum > u64::MAX {
            u64::MAX
        } else {
            sum as u64
        }
    }
}

/// What everything staged for deletion takes up together.
pub open spec fn staged_total(staged: Map<NodeId, StagedNote>) -> u64 {
    let ids = ids_in(staged.dom());
    staged_sum(staged, ids, ids.len() as int)
}

/// A change to be staged, given what the entry looks like.
pub open spec fn change(t: Tree, id: NodeId, into: Option<Seq<u8>>, ident: Ident) -> StagedNote {
    StagedNote {
        to: match into {
            Some(dir) => Some(joined(dir, t.spec_name(id))),
            None => None,
        },
        ident,
        est_bytes: t.nodes()[id as int].disk,
    }
}

/// The first of `n` entries from `i` on that is no longer there, or `n`.
pub open spec fn first_gone(idents: Seq<Option<Ident>>, i: int, n: int) -> int
    decreases n - i,
{
    if i >= n || idents[i] is None {
        i
    } else {
        first_gone(idents, i + 1, n)
    }
}

/// What is staged once the first `n` entries are.
pub open spec fn staged_with(
    t: Tree,
    staged: Map<NodeId, StagedNote>,
    targets: Seq<NodeId>,
    into: Option<Seq<u8>>,
    idents: Seq<Option<Ident>>,
    n: int,
) -> Map<NodeId, StagedNote>
    decreases n,
{
    if n <= 0 {
        staged
    } else {
        staged_with(t, staged, targets, into, idents, n - 1).insert(
            targets[n - 1],
            change(t, targets[n - 1], into, idents[n - 1]->0),
        )
    }
}

/// How many entries an answer is about.
pub open spec fn pairs(targets: Seq<NodeId>, idents: Seq<Option<Ident>>) -> int {
    if targets.len() < idents.len() {
        targets.len() as int
    } else {
        idents.len() as int
    }
}

/// What is said once `n` entries are staged.
pub open spec fn staged_text(n: nat, into: Option<Seq<u8>>, total: u64) -> Seq<char> {
    match into {
        None => "staged "@ + dec(n) + " for deletion ("@ + size_text(total as nat) + " total)"@,
        Some(dir) => "staged "@ + dec(n) + " to move into "@ + shown(dir),
    }
}

/// The directory that entries are to go into, if they are to go anywhere.
pub open spec fn into_of(staging: Staging) -> Option<Seq<u8>> {
    match staging {
        Staging::Delete => None,
        Staging::MoveInto(dir) => Some(dir@),
    }
}

/// What is staged, and how many of the entries were, once the first `n` of them are not.
pub open spec fn unstaged_with(
    staged: Map<NodeId, StagedNote>,
    targets: Seq<NodeId>,
    n: int,
) -> (Map<NodeId, StagedNote>, nat)
    decreases n,
{
    if n <= 0 {
        (staged, 0)
    } else {
        let (left, removed) = unstaged_with(staged, targets, n - 1);
        (
            left.remove(targets[n - 1]),
            if left.contains_key(targets[n - 1]) {
                removed + 1
            } else {
                removed
            },
        )
    }
}

/// Where a text starts, white space aside.
pub open spec fn text_start(s: Seq<char>, i: int) -> int
    decreases s.len() - i,
{
    if i < s.len() && is_space(s[i]) {
        text_start(s, i + 1)
    } else {
        i
    }
}

/// Where a text ends, white space aside.
pub open spec fn text_end(s: Seq<char>, from: int, n: int) -> int
    decreases n - from,
{
    if n > from && is_space(s[n - 1]) {
        text_end(s, from, n - 1)
    } else {
        n
    }
}

/// A text without the white space around it.
pub open spec fn trimmed(s: Seq<char>) -> Seq<char> {
    let from = text_start(s, 0);
    s.subrange(from, text_end(s, from, s.len() as int))
}

impl Face {
    pub open spec fn says(self, text: Seq<char>) -> Face {
        Face { status: Some(text), ..self }
    }

    /// With `n` entries staged, and that said.
    pub open spec fn staged_now(self, n: nat, into: Option<Seq<u8>>) -> Face {
        Face {
            marks: Set::empty(),
            status: Some(staged_text(n, into, staged_total(self.staged))),
            ..self
        }
    }

    /// About to stage some entries. A tree that cannot be changed from here refuses, and says why.
    pub open spec fn staging(self, targets: Seq<NodeId>, into: Option<Seq<u8>>) -> Face {
        match self.read_only {
            Some(reason) => self.says(reason),
            None => if targets.len() == 0 {
                self.staged_now(0, into)
            } else {
                Face { pending: PendingNote::Stage { targets, into }, ..self }
            },
        }
    }

    /// With the entries staged up to the first that is no longer there.
    pub open spec fn recorded(
        self,
        targets: Seq<NodeId>,
        into: Option<Seq<u8>>,
        idents: Seq<Option<Ident>>,
    ) -> Face {
        let n = pairs(targets, idents);
        let gone = first_gone(idents, 0, n);
        let now = Face {
            staged: staged_with(self.tree, self.staged, targets, into, idents, gone),
            pending: PendingNote::Nothing,
            ..self
        };
        if gone < n {
            now.says(
                "cannot stage "@ + shown(self.tree.spec_path(targets[gone]))
                    + ": it is no longer there"@,
            )
        } else {
            now.staged_now(n as nat, into)
        }
    }

    pub open spec fn unstaged(self) -> Face {
        let targets = self.aims();
        let (staged, removed) = unstaged_with(self.staged, targets, targets.len() as int);
        Face {
            staged,
            marks: Set::empty(),
            status: Some(
                if removed == 0 {
                    "nothing staged here"@
                } else {
                    "unstaged "@ + dec(removed)
                },
            ),
            ..self
        }
    }

    pub open spec fn asking_where(self) -> Face {
        let targets = self.aims();
        if targets.len() == 0 {
            self
        } else {
            Face {
                prompt: Some(
                    PromptNote {
                        label: if targets.len() == 1 {
                            "move "@ + shown(self.tree.spec_name(targets[0]))
                                + " into directory:"@
                        } else {
                            "move "@ + dec(targets.len()) + " entries into directory:"@
                        },
                        input: Seq::empty(),
                        targets,
                    },
                ),
                ..self
            }
        }
    }

    /// With the prompt answered.
    pub open spec fn submitted(self) -> Face {
        match self.prompt {
            None => self,
            Some(p) => {
                let closed = Face { prompt: None, ..self };
                let dir = vstd::utf8::encode_utf8(trimmed(p.input));
                if trimmed(p.input).len() == 0 {
                    closed.says("move cancelled"@)
                } else if !is_absolute(dir) {
                    closed.says("destination must be an absolute path"@)
                } else {
                    closed.staging(p.targets, Some(dir))
                }
            },
        }
    }
}

/// Whether what is asked for is what the entries that are about to be staged look like.
pub open spec fn asks_about(ask: Ask, was: Face, now: Face) -> bool {
    match now.pending {
        PendingNote::Stage { targets, .. } => ask matches Ask::Identify(paths) && paths@.len()
            == targets.len() && forall|i: int|
            0 <= i < targets.len() ==> (#[trigger] paths@[i])@ == now.tree.spec_path(targets[i]),
        _ => ask is Nothing,
    }
}

proof fn lemma_staged_insert(m: Map<NodeId, Staged>, id: NodeId, s: Staged)
    ensures
        staged_notes(m.insert(id, s)) == staged_notes(m).insert(id, s@),
{
    assert(staged_notes(m.insert(id, s)) =~= staged_notes(m).insert(id, s@));
}

proof fn lemma_staged_remove(m: Map<NodeId, Staged>, id: NodeId)
    ensures
        staged_notes(m.remove(id)) == staged_notes(m).remove(id),
{
    assert(staged_notes(m.remove(id)) =~= staged_notes(m).remove(id));
}

/// A text without the white space around it.
fn trim(s: &str) -> (r: String)
    ensures
        r@ == trimmed(s@),
{
    let n: usize = s.unicode_len();
    let mut from: usize = 0;
    while from < n && is_white(s.get_char(from))
        invariant
            from <= n,
            n == s@.len(),
            text_start(s@, 0) == text_start(s@, from as int),
        decreases n - from,
    {
        from += 1;
    }
    let mut to: usize = n;
    while to > from && is_white(s.get_char(to - 1))
        invariant
            from <= to <= n,
            n == s@.len(),
            text_end(s@, from as int, n as int) == text_end(s@, from as int, to as int),
        decreases to,
    {
        to -= 1;
    }
    String::from_str(s.substring_char(from, to))
}

impl App {
    /// Total disk usage of everything staged for deletion.
    pub fn staged_bytes(&self) -> (r: u64)
        ensures
            r == staged_total(self@.staged),
    {
        let ids = sorted_keys(&self.staged);
        proof {
            assert(self.staged@.dom() =~= self@.staged.dom());
        }
        let mut sum: u64 = 0;
        let mut i: usize = 0;
        while i < ids.len()
            invariant
                i <= ids@.len(),
                ids@.to_set() == self.staged@.dom(),
                sum == staged_sum(self@.staged, ids@, i as int),
            decreases ids.len() - i,
        {
            let id: NodeId = ids[i];
            proof {
                assert(ids@.to_set().contains(id));
            }
            match self.staged.get(&id) {
                Some(s) => {
                    proof {
                        assert(self@.staged[id] == s@);
                    }
                    let bytes: u64 = match s.kind {
                        StagedKind::Delete => s.est_bytes,
                        StagedKind::Move(_) => 0,
                    };
                    sum = if bytes > u64::MAX - sum {
                        u64::MAX
                    } else {
                        sum + bytes
                    };
                },
                None => {},
            }
            i += 1;
        }
        sum
    }

    pub(crate) fn say(&mut self, text: String)
        requires
            old(self).wf(),
        ensures
            final(self)@ == old(self)@.says(text@),
            final(self).wf(),
    {
        self.status = Some(text);
        proof {
            assert(self@ =~= old(self)@.says(text@));
        }
    }

    /// Says how many entries were staged.
    fn finish_staging(&mut self, n: usize, staging: &Staging)
        requires
            old(self).wf(),
        ensures
            final(self)@ == old(self)@.staged_now(
                n as nat,
                into_of(*staging),
            ),
            final(self).wf(),
    {
        let count = decimal(n as u64);
        let mut text = cat2("staged ", count.as_str());
        match staging {
            Staging::Delete => {
                let total = human_size(self.staged_bytes());
                text.append(" for deletion (");
                text.append(total.as_str());
                text.append(" total)");
            },
            Staging::MoveInto(dir) => {
                let to = show(dir.as_slice());
                text.append(" to move into ");
                text.append(to.as_str());
            },
        }
        self.marks.clear();
        self.status = Some(text);
        proof {
            assert(self@.marks =~= Set::<NodeId>::empty());
        }
    }

    /// Stage some entries, once it is known what each one currently looks like.
    ///
    /// That is asked in one go rather than one at a time: over a connection that is a single round
    /// trip instead of one per file, and locally it costs nothing either way.
    pub(crate) fn stage(&mut self, targets: Vec<NodeId>, staging: Staging) -> (r: Ask)
        requires
            old(self).wf(),
            old(self).pending is Nothing,
            all_held(*old(self).tree, targets@),
        ensures
            final(self)@ == old(self)@.staging(
                targets@,
                into_of(staging),
            ),
            asks_about(r, old(self)@, final(self)@),
            final(self).wf(),
    {
        match &self.read_only {
            Some(reason) => {
                let text = reason.clone();
                self.say(text);
                return Ask::Nothing;
            },
            None => {},
        }
        if targets.len() == 0 {
            self.finish_staging(0, &staging);
            return Ask::Nothing;
        }
        let paths = self.paths_of(&targets);
        self.pending = Pending::Stage { targets, staging };
        proof {
            assert(self@ =~= (Face {
                pending: PendingNote::Stage { targets: targets@, into: into_of(staging) },
                ..old(self)@
            }));
        }
        Ask::Identify(paths)
    }

    fn paths_of(&self, targets: &Vec<NodeId>) -> (r: Vec<Vec<u8>>)
        requires
            self.wf(),
            all_held(*self.tree, targets@),
        ensures
            r@.len() == targets@.len(),
            forall|k: int|
                0 <= k < r@.len() ==> (#[trigger] r@[k])@ == self.tree.spec_path(targets@[k]),
    {
        let mut paths: Vec<Vec<u8>> = Vec::new();
        let mut i: usize = 0;
        while i < targets.len()
            invariant
                i <= targets@.len(),
                self.wf(),
                all_held(*self.tree, targets@),
                paths@.len() == i,
                forall|k: int|
                    0 <= k < i ==> (#[trigger] paths@[k])@ == self.tree.spec_path(targets@[k]),
            decreases targets.len() - i,
        {
            paths.push(self.path_to(targets[i]));
            i += 1;
        }
        paths
    }

    /// It is known what the entries look like, or why not.
    pub fn identified(&mut self, reply: Result<Vec<Option<Ident>>, String>)
        requires
            old(self).wf(),
            old(self).pending is Stage,
        ensures
            final(self).wf(),
            ({
                let targets = old(self)@.pending->Stage_targets;
                let into = old(self)@.pending->into;
                match reply {
                    Err(e) => final(self)@ == (Face {
                        pending: PendingNote::Nothing,
                        status: Some(e@),
                        ..old(self)@
                    }),
                    Ok(idents) => final(self)@ == old(self)@.recorded(targets, into, idents@),
                }
            }),
    {
        let mut pending = Pending::Nothing;
        std::mem::swap(&mut pending, &mut self.pending);
        let ghost start = Face { pending: PendingNote::Nothing, ..old(self)@ };
        proof {
            assert(self@ =~= start);
        }
        match pending {
            Pending::Stage { targets, staging } => {
                let ghost into = into_of(staging);
                let idents = match reply {
                    Ok(idents) => idents,
                    Err(e) => {
                        self.say(e);
                        return ;
                    },
                };
                let n: usize = if targets.len() < idents.len() {
                    targets.len()
                } else {
                    idents.len()
                };
                let mut i: usize = 0;
                while i < n
                    invariant
                        i <= n,
                        n == pairs(targets@, idents@),
                        self.wf(),
                        all_held(*self.tree, targets@),
                        into == into_of(staging),
                        first_gone(idents@, 0, n as int) == first_gone(
                            idents@,
                            i as int,
                            n as int,
                        ),
                        self@ == (Face {
                            staged: staged_with(
                                start.tree,
                                start.staged,
                                targets@,
                                into,
                                idents@,
                                i as int,
                            ),
                            ..start
                        }),
                        start == (Face { pending: PendingNote::Nothing, ..old(self)@ }),
                        old(self)@.pending == (PendingNote::Stage { targets: targets@, into }),
                        reply matches Ok(list) && list@ == idents@,
                    decreases n - i,
                {
                    let id: NodeId = targets[i];
                    match &idents[i] {
                        None => {
                            let path = show(self.path_to(id).as_slice());
                            let text = cat3(
                                "cannot stage ",
                                path.as_str(),
                                ": it is no longer there",
                            );
                            self.say(text);
                            return ;
                        },
                        Some(ident) => {
                            let kind = match &staging {
                                Staging::Delete => StagedKind::Delete,
                                Staging::MoveInto(dir) => StagedKind::Move(
                                    join(dir.as_slice(), self.name_of(id)),
                                ),
                            };
                            let est_bytes: u64 = self.tree.node(id).disk;
                            let staged = Staged { kind, ident: *ident, est_bytes };
                            let ghost before = self.staged@;
                            let ghost face = self@;
                            proof {
                                assert(staged@ =~= change(start.tree, id, into, *ident));
                            }
                            self.staged.insert(id, staged);
                            proof {
                                lemma_staged_insert(before, id, staged);
                                assert(self@ =~= (Face {
                                    staged: face.staged.insert(id, staged@),
                                    ..face
                                }));
                                assert(self.wf());
                            }
                        },
                    }
                    i += 1;
                }
                self.finish_staging(n, &staging);
            },
            _ => {},
        }
    }

    pub(crate) fn stage_delete(&mut self) -> (r: Ask)
        requires
            old(self).wf(),
            old(self).pending is Nothing,
        ensures
            final(self)@ == old(self)@.staging(old(self)@.aims(), None),
            asks_about(r, old(self)@, final(self)@),
            final(self).wf(),
    {
        let targets = self.targets();
        self.stage(targets, Staging::Delete)
    }

    pub(crate) fn unstage(&mut self)
        requires
            old(self).wf(),
        ensures
            final(self)@ == old(self)@.unstaged(),
            final(self).wf(),
    {
        let targets = self.targets();
        let ghost start = self@;
        let mut removed: usize = 0;
        let mut i: usize = 0;
        while i < targets.len()
            invariant
                i <= targets@.len(),
                self.wf(),
                removed <= i,
                removed == unstaged_with(start.staged, targets@, i as int).1,
                self@ == (Face {
                    staged: unstaged_with(start.staged, targets@, i as int).0,
                    ..start
                }),
            decreases targets.len() - i,
        {
            let id: NodeId = targets[i];
            let ghost before = self.staged@;
            let ghost face = self@;
            proof {
                lemma_staged_remove(before, id);
                assert(face.staged.contains_key(id) == before.contains_key(id));
            }
            match self.staged.remove(&id) {
                Some(_) => {
                    removed += 1;
                },
                None => {},
            }
            proof {
                assert(self.staged@ =~= before.remove(id));
                assert(self@ =~= (Face { staged: face.staged.remove(id), ..face }));
            }
            i += 1;
        }
        self.marks.clear();
        let text = if removed == 0 {
            String::from_str("nothing staged here")
        } else {
            let n = decimal(removed as u64);
            cat2("unstaged ", n.as_str())
        };
        self.status = Some(text);
        proof {
            assert(self@.marks =~= Set::<NodeId>::empty());
            assert(self@ =~= start.unstaged());
        }
    }

    pub(crate) fn ask_move_destination(&mut self)
        requires
            old(self).wf(),
        ensures
            final(self)@ == old(self)@.asking_where(),
            final(self).wf(),
    {
        let targets = self.targets();
        if targets.len() == 0 {
            return ;
        }
        let label = if targets.len() == 1 {
            let name = show(self.name_of(targets[0]));
            cat3("move ", name.as_str(), " into directory:")
        } else {
            let n = decimal(targets.len() as u64);
            cat3("move ", n.as_str(), " entries into directory:")
        };
        let input = String::new();
        self.prompt = Some(Prompt { label, input, targets });
        proof {
            assert(input@ =~= Seq::<char>::empty());
            assert(self@ =~= old(self)@.asking_where());
        }
    }

    /// The prompt is answered: the entries are to go into the directory that was typed.
    pub(crate) fn submit_move(&mut self) -> (r: Ask)
        requires
            old(self).wf(),
            old(self).pending is Nothing,
        ensures
            final(self)@ == old(self)@.submitted(),
            asks_about(r, old(self)@, final(self)@),
            final(self).wf(),
    {
        let mut prompt: Option<Prompt> = None;
        std::mem::swap(&mut prompt, &mut self.prompt);
        let ghost closed = Face { prompt: None, ..old(self)@ };
        proof {
            assert(self@ =~= closed);
        }
        match prompt {
            None => Ask::Nothing,
            Some(p) => {
                let typed = trim(p.input.as_str());
                if typed.as_str().unicode_len() == 0 {
                    self.say(String::from_str("move cancelled"));
                    return Ask::Nothing;
                }
                let dir = copy_bytes(typed.as_str().as_bytes());
                if dir.len() == 0 || dir[0] != SEP {
                    self.say(String::from_str("destination must be an absolute path"));
                    return Ask::Nothing;
                }
                self.stage(p.targets, Staging::MoveInto(dir))
            },
        }
    }
}

/// What is said when another machine could not be asked what entries look like.
pub fn asking_failed(host: &str, e: &str) -> (r: String)
    ensures
        r@ == "asking "@ + host@ + ": "@ + e@,
{
    let mut text = cat3("asking ", host, ": ");
    text.append(e);
    text
}

} // verus!
