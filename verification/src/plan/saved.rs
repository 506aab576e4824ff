//! What a store holds after plans were saved in it and removed from it.
//!
//! A plan's file holds every field of the plan, and its paths as `path_repr` writes them. How the
//! fields stand in the file is JSON's business and not spoken of here.

use vstd::prelude::*;

use crate::path::{components, law_joined_adds_a_component, starts_with, DOT, SEP};
use crate::plan::path_repr::{is_written, law_paths_round_trip, path_of, PathRepr};
use crate::plan::store::{
    is_bad_id, law_ids_cannot_escape, law_plans_are_kept_apart, lemma_id_is_a_name, Store,
    NEW_PLAN_FILE, PLAN_FILE,
};
use crate::plan::{Conflict, Ident, Op, Plan};

verus! {

/// An operation as a plan's file holds it.
pub enum OpForm {
    Delete { path: PathRepr, ident: Ident, est_bytes: u64 },
    Move { src: PathRepr, dst: PathRepr, ident: Ident, est_bytes: u64, on_conflict: Conflict },
}

/// A plan as its file holds it.
pub struct Form {
    pub version: u32,
    pub id: Seq<char>,
    pub created: i64,
    pub host: Seq<char>,
    pub root: PathRepr,
    pub ops: Seq<OpForm>,
}

/// How an operation is written.
pub open spec fn is_written_op(op: Op, form: OpForm) -> bool {
    match form {
        OpForm::Delete { path: p, ident: i, est_bytes: n } => {
            &&& op matches Op::Delete { path, ident, est_bytes }
            &&& is_written(path@, p)
            &&& ident == i
            &&& est_bytes == n
        },
        OpForm::Move { src: s, dst: d, ident: i, est_bytes: n, on_conflict: c } => {
            &&& op matches Op::Move { src, dst, ident, est_bytes, on_conflict }
            &&& is_written(src@, s)
            &&& is_written(dst@, d)
            &&& ident == i
            &&& est_bytes == n
            &&& on_conflict == c
        },
    }
}

/// How a plan is written.
pub open spec fn is_written_plan(plan: Plan, form: Form) -> bool {
    &&& form.version == plan.version
    &&& form.id == plan.id@
    &&& form.created == plan.created
    &&& form.host == plan.host@
    &&& is_written(plan.root@, form.root)
    &&& form.ops.len() == plan.ops@.len()
    &&& forall|i: int|
        0 <= i < form.ops.len() ==> is_written_op(plan.ops@[i], #[trigger] form.ops[i])
}

/// Whether an operation is what is read from that.
pub open spec fn is_read_op(form: OpForm, op: Op) -> bool {
    match form {
        OpForm::Delete { path: p, ident: i, est_bytes: n } => {
            &&& op matches Op::Delete { path, ident, est_bytes }
            &&& path_of(p) == Some(path@)
            &&& ident == i
            &&& est_bytes == n
        },
        OpForm::Move { src: s, dst: d, ident: i, est_bytes: n, on_conflict: c } => {
            &&& op matches Op::Move { src, dst, ident, est_bytes, on_conflict }
            &&& path_of(s) == Some(src@)
            &&& path_of(d) == Some(dst@)
            &&& ident == i
            &&& est_bytes == n
            &&& on_conflict == c
        },
    }
}

/// Whether a plan is what is read from that.
pub open spec fn is_read_plan(form: Form, plan: Plan) -> bool {
    &&& form.version == plan.version
    &&& form.id == plan.id@
    &&& form.created == plan.created
    &&& form.host == plan.host@
    &&& path_of(form.root) == Some(plan.root@)
    &&& form.ops.len() == plan.ops@.len()
    &&& forall|i: int|
        0 <= i < form.ops.len() ==> is_read_op(#[trigger] form.ops[i], plan.ops@[i])
}

/// Whether two operations are the same one.
pub open spec fn is_same_op(a: Op, b: Op) -> bool {
    match a {
        Op::Delete { path, ident, est_bytes } => {
            &&& b matches Op::Delete { path: p, ident: i, est_bytes: n }
            &&& path@ == p@
            &&& ident == i
            &&& est_bytes == n
        },
        Op::Move { src, dst, ident, est_bytes, on_conflict } => {
            &&& b matches Op::Move { src: s, dst: d, ident: i, est_bytes: n, on_conflict: c }
            &&& src@ == s@
            &&& dst@ == d@
            &&& ident == i
            &&& est_bytes == n
            &&& on_conflict == c
        },
    }
}

/// Whether two plans are the same one.
pub open spec fn is_same_plan(a: Plan, b: Plan) -> bool {
    &&& a.version == b.version
    &&& a.id@ == b.id@
    &&& a.created == b.created
    &&& a.host@ == b.host@
    &&& a.root@ == b.root@
    &&& a.ops@.len() == b.ops@.len()
    &&& forall|i: int| 0 <= i < a.ops@.len() ==> is_same_op(#[trigger] a.ops@[i], b.ops@[i])
}

/// The files after a plan was written beside where it goes and renamed over that.
pub open spec fn after_save(
    files: Map<Seq<u8>, Form>,
    store: Store,
    id: Seq<char>,
    form: Form,
) -> Map<Seq<u8>, Form> {
    files.insert(store.new_file_of(id), form).remove(store.new_file_of(id)).insert(
        store.file_of(id),
        form,
    )
}

/// The files after a plan's directory was removed with all that is in it.
pub open spec fn after_remove(
    files: Map<Seq<u8>, Form>,
    store: Store,
    id: Seq<char>,
) -> Map<Seq<u8>, Form> {
    files.remove_keys(Set::new(|file: Seq<u8>| starts_with(file, store.place_of(id))))
}

/// What the two files of a plan are called.
proof fn lemma_file_names()
    ensures
        ({
            let a = vstd::utf8::encode_utf8(PLAN_FILE@);
            let b = vstd::utf8::encode_utf8(NEW_PLAN_FILE@);
            &&& a.len() == 9
            &&& b.len() == 13
            &&& a.last() != b.last()
            &&& !a.contains(SEP)
            &&& !b.contains(SEP)
        }),
{
    reveal_strlit("plan.json");
    reveal_strlit("plan.json.new");
    assert(vstd::utf8::is_ascii_chars(PLAN_FILE@));
    assert(vstd::utf8::is_ascii_chars(NEW_PLAN_FILE@));
    vstd::utf8::is_ascii_chars_encode_utf8(PLAN_FILE@);
    vstd::utf8::is_ascii_chars_encode_utf8(NEW_PLAN_FILE@);
}

/// A plan that was saved is loaded as it was: every field, every operation, and every path,
/// whatever bytes it is made of. Nothing is left of the file it was written to on the way, and no
/// other plan is touched.
pub proof fn law_a_saved_plan_is_loaded(
    files: Map<Seq<u8>, Form>,
    store: Store,
    plan: Plan,
    form: Form,
    back: Plan,
    other: Seq<char>,
)
    requires
        !is_bad_id(plan.id@),
        is_written_plan(plan, form),
    ensures
        ({
            let after = after_save(files, store, plan.id@, form);
            let file = store.file_of(plan.id@);
            &&& after.contains_key(file)
            &&& is_read_plan(after[file], back) ==> is_same_plan(plan, back)
            &&& is_same_plan(plan, back) ==> is_read_plan(after[file], back)
            &&& !after.contains_key(store.new_file_of(plan.id@))
            &&& !is_bad_id(other) && other != plan.id@ ==> after.contains_key(store.file_of(other))
                == files.contains_key(store.file_of(other)) && after[store.file_of(other)]
                == files[store.file_of(other)]
        }),
{
    lemma_file_names();
    lemma_id_is_a_name(plan.id@);
    law_paths_round_trip(plan.root@, form.root);
    assert forall|i: int| 0 <= i < form.ops.len() implies is_read_op(
        #[trigger] form.ops[i],
        plan.ops@[i],
    ) by {
        assert(is_written_op(plan.ops@[i], form.ops[i]));
        match plan.ops@[i] {
            Op::Delete { path, .. } => {
                law_paths_round_trip(path@, form.ops[i]->Delete_path);
            },
            Op::Move { src, dst, .. } => {
                law_paths_round_trip(src@, form.ops[i]->src);
                law_paths_round_trip(dst@, form.ops[i]->dst);
            },
        }
    }
    if is_read_plan(form, back) {
        assert forall|i: int| 0 <= i < plan.ops@.len() implies is_same_op(
            #[trigger] plan.ops@[i],
            back.ops@[i],
        ) by {
            assert(is_read_op(form.ops[i], plan.ops@[i]));
            assert(is_read_op(form.ops[i], back.ops@[i]));
        }
    }
    if is_same_plan(plan, back) {
        assert forall|i: int| 0 <= i < form.ops.len() implies is_read_op(
            #[trigger] form.ops[i],
            back.ops@[i],
        ) by {
            assert(is_read_op(form.ops[i], plan.ops@[i]));
            assert(is_same_op(plan.ops@[i], back.ops@[i]));
        }
    }
    assert(store.file_of(plan.id@).last() != store.new_file_of(plan.id@).last());
    if !is_bad_id(other) && other != plan.id@ {
        law_plans_are_kept_apart(store, plan.id@, other);
        assert(store.file_of(other).last() != store.new_file_of(plan.id@).last());
    }
}

/// A plan that was removed cannot be loaded, and no other plan is touched.
pub proof fn law_a_removed_plan_is_gone(
    files: Map<Seq<u8>, Form>,
    store: Store,
    id: Seq<char>,
    other: Seq<char>,
)
    requires
        !is_bad_id(id),
    ensures
        ({
            let after = after_remove(files, store, id);
            let file = store.file_of(other);
            &&& !after.contains_key(store.file_of(id))
            &&& !is_bad_id(other) && other != id && id != seq!['.'] && other != seq!['.']
                && store.place().len() > 0 ==> after.contains_key(file) == files.contains_key(file)
                && (files.contains_key(file) ==> after[file] == files[file])
        }),
{
    let name = vstd::utf8::encode_utf8(PLAN_FILE@);
    lemma_file_names();
    assert(name != seq![DOT]);
    lemma_id_is_a_name(id);
    assert(store.place_of(id).len() > 0);
    law_joined_adds_a_component(store.place_of(id), name);
    assert(starts_with(store.file_of(id), store.place_of(id)));
    if !is_bad_id(other) && other != id && id != seq!['.'] && other != seq!['.']
        && store.place().len() > 0 {
        let (x, y) = (vstd::utf8::encode_utf8(id), vstd::utf8::encode_utf8(other));
        vstd::utf8::encode_utf8_decode_utf8(id);
        vstd::utf8::encode_utf8_decode_utf8(other);
        lemma_id_is_a_name(other);
        law_ids_cannot_escape(store.place(), id);
        law_ids_cannot_escape(store.place(), other);
        law_joined_adds_a_component(store.place_of(other), name);
        let n = components(store.place()).len() as int;
        assert(components(store.place_of(id))[n] == x);
        assert(components(store.file_of(other))[n] == y);
        assert(!starts_with(store.file_of(other), store.place_of(id)));
    }
}

} // verus!
