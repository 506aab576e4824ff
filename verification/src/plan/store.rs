//! Where plans live on disk.
//!
//! One directory per plan, holding the plan itself and the execution journal. Writes are atomic: a
//! plan file is either the old one or the new one, never a truncated mix.

use vstd::prelude::*;

use crate::order::{
    bytes_at_most, ints, is_bytes_at_most, law_bytes_are_compared_like_words, lemma_bytes_total,
    lemma_bytes_transitive, spells_before, stable_order, Ranked,
};
use crate::path::{
    components, is_plain_name, join, joined, law_joined_adds_a_component, DOT, SEP,
};
use crate::plan::{bytes_of, Plan};
use crate::text::{cat2, copy_bytes, quote, quoted};

verus! {

/// The plan file in a plan's directory.
pub const PLAN_FILE: &'static str = "plan.json";

/// What the plan file is called while it is being written.
pub const NEW_PLAN_FILE: &'static str = "plan.json.new";

/// A directory holding plans.
pub struct Store {
    dir: Vec<u8>,
}

/// Enough of a plan to list it without parsing every operation.
#[derive(Clone, Debug)]
pub struct Summary {
    pub id: String,
    pub created: i64,
    pub host: String,
    pub root: Vec<u8>,
    pub ops: usize,
    pub delete_bytes: u64,
    pub move_bytes: u64,
}

/// Whether `id` cannot name a plan: it could lead out of the store.
pub open spec fn is_bad_id(id: Seq<char>) -> bool {
    id.len() == 0 || id.contains('/') || id.contains('\\') || has_dot_dot(id)
}

pub open spec fn has_dot_dot(id: Seq<char>) -> bool {
    exists|i: int| 0 <= i < id.len() - 1 && #[trigger] id[i] == '.' && id[i + 1] == '.'
}

fn bad_id(id: &str) -> (r: bool)
    ensures
        r == is_bad_id(id@),
{
    let n: usize = id.unicode_len();
    if n == 0 {
        return true;
    }
    let mut i: usize = 0;
    let mut dot = false;
    while i < n
        invariant
            n == id@.len(),
            i <= n,
            forall|k: int| 0 <= k < i ==> id@[k] != '/' && id@[k] != '\\',
            forall|k: int| 0 <= k < i - 1 ==> !(#[trigger] id@[k] == '.' && id@[k + 1] == '.'),
            dot == (i > 0 && id@[i - 1] == '.'),
        decreases n - i,
    {
        let c = id.get_char(i);
        if c == '/' || c == '\\' {
            proof {
                assert(id@.contains(id@[i as int]));
            }
            return true;
        }
        if c == '.' {
            if dot {
                proof {
                    assert(id@[i - 1] == '.' && id@[i - 1 + 1] == '.');
                }
                return true;
            }
            dot = true;
        } else {
            dot = false;
        }
        i += 1;
    }
    false
}

impl Store {
    pub closed spec fn place(&self) -> Seq<u8> {
        self.dir@
    }

    /// The directory of the plan `id`.
    pub open spec fn place_of(&self, id: Seq<char>) -> Seq<u8> {
        joined(self.place(), vstd::utf8::encode_utf8(id))
    }

    /// The file the plan `id` is read from and saved to.
    pub open spec fn file_of(&self, id: Seq<char>) -> Seq<u8> {
        joined(self.place_of(id), vstd::utf8::encode_utf8(PLAN_FILE@))
    }

    /// The file it is written to before that.
    pub open spec fn new_file_of(&self, id: Seq<char>) -> Seq<u8> {
        joined(self.place_of(id), vstd::utf8::encode_utf8(NEW_PLAN_FILE@))
    }

    /// The user's plan store, in the directory state is kept in.
    pub fn open_default(state_dir: &[u8]) -> (r: Store)
        ensures
            r.place() == joined(state_dir@, vstd::utf8::encode_utf8("plans"@)),
    {
        Store::at(join(state_dir, "plans".as_bytes()))
    }

    pub fn at(dir: Vec<u8>) -> (r: Store)
        ensures
            r.place() == dir@,
    {
        Store { dir }
    }

    pub fn dir(&self) -> (r: &[u8])
        ensures
            r@ == self.place(),
    {
        self.dir.as_slice()
    }

    /// Where the plan `id` is kept. Ids come from the command line; a `..` here would let a typo
    /// escape the store.
    pub fn dir_for(&self, id: &str) -> (r: Result<Vec<u8>, String>)
        ensures
            match r {
                Ok(dir) => !is_bad_id(id@) && dir@ == self.place_of(id@),
                Err(e) => is_bad_id(id@) && e@ == "bad plan id "@ + quoted(id@),
            },
    {
        if bad_id(id) {
            let q = quote(id);
            return Err(cat2("bad plan id ", q.as_str()));
        }
        Ok(join(self.dir.as_slice(), id.as_bytes()))
    }

    /// The file to read a plan from.
    pub fn load(&self, id: &str) -> (r: Result<Vec<u8>, String>)
        ensures
            match r {
                Ok(file) => !is_bad_id(id@) && file@ == self.file_of(id@),
                Err(e) => is_bad_id(id@) && e@ == "bad plan id "@ + quoted(id@),
            },
    {
        match self.dir_for(id) {
            Ok(dir) => Ok(join(dir.as_slice(), PLAN_FILE.as_bytes())),
            Err(e) => Err(e),
        }
    }

    /// The files a plan is written to: first beside the target, which is then renamed over it, so
    /// a crash while writing cannot leave a plan that parses as half the operations the user
    /// reviewed.
    pub fn save(&self, plan: &Plan) -> (r: Result<(Vec<u8>, Vec<u8>), String>)
        ensures
            match r {
                Ok((temporary, target)) => {
                    &&& !is_bad_id(plan.id@)
                    &&& temporary@ == self.new_file_of(plan.id@)
                    &&& target@ == self.file_of(plan.id@)
                },
                Err(e) => is_bad_id(plan.id@) && e@ == "bad plan id "@ + quoted(plan.id@),
            },
    {
        match self.dir_for(plan.id.as_str()) {
            Ok(dir) => Ok(
                (
                    join(dir.as_slice(), NEW_PLAN_FILE.as_bytes()),
                    join(dir.as_slice(), PLAN_FILE.as_bytes()),
                ),
            ),
            Err(e) => Err(e),
        }
    }

    /// The directory to remove with all that is in it, which is the plan and its journal.
    pub fn remove(&self, id: &str) -> (r: Result<Vec<u8>, String>)
        ensures
            match r {
                Ok(dir) => !is_bad_id(id@) && dir@ == self.place_of(id@),
                Err(e) => is_bad_id(id@) && e@ == "bad plan id "@ + quoted(id@),
            },
    {
        self.dir_for(id)
    }
}

/// Bytes of text that holds no separator hold none either.
proof fn lemma_no_sep(id: Seq<char>)
    requires
        !id.contains('/'),
    ensures
        !vstd::utf8::encode_utf8(id).contains(SEP),
    decreases id.len(),
{
    let raw = vstd::utf8::encode_utf8(id);
    if id.len() > 0 {
        let tail = id.drop_first();
        assert forall|k: int| 0 <= k < tail.len() implies tail[k] != '/' by {
            assert(id.contains(id[k + 1]));
        }
        lemma_no_sep(tail);
        let c = id[0] as u32;
        let first = vstd::utf8::encode_scalar(c);
        assert(raw =~= first + vstd::utf8::encode_utf8(tail));
        lemma_scalar_bytes(id[0]);
        assert(id.contains(id[0]));
        if raw.contains(SEP) {
            let k = choose|k: int| 0 <= k < raw.len() && raw[k] == SEP;
            if k < first.len() {
                assert(first[k] == SEP);
            } else {
                assert(vstd::utf8::encode_utf8(tail)[k - first.len()] == SEP);
            }
        }
    }
}

/// Only the separator itself is encoded with the separator's byte.
proof fn lemma_scalar_bytes(c: char)
    ensures
        vstd::utf8::encode_scalar(c as u32).len() > 0,
        forall|k: int|
            0 <= k < vstd::utf8::encode_scalar(c as u32).len() && #[trigger] vstd::utf8::encode_scalar(
                c as u32,
            )[k] == SEP ==> c == '/',
{
    let v = c as u32;
    assert(v <= 0x7f ==> (v & 0x7F) as u8 == v) by (bit_vector);
    assert(v <= 0x7ff ==> 0xC0 | ((v >> 6) & 0x1F) as u8 >= 0xC0) by (bit_vector);
    assert(0xE0 | ((v >> 12) & 0x0F) as u8 >= 0xC0) by (bit_vector);
    assert(0xF0 | ((v >> 18) & 0x07) as u8 >= 0xC0) by (bit_vector);
    assert(0x80 | (v & 0x3F) as u8 >= 0x80) by (bit_vector);
    assert(0x80 | ((v >> 6) & 0x3F) as u8 >= 0x80) by (bit_vector);
    assert(0x80 | ((v >> 12) & 0x3F) as u8 >= 0x80) by (bit_vector);
}

/// An id other than `.` is one name.
pub(crate) proof fn lemma_id_is_a_name(id: Seq<char>)
    requires
        !is_bad_id(id),
    ensures
        vstd::utf8::encode_utf8(id).len() > 0,
        id != seq!['.'] ==> is_plain_name(vstd::utf8::encode_utf8(id)),
{
    let raw = vstd::utf8::encode_utf8(id);
    lemma_no_sep(id);
    vstd::utf8::encode_utf8_decode_utf8(id);
    if raw.len() == 0 {
        assert(vstd::utf8::decode_utf8(raw) =~= Seq::<char>::empty());
    }
    if raw == seq![DOT] {
        let dots = seq!['.'];
        assert(vstd::utf8::is_ascii_chars(dots));
        vstd::utf8::is_ascii_chars_encode_utf8(dots);
        assert(vstd::utf8::encode_utf8(dots) =~= seq![DOT]);
        vstd::utf8::encode_utf8_decode_utf8(dots);
        assert(id == dots);
    }
}

/// A plan's directory lies in the store: the store's own components lead to it, and at most the id
/// follows.
pub proof fn law_ids_cannot_escape(place: Seq<u8>, id: Seq<char>)
    requires
        !is_bad_id(id),
        place.len() > 0,
        id != seq!['.'],
    ensures
        components(joined(place, vstd::utf8::encode_utf8(id))) == components(place).push(
            vstd::utf8::encode_utf8(id),
        ),
{
    lemma_id_is_a_name(id);
    law_joined_adds_a_component(place, vstd::utf8::encode_utf8(id));
}

/// A plan is read from the file it was written to, and from no other plan's: the file of an id is
/// one and the same for a load and a save, and different ids have different files.
pub proof fn law_plans_are_kept_apart(store: Store, a: Seq<char>, b: Seq<char>)
    requires
        !is_bad_id(a),
        !is_bad_id(b),
    ensures
        store.file_of(a) == store.file_of(b) <==> a == b,
{
    let file = vstd::utf8::encode_utf8(PLAN_FILE@);
    let x = vstd::utf8::encode_utf8(a);
    let y = vstd::utf8::encode_utf8(b);
    lemma_no_sep(a);
    lemma_no_sep(b);
    vstd::utf8::encode_utf8_decode_utf8(a);
    vstd::utf8::encode_utf8_decode_utf8(b);
    if store.file_of(a) == store.file_of(b) {
        lemma_name_ends(x);
        lemma_name_ends(y);
        if x.len() == 0 {
            assert(vstd::utf8::decode_utf8(x) =~= Seq::<char>::empty());
        }
        if y.len() == 0 {
            assert(vstd::utf8::decode_utf8(y) =~= Seq::<char>::empty());
        }
        reveal_strlit("plan.json");
        assert(vstd::utf8::is_ascii_chars(PLAN_FILE@));
        vstd::utf8::is_ascii_chars_encode_utf8(PLAN_FILE@);
        let base = store.place();
        let pre = if base.len() > 0 && base.last() != SEP {
            base.push(SEP)
        } else {
            base
        };
        assert(store.place_of(a) =~= pre + x);
        assert(store.place_of(b) =~= pre + y);
        assert((pre + x).last() == x.last());
        assert((pre + y).last() == y.last());
        let p = (pre + x).push(SEP) + file;
        let q = (pre + y).push(SEP) + file;
        assert(p == q);
        assert(p.len() == q.len());
        assert forall|k: int| 0 <= k < x.len() implies x[k] == y[k] by {
            assert(p[pre.len() + k] == q[pre.len() + k]);
        }
        assert(x =~= y);
    }
}

/// A name that holds no separator neither begins nor ends with one.
proof fn lemma_name_ends(name: Seq<u8>)
    requires
        !name.contains(SEP),
    ensures
        name.len() > 0 ==> name[0] != SEP && name.last() != SEP,
{
    if name.len() > 0 {
        assert(name.contains(name[0]));
        assert(name.contains(name.last()));
    }
}

/// What plans are listed by: newest first, then by id, the greatest first.
#[derive(Debug)]
pub struct ListKey {
    pub created: i64,
    pub id: Vec<u8>,
}

impl Ranked for ListKey {
    open spec fn at_most(&self, other: &Self) -> bool {
        self.created > other.created || (self.created == other.created && bytes_at_most(
            other.id@,
            self.id@,
        ))
    }

    proof fn total(a: &Self, b: &Self) {
        lemma_bytes_total(a.id@, b.id@);
    }

    proof fn transitive(a: &Self, b: &Self, c: &Self) {
        if a.created == b.created && b.created == c.created {
            lemma_bytes_transitive(c.id@, b.id@, a.id@);
        }
    }

    fn is_at_most(&self, other: &Self) -> (r: bool) {
        self.created > other.created || (self.created == other.created && is_bytes_at_most(
            other.id.as_slice(),
            self.id.as_slice(),
        ))
    }
}

/// Whether a summary tells of a plan.
pub open spec fn sums_up(s: Summary, plan: Plan) -> bool {
    &&& s.id@ == plan.id@
    &&& s.created == plan.created
    &&& s.host@ == plan.host@
    &&& s.root@ == plan.root@
    &&& s.ops == plan.ops@.len()
    &&& s.delete_bytes == bytes_of(plan.ops@, true)
    &&& s.move_bytes == bytes_of(plan.ops@, false)
}

/// Whether the totals of a plan can be stated.
pub open spec fn has_totals(plan: Plan) -> bool {
    bytes_of(plan.ops@, true) <= u64::MAX && bytes_of(plan.ops@, false) <= u64::MAX
}

/// Whether `a` is listed before `b`.
pub open spec fn listed_before(a: Plan, b: Plan) -> bool {
    a.created > b.created || (a.created == b.created && bytes_at_most(
        vstd::utf8::encode_utf8(b.id@),
        vstd::utf8::encode_utf8(a.id@),
    ))
}

/// Whether `list` tells of every plan once, newest first.
pub open spec fn is_listing(plans: Seq<Plan>, list: Seq<Summary>) -> bool {
    exists|p: Seq<int>|
        {
            &&& #[trigger] p.len() == plans.len()
            &&& p.no_duplicates()
            &&& list.len() == plans.len()
            &&& forall|k: int| 0 <= k < p.len() ==> 0 <= #[trigger] p[k] < plans.len()
            &&& forall|k: int| 0 <= k < p.len() ==> sums_up(#[trigger] list[k], plans[p[k]])
            &&& forall|i: int, j: int|
                0 <= i < j < p.len() ==> listed_before(plans[#[trigger] p[i]], plans[#[trigger] p[j]])
        }
}

/// Every plan that could be read, newest first.
pub fn list(plans: &Vec<Plan>) -> (r: Vec<Summary>)
    requires
        forall|k: int| 0 <= k < plans@.len() ==> has_totals(#[trigger] plans@[k]),
    ensures
        is_listing(plans@, r@),
{
    let mut keys: Vec<ListKey> = Vec::new();
    while keys.len() < plans.len()
        invariant
            keys@.len() <= plans@.len(),
            forall|k: int|
                0 <= k < keys@.len() ==> (#[trigger] keys@[k]).created == plans@[k].created
                    && keys@[k].id@ == vstd::utf8::encode_utf8(plans@[k].id@),
        decreases plans.len() - keys.len(),
    {
        let plan = &plans[keys.len()];
        let id = copy_bytes(plan.id.as_str().as_bytes());
        keys.push(ListKey { created: plan.created, id });
    }
    let order = stable_order(&keys);
    let mut out: Vec<Summary> = Vec::new();
    while out.len() < order.len()
        invariant
            out@.len() <= order@.len(),
            forall|k: int| 0 <= k < plans@.len() ==> has_totals(#[trigger] plans@[k]),
            forall|k: int| 0 <= k < order@.len() ==> #[trigger] order@[k] < plans@.len(),
            forall|k: int|
                0 <= k < out@.len() ==> sums_up(#[trigger] out@[k], plans@[order@[k] as int]),
        decreases order.len() - out.len(),
    {
        let plan = &plans[order[out.len()]];
        proof {
            assert(has_totals(*plan));
        }
        let s = Summary {
            id: plan.id.clone(),
            created: plan.created,
            host: plan.host.clone(),
            root: copy_bytes(plan.root.as_slice()),
            ops: plan.ops.len(),
            delete_bytes: plan.delete_bytes(),
            move_bytes: plan.move_bytes(),
        };
        out.push(s);
    }
    proof {
        let p = ints(order@);
        crate::order::lemma_order_distinct(keys@, p);
        assert forall|i: int, j: int| 0 <= i < j < p.len() implies listed_before(
            plans@[#[trigger] p[i]],
            plans@[#[trigger] p[j]],
        ) by {
            assert(crate::order::comes_first(keys@, p[i], p[j]));
        }
        assert(p.len() == plans@.len());
        assert(is_listing(plans@, out@));
    }
    out
}

/// Where state is kept that should survive a reboot but is not configuration: what was asked for,
/// or else the place the platform has for it.
pub open spec fn state_place(
    asked: Option<Seq<u8>>,
    home: Option<Seq<u8>>,
    xdg: Option<Seq<u8>>,
    macos: bool,
) -> Seq<u8> {
    let base = match home {
        Some(h) => h,
        None => vstd::utf8::encode_utf8("/tmp"@),
    };
    match asked {
        Some(dir) => dir,
        None => if macos {
            joined(base, vstd::utf8::encode_utf8("Library/Application Support/ccdu"@))
        } else {
            match xdg {
                Some(x) => if x.len() > 0 {
                    joined(x, vstd::utf8::encode_utf8("ccdu"@))
                } else {
                    joined(base, vstd::utf8::encode_utf8(".local/state/ccdu"@))
                },
                None => joined(base, vstd::utf8::encode_utf8(".local/state/ccdu"@)),
            }
        },
    }
}

pub open spec fn opt_view(v: Option<Vec<u8>>) -> Option<Seq<u8>> {
    match v {
        Some(x) => Some(x@),
        None => None,
    }
}

/// Where state is kept, from what the environment says: the directory asked for, the home
/// directory, and the state directory of the desktop.
pub fn state_dir(
    asked: &Option<Vec<u8>>,
    home: &Option<Vec<u8>>,
    xdg: &Option<Vec<u8>>,
    macos: bool,
) -> (r: Vec<u8>)
    ensures
        r@ == state_place(opt_view(*asked), opt_view(*home), opt_view(*xdg), macos),
{
    match asked {
        Some(dir) => return copy_bytes(dir.as_slice()),
        None => {},
    }
    let base = match home {
        Some(h) => copy_bytes(h.as_slice()),
        None => copy_bytes("/tmp".as_bytes()),
    };
    if macos {
        return join(base.as_slice(), "Library/Application Support/ccdu".as_bytes());
    }
    match xdg {
        Some(x) => {
            if x.len() > 0 {
                return join(x.as_slice(), "ccdu".as_bytes());
            }
        },
        None => {},
    }
    join(base.as_slice(), ".local/state/ccdu".as_bytes())
}

/// Plans are listed newest first, every one of them once, each with what it is: when it was made and
/// where, for which tree, how many operations it holds and what they come to.
pub proof fn law_plans_are_listed_newest_first(plans: Seq<Plan>, list: Seq<Summary>, k: int)
    requires
        is_listing(plans, list),
        0 <= k < plans.len(),
    ensures
        list.len() == plans.len(),
        forall|i: int, j: int|
            0 <= i < j < list.len() ==> (#[trigger] list[i]).created >= (#[trigger] list[j]).created,
        exists|i: int|
            {
                &&& 0 <= i < list.len()
                &&& (#[trigger] list[i]).id@ == plans[k].id@
                &&& list[i].created == plans[k].created
                &&& list[i].host@ == plans[k].host@
                &&& list[i].root@ == plans[k].root@
                &&& list[i].ops == plans[k].ops@.len()
                &&& list[i].delete_bytes == bytes_of(plans[k].ops@, true)
                &&& list[i].move_bytes == bytes_of(plans[k].ops@, false)
            },
{
    let p = choose|p: Seq<int>|
        {
            &&& #[trigger] p.len() == plans.len()
            &&& p.no_duplicates()
            &&& list.len() == plans.len()
            &&& forall|k: int| 0 <= k < p.len() ==> 0 <= #[trigger] p[k] < plans.len()
            &&& forall|k: int| 0 <= k < p.len() ==> sums_up(#[trigger] list[k], plans[p[k]])
            &&& forall|i: int, j: int|
                0 <= i < j < p.len() ==> listed_before(plans[#[trigger] p[i]], plans[#[trigger] p[j]])
        };
    assert forall|i: int, j: int| 0 <= i < j < list.len() implies (#[trigger] list[i]).created >= (
    #[trigger] list[j]).created by {
        assert(listed_before(plans[p[i]], plans[p[j]]));
        assert(sums_up(list[i], plans[p[i]]) && sums_up(list[j], plans[p[j]]));
    }
    lemma_all_reached(p, k);
    let i = choose|i: int| 0 <= i < p.len() && p[i] == k;
    assert(sums_up(list[i], plans[p[i]]));
}

/// As many different numbers as there are numbers below some bound are all of them.
proof fn lemma_all_reached(p: Seq<int>, k: int)
    requires
        p.no_duplicates(),
        forall|i: int| 0 <= i < p.len() ==> 0 <= #[trigger] p[i] < p.len(),
        0 <= k < p.len(),
    ensures
        exists|i: int| 0 <= i < p.len() && p[i] == k,
{
    if forall|i: int| 0 <= i < p.len() ==> p[i] != k {
        let all = vstd::set_lib::set_int_range(0, p.len() as int);
        vstd::set_lib::lemma_int_range(0, p.len() as int);
        p.unique_seq_to_set();
        assert(p.to_set().subset_of(all.remove(k))) by {
            assert forall|x: int| p.to_set().contains(x) implies all.remove(k).contains(x) by {
                let i = choose|i: int| 0 <= i < p.len() && p[i] == x;
                assert(0 <= p[i] < p.len() && p[i] != k);
            }
        }
        vstd::set_lib::lemma_len_subset(p.to_set(), all.remove(k));
    }
}

/// Where plans are kept: where the user says, if they do; else below the home directory, or where
/// state is kept, if that is set.
pub proof fn law_where_plans_are_kept(
    asked: Option<Seq<u8>>,
    home: Option<Seq<u8>>,
    xdg: Option<Seq<u8>>,
    macos: bool,
)
    ensures
        asked matches Some(dir) ==> state_place(asked, home, xdg, macos) == dir,
        asked is None && home is Some && macos ==> state_place(asked, home, xdg, macos) == joined(
            home->0,
            vstd::utf8::encode_utf8("Library/Application Support/ccdu"@),
        ),
        asked is None && !macos && xdg is Some && xdg->0.len() > 0 ==> state_place(
            asked,
            home,
            xdg,
            macos,
        ) == joined(xdg->0, vstd::utf8::encode_utf8("ccdu"@)),
        asked is None && !macos && home is Some && (xdg is None || xdg->0.len() == 0)
            ==> state_place(asked, home, xdg, macos) == joined(
            home->0,
            vstd::utf8::encode_utf8(".local/state/ccdu"@),
        ),
{
}

/// An id names a plan unless it is empty, or holds a slash, a backslash or two dots in a row.
pub proof fn law_which_ids_name_a_plan(id: Seq<char>)
    ensures
        is_bad_id(id) == (id.len() == 0 || (exists|i: int|
            0 <= i < id.len() && (#[trigger] id[i] == '/' || id[i] == '\\')) || exists|i: int|
            0 <= i < id.len() - 1 && #[trigger] id[i] == '.' && id[i + 1] == '.'),
{
    if exists|i: int| 0 <= i < id.len() && (#[trigger] id[i] == '/' || id[i] == '\\') {
        let i = choose|i: int| 0 <= i < id.len() && (#[trigger] id[i] == '/' || id[i] == '\\');
        assert(id.contains(id[i]));
    }
}

/// Of plans that were made at the same moment, the one whose id comes later is listed first.
pub proof fn law_plans_of_one_moment_are_listed_by_id(
    plans: Seq<Plan>,
    list: Seq<Summary>,
    i: int,
    j: int,
)
    requires
        is_listing(plans, list),
        0 <= i < j < list.len(),
        list[i].created == list[j].created,
    ensures
        spells_before(vstd::utf8::encode_utf8(list[j].id@), vstd::utf8::encode_utf8(list[i].id@)),
{
    let p = choose|p: Seq<int>|
        {
            &&& #[trigger] p.len() == plans.len()
            &&& p.no_duplicates()
            &&& list.len() == plans.len()
            &&& forall|k: int| 0 <= k < p.len() ==> 0 <= #[trigger] p[k] < plans.len()
            &&& forall|k: int| 0 <= k < p.len() ==> sums_up(#[trigger] list[k], plans[p[k]])
            &&& forall|i: int, j: int|
                0 <= i < j < p.len() ==> listed_before(plans[#[trigger] p[i]], plans[#[trigger] p[j]])
        };
    assert(listed_before(plans[p[i]], plans[p[j]]));
    assert(sums_up(list[i], plans[p[i]]) && sums_up(list[j], plans[p[j]]));
    law_bytes_are_compared_like_words(
        vstd::utf8::encode_utf8(list[j].id@),
        vstd::utf8::encode_utf8(list[i].id@),
    );
}

} // verus!
