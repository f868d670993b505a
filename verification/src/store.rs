//! The server's session store: a mapping from session code to an ordered,
//! fixed-length array of fragment slots.
//!
//! A session is created implicitly by the first accepted upload for an unseen
//! code, its slot count is fixed at creation, a slot fills at most once, and
//! an explicit close removes the whole session.  The store is modelled as a
//! map from code to slot sequence; every operation's contract is stated over
//! that map, so the router and the laws below can reason about the store
//! without seeing its representation.

use vstd::prelude::*;
use crate::text::bytes_eq;
use crate::text::push_all;

verus! {

/// The mathematical content of the store: each live session's slots.
pub type StoreModel = Map<Seq<u8>, Seq<Option<Seq<u8>>>>;

/// What filling one slot reports.
#[derive(Debug, Clone, Copy, PartialEq, Eq, Structural)]
pub enum FillResult {
    Accepted,
    SeqOutOfBounds,
    DuplicateSlot,
    UnknownCode,
}

/// `n` empty slots.
pub open spec fn empty_slots(n: nat) -> Seq<Option<Seq<u8>>> {
    Seq::new(n, |i: int| None)
}

/// What `fill` reports on a store, a code, and a slot index.
pub open spec fn fill_result(m: StoreModel, code: Seq<u8>, seq: nat) -> FillResult {
    if !m.contains_key(code) {
        FillResult::UnknownCode
    } else if seq >= m[code].len() {
        FillResult::SeqOutOfBounds
    } else if m[code][seq as int] is Some {
        FillResult::DuplicateSlot
    } else {
        FillResult::Accepted
    }
}

/// The store after `fill`: one slot filled on acceptance, else unchanged.
pub open spec fn fill_map(m: StoreModel, code: Seq<u8>, seq: nat, frag: Seq<u8>) -> StoreModel {
    if fill_result(m, code, seq) == FillResult::Accepted {
        m.insert(code, m[code].update(seq as int, Some(frag)))
    } else {
        m
    }
}

/// The store after `ensure_session`: untouched if the code lives, else a
/// fresh session of `maxseq` empty slots.
pub open spec fn ensure_map(m: StoreModel, code: Seq<u8>, maxseq: nat) -> StoreModel {
    if m.contains_key(code) {
        m
    } else {
        m.insert(code, empty_slots(maxseq))
    }
}

/// The store after the atomic upload pair: ensure the session, then fill.
pub open spec fn upload_map(
    m: StoreModel,
    code: Seq<u8>,
    seq: nat,
    maxseq: nat,
    frag: Seq<u8>,
) -> StoreModel {
    fill_map(ensure_map(m, code, maxseq), code, seq, frag)
}

/// What the atomic upload pair reports.
pub open spec fn upload_result(m: StoreModel, code: Seq<u8>, seq: nat, maxseq: nat) -> FillResult {
    fill_result(ensure_map(m, code, maxseq), code, seq)
}

struct StoreEntry {
    code: Vec<u8>,
    slots: Vec<Option<Vec<u8>>>,
}

/// The session store.
pub struct SessionStore {
    entries: Vec<StoreEntry>,
}

/// The views of a slot array.
pub open spec fn slots_view(s: Seq<Option<Vec<u8>>>) -> Seq<Option<Seq<u8>>> {
    s.map_values(
        |o: Option<Vec<u8>>|
            match o {
                Some(v) => Some(v@),
                None => None,
            },
    )
}

spec fn map_of(es: Seq<StoreEntry>) -> StoreModel
    decreases es.len(),
{
    if es.len() == 0 {
        Map::empty()
    } else {
        map_of(es.drop_last()).insert(es.last().code@, slots_view(es.last().slots@))
    }
}

spec fn wf_entries(es: Seq<StoreEntry>) -> bool {
    forall|i: int, j: int| 0 <= i < j < es.len() ==> es[i].code@ != es[j].code@
}

impl View for SessionStore {
    type V = StoreModel;

    closed spec fn view(&self) -> StoreModel {
        map_of(self.entries@)
    }
}

proof fn lemma_map_of_contains(es: Seq<StoreEntry>, k: Seq<u8>)
    ensures
        map_of(es).contains_key(k) <==> exists|i: int| 0 <= i < es.len() && es[i].code@ == k,
    decreases es.len(),
{
    if es.len() > 0 {
        lemma_map_of_contains(es.drop_last(), k);
        if map_of(es).contains_key(k) {
            if es.last().code@ == k {
                assert(es[es.len() - 1].code@ == k);
            } else {
                let i = choose|i: int| 0 <= i < es.drop_last().len() && es.drop_last()[i].code@
                    == k;
                assert(es[i].code@ == k);
            }
        }
        if exists|i: int| 0 <= i < es.len() && es[i].code@ == k {
            let i = choose|i: int| 0 <= i < es.len() && es[i].code@ == k;
            if i < es.len() - 1 {
                assert(es.drop_last()[i].code@ == k);
            }
        }
    }
}

proof fn lemma_map_of_value(es: Seq<StoreEntry>, i: int)
    requires
        wf_entries(es),
        0 <= i < es.len(),
    ensures
        map_of(es).contains_key(es[i].code@),
        map_of(es)[es[i].code@] == slots_view(es[i].slots@),
    decreases es.len(),
{
    if i == es.len() - 1 {
    } else {
        assert(wf_entries(es.drop_last()));
        assert(es.drop_last()[i] == es[i]);
        lemma_map_of_value(es.drop_last(), i);
        assert(es[i].code@ != es.last().code@);
    }
}

proof fn lemma_map_of_update(es: Seq<StoreEntry>, i: int, e: StoreEntry)
    requires
        wf_entries(es),
        0 <= i < es.len(),
        e.code@ == es[i].code@,
    ensures
        map_of(es.update(i, e)) == map_of(es).insert(e.code@, slots_view(e.slots@)),
    decreases es.len(),
{
    let upd = es.update(i, e);
    if i == es.len() - 1 {
        assert(upd.drop_last() =~= es.drop_last());
        assert(upd.last() == e);
        assert(map_of(upd) =~= map_of(es).insert(e.code@, slots_view(e.slots@)));
    } else {
        assert(wf_entries(es.drop_last()));
        assert(es.drop_last()[i] == es[i]);
        lemma_map_of_update(es.drop_last(), i, e);
        assert(upd.drop_last() =~= es.drop_last().update(i, e));
        assert(upd.last() == es.last());
        assert(es[i].code@ != es.last().code@);
        assert(map_of(upd) =~= map_of(es).insert(e.code@, slots_view(e.slots@)));
    }
}

proof fn lemma_map_of_remove(es: Seq<StoreEntry>, i: int)
    requires
        wf_entries(es),
        0 <= i < es.len(),
    ensures
        map_of(es.remove(i)) == map_of(es).remove(es[i].code@),
    decreases es.len(),
{
    let rem = es.remove(i);
    if i == es.len() - 1 {
        assert(rem =~= es.drop_last());
        assert(wf_entries(es.drop_last()));
        let k = es[i].code@;
        lemma_map_of_contains(es.drop_last(), k);
        assert forall|j: int| 0 <= j < es.drop_last().len() implies es.drop_last()[j].code@ != k by {
            assert(es[j].code@ != es[i].code@);
        }
        assert(!map_of(es.drop_last()).contains_key(k));
        assert(map_of(rem) =~= map_of(es).remove(es[i].code@));
    } else {
        assert(wf_entries(es.drop_last()));
        assert(es.drop_last()[i] == es[i]);
        lemma_map_of_remove(es.drop_last(), i);
        assert(rem.drop_last() =~= es.drop_last().remove(i));
        assert(rem.last() == es.last());
        assert(es[i].code@ != es.last().code@);
        assert(map_of(rem) =~= map_of(es).remove(es[i].code@));
    }
}

impl SessionStore {
    #[verifier::type_invariant]
    spec fn wf(self) -> bool {
        wf_entries(self.entries@)
    }

    /// An empty store: no session lives.
    pub fn new() -> (s: SessionStore)
        ensures
            s@ == Map::<Seq<u8>, Seq<Option<Seq<u8>>>>::empty(),
    {
        SessionStore { entries: Vec::new() }
    }

    fn find_entry(&self, code: &Vec<u8>) -> (r: Option<usize>)
        ensures
            match r {
                Some(i) => i < self.entries@.len() && self.entries@[i as int].code@ == code@,
                None => forall|i: int|
                    0 <= i < self.entries@.len() ==> self.entries@[i].code@ != code@,
            },
    {
        let mut i: usize = 0;
        while i < self.entries.len()
            invariant
                i <= self.entries@.len(),
                forall|k: int| 0 <= k < i ==> self.entries@[k].code@ != code@,
            decreases self.entries@.len() - i,
        {
            if bytes_eq(&self.entries[i].code, code) {
                return Some(i);
            }
            i = i + 1;
        }
        None
    }

    /// The fixed slot count of a live session; `None` when the code is
    /// unknown.
    pub fn count(&self, code: &Vec<u8>) -> (r: Option<usize>)
        ensures
            match r {
                Some(n) => self@.contains_key(code@) && n == self@[code@].len(),
                None => !self@.contains_key(code@),
            },
    {
        proof {
            use_type_invariant(&*self);
            lemma_map_of_contains(self.entries@, code@);
        }
        match self.find_entry(code) {
            Some(i) => {
                proof {
                    lemma_map_of_value(self.entries@, i as int);
                }
                Some(self.entries[i].slots.len())
            },
            None => None,
        }
    }
}

/// What reading one slot reports: the fragment, a still-empty slot, or the
/// errors.
#[derive(Debug, PartialEq, Eq)]
pub enum GetOutcome {
    Present { fragment: Vec<u8> },
    Empty,
    SeqOutOfBounds,
    UnknownCode,
}

impl SessionStore {
    /// Read one slot of a live session.
    pub fn get(&self, code: &Vec<u8>, seq: usize) -> (r: GetOutcome)
        ensures
            match r {
                GetOutcome::Present { fragment } => self@.contains_key(code@) && seq
                    < self@[code@].len() && self@[code@][seq as int] == Some(fragment@),
                GetOutcome::Empty => self@.contains_key(code@) && seq < self@[code@].len()
                    && self@[code@][seq as int] is None,
                GetOutcome::SeqOutOfBounds => self@.contains_key(code@) && seq
                    >= self@[code@].len(),
                GetOutcome::UnknownCode => !self@.contains_key(code@),
            },
    {
        proof {
            use_type_invariant(&*self);
            lemma_map_of_contains(self.entries@, code@);
        }
        match self.find_entry(code) {
            None => GetOutcome::UnknownCode,
            Some(i) => {
                proof {
                    lemma_map_of_value(self.entries@, i as int);
                }
                let e = &self.entries[i];
                if seq >= e.slots.len() {
                    GetOutcome::SeqOutOfBounds
                } else {
                    match &e.slots[seq] {
                        None => GetOutcome::Empty,
                        Some(f) => {
                            let mut fragment: Vec<u8> = Vec::new();
                            push_all(&mut fragment, f);
                            GetOutcome::Present { fragment }
                        },
                    }
                }
            },
        }
    }

    /// Create the session if the code is new; an existing session is left
    /// untouched, its slot count fixed at first creation.
    pub fn ensure_session(&mut self, code: &Vec<u8>, maxseq: usize)
        ensures
            final(self)@ == ensure_map(old(self)@, code@, maxseq as nat),
    {
        proof {
            use_type_invariant(&*self);
            lemma_map_of_contains(self.entries@, code@);
        }
        match self.find_entry(code) {
            Some(_i) => {},
            None => {
                let ghost old_es = self.entries@;
                let mut slots: Vec<Option<Vec<u8>>> = Vec::new();
                let mut k: usize = 0;
                while k < maxseq
                    invariant
                        k <= maxseq,
                        slots@.len() == k,
                        forall|t: int| 0 <= t < k ==> slots@[t] is None,
                    decreases maxseq - k,
                {
                    slots.push(None);
                    k = k + 1;
                }
                let mut code_copy: Vec<u8> = Vec::new();
                push_all(&mut code_copy, code);
                let mut es: Vec<StoreEntry> = Vec::new();
                core::mem::swap(&mut es, &mut self.entries);
                es.push(StoreEntry { code: code_copy, slots });
                proof {
                    assert(es@.drop_last() =~= old_es);
                    assert(slots_view(es@.last().slots@) =~= empty_slots(maxseq as nat));
                    assert forall|x: int, y: int| 0 <= x < y < es@.len() implies es@[x].code@
                        != es@[y].code@ by {
                        if y < es@.len() - 1 {
                            assert(old_es[x].code@ != old_es[y].code@);
                        } else {
                            assert(old_es[x].code@ != code@);
                        }
                    }
                }
                self.entries = es;
            },
        }
    }

    /// Fill one slot.  A slot fills at most once; out-of-bounds and duplicate
    /// attempts are rejected and leave the store unchanged.
    pub fn fill(&mut self, code: &Vec<u8>, seq: usize, fragment: Vec<u8>) -> (r: FillResult)
        ensures
            r == fill_result(old(self)@, code@, seq as nat),
            final(self)@ == fill_map(old(self)@, code@, seq as nat, fragment@),
    {
        proof {
            use_type_invariant(&*self);
            lemma_map_of_contains(self.entries@, code@);
        }
        let found = self.find_entry(code);
        match found {
            None => FillResult::UnknownCode,
            Some(i) => {
                let ghost old_es = self.entries@;
                let ghost m = map_of(old_es);
                proof {
                    lemma_map_of_value(old_es, i as int);
                }
                let mut es: Vec<StoreEntry> = Vec::new();
                core::mem::swap(&mut es, &mut self.entries);
                let mut e = es.remove(i);
                let ghost old_slots = e.slots@;
                let r: FillResult;
                if seq >= e.slots.len() {
                    r = FillResult::SeqOutOfBounds;
                } else {
                    let slot = e.slots.remove(seq);
                    match slot {
                        Some(s) => {
                            e.slots.insert(seq, Some(s));
                            proof {
                                assert(e.slots@ =~= old_slots);
                            }
                            r = FillResult::DuplicateSlot;
                        },
                        None => {
                            e.slots.insert(seq, Some(fragment));
                            proof {
                                assert(e.slots@ =~= old_slots.update(
                                    seq as int,
                                    Some(fragment),
                                ));
                            }
                            r = FillResult::Accepted;
                        },
                    }
                }
                es.insert(i, e);
                proof {
                    assert(es@ =~= old_es.update(i as int, es@[i as int]));
                    assert(es@[i as int].code@ == code@);
                    assert forall|x: int, y: int| 0 <= x < y < es@.len() implies es@[x].code@
                        != es@[y].code@ by {
                        assert(old_es[x].code@ != old_es[y].code@);
                    }
                    lemma_map_of_update(old_es, i as int, es@[i as int]);
                    if r == FillResult::Accepted {
                        assert(slots_view(old_slots.update(seq as int, Some(fragment)))
                            =~= slots_view(old_slots).update(seq as int, Some(fragment@)));
                        assert(map_of(es@) =~= fill_map(m, code@, seq as nat, fragment@));
                    } else {
                        assert(slots_view(es@[i as int].slots@) == slots_view(old_slots));
                        assert(map_of(es@) =~= m.insert(code@, slots_view(old_slots)));
                        assert(map_of(es@) =~= m);
                    }
                }
                self.entries = es;
                r
            },
        }
    }

    /// Remove a session outright; reports whether the code was live.
    pub fn close(&mut self, code: &Vec<u8>) -> (removed: bool)
        ensures
            removed == old(self)@.contains_key(code@),
            final(self)@ == old(self)@.remove(code@),
    {
        proof {
            use_type_invariant(&*self);
            lemma_map_of_contains(self.entries@, code@);
        }
        let found = self.find_entry(code);
        match found {
            None => {
                proof {
                    assert(map_of(self.entries@).remove(code@) =~= map_of(self.entries@));
                }
                false
            },
            Some(i) => {
                let ghost old_es = self.entries@;
                proof {
                    lemma_map_of_remove(old_es, i as int);
                }
                let mut es: Vec<StoreEntry> = Vec::new();
                core::mem::swap(&mut es, &mut self.entries);
                let _e = es.remove(i);
                proof {
                    assert forall|x: int, y: int| 0 <= x < y < es@.len() implies es@[x].code@
                        != es@[y].code@ by {
                        let x0 = if x < i { x } else { x + 1 };
                        let y0 = if y < i { y } else { y + 1 };
                        assert(es@[x] == old_es[x0]);
                        assert(es@[y] == old_es[y0]);
                        assert(old_es[x0].code@ != old_es[y0].code@);
                    }
                }
                self.entries = es;
                true
            },
        }
    }

    /// The atomic upload pair of the protocol: ensure the session, then fill
    /// the slot, in one step with respect to the store's contract.
    pub fn upload(&mut self, code: &Vec<u8>, seq: usize, maxseq: usize, fragment: Vec<u8>) -> (r:
        FillResult)
        ensures
            r == upload_result(old(self)@, code@, seq as nat, maxseq as nat),
            final(self)@ == upload_map(old(self)@, code@, seq as nat, maxseq as nat, fragment@),
            r != FillResult::UnknownCode,
    {
        self.ensure_session(code, maxseq);
        let r = self.fill(code, seq, fragment);
        r
    }
}

/// Law: filling the same `(code, seq)` twice accepts the first attempt and
/// rejects the second as a duplicate, whatever either fragment holds; the
/// rejected attempt leaves the store unchanged.
pub proof fn lemma_fill_duplicate_rejected(
    m: StoreModel,
    code: Seq<u8>,
    seq: nat,
    f1: Seq<u8>,
    f2: Seq<u8>,
)
    requires
        fill_result(m, code, seq) == FillResult::Accepted,
    ensures
        fill_result(fill_map(m, code, seq, f1), code, seq) == FillResult::DuplicateSlot,
        fill_map(fill_map(m, code, seq, f1), code, seq, f2) == fill_map(m, code, seq, f1),
{
}

/// Law: a fill beyond the session's fixed slot count always reports
/// `SeqOutOfBounds` and never mutates the store.
pub proof fn lemma_fill_out_of_bounds(m: StoreModel, code: Seq<u8>, seq: nat, frag: Seq<u8>)
    requires
        m.contains_key(code),
        seq >= m[code].len(),
    ensures
        fill_result(m, code, seq) == FillResult::SeqOutOfBounds,
        fill_map(m, code, seq, frag) == m,
{
}

/// Law: after a close the code is invisible — its count is gone — and a
/// subsequent upload behaves as if the code had never existed, creating a
/// fresh session with only the uploaded slot filled.
pub proof fn lemma_close_then_fresh(
    m: StoreModel,
    code: Seq<u8>,
    seq: nat,
    maxseq: nat,
    frag: Seq<u8>,
)
    requires
        seq < maxseq,
    ensures
        !m.remove(code).contains_key(code),
        upload_result(m.remove(code), code, seq, maxseq) == FillResult::Accepted,
        upload_map(m.remove(code), code, seq, maxseq, frag) == m.remove(code).insert(
            code,
            empty_slots(maxseq).update(seq as int, Some(frag)),
        ),
{
    let m1 = m.remove(code);
    let m2 = ensure_map(m1, code, maxseq);
    assert(m2[code] == empty_slots(maxseq));
    assert(empty_slots(maxseq)[seq as int] is None);
    assert(fill_map(m2, code, seq, frag) =~= m1.insert(
        code,
        empty_slots(maxseq).update(seq as int, Some(frag)),
    ));
}

/// The slots of a session whose first `k` fragments have been uploaded.
pub open spec fn filled_prefix(frags: Seq<Seq<u8>>, k: int) -> Seq<Option<Seq<u8>>> {
    Seq::new(frags.len(), |i: int| if i < k { Some(frags[i]) } else { None })
}

/// The store after the first `k` fragments of `frags` have been uploaded
/// under `code`, in slot order, each claiming the full fragment count.
pub open spec fn uploads_applied(
    m: StoreModel,
    code: Seq<u8>,
    frags: Seq<Seq<u8>>,
    k: int,
) -> StoreModel
    decreases k,
{
    if k <= 0 {
        m
    } else {
        upload_map(
            uploads_applied(m, code, frags, k - 1),
            code,
            (k - 1) as nat,
            frags.len(),
            frags[k - 1],
        )
    }
}

/// Law: uploading a payload's fragments one by one into a store that does
/// not know the code accepts every fragment and builds exactly the session
/// one would expect — the first `k` slots filled with the first `k`
/// fragments, the rest still empty.
pub proof fn lemma_uploads_fill(m: StoreModel, code: Seq<u8>, frags: Seq<Seq<u8>>, k: int)
    requires
        !m.contains_key(code),
        0 <= k <= frags.len(),
    ensures
        k == 0 ==> uploads_applied(m, code, frags, k) == m,
        k >= 1 ==> uploads_applied(m, code, frags, k) == m.insert(
            code,
            filled_prefix(frags, k),
        ),
        forall|j: int|
            0 <= j < k ==> upload_result(
                uploads_applied(m, code, frags, j),
                code,
                j as nat,
                frags.len(),
            ) == FillResult::Accepted,
    decreases k,
{
    if k >= 1 {
        lemma_uploads_fill(m, code, frags, k - 1);
        let prev = uploads_applied(m, code, frags, k - 1);
        let stepped = ensure_map(prev, code, frags.len());
        if k == 1 {
            assert(empty_slots(frags.len()) =~= filled_prefix(frags, 0));
            assert(stepped == m.insert(code, filled_prefix(frags, 0)));
        }
        assert(stepped == m.insert(code, filled_prefix(frags, k - 1))) by {
            if k >= 2 {
                assert(prev.contains_key(code));
            }
        }
        assert(stepped[code] == filled_prefix(frags, k - 1));
        assert(filled_prefix(frags, k - 1)[k - 1] is None);
        assert(fill_result(stepped, code, (k - 1) as nat) == FillResult::Accepted);
        assert(filled_prefix(frags, k - 1).update(k - 1, Some(frags[k - 1])) =~= filled_prefix(
            frags,
            k,
        ));
        assert(uploads_applied(m, code, frags, k) =~= m.insert(code, filled_prefix(frags, k)));
    }
}

/// The store after uploading fragment `order[0]`, then `order[1]`, and so
/// on, where fragment `i` carries `frags[i]` and every upload claims the
/// full fragment count.
pub open spec fn uploads_in_order(
    m: StoreModel,
    code: Seq<u8>,
    frags: Seq<Seq<u8>>,
    order: Seq<int>,
) -> StoreModel
    decreases order.len(),
{
    if order.len() == 0 {
        m
    } else {
        upload_map(
            uploads_in_order(m, code, frags, order.drop_last()),
            code,
            order.last() as nat,
            frags.len(),
            frags[order.last()],
        )
    }
}

/// Law: the order in which worker tasks retire cannot change what the
/// server ends up holding.  After any sequence of uploads — any order, a
/// retried duplicate included — slot `i` holds fragment `i` exactly when
/// `i` appears somewhere in that sequence.  Two runs over the same slots,
/// whatever their widths and interleavings, build the same session.
pub proof fn lemma_upload_order_irrelevant(
    m: StoreModel,
    code: Seq<u8>,
    frags: Seq<Seq<u8>>,
    order: Seq<int>,
)
    requires
        !m.contains_key(code),
        order.len() >= 1,
        forall|j: int| 0 <= j < order.len() ==> 0 <= #[trigger] order[j] < frags.len(),
    ensures
        uploads_in_order(m, code, frags, order) == m.insert(
            code,
            Seq::new(
                frags.len(),
                |i: int|
                    if order.contains(i) {
                        Some(frags[i])
                    } else {
                        None
                    },
            ),
        ),
    decreases order.len(),
{
    let nn = frags.len();
    let l = order.last();
    let target = Seq::new(
        nn,
        |i: int|
            if order.contains(i) {
                Some(frags[i])
            } else {
                None
            },
    );
    if order.len() == 1 {
        assert(order.drop_last().len() == 0);
        assert(uploads_in_order(m, code, frags, order.drop_last()) == m);
        let base = ensure_map(m, code, nn);
        assert(base[code] == empty_slots(nn));
        assert(empty_slots(nn)[l] is None);
        assert forall|i: int| 0 <= i < nn implies empty_slots(nn).update(l, Some(frags[l]))[i]
            == target[i] by {
            if i == l {
                assert(order.contains(i));
            } else if order.contains(i) {
                let j = choose|j: int| 0 <= j < order.len() && order[j] == i;
                assert(false);
            }
        }
        assert(empty_slots(nn).update(l, Some(frags[l])) =~= target);
        assert(uploads_in_order(m, code, frags, order) =~= m.insert(code, target));
    } else {
        let front = order.drop_last();
        lemma_upload_order_irrelevant(m, code, frags, front);
        let prev_slots = Seq::new(
            nn,
            |i: int|
                if front.contains(i) {
                    Some(frags[i])
                } else {
                    None
                },
        );
        let prev = m.insert(code, prev_slots);
        assert forall|i: int| 0 <= i < nn implies (order.contains(i) <==> (front.contains(i) || i
            == l)) by {
            if order.contains(i) {
                let j = choose|j: int| 0 <= j < order.len() && order[j] == i;
                if j < order.len() - 1 {
                    assert(front[j] == i);
                    assert(front.contains(i));
                }
            }
            if front.contains(i) {
                let j = choose|j: int| 0 <= j < front.len() && front[j] == i;
                assert(order[j] == i);
            }
            if i == l {
                assert(order[order.len() - 1] == i);
            }
        }
        if prev_slots[l] is None {
            assert(fill_result(prev, code, l as nat) == FillResult::Accepted);
            assert(prev_slots.update(l, Some(frags[l])) =~= target);
            assert(uploads_in_order(m, code, frags, order) =~= m.insert(code, target));
        } else {
            assert(front.contains(l));
            assert(fill_result(prev, code, l as nat) == FillResult::DuplicateSlot);
            assert(prev_slots =~= target);
            assert(uploads_in_order(m, code, frags, order) =~= m.insert(code, target));
        }
    }
}

/// Law: two uploads for distinct slots of one session commute — worker tasks
/// may complete in any order and the final session contents are the same, so
/// the concurrency width cannot change what the server ends up holding.
pub proof fn lemma_upload_commutes(
    m: StoreModel,
    code: Seq<u8>,
    maxseq: nat,
    s1: nat,
    f1: Seq<u8>,
    s2: nat,
    f2: Seq<u8>,
)
    requires
        s1 != s2,
    ensures
        upload_map(upload_map(m, code, s1, maxseq, f1), code, s2, maxseq, f2) == upload_map(
            upload_map(m, code, s2, maxseq, f2),
            code,
            s1,
            maxseq,
            f1,
        ),
{
    let base = ensure_map(m, code, maxseq);
    assert(base.contains_key(code));
    let sl = base[code];
    let a1 = fill_map(base, code, s1, f1);
    assert(a1.contains_key(code));
    assert(ensure_map(a1, code, maxseq) == a1);
    let a12 = fill_map(a1, code, s2, f2);
    let b2 = fill_map(base, code, s2, f2);
    assert(b2.contains_key(code));
    assert(ensure_map(b2, code, maxseq) == b2);
    let b21 = fill_map(b2, code, s1, f1);
    assert(upload_map(m, code, s1, maxseq, f1) == a1);
    assert(upload_map(upload_map(m, code, s1, maxseq, f1), code, s2, maxseq, f2) == a12);
    assert(upload_map(m, code, s2, maxseq, f2) == b2);
    assert(upload_map(upload_map(m, code, s2, maxseq, f2), code, s1, maxseq, f1) == b21);
    let acc1 = s1 < sl.len() && sl[s1 as int] is None;
    let acc2 = s2 < sl.len() && sl[s2 as int] is None;
    if acc1 && acc2 {
        assert(a12[code] =~= sl.update(s1 as int, Some(f1)).update(s2 as int, Some(f2)));
        assert(b21[code] =~= sl.update(s2 as int, Some(f2)).update(s1 as int, Some(f1)));
        assert(sl.update(s1 as int, Some(f1)).update(s2 as int, Some(f2)) =~= sl.update(
            s2 as int,
            Some(f2),
        ).update(s1 as int, Some(f1)));
        assert(a12 =~= b21);
    } else if acc1 {
        assert(a12 =~= b21);
    } else if acc2 {
        assert(a12 =~= b21);
    } else {
        assert(a12 =~= b21);
    }
}

} // verus!
