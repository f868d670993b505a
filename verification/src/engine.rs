//! The client transfer engine: everything the uploader and downloader decide,
//! stated over plain values.
//!
//! The engine plans an upload as the full list of fragment requests, accounts
//! for retries against a fixed per-fragment budget, admits at most a fixed
//! number of in-flight lookups at a time, collects download answers into an
//! index-addressed buffer, and reassembles the payload.  The caller performs
//! the lookups and the waiting and feeds every outcome back in, so the
//! decisions here are verified for every outcome the network can produce.

use vstd::prelude::*;
use crate::codec::chunk_at;
use crate::codec::chunk_count;
use crate::codec::concat_chunks;
use crate::codec::decode32;
use crate::codec::encode32;
use crate::codec::encode_chunk;
use crate::codec::lemma_chunk_within_limit;
use crate::codec::lemma_concat_chunks_push;
use crate::codec::split_into_chunks;
use crate::codec::decode_fragment;
use crate::naming::build_upload_name;
use crate::naming::upload_name;
use crate::router::msg_eof;
use crate::router::msg_eof_bytes;
use crate::store::empty_slots;
use crate::store::slots_view;
use crate::text::bytes_eq;
use crate::text::dec_val;
use crate::text::is_numeric;
use crate::text::parse_usize;
use crate::text::push_all;

verus! {

/// The largest fragment text the download buffer accepts: far beyond any
/// DNS record, and small enough that decoding arithmetic stays in bounds.
pub const MAX_FRAGMENT_TEXT: usize = 0x1000_0000;

/// The record type a tunnel query asks for.  The choice only shapes the
/// traffic: the server reads the query name alone.
#[derive(Debug, Clone, Copy, PartialEq, Eq, Structural)]
pub enum RecordType {
    A,
    Aaaa,
    Cname,
    Txt,
    Any,
}

/// The weighted pick over `{A: 30, AAAA: 30, CNAME: 30, TXT: 10}` for a
/// uniform draw.
pub open spec fn pick_of(roll: u32) -> RecordType {
    let r = roll % 100;
    if r < 30 {
        RecordType::A
    } else if r < 60 {
        RecordType::Aaaa
    } else if r < 90 {
        RecordType::Cname
    } else {
        RecordType::Txt
    }
}

/// Pick the record type for one upload attempt from a random draw.
pub fn pick_record_type(roll: u32) -> (t: RecordType)
    ensures
        t == pick_of(roll),
{
    let r = roll % 100;
    if r < 30 {
        RecordType::A
    } else if r < 60 {
        RecordType::Aaaa
    } else if r < 90 {
        RecordType::Cname
    } else {
        RecordType::Txt
    }
}

/// Relies on `rand::random::<u32>`: one draw from the thread-local
/// generator.  Nothing is assumed of the value.
#[verifier::external_body]
fn draw_random_u32() -> u32 {
    rand::random::<u32>()
}

/// A record type for one upload attempt, weighted as [`pick_of`] says;
/// never the catch-all `Any` that downloads use.
pub fn random_record_type() -> (t: RecordType)
    ensures
        t != RecordType::Any,
{
    let roll = draw_random_u32();
    pick_record_type(roll)
}

/// One planned fragment upload: the slot index, the encoded fragment, and
/// the full query name that carries it.
pub struct UploadRequest {
    pub seq: usize,
    pub fragment: Vec<u8>,
    pub name: Vec<u8>,
}

/// Plan a whole upload: chunk the payload, encode every chunk, and build
/// each fragment's query name, in slot order.
pub fn plan_upload(payload: &Vec<u8>, code: &Vec<u8>, domain: &Vec<u8>, limit: usize) -> (plan:
    Vec<UploadRequest>)
    requires
        1 <= limit,
        payload@.len() + limit <= usize::MAX,
        8 * limit + 4 <= usize::MAX,
    ensures
        plan@.len() == chunk_count(payload@.len(), limit as nat),
        forall|i: int|
            0 <= i < plan@.len() ==> {
                &&& plan@[i].seq == i
                &&& plan@[i].fragment@ == encode32(chunk_at(payload@, limit as nat, i))
                &&& plan@[i].name@ == upload_name(
                    encode32(chunk_at(payload@, limit as nat, i)),
                    i as nat,
                    plan@.len() as nat,
                    code@,
                    domain@,
                )
            },
{
    let chunks = split_into_chunks(payload, limit);
    let total = chunks.len();
    let mut plan: Vec<UploadRequest> = Vec::new();
    let mut i: usize = 0;
    while i < total
        invariant
            total == chunk_count(payload@.len(), limit as nat),
            total == chunks@.len(),
            forall|k: int| 0 <= k < total ==> chunks@[k]@ == chunk_at(payload@, limit as nat, k),
            1 <= limit,
            8 * limit + 4 <= usize::MAX,
            payload@.len() + limit <= usize::MAX,
            i <= total,
            plan@.len() == i,
            forall|k: int|
                0 <= k < i ==> {
                    &&& plan@[k].seq == k
                    &&& plan@[k].fragment@ == encode32(chunk_at(payload@, limit as nat, k))
                    &&& plan@[k].name@ == upload_name(
                        encode32(chunk_at(payload@, limit as nat, k)),
                        k as nat,
                        total as nat,
                        code@,
                        domain@,
                    )
                },
        decreases total - i,
    {
        proof {
            lemma_chunk_within_limit(payload@, limit as nat, i as int);
        }
        let fragment = encode_chunk(&chunks[i]);
        let name = build_upload_name(&fragment, i, total, code, domain);
        plan.push(UploadRequest { seq: i, fragment, name });
        i = i + 1;
    }
    plan
}

/// What the fragment-count answer means.  `EOF` says no session exists —
/// nothing was ever uploaded — so there are zero fragments to fetch; a
/// decimal numeral is the count; anything else is a protocol violation.
pub open spec fn count_of_response(t: Seq<u8>) -> Option<nat> {
    if t == msg_eof() {
        Some(0)
    } else if is_numeric(t) && dec_val(t) <= usize::MAX {
        Some(dec_val(t))
    } else {
        None
    }
}

/// Read the fragment-count answer; `None` is fatal for the download.
pub fn parse_count_response(text: &Vec<u8>) -> (r: Option<usize>)
    ensures
        match r {
            Some(n) => count_of_response(text@) == Some(n as nat),
            None => count_of_response(text@) is None,
        },
{
    let eof = msg_eof_bytes();
    if bytes_eq(text, &eof) {
        Some(0)
    } else {
        parse_usize(text)
    }
}

/// The per-fragment retry account: a fixed attempt budget, exhausted means
/// fatal for the whole operation.
pub struct TransferTask {
    pub seq: usize,
    pub attempts: usize,
    pub max_attempts: usize,
    pub done: bool,
}

impl TransferTask {
    /// A fresh task for one fragment.
    pub fn new(seq: usize, max_attempts: usize) -> (t: TransferTask)
        requires
            max_attempts >= 1,
        ensures
            t.seq == seq,
            t.attempts == 0,
            t.max_attempts == max_attempts,
            !t.done,
    {
        TransferTask { seq, attempts: 0, max_attempts, done: false }
    }

    /// The attempt succeeded: the fragment retires.
    pub fn succeed(&mut self)
        requires
            !old(self).done,
        ensures
            final(self).done,
            final(self).seq == old(self).seq,
            final(self).attempts == old(self).attempts,
            final(self).max_attempts == old(self).max_attempts,
    {
        self.done = true;
    }

    /// The attempt failed: spend one unit of the budget.  `fatal` says the
    /// budget is gone, which aborts the whole operation — there is no
    /// partial-success result.
    pub fn fail(&mut self) -> (fatal: bool)
        requires
            !old(self).done,
            old(self).attempts < old(self).max_attempts,
        ensures
            final(self).attempts == old(self).attempts + 1,
            fatal == (final(self).attempts == final(self).max_attempts),
            final(self).seq == old(self).seq,
            final(self).max_attempts == old(self).max_attempts,
            final(self).done == old(self).done,
    {
        self.attempts = self.attempts + 1;
        self.attempts >= self.max_attempts
    }
}

/// The bounded worker pool: at most `width` fragment lookups are in flight
/// at any instant, and every fragment is started exactly once, in order.
pub struct WorkerPool {
    total: usize,
    width: usize,
    started: usize,
    in_flight: usize,
    completed: usize,
}

impl WorkerPool {
    #[verifier::type_invariant]
    spec fn wf(self) -> bool {
        &&& self.width >= 1
        &&& self.started <= self.total
        &&& self.completed + self.in_flight == self.started
        &&& self.in_flight <= self.width
    }

    /// How many fragments the pool is to move.
    pub closed spec fn spec_total(self) -> nat {
        self.total as nat
    }

    /// The admission limit.
    pub closed spec fn spec_width(self) -> nat {
        self.width as nat
    }

    /// How many fragments have been handed out so far.
    pub closed spec fn spec_started(self) -> nat {
        self.started as nat
    }

    /// How many lookups are outstanding right now.
    pub closed spec fn spec_in_flight(self) -> nat {
        self.in_flight as nat
    }

    /// How many fragments have retired.
    pub closed spec fn spec_completed(self) -> nat {
        self.completed as nat
    }

    /// How many lookups are outstanding; the admission bound holds of every
    /// pool there is.
    pub fn in_flight(&self) -> (r: usize)
        ensures
            r == self.spec_in_flight(),
            self.spec_in_flight() <= self.spec_width(),
            self.spec_completed() + self.spec_in_flight() == self.spec_started(),
            self.spec_started() <= self.spec_total(),
    {
        proof {
            use_type_invariant(&*self);
        }
        self.in_flight
    }

    /// A fresh pool over `total` fragments with admission limit `width`.
    pub fn new(total: usize, width: usize) -> (p: WorkerPool)
        requires
            width >= 1,
        ensures
            p.spec_total() == total,
            p.spec_width() == width,
            p.spec_started() == 0,
            p.spec_in_flight() == 0,
            p.spec_completed() == 0,
    {
        WorkerPool { total, width, started: 0, in_flight: 0, completed: 0 }
    }

    /// Hand out the next fragment index, provided a worker slot is free and
    /// fragments remain; `None` otherwise.  This is the admission control:
    /// a start is granted only below the width.
    pub fn try_start(&mut self) -> (r: Option<usize>)
        ensures
            match r {
                Some(seq) => {
                    &&& old(self).spec_in_flight() < old(self).spec_width()
                    &&& old(self).spec_started() < old(self).spec_total()
                    &&& seq as nat == old(self).spec_started()
                    &&& final(self).spec_started() == old(self).spec_started() + 1
                    &&& final(self).spec_in_flight() == old(self).spec_in_flight() + 1
                    &&& final(self).spec_completed() == old(self).spec_completed()
                },
                None => {
                    &&& old(self).spec_in_flight() == old(self).spec_width() || old(
                        self,
                    ).spec_started() == old(self).spec_total()
                    &&& *final(self) == *old(self)
                },
            },
            final(self).spec_total() == old(self).spec_total(),
            final(self).spec_width() == old(self).spec_width(),
            final(self).spec_in_flight() <= final(self).spec_width(),
    {
        proof {
            use_type_invariant(&*self);
        }
        if self.in_flight < self.width && self.started < self.total {
            let seq = self.started;
            *self = WorkerPool {
                total: self.total,
                width: self.width,
                started: seq + 1,
                in_flight: self.in_flight + 1,
                completed: self.completed,
            };
            Some(seq)
        } else {
            None
        }
    }

    /// One outstanding lookup came back and its fragment retired.
    pub fn finish(&mut self)
        requires
            old(self).spec_in_flight() >= 1,
        ensures
            final(self).spec_completed() == old(self).spec_completed() + 1,
            final(self).spec_in_flight() == old(self).spec_in_flight() - 1,
            final(self).spec_started() == old(self).spec_started(),
            final(self).spec_total() == old(self).spec_total(),
            final(self).spec_width() == old(self).spec_width(),
            final(self).spec_in_flight() <= final(self).spec_width(),
    {
        proof {
            use_type_invariant(&*self);
        }
        *self = WorkerPool {
            total: self.total,
            width: self.width,
            started: self.started,
            in_flight: self.in_flight - 1,
            completed: self.completed + 1,
        };
    }

    /// Whether every fragment has retired.
    pub fn all_done(&self) -> (r: bool)
        ensures
            r == (self.spec_completed() == self.spec_total()),
    {
        self.completed == self.total
    }
}

/// Which fragment broke a reassembly, and how.
#[derive(Debug, PartialEq, Eq)]
pub enum DownloadError {
    /// The slot was never filled.
    MissingFragment { seq: usize },
    /// The slot's text does not decode.
    InvalidFragment { seq: usize },
}

/// The payload a complete, decodable buffer reassembles to: every slot
/// decoded, concatenated in index order.
pub open spec fn decoded_payload(s: Seq<Option<Seq<u8>>>) -> Seq<u8> {
    concat_chunks(Seq::new(s.len(), |i: int| decode32(s[i].unwrap()).unwrap()))
}

/// The index-addressed download buffer: one slot per expected fragment, so
/// workers may finish in any order and reassembly is still order-correct.
pub struct DownloadBuffer {
    slots: Vec<Option<Vec<u8>>>,
}

impl View for DownloadBuffer {
    type V = Seq<Option<Seq<u8>>>;

    closed spec fn view(&self) -> Seq<Option<Seq<u8>>> {
        slots_view(self.slots@)
    }
}

impl DownloadBuffer {
    #[verifier::type_invariant]
    spec fn wf(self) -> bool {
        forall|i: int|
            0 <= i < self.slots@.len() ==> (#[trigger] self.slots@[i] matches Some(f) ==> f@.len()
                <= MAX_FRAGMENT_TEXT)
    }

    /// An empty buffer for `total` fragments.
    pub fn new(total: usize) -> (b: DownloadBuffer)
        ensures
            b@ == empty_slots(total as nat),
    {
        let mut slots: Vec<Option<Vec<u8>>> = Vec::new();
        let mut k: usize = 0;
        while k < total
            invariant
                k <= total,
                slots@.len() == k,
                forall|t: int| 0 <= t < k ==> slots@[t] is None,
            decreases total - k,
        {
            slots.push(None);
            k = k + 1;
        }
        let b = DownloadBuffer { slots };
        proof {
            assert(b@ =~= empty_slots(total as nat));
        }
        b
    }

    /// How many fragments the buffer expects.
    pub fn len(&self) -> (n: usize)
        ensures
            n == self@.len(),
    {
        self.slots.len()
    }

    /// Store one answered fragment at its slot.
    pub fn place(&mut self, seq: usize, text: Vec<u8>)
        requires
            seq < old(self)@.len(),
            text@.len() <= MAX_FRAGMENT_TEXT,
        ensures
            final(self)@ == old(self)@.update(seq as int, Some(text@)),
    {
        proof {
            use_type_invariant(&*self);
        }
        let ghost old_slots = self.slots@;
        let mut slots: Vec<Option<Vec<u8>>> = Vec::new();
        core::mem::swap(&mut slots, &mut self.slots);
        let _ = slots.remove(seq);
        slots.insert(seq, Some(text));
        proof {
            assert(slots@ =~= old_slots.update(seq as int, Some(text)));
            assert(slots_view(slots@) =~= slots_view(old_slots).update(seq as int, Some(text@)));
        }
        self.slots = slots;
    }

    /// Whether every slot holds an answer.
    pub fn is_complete(&self) -> (r: bool)
        ensures
            r == (forall|i: int| 0 <= i < self@.len() ==> self@[i] is Some),
    {
        let mut i: usize = 0;
        while i < self.slots.len()
            invariant
                i <= self@.len(),
                self@.len() == self.slots@.len(),
                forall|k: int| 0 <= k < i ==> self@[k] is Some,
            decreases self@.len() - i,
        {
            if self.slots[i].is_none() {
                proof {
                    assert(self@[i as int] is None);
                }
                return false;
            }
            i = i + 1;
        }
        true
    }

    /// Reassemble the payload: decode every fragment and concatenate in
    /// index order.  The first unfilled or undecodable slot is the error.
    pub fn assemble(&self) -> (r: Result<Vec<u8>, DownloadError>)
        ensures
            match r {
                Ok(v) => {
                    &&& forall|i: int|
                        0 <= i < self@.len() ==> self@[i] is Some && decode32(
                            self@[i].unwrap(),
                        ) is Some
                    &&& v@ == decoded_payload(self@)
                },
                Err(DownloadError::MissingFragment { seq }) => seq < self@.len()
                    && self@[seq as int] is None,
                Err(DownloadError::InvalidFragment { seq }) => seq < self@.len()
                    && self@[seq as int] is Some
                    && decode32(self@[seq as int].unwrap()) is None,
            },
    {
        proof {
            use_type_invariant(&*self);
        }
        let total = self.slots.len();
        let mut out: Vec<u8> = Vec::new();
        let ghost decoded = Seq::new(self@.len(), |i: int| decode32(self@[i].unwrap()).unwrap());
        let mut i: usize = 0;
        while i < total
            invariant
                total == self@.len(),
                total == self.slots@.len(),
                self.wf(),
                i <= total,
                decoded == Seq::new(self@.len(), |k: int| decode32(self@[k].unwrap()).unwrap()),
                forall|k: int|
                    0 <= k < i ==> self@[k] is Some && decode32(self@[k].unwrap()) is Some,
                out@ == concat_chunks(decoded.take(i as int)),
            decreases total - i,
        {
            match &self.slots[i] {
                None => {
                    proof {
                        assert(self@[i as int] is None);
                    }
                    return Err(DownloadError::MissingFragment { seq: i });
                },
                Some(f) => {
                    proof {
                        assert(self@[i as int] == Some(f@));
                    }
                    match decode_fragment(f) {
                        None => {
                            return Err(DownloadError::InvalidFragment { seq: i });
                        },
                        Some(bytes) => {
                            proof {
                                assert(decoded.take(i + 1).drop_last() =~= decoded.take(
                                    i as int,
                                ));
                                assert(decoded.take(i + 1) =~= decoded.take(i as int).push(
                                    decoded[i as int],
                                ));
                                lemma_concat_chunks_push(decoded.take(i as int), decoded[i as int]);
                            }
                            push_all(&mut out, &bytes);
                        },
                    }
                },
            }
            i = i + 1;
        }
        proof {
            assert(decoded.take(total as int) =~= decoded);
        }
        Ok(out)
    }
}

} // verus!
