//! The server's protocol router: one incoming query name in, one action out.
//!
//! Each request is classified once and answered exactly once: a name inside
//! the server's own zone draws the fixed authoritative address; a tunnel verb
//! drives the session store and draws a text answer; anything else is handed
//! to the upstream resolver unchanged; a request that is not a standard query
//! is refused with a server failure.  The whole exchange is stated over the
//! store model, so what the responder says and what the store becomes are
//! pinned for every name.

use vstd::prelude::*;
use crate::codec::chunk_at;
use crate::codec::chunk_count;
use crate::codec::concat_chunks;
use crate::codec::decode32;
use crate::codec::encode32;
use crate::codec::encoded_chunks;
use crate::codec::lemma_pipeline_roundtrip;
use crate::naming::ParsedQuery;
use crate::naming::QueryModel;
use crate::naming::download_count_name;
use crate::naming::download_fragment_name;
use crate::naming::lemma_name_heads;
use crate::naming::lemma_parse_download_count_name;
use crate::naming::lemma_parse_download_fragment_name;
use crate::naming::lemma_plan_name_parses;
use crate::naming::no_dot;
use crate::naming::parse_name;
use crate::naming::parse_query_name;
use crate::naming::split_dots;
use crate::naming::upload_name;
use crate::naming::verb_upload;
use crate::store::FillResult;
use crate::store::GetOutcome;
use crate::store::SessionStore;
use crate::store::StoreModel;
use crate::store::filled_prefix;
use crate::store::lemma_uploads_fill;
use crate::store::upload_map;
use crate::store::upload_result;
use crate::store::uploads_applied;
use crate::text::bytes_start_with;
use crate::text::dec_str;
use crate::text::format_usize;
use crate::text::is_numeric;
use crate::text::lower_seq;
use crate::text::starts_with;

verus! {

/// `OK`: the acknowledgement for an accepted upload or close.
pub open spec fn msg_ok() -> Seq<u8> {
    seq![79u8, 75u8]
}

/// See [`msg_ok`].
pub fn msg_ok_bytes() -> (v: Vec<u8>)
    ensures
        v@ == msg_ok(),
{
    let mut v: Vec<u8> = Vec::new();
    v.push(79);
    v.push(75);
    proof {
        assert(v@ =~= msg_ok());
    }
    v
}

/// `EOF`: the answer for a download against an unknown code.
pub open spec fn msg_eof() -> Seq<u8> {
    seq![69u8, 79u8, 70u8]
}

/// See [`msg_eof`].
pub fn msg_eof_bytes() -> (v: Vec<u8>)
    ensures
        v@ == msg_eof(),
{
    let mut v: Vec<u8> = Vec::new();
    v.push(69);
    v.push(79);
    v.push(70);
    proof {
        assert(v@ =~= msg_eof());
    }
    v
}

/// `ERROR: Invalid request format`: the answer for a malformed tunnel name.
pub open spec fn msg_invalid_format() -> Seq<u8> {
    seq![69u8, 82u8, 82u8, 79u8, 82u8, 58u8, 32u8, 73u8, 110u8, 118u8, 97u8, 108u8, 105u8, 100u8, 32u8, 114u8, 101u8, 113u8, 117u8, 101u8, 115u8, 116u8, 32u8, 102u8, 111u8, 114u8, 109u8, 97u8, 116u8]
}

/// See [`msg_invalid_format`].
pub fn msg_invalid_format_bytes() -> (v: Vec<u8>)
    ensures
        v@ == msg_invalid_format(),
{
    let mut v: Vec<u8> = Vec::new();
    v.push(69);
    v.push(82);
    v.push(82);
    v.push(79);
    v.push(82);
    v.push(58);
    v.push(32);
    v.push(73);
    v.push(110);
    v.push(118);
    v.push(97);
    v.push(108);
    v.push(105);
    v.push(100);
    v.push(32);
    v.push(114);
    v.push(101);
    v.push(113);
    v.push(117);
    v.push(101);
    v.push(115);
    v.push(116);
    v.push(32);
    v.push(102);
    v.push(111);
    v.push(114);
    v.push(109);
    v.push(97);
    v.push(116);
    proof {
        assert(v@ =~= msg_invalid_format());
    }
    v
}

/// `ERROR: Invalid sequence`: the answer for an upload beyond the session's slot count.
pub open spec fn msg_invalid_sequence() -> Seq<u8> {
    seq![69u8, 82u8, 82u8, 79u8, 82u8, 58u8, 32u8, 73u8, 110u8, 118u8, 97u8, 108u8, 105u8, 100u8, 32u8, 115u8, 101u8, 113u8, 117u8, 101u8, 110u8, 99u8, 101u8]
}

/// See [`msg_invalid_sequence`].
pub fn msg_invalid_sequence_bytes() -> (v: Vec<u8>)
    ensures
        v@ == msg_invalid_sequence(),
{
    let mut v: Vec<u8> = Vec::new();
    v.push(69);
    v.push(82);
    v.push(82);
    v.push(79);
    v.push(82);
    v.push(58);
    v.push(32);
    v.push(73);
    v.push(110);
    v.push(118);
    v.push(97);
    v.push(108);
    v.push(105);
    v.push(100);
    v.push(32);
    v.push(115);
    v.push(101);
    v.push(113);
    v.push(117);
    v.push(101);
    v.push(110);
    v.push(99);
    v.push(101);
    proof {
        assert(v@ =~= msg_invalid_sequence());
    }
    v
}

/// `ERROR: Duplicate sequence`: the answer for an upload to an already-filled slot.
pub open spec fn msg_duplicate_sequence() -> Seq<u8> {
    seq![69u8, 82u8, 82u8, 79u8, 82u8, 58u8, 32u8, 68u8, 117u8, 112u8, 108u8, 105u8, 99u8, 97u8, 116u8, 101u8, 32u8, 115u8, 101u8, 113u8, 117u8, 101u8, 110u8, 99u8, 101u8]
}

/// See [`msg_duplicate_sequence`].
pub fn msg_duplicate_sequence_bytes() -> (v: Vec<u8>)
    ensures
        v@ == msg_duplicate_sequence(),
{
    let mut v: Vec<u8> = Vec::new();
    v.push(69);
    v.push(82);
    v.push(82);
    v.push(79);
    v.push(82);
    v.push(58);
    v.push(32);
    v.push(68);
    v.push(117);
    v.push(112);
    v.push(108);
    v.push(105);
    v.push(99);
    v.push(97);
    v.push(116);
    v.push(101);
    v.push(32);
    v.push(115);
    v.push(101);
    v.push(113);
    v.push(117);
    v.push(101);
    v.push(110);
    v.push(99);
    v.push(101);
    proof {
        assert(v@ =~= msg_duplicate_sequence());
    }
    v
}

/// `ERROR: Invalid sequence number`: the answer for a fragment request beyond the slot count.
pub open spec fn msg_invalid_sequence_number() -> Seq<u8> {
    seq![69u8, 82u8, 82u8, 79u8, 82u8, 58u8, 32u8, 73u8, 110u8, 118u8, 97u8, 108u8, 105u8, 100u8, 32u8, 115u8, 101u8, 113u8, 117u8, 101u8, 110u8, 99u8, 101u8, 32u8, 110u8, 117u8, 109u8, 98u8, 101u8, 114u8]
}

/// See [`msg_invalid_sequence_number`].
pub fn msg_invalid_sequence_number_bytes() -> (v: Vec<u8>)
    ensures
        v@ == msg_invalid_sequence_number(),
{
    let mut v: Vec<u8> = Vec::new();
    v.push(69);
    v.push(82);
    v.push(82);
    v.push(79);
    v.push(82);
    v.push(58);
    v.push(32);
    v.push(73);
    v.push(110);
    v.push(118);
    v.push(97);
    v.push(108);
    v.push(105);
    v.push(100);
    v.push(32);
    v.push(115);
    v.push(101);
    v.push(113);
    v.push(117);
    v.push(101);
    v.push(110);
    v.push(99);
    v.push(101);
    v.push(32);
    v.push(110);
    v.push(117);
    v.push(109);
    v.push(98);
    v.push(101);
    v.push(114);
    proof {
        assert(v@ =~= msg_invalid_sequence_number());
    }
    v
}

/// `ERROR: Empty fragment`: the answer for a fragment request against a still-empty slot.
pub open spec fn msg_empty_fragment() -> Seq<u8> {
    seq![69u8, 82u8, 82u8, 79u8, 82u8, 58u8, 32u8, 69u8, 109u8, 112u8, 116u8, 121u8, 32u8, 102u8, 114u8, 97u8, 103u8, 109u8, 101u8, 110u8, 116u8]
}

/// See [`msg_empty_fragment`].
pub fn msg_empty_fragment_bytes() -> (v: Vec<u8>)
    ensures
        v@ == msg_empty_fragment(),
{
    let mut v: Vec<u8> = Vec::new();
    v.push(69);
    v.push(82);
    v.push(82);
    v.push(79);
    v.push(82);
    v.push(58);
    v.push(32);
    v.push(69);
    v.push(109);
    v.push(112);
    v.push(116);
    v.push(121);
    v.push(32);
    v.push(102);
    v.push(114);
    v.push(97);
    v.push(103);
    v.push(109);
    v.push(101);
    v.push(110);
    v.push(116);
    proof {
        assert(v@ =~= msg_empty_fragment());
    }
    v
}

/// `ERROR: UID not found`: the answer for a close against an unknown code.
pub open spec fn msg_uid_not_found() -> Seq<u8> {
    seq![69u8, 82u8, 82u8, 79u8, 82u8, 58u8, 32u8, 85u8, 73u8, 68u8, 32u8, 110u8, 111u8, 116u8, 32u8, 102u8, 111u8, 117u8, 110u8, 100u8]
}

/// See [`msg_uid_not_found`].
pub fn msg_uid_not_found_bytes() -> (v: Vec<u8>)
    ensures
        v@ == msg_uid_not_found(),
{
    let mut v: Vec<u8> = Vec::new();
    v.push(69);
    v.push(82);
    v.push(82);
    v.push(79);
    v.push(82);
    v.push(58);
    v.push(32);
    v.push(85);
    v.push(73);
    v.push(68);
    v.push(32);
    v.push(110);
    v.push(111);
    v.push(116);
    v.push(32);
    v.push(102);
    v.push(111);
    v.push(117);
    v.push(110);
    v.push(100);
    proof {
        assert(v@ =~= msg_uid_not_found());
    }
    v
}

/// The fixed address answered for names inside the server's own zone.
pub open spec fn zone_address() -> Seq<u8> {
    seq![82u8, 165u8, 140u8, 49u8]
}

/// See [`zone_address`].
pub fn zone_address_bytes() -> (v: Vec<u8>)
    ensures
        v@ == zone_address(),
{
    let mut v: Vec<u8> = Vec::new();
    v.push(82);
    v.push(165);
    v.push(140);
    v.push(49);
    proof {
        assert(v@ =~= zone_address());
    }
    v
}

/// What the responder does with one request.
#[derive(Debug, PartialEq, Eq)]
pub enum RouteAction {
    /// Answer authoritatively with a text record holding `message`.
    AnswerText { message: Vec<u8> },
    /// Answer authoritatively with an address record for the server's zone.
    AnswerAddress { octets: Vec<u8> },
    /// Relay the query to the upstream resolver and answer from its records,
    /// non-authoritatively.
    Forward,
    /// Refuse with a server-failure response.
    Refuse,
}

/// The mathematical shape of a route action.
pub enum ReplyModel {
    AnswerText { message: Seq<u8> },
    AnswerAddress { octets: Seq<u8> },
    Forward,
    Refuse,
}

impl View for RouteAction {
    type V = ReplyModel;

    open spec fn view(&self) -> ReplyModel {
        match self {
            RouteAction::AnswerText { message } => ReplyModel::AnswerText { message: message@ },
            RouteAction::AnswerAddress { octets } => ReplyModel::AnswerAddress {
                octets: octets@,
            },
            RouteAction::Forward => ReplyModel::Forward,
            RouteAction::Refuse => ReplyModel::Refuse,
        }
    }
}

/// The text answered for an upload, by what the store reported.
pub open spec fn upload_reply(r: FillResult) -> Seq<u8> {
    match r {
        FillResult::Accepted => msg_ok(),
        FillResult::SeqOutOfBounds => msg_invalid_sequence(),
        FillResult::DuplicateSlot => msg_duplicate_sequence(),
        FillResult::UnknownCode => msg_invalid_sequence(),
    }
}

/// The store after one routed request.  Only an upload or a close mutates
/// it; every other request, recognized or not, leaves every session as it
/// was.
pub open spec fn route_map(
    m: StoreModel,
    zone: Seq<u8>,
    name: Seq<u8>,
    std_query: bool,
) -> StoreModel {
    if !std_query {
        m
    } else if starts_with(name, zone) {
        m
    } else {
        match parse_name(name) {
            QueryModel::Upload { fragment, seq, maxseq, code } => upload_map(
                m,
                code,
                seq,
                maxseq,
                fragment,
            ),
            QueryModel::Close { code } => m.remove(code),
            _ => m,
        }
    }
}

/// The action answered for one routed request.
pub open spec fn route_reply(
    m: StoreModel,
    zone: Seq<u8>,
    name: Seq<u8>,
    std_query: bool,
) -> ReplyModel {
    if !std_query {
        ReplyModel::Refuse
    } else if starts_with(name, zone) {
        ReplyModel::AnswerAddress { octets: zone_address() }
    } else {
        match parse_name(name) {
            QueryModel::Upload { fragment, seq, maxseq, code } => ReplyModel::AnswerText {
                message: upload_reply(upload_result(m, code, seq, maxseq)),
            },
            QueryModel::InvalidUpload => ReplyModel::AnswerText {
                message: msg_invalid_format(),
            },
            QueryModel::DownloadCount { code } => ReplyModel::AnswerText {
                message: if m.contains_key(code) {
                    dec_str(m[code].len())
                } else {
                    msg_eof()
                },
            },
            QueryModel::DownloadFragment { code, seq } => ReplyModel::AnswerText {
                message: if !m.contains_key(code) {
                    msg_eof()
                } else if seq >= m[code].len() {
                    msg_invalid_sequence_number()
                } else if m[code][seq as int] is Some {
                    m[code][seq as int].unwrap()
                } else {
                    msg_empty_fragment()
                },
            },
            QueryModel::InvalidDownload => ReplyModel::AnswerText {
                message: msg_invalid_format(),
            },
            QueryModel::Close { code } => ReplyModel::AnswerText {
                message: if m.contains_key(code) {
                    msg_ok()
                } else {
                    msg_uid_not_found()
                },
            },
            QueryModel::Unrecognized => ReplyModel::Forward,
        }
    }
}

/// Route one request: classify the name, drive the store, and say how to
/// answer.  `opcode_is_query` and `is_query_message` say whether the request
/// is a standard query; anything else is refused without touching its
/// payload.
pub fn route_query(
    store: &mut SessionStore,
    zone: &Vec<u8>,
    name: &Vec<u8>,
    opcode_is_query: bool,
    is_query_message: bool,
) -> (act: RouteAction)
    ensures
        act@ == route_reply(old(store)@, zone@, name@, opcode_is_query && is_query_message),
        final(store)@ == route_map(old(store)@, zone@, name@, opcode_is_query
            && is_query_message),
{
    if !opcode_is_query || !is_query_message {
        return RouteAction::Refuse;
    }
    if bytes_start_with(name, zone) {
        return RouteAction::AnswerAddress { octets: zone_address_bytes() };
    }
    let q = parse_query_name(name);
    match q {
        ParsedQuery::Upload { fragment, seq, maxseq, code } => {
            let r = store.upload(&code, seq, maxseq, fragment);
            let message = match r {
                FillResult::Accepted => msg_ok_bytes(),
                FillResult::SeqOutOfBounds => msg_invalid_sequence_bytes(),
                FillResult::DuplicateSlot => msg_duplicate_sequence_bytes(),
                FillResult::UnknownCode => msg_invalid_sequence_bytes(),
            };
            RouteAction::AnswerText { message }
        },
        ParsedQuery::InvalidUpload => RouteAction::AnswerText {
            message: msg_invalid_format_bytes(),
        },
        ParsedQuery::DownloadCount { code } => {
            let message = match store.count(&code) {
                Some(n) => format_usize(n),
                None => msg_eof_bytes(),
            };
            RouteAction::AnswerText { message }
        },
        ParsedQuery::DownloadFragment { code, seq } => {
            let message = match store.get(&code, seq) {
                GetOutcome::Present { fragment } => fragment,
                GetOutcome::Empty => msg_empty_fragment_bytes(),
                GetOutcome::SeqOutOfBounds => msg_invalid_sequence_number_bytes(),
                GetOutcome::UnknownCode => msg_eof_bytes(),
            };
            RouteAction::AnswerText { message }
        },
        ParsedQuery::InvalidDownload => RouteAction::AnswerText {
            message: msg_invalid_format_bytes(),
        },
        ParsedQuery::Close { code } => {
            let removed = store.close(&code);
            let message = if removed {
                msg_ok_bytes()
            } else {
                msg_uid_not_found_bytes()
            };
            RouteAction::AnswerText { message }
        },
        ParsedQuery::Unrecognized => RouteAction::Forward,
    }
}

/// Law: an upload-shaped name with fewer than five dot-separated parts draws
/// the invalid-format answer and leaves the store — every session — exactly
/// as it was.
pub proof fn lemma_short_upload_rejected(
    m: StoreModel,
    zone: Seq<u8>,
    name: Seq<u8>,
)
    requires
        !starts_with(name, zone),
        split_dots(name).len() >= 2,
        split_dots(name).len() < 5,
        lower_seq(split_dots(name)[0]) == verb_upload(),
    ensures
        route_map(m, zone, name, true) == m,
        route_reply(m, zone, name, true) == (ReplyModel::AnswerText {
            message: msg_invalid_format(),
        }),
{
}

/// Law: a request touches at most the session its own name names.  Whatever
/// the request — malformed, out of bounds, duplicate, a close, or plain
/// traffic to forward — every other session's existence and contents are
/// exactly as they were.
pub proof fn lemma_other_sessions_untouched(
    m: StoreModel,
    zone: Seq<u8>,
    name: Seq<u8>,
    std_query: bool,
    other: Seq<u8>,
)
    requires
        match parse_name(name) {
            QueryModel::Upload { code, .. } => code != other,
            QueryModel::Close { code } => code != other,
            _ => true,
        },
    ensures
        route_map(m, zone, name, std_query).contains_key(other) == m.contains_key(other),
        m.contains_key(other) ==> route_map(m, zone, name, std_query)[other] == m[other],
{
}

/// The store after the first `k` names of a payload's upload plan have been
/// routed as standard queries.
pub open spec fn routed_uploads(
    m: StoreModel,
    zone: Seq<u8>,
    payload: Seq<u8>,
    limit: nat,
    code: Seq<u8>,
    domain: Seq<u8>,
    k: int,
) -> StoreModel
    decreases k,
{
    if k <= 0 {
        m
    } else {
        route_map(
            routed_uploads(m, zone, payload, limit, code, domain, k - 1),
            zone,
            upload_name(
                encode32(chunk_at(payload, limit, k - 1)),
                (k - 1) as nat,
                chunk_count(payload.len(), limit),
                code,
                domain,
            ),
            true,
        )
    }
}

proof fn lemma_routed_uploads_are_store_uploads(
    m: StoreModel,
    zone: Seq<u8>,
    payload: Seq<u8>,
    limit: nat,
    code: Seq<u8>,
    domain: Seq<u8>,
    k: int,
)
    requires
        1 <= limit,
        no_dot(code),
        0 <= k <= chunk_count(payload.len(), limit),
        chunk_count(payload.len(), limit) <= usize::MAX,
        zone.len() >= 1,
        zone[0] != 85,
    ensures
        routed_uploads(m, zone, payload, limit, code, domain, k) == uploads_applied(
            m,
            code,
            encoded_chunks(payload, limit),
            k,
        ),
    decreases k,
{
    if k >= 1 {
        lemma_routed_uploads_are_store_uploads(m, zone, payload, limit, code, domain, k - 1);
        let nn = chunk_count(payload.len(), limit);
        let frag = encode32(chunk_at(payload, limit, k - 1));
        let name = upload_name(frag, (k - 1) as nat, nn, code, domain);
        lemma_name_heads(frag, (k - 1) as nat, nn, code, domain);
        assert(!starts_with(name, zone));
        lemma_plan_name_parses(payload, limit, code, domain, k - 1);
        assert(encoded_chunks(payload, limit)[k - 1] == frag);
        assert(encoded_chunks(payload, limit).len() == nn);
    }
}

/// The whole-channel law.  For any payload, any chunk width, any dotless
/// session code the store does not yet know, and any zone that captures no
/// tunnel name: routing every planned upload name acknowledges every
/// fragment with `OK`; the count query then answers the exact fragment
/// count (`EOF` when the payload was empty and nothing was ever sent); each
/// fragment query answers exactly the encoded fragment and leaves the store
/// untouched; and the answered fragments decode and concatenate back to the
/// payload, byte for byte.
pub proof fn lemma_channel_roundtrip(
    m: StoreModel,
    zone: Seq<u8>,
    payload: Seq<u8>,
    limit: nat,
    code: Seq<u8>,
    domain: Seq<u8>,
)
    requires
        1 <= limit,
        no_dot(code),
        !m.contains_key(code),
        chunk_count(payload.len(), limit) <= usize::MAX,
        zone.len() >= 1,
        zone[0] != 85,
        zone[0] != 68,
        !is_numeric(crate::naming::split_dots(domain)[0]),
    ensures
        forall|k: int|
            0 <= k < chunk_count(payload.len(), limit) ==> route_reply(
                routed_uploads(m, zone, payload, limit, code, domain, k),
                zone,
                upload_name(
                    encode32(chunk_at(payload, limit, k)),
                    k as nat,
                    chunk_count(payload.len(), limit),
                    code,
                    domain,
                ),
                true,
            ) == (ReplyModel::AnswerText { message: msg_ok() }),
        route_reply(
            routed_uploads(
                m,
                zone,
                payload,
                limit,
                code,
                domain,
                chunk_count(payload.len(), limit) as int,
            ),
            zone,
            download_count_name(code, domain),
            true,
        ) == (ReplyModel::AnswerText {
            message: if chunk_count(payload.len(), limit) >= 1 {
                dec_str(chunk_count(payload.len(), limit))
            } else {
                msg_eof()
            },
        }),
        forall|i: int|
            0 <= i < chunk_count(payload.len(), limit) ==> route_reply(
                routed_uploads(
                    m,
                    zone,
                    payload,
                    limit,
                    code,
                    domain,
                    chunk_count(payload.len(), limit) as int,
                ),
                zone,
                download_fragment_name(code, i as nat, domain),
                true,
            ) == (ReplyModel::AnswerText { message: encode32(chunk_at(payload, limit, i)) }),
        forall|i: int|
            0 <= i < chunk_count(payload.len(), limit) ==> #[trigger] route_map(
                routed_uploads(
                    m,
                    zone,
                    payload,
                    limit,
                    code,
                    domain,
                    chunk_count(payload.len(), limit) as int,
                ),
                zone,
                download_fragment_name(code, i as nat, domain),
                true,
            ) == routed_uploads(
                m,
                zone,
                payload,
                limit,
                code,
                domain,
                chunk_count(payload.len(), limit) as int,
            ),
        concat_chunks(
            Seq::new(
                chunk_count(payload.len(), limit),
                |i: int| decode32(encode32(chunk_at(payload, limit, i))).unwrap(),
            ),
        ) == payload,
{
    let nn = chunk_count(payload.len(), limit);
    let frags = encoded_chunks(payload, limit);
    let m_up = routed_uploads(m, zone, payload, limit, code, domain, nn as int);
    lemma_routed_uploads_are_store_uploads(m, zone, payload, limit, code, domain, nn as int);
    lemma_uploads_fill(m, code, frags, nn as int);

    assert forall|k: int| 0 <= k < nn implies route_reply(
        routed_uploads(m, zone, payload, limit, code, domain, k),
        zone,
        upload_name(encode32(chunk_at(payload, limit, k)), k as nat, nn, code, domain),
        true,
    ) == (ReplyModel::AnswerText { message: msg_ok() }) by {
        lemma_routed_uploads_are_store_uploads(m, zone, payload, limit, code, domain, k);
        lemma_uploads_fill(m, code, frags, k + 1);
        let frag = encode32(chunk_at(payload, limit, k));
        lemma_name_heads(frag, k as nat, nn, code, domain);
        let name = upload_name(frag, k as nat, nn, code, domain);
        assert(!starts_with(name, zone));
        lemma_plan_name_parses(payload, limit, code, domain, k);
        assert(frags[k] == frag);
        assert(upload_result(uploads_applied(m, code, frags, k), code, k as nat, frags.len())
            == FillResult::Accepted);
    }

    lemma_name_heads(Seq::empty(), 0, 0, code, domain);
    assert(!starts_with(download_count_name(code, domain), zone));
    lemma_parse_download_count_name(code, domain);
    if nn >= 1 {
        assert(m_up == m.insert(code, filled_prefix(frags, nn as int)));
        assert(m_up[code].len() == frags.len());
        assert(frags.len() == nn);
    } else {
        assert(m_up == m);
    }

    assert forall|i: int| 0 <= i < nn implies route_reply(
        m_up,
        zone,
        download_fragment_name(code, i as nat, domain),
        true,
    ) == (ReplyModel::AnswerText { message: encode32(chunk_at(payload, limit, i)) }) by {
        lemma_name_heads(Seq::empty(), i as nat, 0, code, domain);
        assert(!starts_with(download_fragment_name(code, i as nat, domain), zone));
        lemma_parse_download_fragment_name(code, i as nat, domain);
        assert(m_up[code] == filled_prefix(frags, nn as int));
        assert(filled_prefix(frags, nn as int)[i] == Some(frags[i]));
        assert(frags[i] == encode32(chunk_at(payload, limit, i)));
    }

    assert forall|i: int| 0 <= i < nn implies #[trigger] route_map(
        m_up,
        zone,
        download_fragment_name(code, i as nat, domain),
        true,
    ) == m_up by {
        lemma_name_heads(Seq::empty(), i as nat, 0, code, domain);
        assert(!starts_with(download_fragment_name(code, i as nat, domain), zone));
        lemma_parse_download_fragment_name(code, i as nat, domain);
    }

    lemma_pipeline_roundtrip(payload, limit);
}

} // verus!
