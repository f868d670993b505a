//! The query naming scheme: the dot-separated names that carry the tunnel
//! protocol.
//!
//! Four shapes are in use, mirrored by the builders below:
//!
//! * `UPLOAD.<fragment>.<seq>.<maxseq>.<code>.<domain>`
//! * `DOWNLOAD.<code>.<domain>` — fragment-count query
//! * `DOWNLOAD.<code>.<seq>.<domain>` — fragment query
//! * `CLOSE.<code>.<domain>`
//!
//! Anything else is unrecognized and is forwarded verbatim.  Verbs are
//! matched case-insensitively, since DNS names are case-folded in transit.
//! Parsing never fails hard: a malformed name classifies as a verb-specific
//! invalid shape or as unrecognized, because adversarial queries must never
//! crash the responder.

use vstd::prelude::*;
use crate::text::all_digits;
use crate::text::dec_str;
use crate::text::dec_val;
use crate::text::is_numeric;
use crate::text::lemma_dec_str_val;
use crate::text::lower_bytes;
use crate::text::lower_seq;
use crate::text::bytes_eq;
use crate::text::format_usize;
use crate::text::parse_usize;
use crate::text::push_all;

verus! {

/// The parts of `s` between dots: always one more part than there are dots,
/// empty parts included.
pub open spec fn split_dots(s: Seq<u8>) -> Seq<Seq<u8>>
    decreases s.len(),
{
    if s.len() == 0 {
        seq![Seq::<u8>::empty()]
    } else if s[0] == 46 {
        seq![Seq::<u8>::empty()] + split_dots(s.skip(1))
    } else {
        let rest = split_dots(s.skip(1));
        seq![seq![s[0]] + rest[0]] + rest.skip(1)
    }
}

pub proof fn lemma_split_dots_nonempty(s: Seq<u8>)
    ensures
        split_dots(s).len() >= 1,
    decreases s.len(),
{
    if s.len() > 0 {
        lemma_split_dots_nonempty(s.skip(1));
    }
}

/// `s` holds no dot.
pub open spec fn no_dot(s: Seq<u8>) -> bool {
    forall|k: int| 0 <= k < s.len() ==> s[k] != 46
}

/// Splitting `part . rest` where `part` is dotless peels off `part` whole.
pub proof fn lemma_split_dots_step(part: Seq<u8>, rest: Seq<u8>)
    requires
        no_dot(part),
    ensures
        split_dots(part + seq![46u8] + rest) == seq![part] + split_dots(rest),
    decreases part.len(),
{
    let s = part + seq![46u8] + rest;
    if part.len() == 0 {
        assert(s[0] == 46);
        assert(s.skip(1) =~= rest);
        assert(part =~= Seq::<u8>::empty());
        assert(split_dots(s) =~= seq![part] + split_dots(rest));
    } else {
        assert(s[0] == part[0]);
        assert(s[0] != 46);
        let part1 = part.skip(1);
        assert(s.skip(1) =~= part1 + seq![46u8] + rest);
        lemma_split_dots_step(part1, rest);
        let r = split_dots(s.skip(1));
        assert(r == seq![part1] + split_dots(rest));
        lemma_split_dots_nonempty(rest);
        assert(r[0] == part1);
        assert(seq![s[0]] + r[0] =~= part);
        assert(r.skip(1) =~= split_dots(rest));
        assert(split_dots(s) =~= seq![part] + split_dots(rest));
    }
}

/// The views of a sequence of byte vectors.
pub open spec fn views_of(ps: Seq<Vec<u8>>) -> Seq<Seq<u8>> {
    ps.map_values(|p: Vec<u8>| p@)
}

/// Split a name at its dots.
pub fn split_name(name: &Vec<u8>) -> (parts: Vec<Vec<u8>>)
    ensures
        views_of(parts@) == split_dots(name@),
        parts@.len() >= 1,
{
    let mut parts: Vec<Vec<u8>> = Vec::new();
    parts.push(Vec::new());
    let n = name.len();
    let mut i: usize = n;
    proof {
        assert(name@.skip(n as int) =~= Seq::<u8>::empty());
        assert(views_of(parts@) =~= split_dots(name@.skip(n as int)));
    }
    while i > 0
        invariant
            n == name@.len(),
            i <= n,
            parts@.len() >= 1,
            views_of(parts@) == split_dots(name@.skip(i as int)),
        decreases i,
    {
        i = i - 1;
        let ghost old_views = views_of(parts@);
        let suffix = Ghost(name@.skip(i as int));
        proof {
            assert(suffix@[0] == name@[i as int]);
            assert(suffix@.skip(1) =~= name@.skip(i as int + 1));
        }
        let c = name[i];
        if c == 46 {
            parts.insert(0, Vec::new());
            proof {
                assert(views_of(parts@) =~= seq![Seq::<u8>::empty()] + old_views);
            }
        } else {
            let mut first = parts.remove(0);
            first.insert(0, c);
            let ghost first_view = first@;
            parts.insert(0, first);
            proof {
                assert(first_view =~= seq![c] + old_views[0]);
                assert(views_of(parts@) =~= seq![seq![c] + old_views[0]] + old_views.skip(1));
            }
        }
    }
    proof {
        assert(name@.skip(0) =~= name@);
    }
    parts
}

/// The lower-case upload verb, `upload`.
pub open spec fn verb_upload() -> Seq<u8> {
    seq![117u8, 112u8, 108u8, 111u8, 97u8, 100u8]
}

/// The lower-case download verb, `download`.
pub open spec fn verb_download() -> Seq<u8> {
    seq![100u8, 111u8, 119u8, 110u8, 108u8, 111u8, 97u8, 100u8]
}

/// The lower-case close verb, `close`.
pub open spec fn verb_close() -> Seq<u8> {
    seq![99u8, 108u8, 111u8, 115u8, 101u8]
}

/// The upload verb as the client writes it, `UPLOAD`.
pub open spec fn upload_label() -> Seq<u8> {
    seq![85u8, 80u8, 76u8, 79u8, 65u8, 68u8]
}

/// The download verb as the client writes it, `DOWNLOAD`.
pub open spec fn download_label() -> Seq<u8> {
    seq![68u8, 79u8, 87u8, 78u8, 76u8, 79u8, 65u8, 68u8]
}

/// The close verb as the client writes it, `CLOSE`.
pub open spec fn close_label() -> Seq<u8> {
    seq![67u8, 76u8, 79u8, 83u8, 69u8]
}

fn verb_upload_bytes() -> (v: Vec<u8>)
    ensures
        v@ == verb_upload(),
{
    let mut v: Vec<u8> = Vec::new();
    v.push(117);
    v.push(112);
    v.push(108);
    v.push(111);
    v.push(97);
    v.push(100);
    proof {
        assert(v@ =~= verb_upload());
    }
    v
}

fn verb_download_bytes() -> (v: Vec<u8>)
    ensures
        v@ == verb_download(),
{
    let mut v: Vec<u8> = Vec::new();
    v.push(100);
    v.push(111);
    v.push(119);
    v.push(110);
    v.push(108);
    v.push(111);
    v.push(97);
    v.push(100);
    proof {
        assert(v@ =~= verb_download());
    }
    v
}

fn verb_close_bytes() -> (v: Vec<u8>)
    ensures
        v@ == verb_close(),
{
    let mut v: Vec<u8> = Vec::new();
    v.push(99);
    v.push(108);
    v.push(111);
    v.push(115);
    v.push(101);
    proof {
        assert(v@ =~= verb_close());
    }
    v
}

fn upload_label_bytes() -> (v: Vec<u8>)
    ensures
        v@ == upload_label(),
{
    let mut v: Vec<u8> = Vec::new();
    v.push(85);
    v.push(80);
    v.push(76);
    v.push(79);
    v.push(65);
    v.push(68);
    proof {
        assert(v@ =~= upload_label());
    }
    v
}

fn download_label_bytes() -> (v: Vec<u8>)
    ensures
        v@ == download_label(),
{
    let mut v: Vec<u8> = Vec::new();
    v.push(68);
    v.push(79);
    v.push(87);
    v.push(78);
    v.push(76);
    v.push(79);
    v.push(65);
    v.push(68);
    proof {
        assert(v@ =~= download_label());
    }
    v
}

fn close_label_bytes() -> (v: Vec<u8>)
    ensures
        v@ == close_label(),
{
    let mut v: Vec<u8> = Vec::new();
    v.push(67);
    v.push(76);
    v.push(79);
    v.push(83);
    v.push(69);
    proof {
        assert(v@ =~= close_label());
    }
    v
}

/// Folding a client-written verb gives the lower-case verb.
pub proof fn lemma_labels_fold()
    ensures
        lower_seq(upload_label()) == verb_upload(),
        lower_seq(download_label()) == verb_download(),
        lower_seq(close_label()) == verb_close(),
{
    assert(lower_seq(upload_label()) =~= verb_upload());
    assert(lower_seq(download_label()) =~= verb_download());
    assert(lower_seq(close_label()) =~= verb_close());
}

/// A parsed query name: the verb and its arguments, a verb-specific invalid
/// shape, or an unrecognized name that is forwarded verbatim.
#[derive(Debug, PartialEq, Eq)]
pub enum ParsedQuery {
    Upload { fragment: Vec<u8>, seq: usize, maxseq: usize, code: Vec<u8> },
    DownloadCount { code: Vec<u8> },
    DownloadFragment { code: Vec<u8>, seq: usize },
    Close { code: Vec<u8> },
    InvalidUpload,
    InvalidDownload,
    Unrecognized,
}

/// The mathematical shape of a parsed query name.
pub enum QueryModel {
    Upload { fragment: Seq<u8>, seq: nat, maxseq: nat, code: Seq<u8> },
    DownloadCount { code: Seq<u8> },
    DownloadFragment { code: Seq<u8>, seq: nat },
    Close { code: Seq<u8> },
    InvalidUpload,
    InvalidDownload,
    Unrecognized,
}

impl View for ParsedQuery {
    type V = QueryModel;

    open spec fn view(&self) -> QueryModel {
        match self {
            ParsedQuery::Upload { fragment, seq, maxseq, code } => QueryModel::Upload {
                fragment: fragment@,
                seq: *seq as nat,
                maxseq: *maxseq as nat,
                code: code@,
            },
            ParsedQuery::DownloadCount { code } => QueryModel::DownloadCount { code: code@ },
            ParsedQuery::DownloadFragment { code, seq } => QueryModel::DownloadFragment {
                code: code@,
                seq: *seq as nat,
            },
            ParsedQuery::Close { code } => QueryModel::Close { code: code@ },
            ParsedQuery::InvalidUpload => QueryModel::InvalidUpload,
            ParsedQuery::InvalidDownload => QueryModel::InvalidDownload,
            ParsedQuery::Unrecognized => QueryModel::Unrecognized,
        }
    }
}

/// What any name parses to.
///
/// An upload name needs at least five parts and numeric `seq` and `maxseq`
/// fields; a number that does not parse (or does not fit) makes the name
/// invalid for its verb, never a default of zero.  A download name needs at
/// least three parts; its third part chooses between the fragment query
/// (numeric) and the count query (anything else, normally the domain).
pub open spec fn parse_name(s: Seq<u8>) -> QueryModel {
    let parts = split_dots(s);
    let verb = lower_seq(parts[0]);
    if parts.len() >= 2 && verb == verb_upload() {
        if parts.len() < 5 {
            QueryModel::InvalidUpload
        } else if is_numeric(parts[2]) && dec_val(parts[2]) <= usize::MAX && is_numeric(parts[3])
            && dec_val(parts[3]) <= usize::MAX {
            QueryModel::Upload {
                fragment: parts[1],
                seq: dec_val(parts[2]),
                maxseq: dec_val(parts[3]),
                code: parts[4],
            }
        } else {
            QueryModel::InvalidUpload
        }
    } else if parts.len() >= 2 && verb == verb_download() {
        if parts.len() < 3 {
            QueryModel::InvalidDownload
        } else if is_numeric(parts[2]) && dec_val(parts[2]) <= usize::MAX {
            QueryModel::DownloadFragment { code: parts[1], seq: dec_val(parts[2]) }
        } else if is_numeric(parts[2]) {
            QueryModel::InvalidDownload
        } else {
            QueryModel::DownloadCount { code: parts[1] }
        }
    } else if parts.len() >= 2 && verb == verb_close() {
        QueryModel::Close { code: parts[1] }
    } else {
        QueryModel::Unrecognized
    }
}

/// Parse a query name into its protocol shape.
pub fn parse_query_name(name: &Vec<u8>) -> (q: ParsedQuery)
    ensures
        q@ == parse_name(name@),
{
    let mut parts = split_name(name);
    if parts.len() < 2 {
        return ParsedQuery::Unrecognized;
    }
    let verb = lower_bytes(&parts[0]);
    let up = verb_upload_bytes();
    let down = verb_download_bytes();
    let close = verb_close_bytes();
    if bytes_eq(&verb, &up) {
        if parts.len() < 5 {
            return ParsedQuery::InvalidUpload;
        }
        let code = parts.remove(4);
        let maxp = parts.remove(3);
        let seqp = parts.remove(2);
        let fragment = parts.remove(1);
        match (parse_usize(&seqp), parse_usize(&maxp)) {
            (Some(seq), Some(maxseq)) => ParsedQuery::Upload { fragment, seq, maxseq, code },
            _ => ParsedQuery::InvalidUpload,
        }
    } else if bytes_eq(&verb, &down) {
        if parts.len() < 3 {
            return ParsedQuery::InvalidDownload;
        }
        let seqp = parts.remove(2);
        let code = parts.remove(1);
        match parse_usize(&seqp) {
            Some(seq) => ParsedQuery::DownloadFragment { code, seq },
            None => {
                if crate::text::is_numeric_bytes(&seqp) {
                    ParsedQuery::InvalidDownload
                } else {
                    ParsedQuery::DownloadCount { code }
                }
            },
        }
    } else if bytes_eq(&verb, &close) {
        let code = parts.remove(1);
        ParsedQuery::Close { code }
    } else {
        ParsedQuery::Unrecognized
    }
}

/// The upload query name.
pub open spec fn upload_name(
    fragment: Seq<u8>,
    seq: nat,
    maxseq: nat,
    code: Seq<u8>,
    domain: Seq<u8>,
) -> Seq<u8> {
    upload_label() + seq![46u8] + fragment + seq![46u8] + dec_str(seq) + seq![46u8] + dec_str(
        maxseq,
    ) + seq![46u8] + code + seq![46u8] + domain
}

/// The fragment-count query name.
pub open spec fn download_count_name(code: Seq<u8>, domain: Seq<u8>) -> Seq<u8> {
    download_label() + seq![46u8] + code + seq![46u8] + domain
}

/// The fragment query name.
pub open spec fn download_fragment_name(code: Seq<u8>, seq: nat, domain: Seq<u8>) -> Seq<u8> {
    download_label() + seq![46u8] + code + seq![46u8] + dec_str(seq) + seq![46u8] + domain
}

/// The close query name.
pub open spec fn close_name(code: Seq<u8>, domain: Seq<u8>) -> Seq<u8> {
    close_label() + seq![46u8] + code + seq![46u8] + domain
}

/// Build the upload query name for one fragment.
pub fn build_upload_name(
    fragment: &Vec<u8>,
    seq: usize,
    maxseq: usize,
    code: &Vec<u8>,
    domain: &Vec<u8>,
) -> (out: Vec<u8>)
    ensures
        out@ == upload_name(fragment@, seq as nat, maxseq as nat, code@, domain@),
{
    let mut out = upload_label_bytes();
    out.push(46);
    push_all(&mut out, fragment);
    out.push(46);
    let s = format_usize(seq);
    push_all(&mut out, &s);
    out.push(46);
    let m = format_usize(maxseq);
    push_all(&mut out, &m);
    out.push(46);
    push_all(&mut out, code);
    out.push(46);
    push_all(&mut out, domain);
    proof {
        assert(out@ =~= upload_name(fragment@, seq as nat, maxseq as nat, code@, domain@));
    }
    out
}

/// Build the fragment-count query name.
pub fn build_download_count_name(code: &Vec<u8>, domain: &Vec<u8>) -> (out: Vec<u8>)
    ensures
        out@ == download_count_name(code@, domain@),
{
    let mut out = download_label_bytes();
    out.push(46);
    push_all(&mut out, code);
    out.push(46);
    push_all(&mut out, domain);
    proof {
        assert(out@ =~= download_count_name(code@, domain@));
    }
    out
}

/// Build the fragment query name.
pub fn build_download_fragment_name(code: &Vec<u8>, seq: usize, domain: &Vec<u8>) -> (out:
    Vec<u8>)
    ensures
        out@ == download_fragment_name(code@, seq as nat, domain@),
{
    let mut out = download_label_bytes();
    out.push(46);
    push_all(&mut out, code);
    out.push(46);
    let s = format_usize(seq);
    push_all(&mut out, &s);
    out.push(46);
    push_all(&mut out, domain);
    proof {
        assert(out@ =~= download_fragment_name(code@, seq as nat, domain@));
    }
    out
}

/// Build the close query name.
pub fn build_close_name(code: &Vec<u8>, domain: &Vec<u8>) -> (out: Vec<u8>)
    ensures
        out@ == close_name(code@, domain@),
{
    let mut out = close_label_bytes();
    out.push(46);
    push_all(&mut out, code);
    out.push(46);
    push_all(&mut out, domain);
    proof {
        assert(out@ =~= close_name(code@, domain@));
    }
    out
}

/// A digit string holds no dot.
pub proof fn lemma_numeral_no_dot(s: Seq<u8>)
    requires
        all_digits(s),
    ensures
        no_dot(s),
{
}

/// The naming scheme round trip for uploads: a built upload name parses back
/// to exactly its fields, whatever the domain.
pub proof fn lemma_parse_upload_name(
    fragment: Seq<u8>,
    seq: nat,
    maxseq: nat,
    code: Seq<u8>,
    domain: Seq<u8>,
)
    requires
        no_dot(fragment),
        no_dot(code),
        seq <= usize::MAX,
        maxseq <= usize::MAX,
    ensures
        parse_name(upload_name(fragment, seq, maxseq, code, domain)) == (QueryModel::Upload {
            fragment,
            seq,
            maxseq,
            code,
        }),
{
    let name = upload_name(fragment, seq, maxseq, code, domain);
    let t4 = code + seq![46u8] + domain;
    let t3 = dec_str(maxseq) + seq![46u8] + t4;
    let t2 = dec_str(seq) + seq![46u8] + t3;
    let t1 = fragment + seq![46u8] + t2;
    assert(name =~= upload_label() + seq![46u8] + t1);
    lemma_dec_str_val(seq);
    lemma_dec_str_val(maxseq);
    lemma_numeral_no_dot(dec_str(seq));
    lemma_numeral_no_dot(dec_str(maxseq));
    lemma_split_dots_step(upload_label(), t1);
    lemma_split_dots_step(fragment, t2);
    lemma_split_dots_step(dec_str(seq), t3);
    lemma_split_dots_step(dec_str(maxseq), t4);
    lemma_split_dots_step(code, domain);
    lemma_split_dots_nonempty(domain);
    let parts = split_dots(name);
    assert(parts =~= seq![upload_label(), fragment, dec_str(seq), dec_str(maxseq), code]
        + split_dots(domain));
    assert(parts.len() >= 6);
    assert(parts[0] == upload_label());
    assert(parts[1] == fragment);
    assert(parts[2] == dec_str(seq));
    assert(parts[3] == dec_str(maxseq));
    assert(parts[4] == code);
    lemma_labels_fold();
}

/// The naming scheme round trip for count queries: the third part of the
/// name is the domain's first label, so the domain must not look numeric.
pub proof fn lemma_parse_download_count_name(code: Seq<u8>, domain: Seq<u8>)
    requires
        no_dot(code),
        !is_numeric(split_dots(domain)[0]),
    ensures
        parse_name(download_count_name(code, domain)) == (QueryModel::DownloadCount { code }),
{
    let name = download_count_name(code, domain);
    let t1 = code + seq![46u8] + domain;
    assert(name =~= download_label() + seq![46u8] + t1);
    lemma_split_dots_step(download_label(), t1);
    lemma_split_dots_step(code, domain);
    lemma_split_dots_nonempty(domain);
    let parts = split_dots(name);
    assert(parts =~= seq![download_label(), code] + split_dots(domain));
    assert(parts.len() >= 3);
    assert(parts[0] == download_label());
    assert(parts[1] == code);
    assert(parts[2] == split_dots(domain)[0]);
    lemma_labels_fold();
}

/// The naming scheme round trip for fragment queries.
pub proof fn lemma_parse_download_fragment_name(code: Seq<u8>, seq: nat, domain: Seq<u8>)
    requires
        no_dot(code),
        seq <= usize::MAX,
    ensures
        parse_name(download_fragment_name(code, seq, domain)) == (QueryModel::DownloadFragment {
            code,
            seq,
        }),
{
    let name = download_fragment_name(code, seq, domain);
    let t2 = dec_str(seq) + seq![46u8] + domain;
    let t1 = code + seq![46u8] + t2;
    assert(name =~= download_label() + seq![46u8] + t1);
    lemma_dec_str_val(seq);
    lemma_numeral_no_dot(dec_str(seq));
    lemma_split_dots_step(download_label(), t1);
    lemma_split_dots_step(code, t2);
    lemma_split_dots_step(dec_str(seq), domain);
    lemma_split_dots_nonempty(domain);
    let parts = split_dots(name);
    assert(parts =~= seq![download_label(), code, dec_str(seq)] + split_dots(domain));
    assert(parts.len() >= 4);
    assert(parts[0] == download_label());
    assert(parts[1] == code);
    assert(parts[2] == dec_str(seq));
    lemma_labels_fold();
}

/// The naming scheme round trip for close queries.
pub proof fn lemma_parse_close_name(code: Seq<u8>, domain: Seq<u8>)
    requires
        no_dot(code),
    ensures
        parse_name(close_name(code, domain)) == (QueryModel::Close { code }),
{
    let name = close_name(code, domain);
    let t1 = code + seq![46u8] + domain;
    assert(name =~= close_label() + seq![46u8] + t1);
    lemma_split_dots_step(close_label(), t1);
    lemma_split_dots_step(code, domain);
    lemma_split_dots_nonempty(domain);
    let parts = split_dots(name);
    assert(parts =~= seq![close_label(), code] + split_dots(domain));
    assert(parts.len() >= 3);
    assert(parts[0] == close_label());
    assert(parts[1] == code);
    lemma_labels_fold();
}

/// Every built tunnel name begins with its verb's first letter, so a zone
/// that starts otherwise can never capture a tunnel name.
pub proof fn lemma_name_heads(
    fragment: Seq<u8>,
    seq: nat,
    maxseq: nat,
    code: Seq<u8>,
    domain: Seq<u8>,
)
    ensures
        upload_name(fragment, seq, maxseq, code, domain).len() > 0,
        upload_name(fragment, seq, maxseq, code, domain)[0] == 85,
        download_count_name(code, domain).len() > 0,
        download_count_name(code, domain)[0] == 68,
        download_fragment_name(code, seq, domain).len() > 0,
        download_fragment_name(code, seq, domain)[0] == 68,
        close_name(code, domain).len() > 0,
        close_name(code, domain)[0] == 67,
{
}

/// Every name a plan builds parses back, on the server's side of the wire,
/// to an upload of exactly its fragment, slot, and session: the naming
/// scheme and the codec interoperate for every payload.
pub proof fn lemma_plan_name_parses(
    payload: Seq<u8>,
    limit: nat,
    code: Seq<u8>,
    domain: Seq<u8>,
    i: int,
)
    requires
        1 <= limit,
        no_dot(code),
        0 <= i < crate::codec::chunk_count(payload.len(), limit),
        crate::codec::chunk_count(payload.len(), limit) <= usize::MAX,
    ensures
        parse_name(
            upload_name(
                crate::codec::encode32(crate::codec::chunk_at(payload, limit, i)),
                i as nat,
                crate::codec::chunk_count(payload.len(), limit),
                code,
                domain,
            ),
        ) == (QueryModel::Upload {
            fragment: crate::codec::encode32(crate::codec::chunk_at(payload, limit, i)),
            seq: i as nat,
            maxseq: crate::codec::chunk_count(payload.len(), limit),
            code,
        }),
{
    let fragment = crate::codec::encode32(crate::codec::chunk_at(payload, limit, i));
    assert forall|k: int| 0 <= k < fragment.len() implies fragment[k] != 46 by {
        crate::codec::lemma_encode_no_dot(crate::codec::chunk_at(payload, limit, i), k);
    }
    lemma_parse_upload_name(
        fragment,
        i as nat,
        crate::codec::chunk_count(payload.len(), limit),
        code,
        domain,
    );
}

} // verus!
