//! The label codec: byte chunks rendered as DNS-label text.
//!
//! A chunk of raw bytes is written as a sequence of symbols from a 32-letter,
//! case-insensitive alphabet (`A`..`Z`, `2`..`7`), five payload bits per
//! symbol, most significant bit first, with no padding characters.  Decoding
//! accepts either letter case, so a name that was case-folded in transit still
//! decodes to the same bytes.

use vstd::prelude::*;
use vstd::arithmetic::div_mod::lemma_fundamental_div_mod;
use vstd::arithmetic::div_mod::lemma_fundamental_div_mod_converse;
use vstd::arithmetic::div_mod::lemma_div_is_ordered;

verus! {

/// The symbol for a five-bit group: `A`..`Z` for 0..25, `2`..`7` for 26..31.
pub open spec fn alpha(v: u8) -> u8
    recommends
        v < 32,
{
    if v < 26 {
        (65 + v) as u8
    } else {
        (24 + v) as u8
    }
}

/// The five-bit group for a symbol, accepting both letter cases;
/// `None` for a byte outside the alphabet.
pub open spec fn unalpha(c: u8) -> Option<u8> {
    if 65 <= c <= 90 {
        Some((c - 65) as u8)
    } else if 97 <= c <= 122 {
        Some((c - 97) as u8)
    } else if 50 <= c <= 55 {
        Some((c - 24) as u8)
    } else {
        None
    }
}

pub proof fn lemma_unalpha_alpha(v: u8)
    requires
        v < 32,
    ensures
        unalpha(alpha(v)) == Some(v),
{
}

/// The symbol for a five-bit group, as executable code.
pub fn alpha_symbol(v: u8) -> (c: u8)
    requires
        v < 32,
    ensures
        c == alpha(v),
{
    if v < 26 {
        65 + v
    } else {
        24 + v
    }
}

/// The five-bit group for a symbol, as executable code.
pub fn unalpha_symbol(c: u8) -> (r: Option<u8>)
    ensures
        r == unalpha(c),
{
    if 65 <= c && c <= 90 {
        Some(c - 65)
    } else if 97 <= c && c <= 122 {
        Some(c - 97)
    } else if 50 <= c && c <= 55 {
        Some(c - 24)
    } else {
        None
    }
}

/// Number of symbols that encode `n` bytes: one per five bits, rounded up.
pub open spec fn enc_len(n: nat) -> nat {
    (8 * n + 4) / 5
}

/// Number of bytes recovered from `l` symbols: whole bytes only, the final
/// zero-padding bits are discarded.
pub open spec fn dec_len(l: nat) -> nat {
    5 * l / 8
}

/// The `j`-th five-bit group of the bit stream of `s` (most significant bit
/// first, zero-padded at the end).
pub open spec fn gv(s: Seq<u8>, j: int) -> u8
    recommends
        0 <= j < enc_len(s.len()),
{
    let p = 5 * j;
    let i0 = p / 8;
    let off = p % 8;
    if off <= 3 {
        (s[i0] >> (3 - off) as u8) & 31
    } else {
        let hi = (s[i0] << (off - 3) as u8) & 31;
        let lo = if i0 + 1 < s.len() {
            s[i0 + 1] >> (11 - off) as u8
        } else {
            0u8
        };
        hi | lo
    }
}

/// The five-bit groups of `s`, in order.
pub open spec fn groups(s: Seq<u8>) -> Seq<u8> {
    Seq::new(enc_len(s.len()), |j: int| gv(s, j))
}

/// The encoded text of a byte chunk.
pub open spec fn encode32(s: Seq<u8>) -> Seq<u8> {
    Seq::new(enc_len(s.len()), |j: int| alpha(gv(s, j)))
}

/// Every symbol of `t` lies in the alphabet.
pub open spec fn valid32(t: Seq<u8>) -> bool {
    forall|j: int| 0 <= j < t.len() ==> unalpha(t[j]) is Some
}

/// The five-bit groups read back from the symbols of `t`.
pub open spec fn vals_of(t: Seq<u8>) -> Seq<u8>
    recommends
        valid32(t),
{
    t.map_values(|c: u8| unalpha(c).unwrap())
}

/// The `i`-th byte rebuilt from a sequence of five-bit groups.
pub open spec fn dec_byte(v: Seq<u8>, i: int) -> u8
    recommends
        0 <= i,
        8 * i + 7 < 5 * v.len(),
{
    let q = (8 * i) % 5;
    let j = (8 * i) / 5;
    if q == 0 {
        (v[j] << 3) | (v[j + 1] >> 2)
    } else if q == 1 {
        ((v[j] & 15) << 4) | (v[j + 1] >> 1)
    } else if q == 2 {
        ((v[j] & 7) << 5) | (v[j + 1] & 31)
    } else if q == 3 {
        ((v[j] & 3) << 6) | (v[j + 1] << 1) | (v[j + 2] >> 4)
    } else {
        ((v[j] & 1) << 7) | (v[j + 1] << 2) | (v[j + 2] >> 3)
    }
}

/// The bytes decoded from the symbols of `t`, or `None` when a symbol lies
/// outside the alphabet.
pub open spec fn decode32(t: Seq<u8>) -> Option<Seq<u8>> {
    if valid32(t) {
        Some(Seq::new(dec_len(t.len()), |i: int| dec_byte(vals_of(t), i)))
    } else {
        None
    }
}

/// `enc_len(n)` symbols carry between `8 n` and `8 n + 4` bits.
pub proof fn lemma_enc_len(n: nat)
    ensures
        8 * n <= 5 * enc_len(n) <= 8 * n + 4,
{
    lemma_fundamental_div_mod(8 * n as int + 4, 5);
}

/// Decoding the symbols of an encoded chunk recovers exactly its byte count.
pub proof fn lemma_dec_len_of_enc_len(n: nat)
    ensures
        dec_len(enc_len(n)) == n,
{
    lemma_enc_len(n);
    let l = enc_len(n);
    lemma_fundamental_div_mod_converse(5 * l as int, 8, n as int, 5 * l - 8 * n);
}

/// Every five-bit group is indeed below 32.
pub proof fn lemma_gv_bound(s: Seq<u8>, j: int)
    requires
        0 <= j,
        5 * j < 8 * s.len(),
    ensures
        gv(s, j) < 32,
{
    let p = 5 * j;
    let i0 = p / 8;
    let off = p % 8;
    lemma_fundamental_div_mod(p, 8);
    assert(i0 < s.len());
    if off <= 3 {
        let x = s[i0];
        let sh = (3 - off) as u8;
        assert((x >> sh) & 31 < 32) by (bit_vector);
    } else {
        let x = s[i0];
        let sh = (off - 3) as u8;
        let hi = (x << sh) & 31;
        if i0 + 1 < s.len() {
            let y = s[i0 + 1];
            let sh2 = (11 - off) as u8;
            let lo = y >> sh2;
            assert(((x << sh) & 31) | (y >> sh2) < 32) by (bit_vector)
                requires
                    4 <= sh2 <= 7,
            ;
        } else {
            assert(((x << sh) & 31) | 0u8 < 32) by (bit_vector);
        }
    }
}

/// Encoding is total and lands in the alphabet: every symbol decodes.
pub proof fn lemma_encode_valid(s: Seq<u8>)
    ensures
        valid32(encode32(s)),
        vals_of(encode32(s)) == groups(s),
{
    let t = encode32(s);
    lemma_enc_len(s.len());
    assert forall|j: int| 0 <= j < t.len() implies unalpha(t[j]) is Some by {
        lemma_gv_bound(s, j);
        lemma_unalpha_alpha(gv(s, j));
    }
    assert forall|j: int| 0 <= j < t.len() implies vals_of(t)[j] == groups(s)[j] by {
        lemma_gv_bound(s, j);
        lemma_unalpha_alpha(gv(s, j));
    }
    assert(vals_of(t) =~= groups(s));
}

/// No encoded symbol is a dot, so a fragment always fits in one label of a
/// dot-separated name.
pub proof fn lemma_encode_no_dot(s: Seq<u8>, j: int)
    requires
        0 <= j < encode32(s).len(),
    ensures
        encode32(s)[j] != 46,
        50 <= encode32(s)[j] <= 90,
{
    lemma_enc_len(s.len());
    lemma_gv_bound(s, j);
}

/// Encoding a chunk of at most 39 bytes yields at most 63 symbols, the DNS
/// label limit.
pub proof fn lemma_fragment_fits_label(n: nat)
    requires
        n <= 39,
    ensures
        enc_len(n) <= 63,
{
    lemma_div_is_ordered(8 * n as int + 4, 316int, 5);
}

/// Rebuilding byte `i` from the five-bit groups of `s` gives back `s[i]`.
#[verifier::rlimit(30)]
pub proof fn lemma_dec_byte_of_groups(s: Seq<u8>, i: int)
    requires
        0 <= i < s.len(),
    ensures
        dec_byte(groups(s), i) == s[i],
{
    let n = s.len() as int;
    lemma_enc_len(s.len());
    let l = enc_len(s.len()) as int;
    let p = 8 * i;
    let q = p % 5;
    let j = p / 5;
    lemma_fundamental_div_mod(p, 5);
    assert(5 * (j + 1) == p + 5 - q);
    assert(j + 1 < l);
    let x = s[i];
    if q == 0 {
        lemma_fundamental_div_mod_converse(5 * j, 8, i, 0);
        lemma_fundamental_div_mod_converse(5 * (j + 1), 8, i, 5);
        let g0 = gv(s, j);
        let g1 = gv(s, j + 1);
        assert(g0 == (x >> 3u8) & 31);
        let lo1: u8 = if i + 1 < n {
            s[i + 1] >> 6u8
        } else {
            0u8
        };
        if i + 1 < n {
            let y = s[i + 1];
            assert(y >> 6u8 < 4) by (bit_vector);
        }
        assert(g1 == ((x << 2u8) & 31) | lo1);
        assert((((x >> 3u8) & 31) << 3u8) | (((((x << 2u8) & 31) | lo1)) >> 2u8) == x)
            by (bit_vector)
            requires
                lo1 < 4,
        ;
    } else {
        assert(i >= 1);
        let w = s[i - 1];
        lemma_fundamental_div_mod_converse(5 * j, 8, i - 1, 8 - q);
        lemma_fundamental_div_mod_converse(5 * (j + 1), 8, i, 5 - q);
        let g0 = gv(s, j);
        let g1 = gv(s, j + 1);
        if q == 1 {
            assert(g0 == ((w << 4u8) & 31) | (x >> 4u8));
            let lo1: u8 = if i + 1 < n {
                s[i + 1] >> 7u8
            } else {
                0u8
            };
            if i + 1 < n {
                let y = s[i + 1];
                assert(y >> 7u8 < 2) by (bit_vector);
            }
            assert(g1 == ((x << 1u8) & 31) | lo1);
            assert(((((((w << 4u8) & 31) | (x >> 4u8)) & 15) << 4u8) | ((((x << 1u8) & 31)
                | lo1) >> 1u8)) == x)
                by (bit_vector)
                requires
                    lo1 < 2,
            ;
        } else if q == 2 {
            assert(g0 == ((w << 3u8) & 31) | (x >> 5u8));
            assert(g1 == (x >> 0u8) & 31);
            assert((((((w << 3u8) & 31) | (x >> 5u8)) & 7) << 5u8) | (((x >> 0u8) & 31) & 31)
                == x) by (bit_vector);
        } else {
            assert(5 * (j + 2) == p + 10 - q);
            assert(j + 2 < l);
            lemma_fundamental_div_mod_converse(5 * (j + 2), 8, i, 10 - q);
            let g2 = gv(s, j + 2);
            if q == 3 {
                assert(g0 == ((w << 2u8) & 31) | (x >> 6u8));
                assert(g1 == (x >> 1u8) & 31);
                let lo2: u8 = if i + 1 < n {
                    s[i + 1] >> 4u8
                } else {
                    0u8
                };
                if i + 1 < n {
                    let y = s[i + 1];
                    assert(y >> 4u8 < 16) by (bit_vector);
                }
                assert(g2 == ((x << 4u8) & 31) | lo2);
                assert((((((w << 2u8) & 31) | (x >> 6u8)) & 3) << 6u8) | (((x >> 1u8) & 31)
                    << 1u8) | ((((x << 4u8) & 31) | lo2) >> 4u8) == x)
                    by (bit_vector)
                    requires
                        lo2 < 16,
                ;
            } else {
                assert(q == 4);
                assert(g0 == ((w << 1u8) & 31) | (x >> 7u8));
                assert(g1 == (x >> 2u8) & 31);
                let lo2: u8 = if i + 1 < n {
                    s[i + 1] >> 5u8
                } else {
                    0u8
                };
                if i + 1 < n {
                    let y = s[i + 1];
                    assert(y >> 5u8 < 8) by (bit_vector);
                }
                assert(g2 == ((x << 3u8) & 31) | lo2);
                assert((((((w << 1u8) & 31) | (x >> 7u8)) & 1) << 7u8) | (((x >> 2u8) & 31)
                    << 2u8) | ((((x << 3u8) & 31) | lo2) >> 3u8) == x)
                    by (bit_vector)
                    requires
                        lo2 < 8,
                ;
            }
        }
    }
}

/// The round-trip law: decoding an encoded chunk gives back exactly the
/// chunk, for every byte sequence.
pub proof fn lemma_codec_roundtrip(s: Seq<u8>)
    ensures
        decode32(encode32(s)) == Some(s),
{
    let t = encode32(s);
    lemma_encode_valid(s);
    lemma_dec_len_of_enc_len(s.len());
    let d = Seq::new(dec_len(t.len()), |i: int| dec_byte(vals_of(t), i));
    assert forall|i: int| 0 <= i < s.len() implies d[i] == s[i] by {
        lemma_dec_byte_of_groups(s, i);
    }
    assert(d =~= s);
}

/// Encode one chunk of bytes as alphabet symbols.
pub fn encode_chunk(data: &Vec<u8>) -> (out: Vec<u8>)
    requires
        8 * data@.len() + 4 <= usize::MAX,
    ensures
        out@ == encode32(data@),
{
    let n = data.len();
    let out_len = (8 * n + 4) / 5;
    proof {
        lemma_enc_len(n as nat);
    }
    let mut out: Vec<u8> = Vec::new();
    let mut j: usize = 0;
    while j < out_len
        invariant
            n == data@.len(),
            8 * n + 4 <= usize::MAX,
            out_len == enc_len(n as nat),
            5 * out_len <= 8 * n + 4,
            j <= out_len,
            out@.len() == j,
            forall|k: int| 0 <= k < j ==> out@[k] == alpha(gv(data@, k)),
        decreases out_len - j,
    {
        let p = 5 * j;
        let i0 = p / 8;
        let off = p % 8;
        proof {
            assert(5 * j <= 5 * out_len - 5);
            assert(p < 8 * n);
            lemma_fundamental_div_mod(p as int, 8);
            assert(i0 < n);
        }
        let val: u8 = if off <= 3 {
            (data[i0] >> ((3 - off) as u8)) & 31
        } else {
            let hi = (data[i0] << ((off - 3) as u8)) & 31;
            let lo = if i0 + 1 < n {
                data[i0 + 1] >> ((11 - off) as u8)
            } else {
                0u8
            };
            hi | lo
        };
        proof {
            assert(val == gv(data@, j as int));
            lemma_gv_bound(data@, j as int);
        }
        out.push(alpha_symbol(val));
        j = j + 1;
    }
    proof {
        assert(out@ =~= encode32(data@));
    }
    out
}

/// Decode one fragment back to bytes; `None` when a symbol lies outside the
/// alphabet.
pub fn decode_fragment(frag: &Vec<u8>) -> (r: Option<Vec<u8>>)
    requires
        5 * frag@.len() <= usize::MAX,
    ensures
        match r {
            Some(v) => decode32(frag@) == Some(v@),
            None => decode32(frag@) is None,
        },
{
    let l = frag.len();
    let mut vals: Vec<u8> = Vec::new();
    let mut idx: usize = 0;
    while idx < l
        invariant
            l == frag@.len(),
            idx <= l,
            vals@.len() == idx,
            forall|k: int| 0 <= k < idx ==> unalpha(frag@[k]) == Some(vals@[k]),
        decreases l - idx,
    {
        match unalpha_symbol(frag[idx]) {
            Some(v) => vals.push(v),
            None => {
                proof {
                    assert(!valid32(frag@));
                }
                return None;
            },
        }
        idx = idx + 1;
    }
    proof {
        assert(valid32(frag@));
        assert(vals@ =~= vals_of(frag@));
    }
    let m = 5 * l / 8;
    proof {
        lemma_fundamental_div_mod(5 * l as int, 8);
    }
    let mut out: Vec<u8> = Vec::new();
    let mut i: usize = 0;
    while i < m
        invariant
            l == frag@.len(),
            vals@ == vals_of(frag@),
            vals@.len() == l,
            m == dec_len(l as nat),
            8 * m <= 5 * l <= usize::MAX,
            i <= m,
            out@.len() == i,
            forall|k: int| 0 <= k < i ==> out@[k] == dec_byte(vals@, k),
        decreases m - i,
    {
        let p = 8 * i;
        let j = p / 5;
        let q = p % 5;
        proof {
            lemma_fundamental_div_mod(p as int, 5);
            assert(8 * i <= 8 * m - 8);
            assert(5 * (j + 1) < 5 * l);
            assert(j + 1 < l);
            if q >= 3 {
                assert(5 * (j + 2) < 5 * l);
                assert(j + 2 < l);
            }
        }
        let b: u8 = if q == 0 {
            (vals[j] << 3u8) | (vals[j + 1] >> 2u8)
        } else if q == 1 {
            ((vals[j] & 15) << 4u8) | (vals[j + 1] >> 1u8)
        } else if q == 2 {
            ((vals[j] & 7) << 5u8) | (vals[j + 1] & 31)
        } else if q == 3 {
            ((vals[j] & 3) << 6u8) | (vals[j + 1] << 1u8) | (vals[j + 2] >> 4u8)
        } else {
            ((vals[j] & 1) << 7u8) | (vals[j + 1] << 2u8) | (vals[j + 2] >> 3u8)
        };
        proof {
            assert(b == dec_byte(vals@, i as int));
        }
        out.push(b);
        i = i + 1;
    }
    proof {
        assert(out@ =~= Seq::new(dec_len(frag@.len()), |k: int| dec_byte(vals_of(frag@), k)));
    }
    Some(out)
}

/// The default chunk width: 39 raw bytes encode to 63 symbols, the most that
/// fit in one DNS label.
pub open spec fn spec_max_chunk_bytes() -> usize {
    39
}

/// See [`spec_max_chunk_bytes`].
pub fn max_chunk_bytes() -> (r: usize)
    ensures
        r == spec_max_chunk_bytes(),
{
    39
}

/// How many chunks a payload of `len` bytes yields at `limit` bytes a chunk.
pub open spec fn chunk_count(len: nat, limit: nat) -> nat
    recommends
        limit >= 1,
{
    ((len + limit - 1) / limit as int) as nat
}

/// The `i`-th chunk of a payload: `limit` bytes, or what is left at the end.
pub open spec fn chunk_at(data: Seq<u8>, limit: nat, i: int) -> Seq<u8>
    recommends
        limit >= 1,
        0 <= i < chunk_count(data.len(), limit),
{
    let lo = (limit as int) * i;
    let hi = if lo + limit <= data.len() {
        lo + limit
    } else {
        data.len() as int
    };
    data.subrange(lo, hi)
}

/// All chunks of a payload, in payload order.
pub open spec fn chunks_of(data: Seq<u8>, limit: nat) -> Seq<Seq<u8>>
    recommends
        limit >= 1,
{
    Seq::new(chunk_count(data.len(), limit), |i: int| chunk_at(data, limit, i))
}

/// The concatenation of a sequence of chunks, in order.
pub open spec fn concat_chunks(cs: Seq<Seq<u8>>) -> Seq<u8>
    decreases cs.len(),
{
    if cs.len() == 0 {
        Seq::empty()
    } else {
        cs[0] + concat_chunks(cs.skip(1))
    }
}

/// The chunk-ordering law: the chunks of a payload, concatenated in index
/// order, are exactly the payload.
pub proof fn lemma_chunks_concat(data: Seq<u8>, limit: nat)
    requires
        limit >= 1,
    ensures
        concat_chunks(chunks_of(data, limit)) == data,
    decreases data.len(),
{
    let n = data.len();
    let li = limit as int;
    let c = chunk_count(n, limit);
    if n == 0 {
        lemma_fundamental_div_mod_converse((n + limit - 1) as int, li, 0, limit as int - 1);
        assert(c == 0);
        assert(chunks_of(data, limit) =~= Seq::<Seq<u8>>::empty());
        assert(data =~= Seq::<u8>::empty());
    } else if n <= limit {
        lemma_fundamental_div_mod_converse((n + limit - 1) as int, li, 1, n as int - 1);
        assert(c == 1);
        let cs = chunks_of(data, limit);
        assert(cs[0] == chunk_at(data, limit, 0));
        assert(chunk_at(data, limit, 0) =~= data);
        assert(cs.skip(1) =~= Seq::<Seq<u8>>::empty());
        assert(concat_chunks(cs) == cs[0] + concat_chunks(cs.skip(1)));
        assert(cs[0] + Seq::<u8>::empty() =~= data);
    } else {
        let rest = data.skip(li);
        lemma_chunks_concat(rest, limit);
        let k = chunk_count((n - limit) as nat, limit);
        lemma_fundamental_div_mod((n - 1) as int, li);
        let r = (n - 1) as int % li;
        assert((n - limit + limit - 1) as int == n as int - 1);
        assert(k == (n - 1) as int / li);
        assert((k as int + 1) * li == li * (k as int) + li) by (nonlinear_arith);
        lemma_fundamental_div_mod_converse((n + limit - 1) as int, li, k as int + 1, r);
        assert(c == k + 1);
        let cs = chunks_of(data, limit);
        let csr = chunks_of(rest, limit);
        assert forall|i2: int| 0 <= i2 < k implies cs.skip(1)[i2] == csr[i2] by {
            assert(li * (i2 + 1) == li * i2 + li) by (nonlinear_arith);
            assert(li * i2 >= 0) by (nonlinear_arith)
                requires
                    li >= 1 && i2 >= 0,
            ;
            assert(li * (i2 + 1) <= li * (k as int)) by (nonlinear_arith)
                requires
                    li >= 1 && i2 + 1 <= k,
            ;
            assert(li * (k as int) <= n as int - 1);
            assert(cs.skip(1)[i2] == chunk_at(data, limit, i2 + 1));
            assert(chunk_at(data, limit, i2 + 1) =~= chunk_at(rest, limit, i2));
        }
        assert(cs.skip(1) =~= csr);
        assert(concat_chunks(cs) == cs[0] + concat_chunks(csr));
        assert(cs[0] == data.subrange(0, li));
        assert(data.subrange(0, li) + rest =~= data);
    }
}

/// Concatenation takes one chunk at a time from the back.
pub proof fn lemma_concat_chunks_push(cs: Seq<Seq<u8>>, d: Seq<u8>)
    ensures
        concat_chunks(cs.push(d)) == concat_chunks(cs) + d,
    decreases cs.len(),
{
    if cs.len() == 0 {
        assert(cs.push(d)[0] == d);
        assert(cs.push(d).skip(1) =~= Seq::<Seq<u8>>::empty());
        assert(concat_chunks(Seq::<Seq<u8>>::empty()) == Seq::<u8>::empty());
        assert(concat_chunks(cs.push(d)) =~= concat_chunks(cs) + d);
    } else {
        assert(cs.push(d)[0] == cs[0]);
        assert(cs.push(d).skip(1) =~= cs.skip(1).push(d));
        lemma_concat_chunks_push(cs.skip(1), d);
        assert(cs[0] + (concat_chunks(cs.skip(1)) + d) =~= (cs[0] + concat_chunks(cs.skip(1)))
            + d);
    }
}

/// Every chunk is at most `limit` bytes wide.
pub proof fn lemma_chunk_within_limit(data: Seq<u8>, limit: nat, i: int)
    requires
        limit >= 1,
        0 <= i < chunk_count(data.len(), limit),
    ensures
        chunk_at(data, limit, i).len() <= limit,
        (limit as int) * i <= data.len(),
{
    let li = limit as int;
    let n = data.len();
    lemma_fundamental_div_mod((n + limit - 1) as int, li);
    let c = chunk_count(n, limit) as int;
    assert(li * c <= n as int + li - 1);
    assert(li * i <= li * c - li) by (nonlinear_arith)
        requires
            i < c,
            li >= 1,
    ;
}

/// Split a payload into chunks of at most `limit` bytes, in order.
pub fn split_into_chunks(data: &Vec<u8>, limit: usize) -> (out: Vec<Vec<u8>>)
    requires
        limit >= 1,
        data@.len() + limit <= usize::MAX,
    ensures
        out@.len() == chunk_count(data@.len(), limit as nat),
        forall|i: int| 0 <= i < out@.len() ==> out@[i]@ == chunk_at(data@, limit as nat, i),
{
    let n = data.len();
    let count = (n + limit - 1) / limit;
    let mut out: Vec<Vec<u8>> = Vec::new();
    let mut ci: usize = 0;
    while ci < count
        invariant
            n == data@.len(),
            limit >= 1,
            n + limit <= usize::MAX,
            count == chunk_count(n as nat, limit as nat),
            ci <= count,
            out@.len() == ci,
            forall|i: int| 0 <= i < ci ==> out@[i]@ == chunk_at(data@, limit as nat, i),
        decreases count - ci,
    {
        proof {
            lemma_chunk_within_limit(data@, limit as nat, ci as int);
        }
        let lo = ci * limit;
        let hi = if lo + limit <= n {
            lo + limit
        } else {
            n
        };
        let mut chunk: Vec<u8> = Vec::new();
        let mut k: usize = lo;
        while k < hi
            invariant
                n == data@.len(),
                lo <= k <= hi,
                hi <= n,
                chunk@.len() == k - lo,
                forall|t: int| 0 <= t < k - lo ==> chunk@[t] == data@[lo + t],
            decreases hi - k,
        {
            chunk.push(data[k]);
            k = k + 1;
        }
        proof {
            assert(chunk@ =~= chunk_at(data@, limit as nat, ci as int));
        }
        out.push(chunk);
        ci = ci + 1;
    }
    out
}

/// The encoded fragments of a whole payload, in slot order.
pub open spec fn encoded_chunks(data: Seq<u8>, limit: nat) -> Seq<Seq<u8>> {
    Seq::new(chunk_count(data.len(), limit), |i: int| encode32(chunk_at(data, limit, i)))
}

/// The full codec round trip over a whole payload: chunk, encode each chunk,
/// decode each fragment, concatenate in index order; the payload comes back.
pub proof fn lemma_pipeline_roundtrip(data: Seq<u8>, limit: nat)
    requires
        limit >= 1,
    ensures
        forall|i: int|
            0 <= i < chunk_count(data.len(), limit) ==> decode32(
                encode32(chunk_at(data, limit, i)),
            ) == Some(chunk_at(data, limit, i)),
        concat_chunks(
            Seq::new(
                chunk_count(data.len(), limit),
                |i: int| decode32(encode32(chunk_at(data, limit, i))).unwrap(),
            ),
        ) == data,
{
    let c = chunk_count(data.len(), limit);
    assert forall|i: int| 0 <= i < c implies decode32(encode32(chunk_at(data, limit, i)))
        == Some(chunk_at(data, limit, i)) by {
        lemma_codec_roundtrip(chunk_at(data, limit, i));
    }
    let decoded = Seq::new(c, |i: int| decode32(encode32(chunk_at(data, limit, i))).unwrap());
    assert(decoded =~= chunks_of(data, limit));
    lemma_chunks_concat(data, limit);
}

} // verus!
