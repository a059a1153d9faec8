//! Byte-level primitives shared by the two wire formats.
//!
//! Every field of a record is laid down by one of the `enc_*` spec
//! functions; the exec encoders produce exactly those bytes and the exec
//! decoders accept exactly them.  Each decoder's contract carries both
//! directions: what was consumed on success is the encoding of the
//! returned value, and wherever an encoding of some value starts at the
//! cursor, that value is returned.

use vstd::prelude::*;

verus! {

use vstd::utf8::{valid_utf8, decode_utf8, encode_utf8, encode_utf8_valid_utf8,
    encode_utf8_decode_utf8, decode_utf8_encode_utf8};
use vstd::string::StrSliceExecFns;

/// `part` occurs in `data` starting at position `pos`.
pub open spec fn starts_with(data: Seq<u8>, pos: int, part: Seq<u8>) -> bool {
    &&& 0 <= pos
    &&& pos + part.len() <= data.len()
    &&& data.subrange(pos, pos + part.len()) == part
}

/// Splitting a placement of `a + b` into placements of the two halves,
/// and joining them back.
pub proof fn lemma_parts(data: Seq<u8>, pos: int, a: Seq<u8>, b: Seq<u8>)
    requires
        0 <= pos,
    ensures
        starts_with(data, pos, a + b) <==> (starts_with(data, pos, a) && starts_with(
            data,
            pos + a.len(),
            b,
        )),
{
    if starts_with(data, pos, a + b) {
        assert forall|j: int| 0 <= j < a.len() implies data.subrange(pos, pos + a.len())[j]
            == a[j] by {
            assert(data.subrange(pos, pos + (a + b).len())[j] == (a + b)[j]);
        }
        assert(data.subrange(pos, pos + a.len()) =~= a);
        assert forall|k: int| 0 <= k < b.len() implies data.subrange(
            pos + a.len(),
            pos + a.len() + b.len(),
        )[k] == b[k] by {
            assert(data.subrange(pos, pos + (a + b).len())[a.len() + k] == (a + b)[a.len() + k]);
            assert((a + b)[a.len() + k] == b[k]);
        }
        assert(data.subrange(pos + a.len(), pos + a.len() + b.len()) =~= b);
    }
    if starts_with(data, pos, a) && starts_with(data, pos + a.len(), b) {
        assert(data.subrange(pos, pos + a.len() + b.len()) =~= a + b);
    }
}

/// A 64-bit unsigned integer as eight little-endian bytes.
pub open spec fn enc_u64(v: u64) -> Seq<u8> {
    seq![
        (v & 0xff) as u8,
        ((v >> 8) & 0xff) as u8,
        ((v >> 16) & 0xff) as u8,
        ((v >> 24) & 0xff) as u8,
        ((v >> 32) & 0xff) as u8,
        ((v >> 40) & 0xff) as u8,
        ((v >> 48) & 0xff) as u8,
        ((v >> 56) & 0xff) as u8,
    ]
}

/// A boolean as one byte, `0` or `1`.
pub open spec fn enc_bool(b: bool) -> Seq<u8> {
    seq![if b { 1u8 } else { 0u8 }]
}

/// A signed 64-bit integer as a sign byte followed by the magnitude:
/// `0` and `v` itself when non-negative, `1` and `-1 - v` otherwise.
pub open spec fn enc_i64(v: i64) -> Seq<u8> {
    if v >= 0 {
        seq![0u8] + enc_u64(v as u64)
    } else {
        seq![1u8] + enc_u64((-1 - v) as u64)
    }
}

/// A byte string as its length followed by the bytes themselves.
pub open spec fn enc_bytes(b: Seq<u8>) -> Seq<u8> {
    enc_u64(b.len() as u64) + b
}

/// A character string as its UTF-8 bytes, length-prefixed.
pub open spec fn enc_str(s: Seq<char>) -> Seq<u8> {
    enc_bytes(encode_utf8(s))
}

/// The concatenation of `f` applied to each element of `s` in order.
pub open spec fn concat_map<T>(s: Seq<T>, f: spec_fn(T) -> Seq<u8>) -> Seq<u8>
    decreases s.len(),
{
    if s.len() == 0 {
        Seq::empty()
    } else {
        f(s[0]) + concat_map(s.drop_first(), f)
    }
}

pub proof fn lemma_concat_map_split<T>(s: Seq<T>, f: spec_fn(T) -> Seq<u8>, i: int)
    requires
        0 <= i < s.len(),
    ensures
        concat_map(s, f) == concat_map(s.take(i), f) + f(s[i]) + concat_map(
            s.skip(i + 1),
            f,
        ),
    decreases i,
{
    if i == 0 {
        assert(s.take(0) =~= Seq::<T>::empty());
        assert(s.skip(1) =~= s.drop_first());
        assert(concat_map(s.take(0), f) + f(s[0]) + concat_map(s.skip(1), f) =~= f(s[0])
            + concat_map(s.drop_first(), f));
    } else {
        let t = s.drop_first();
        lemma_concat_map_split(t, f, i - 1);
        assert(t.take(i - 1) =~= s.take(i).drop_first());
        assert(t.skip(i) =~= s.skip(i + 1));
        assert(t[i - 1] == s[i]);
        assert(concat_map(s, f) == f(s[0]) + concat_map(t, f));
        assert(concat_map(s.take(i), f) == f(s[0]) + concat_map(s.take(i).drop_first(), f));
        assert(f(s[0]) + (concat_map(t.take(i - 1), f) + f(t[i - 1]) + concat_map(t.skip(i), f))
            =~= (f(s[0]) + concat_map(t.take(i - 1), f)) + f(s[i]) + concat_map(s.skip(i + 1), f));
    }
}

/// Appending one element extends the concatenation at the right.
pub proof fn lemma_concat_map_push<T>(s: Seq<T>, f: spec_fn(T) -> Seq<u8>, x: T)
    ensures
        concat_map(s.push(x), f) == concat_map(s, f) + f(x),
{
    let sp = s.push(x);
    lemma_concat_map_split(sp, f, s.len() as int);
    assert(sp.take(s.len() as int) =~= s);
    assert(sp.skip(s.len() as int + 1) =~= Seq::<T>::empty());
    assert(concat_map(s, f) + f(x) + Seq::<u8>::empty() =~= concat_map(s, f) + f(x));
}

/// When every element encodes to at least one byte, the concatenation is
/// at least as long as the list.
pub proof fn lemma_concat_map_min_len<T>(s: Seq<T>, f: spec_fn(T) -> Seq<u8>)
    requires
        forall|x: T| (#[trigger] f(x)).len() >= 1,
    ensures
        concat_map(s, f).len() >= s.len(),
    decreases s.len(),
{
    if s.len() > 0 {
        lemma_concat_map_min_len(s.drop_first(), f);
    }
}

/// Appends the little-endian bytes of `v`.
pub fn push_u64(out: &mut Vec<u8>, v: u64)
    ensures
        final(out)@ == old(out)@ + enc_u64(v),
{
    proof {
        assert(v & 0xff < 256 && (v >> 8) & 0xff < 256 && (v >> 16) & 0xff < 256 && (v >> 24)
            & 0xff < 256 && (v >> 32) & 0xff < 256 && (v >> 40) & 0xff < 256 && (v >> 48) & 0xff
            < 256 && (v >> 56) & 0xff < 256) by (bit_vector);
    }
    out.push((v & 0xff) as u8);
    out.push(((v >> 8) & 0xff) as u8);
    out.push(((v >> 16) & 0xff) as u8);
    out.push(((v >> 24) & 0xff) as u8);
    out.push(((v >> 32) & 0xff) as u8);
    out.push(((v >> 40) & 0xff) as u8);
    out.push(((v >> 48) & 0xff) as u8);
    out.push(((v >> 56) & 0xff) as u8);
    proof {
        assert(final(out)@ =~= old(out)@ + enc_u64(v));
    }
}

/// Appends the one-byte encoding of `b`.
pub fn push_bool(out: &mut Vec<u8>, b: bool)
    ensures
        final(out)@ == old(out)@ + enc_bool(b),
{
    out.push(if b { 1u8 } else { 0u8 });
    proof {
        assert(final(out)@ =~= old(out)@ + enc_bool(b));
    }
}

/// Appends the sign-and-magnitude encoding of `v`.
pub fn push_i64(out: &mut Vec<u8>, v: i64)
    ensures
        final(out)@ == old(out)@ + enc_i64(v),
{
    if v >= 0 {
        out.push(0u8);
        push_u64(out, v as u64);
        proof {
            assert(final(out)@ =~= old(out)@ + enc_i64(v));
        }
    } else {
        let mag: i64 = -(v + 1);
        out.push(1u8);
        push_u64(out, mag as u64);
        proof {
            assert(final(out)@ =~= old(out)@ + enc_i64(v));
        }
    }
}

/// Appends the length-prefixed encoding of `b`.
pub fn push_bytes(out: &mut Vec<u8>, b: &[u8])
    ensures
        final(out)@ == old(out)@ + enc_bytes(b@),
{
    push_u64(out, b.len() as u64);
    let ghost mid = out@;
    let mut i: usize = 0;
    while i < b.len()
        invariant
            i <= b@.len(),
            out@ == mid + b@.take(i as int),
        decreases b@.len() - i,
    {
        out.push(b[i]);
        proof {
            assert(mid + b@.take(i as int) + seq![b@[i as int]] =~= mid + b@.take(i + 1));
        }
        i += 1;
    }
    proof {
        assert(b@.take(b@.len() as int) =~= b@);
        assert(out@ =~= old(out)@ + enc_bytes(b@));
    }
}

/// Appends the length-prefixed UTF-8 encoding of `s`.
pub fn push_str(out: &mut Vec<u8>, s: &str)
    ensures
        final(out)@ == old(out)@ + enc_str(s@),
{
    let bv = s.as_bytes_vec();
    push_bytes(out, bv.as_slice());
}

/// Reads eight little-endian bytes at `pos` as a 64-bit integer.
pub fn dec_u64(data: &[u8], pos: &mut usize) -> (r: Option<u64>)
    requires
        *old(pos) <= data@.len(),
    ensures
        r matches Some(v) ==> *final(pos) == *old(pos) + 8 && starts_with(
            data@,
            *old(pos) as int,
            enc_u64(v),
        ),
        forall|u: u64|
            starts_with(data@, *old(pos) as int, #[trigger] enc_u64(u)) ==> r == Some(u)
                && *final(pos) == *old(pos) + 8,
        r is None ==> *final(pos) == *old(pos),
{
    if data.len() - *pos < 8 {
        return None;
    }
    let p = *pos;
    let b0 = data[p];
    let b1 = data[p + 1];
    let b2 = data[p + 2];
    let b3 = data[p + 3];
    let b4 = data[p + 4];
    let b5 = data[p + 5];
    let b6 = data[p + 6];
    let b7 = data[p + 7];
    let v = (b0 as u64) | ((b1 as u64) << 8) | ((b2 as u64) << 16) | ((b3 as u64) << 24) | ((
    b4 as u64) << 32) | ((b5 as u64) << 40) | ((b6 as u64) << 48) | ((b7 as u64) << 56);
    proof {
        assert((v & 0xff) as u8 == b0 && ((v >> 8) & 0xff) as u8 == b1 && ((v >> 16) & 0xff) as u8
            == b2 && ((v >> 24) & 0xff) as u8 == b3 && ((v >> 32) & 0xff) as u8 == b4 && ((v >> 40)
            & 0xff) as u8 == b5 && ((v >> 48) & 0xff) as u8 == b6 && ((v >> 56) & 0xff) as u8 == b7)
            by (bit_vector)
            requires
                v == (b0 as u64) | ((b1 as u64) << 8) | ((b2 as u64) << 16) | ((b3 as u64) << 24)
                    | ((b4 as u64) << 32) | ((b5 as u64) << 40) | ((b6 as u64) << 48) | ((
                b7 as u64) << 56),
        ;
        assert(data@.subrange(p as int, p + 8) =~= enc_u64(v));
        assert forall|u: u64| starts_with(data@, p as int, #[trigger] enc_u64(u)) implies u
            == v by {
            assert(enc_u64(u) == enc_u64(v));
            assert((u & 0xff) as u8 == (v & 0xff) as u8 && ((u >> 8) & 0xff) as u8 == ((v >> 8)
                & 0xff) as u8 && ((u >> 16) & 0xff) as u8 == ((v >> 16) & 0xff) as u8 && ((u >> 24)
                & 0xff) as u8 == ((v >> 24) & 0xff) as u8 && ((u >> 32) & 0xff) as u8 == ((v >> 32)
                & 0xff) as u8 && ((u >> 40) & 0xff) as u8 == ((v >> 40) & 0xff) as u8 && ((u >> 48)
                & 0xff) as u8 == ((v >> 48) & 0xff) as u8 && ((u >> 56) & 0xff) as u8 == ((v >> 56)
                & 0xff) as u8);
            assert(u == v) by (bit_vector)
                requires
                    (u & 0xff) as u8 == (v & 0xff) as u8 && ((u >> 8) & 0xff) as u8 == ((v >> 8)
                        & 0xff) as u8 && ((u >> 16) & 0xff) as u8 == ((v >> 16) & 0xff) as u8 && ((
                    u >> 24) & 0xff) as u8 == ((v >> 24) & 0xff) as u8 && ((u >> 32) & 0xff) as u8
                        == ((v >> 32) & 0xff) as u8 && ((u >> 40) & 0xff) as u8 == ((v >> 40)
                        & 0xff) as u8 && ((u >> 48) & 0xff) as u8 == ((v >> 48) & 0xff) as u8 && ((
                    u >> 56) & 0xff) as u8 == ((v >> 56) & 0xff) as u8,
            ;
        }
    }
    *pos = p + 8;
    Some(v)
}

/// Reads one byte at `pos` as a boolean; bytes other than `0` and `1`
/// are rejected.
pub fn dec_bool(data: &[u8], pos: &mut usize) -> (r: Option<bool>)
    requires
        *old(pos) <= data@.len(),
    ensures
        r matches Some(v) ==> *final(pos) == *old(pos) + 1 && starts_with(
            data@,
            *old(pos) as int,
            enc_bool(v),
        ),
        forall|u: bool|
            starts_with(data@, *old(pos) as int, #[trigger] enc_bool(u)) ==> r == Some(u)
                && *final(pos) == *old(pos) + 1,
{
    if data.len() - *pos < 1 {
        return None;
    }
    let b = data[*pos];
    proof {
        if b == 0 {
            assert(data@.subrange(*pos as int, *pos + 1) =~= enc_bool(false));
        }
        if b == 1 {
            assert(data@.subrange(*pos as int, *pos + 1) =~= enc_bool(true));
        }
        assert forall|u: bool| starts_with(data@, *old(pos) as int, #[trigger] enc_bool(u)) implies b
            == (if u { 1u8 } else { 0u8 }) by {
            assert(data@.subrange(*old(pos) as int, *old(pos) + 1)[0] == enc_bool(u)[0]);
        }
    }
    if b == 0 {
        *pos = *pos + 1;
        Some(false)
    } else if b == 1 {
        *pos = *pos + 1;
        Some(true)
    } else {
        None
    }
}

/// Reads a sign byte and magnitude at `pos` as a signed integer.
pub fn dec_i64(data: &[u8], pos: &mut usize) -> (r: Option<i64>)
    requires
        *old(pos) <= data@.len(),
    ensures
        r matches Some(v) ==> *final(pos) == *old(pos) + 9 && starts_with(
            data@,
            *old(pos) as int,
            enc_i64(v),
        ),
        forall|u: i64|
            starts_with(data@, *old(pos) as int, #[trigger] enc_i64(u)) ==> r == Some(u)
                && *final(pos) == *old(pos) + 9,
{
    let ghost p0 = *pos as int;
    if data.len() - *pos < 1 {
        return None;
    }
    let tag = data[*pos];
    if tag > 1 {
        proof {
            assert forall|u: i64| !starts_with(data@, p0, #[trigger] enc_i64(u)) by {
                if starts_with(data@, p0, enc_i64(u)) {
                    assert(data@.subrange(p0, p0 + enc_i64(u).len() as int)[0] == enc_i64(u)[0]);
                }
            }
        }
        return None;
    }
    let mut q = *pos + 1;
    let r = dec_u64(data, &mut q);
    proof {
        assert forall|u: i64|
            starts_with(data@, p0, #[trigger] enc_i64(u)) implies starts_with(
            data@,
            p0 + 1,
            enc_u64(if u >= 0 { u as u64 } else { (-1 - u) as u64 }),
        ) && (if u >= 0 { 0u8 } else { 1u8 }) == tag by {
            let mag: u64 = if u >= 0 { u as u64 } else { (-1 - u) as u64 };
            let sign: u8 = if u >= 0 { 0u8 } else { 1u8 };
            assert(enc_i64(u) == seq![sign] + enc_u64(mag));
            lemma_parts(data@, p0, seq![sign], enc_u64(mag));
            assert(data@.subrange(p0, p0 + 1)[0] == seq![sign][0]);
        }
    }
    match r {
        None => None,
        Some(mag) => {
            if mag > 0x7fff_ffff_ffff_ffff {
                proof {
                    assert forall|u: i64| !starts_with(data@, p0, #[trigger] enc_i64(u)) by {
                        if starts_with(data@, p0, enc_i64(u)) {
                            let m: u64 = if u >= 0 { u as u64 } else { (-1 - u) as u64 };
                            assert(starts_with(data@, p0 + 1, enc_u64(m)));
                            assert(m == mag);
                        }
                    }
                }
                None
            } else {
                let v: i64 = if tag == 0 {
                    mag as i64
                } else {
                    -(mag as i64) - 1
                };
                proof {
                    assert(starts_with(data@, p0, enc_i64(v))) by {
                        let m: u64 = if v >= 0 { v as u64 } else { (-1 - v) as u64 };
                        let sign: u8 = if v >= 0 { 0u8 } else { 1u8 };
                        assert(m == mag && sign == tag);
                        assert(enc_i64(v) == seq![sign] + enc_u64(m));
                        lemma_parts(data@, p0, seq![sign], enc_u64(m));
                        assert(data@.subrange(p0, p0 + 1) =~= seq![tag]);
                    }
                    assert forall|u: i64| starts_with(data@, p0, #[trigger] enc_i64(u)) implies u
                        == v by {
                        let m: u64 = if u >= 0 { u as u64 } else { (-1 - u) as u64 };
                        assert(starts_with(data@, p0 + 1, enc_u64(m)));
                        assert(m == mag);
                        assert((if u >= 0 { 0u8 } else { 1u8 }) == tag);
                    }
                }
                *pos = q;
                Some(v)
            }
        },
    }
}

/// Reads a length-prefixed byte string at `pos`.
pub fn dec_bytes(data: &[u8], pos: &mut usize) -> (r: Option<Vec<u8>>)
    requires
        *old(pos) <= data@.len(),
    ensures
        r matches Some(v) ==> *final(pos) == *old(pos) + enc_bytes(v@).len() && starts_with(
            data@,
            *old(pos) as int,
            enc_bytes(v@),
        ),
        forall|bm: Seq<u8>|
            starts_with(data@, *old(pos) as int, #[trigger] enc_bytes(bm)) ==> (r matches Some(v)
                && v@ == bm && *final(pos) == *old(pos) + enc_bytes(bm).len()),
{
    let ghost p0 = *pos as int;
    let mut q = *pos;
    let n = match dec_u64(data, &mut q) {
        None => {
            proof {
                assert forall|bm: Seq<u8>| !starts_with(data@, p0, #[trigger] enc_bytes(bm)) by {
                    if starts_with(data@, p0, enc_bytes(bm)) {
                        lemma_parts(data@, p0, enc_u64(bm.len() as u64), bm);
                    }
                }
            }
            return None;
        },
        Some(n) => n,
    };
    proof {
        assert forall|bm: Seq<u8>|
            starts_with(data@, p0, #[trigger] enc_bytes(bm)) implies bm.len() as u64 == n
            && starts_with(data@, p0 + 8, bm) by {
            lemma_parts(data@, p0, enc_u64(bm.len() as u64), bm);
        }
    }
    if n > (data.len() - q) as u64 {
        proof {
            assert forall|bm: Seq<u8>| !starts_with(data@, p0, #[trigger] enc_bytes(bm)) by {
                if starts_with(data@, p0, enc_bytes(bm)) {
                    assert(p0 + 8 + bm.len() <= data@.len());
                }
            }
        }
        return None;
    }
    let n_us = n as usize;
    let dlen = data.len();
    let mut out: Vec<u8> = Vec::new();
    let mut i: usize = 0;
    while i < n_us
        invariant
            i <= n_us,
            n_us == n,
            q + n_us <= dlen,
            dlen == data@.len(),
            out@ == data@.subrange(q as int, q + i),
        decreases n_us - i,
    {
        out.push(data[q + i]);
        proof {
            assert(data@.subrange(q as int, q + i).push(data@[q + i]) =~= data@.subrange(
                q as int,
                q + i + 1,
            ));
        }
        i += 1;
    }
    proof {
        assert(starts_with(data@, p0, enc_bytes(out@))) by {
            assert(out@.len() == n);
            lemma_parts(data@, p0, enc_u64(n), out@);
        }
        assert forall|bm: Seq<u8>| starts_with(data@, p0, #[trigger] enc_bytes(bm)) implies bm
            == out@ by {
            assert(bm.len() == n);
            assert(bm =~= data@.subrange(p0 + 8, p0 + 8 + n));
        }
    }
    *pos = q + n_us;
    Some(out)
}

/// Relies on `String::from_utf8` of std: it returns the string whose
/// UTF-8 encoding is the given bytes, and fails exactly when the bytes
/// are not valid UTF-8.
#[verifier::external_body]
pub(crate) fn string_from_utf8(b: Vec<u8>) -> (r: Option<String>)
    ensures
        r matches Some(s) ==> valid_utf8(b@) && s@ == decode_utf8(b@),
        r is None ==> !valid_utf8(b@),
{
    String::from_utf8(b).ok()
}

/// Reads a length-prefixed UTF-8 string at `pos`.
pub fn dec_string(data: &[u8], pos: &mut usize) -> (r: Option<String>)
    requires
        *old(pos) <= data@.len(),
    ensures
        r matches Some(v) ==> *final(pos) == *old(pos) + enc_str(v@).len() && starts_with(
            data@,
            *old(pos) as int,
            enc_str(v@),
        ),
        forall|sm: Seq<char>|
            starts_with(data@, *old(pos) as int, #[trigger] enc_str(sm)) ==> (r matches Some(v)
                && v@ == sm && *final(pos) == *old(pos) + enc_str(sm).len()),
{
    let ghost p0 = *pos as int;
    let mut q = *pos;
    let b = match dec_bytes(data, &mut q) {
        None => {
            return None;
        },
        Some(b) => b,
    };
    let ghost bs = b@;
    let s = match string_from_utf8(b) {
        None => {
            proof {
                assert forall|sm: Seq<char>|
                    !starts_with(data@, p0, #[trigger] enc_str(sm)) by {
                    if starts_with(data@, p0, enc_str(sm)) {
                        assert(bs == encode_utf8(sm));
                        encode_utf8_valid_utf8(sm);
                    }
                }
            }
            return None;
        },
        Some(s) => s,
    };
    proof {
        decode_utf8_encode_utf8(bs);
        assert(encode_utf8(s@) == bs);
        assert forall|sm: Seq<char>| starts_with(data@, p0, #[trigger] enc_str(sm)) implies sm
            == s@ by {
            assert(bs == encode_utf8(sm));
            encode_utf8_decode_utf8(sm);
        }
    }
    *pos = q;
    Some(s)
}

} // verus!
