//! Building archive entries: the composite `"{post_ts}-{period}"` key.

use vstd::prelude::*;

verus! {

use vstd::utf8::{valid_utf8, decode_utf8, encode_utf8, is_ascii_chars, is_ascii_chars_encode_utf8,
    encode_utf8_valid_utf8, encode_utf8_decode_utf8};
use crate::bytes::string_from_utf8;
use crate::MktArchiveMsg;

/// The decimal digits of a non-negative number, as ASCII bytes.
pub open spec fn dec_bytes_of(n: int) -> Seq<u8>
    recommends
        n >= 0,
    decreases n,
{
    if n < 10 {
        seq![(48 + n) as u8]
    } else {
        dec_bytes_of(n / 10).push((48 + n % 10) as u8)
    }
}

/// A signed number in decimal, with a leading `'-'` when negative.
pub open spec fn signed_dec_bytes(v: int) -> Seq<u8> {
    if v >= 0 {
        dec_bytes_of(v)
    } else {
        seq![45u8] + dec_bytes_of(-v)
    }
}

/// The bytes of a composite key: publish time, separator, period.
pub open spec fn key_bytes(post_ts: int, period: int) -> Seq<u8> {
    signed_dec_bytes(post_ts) + seq![45u8] + signed_dec_bytes(period)
}

/// ASCII bytes read as characters.
pub open spec fn ascii_chars(b: Seq<u8>) -> Seq<char> {
    Seq::new(b.len(), |i: int| b[i] as char)
}

/// The characters of a composite key.
pub open spec fn key_chars(post_ts: int, period: int) -> Seq<char> {
    ascii_chars(key_bytes(post_ts, period))
}

proof fn lemma_dec_bytes_ascii(n: int)
    requires
        n >= 0,
    ensures
        forall|i: int|
            0 <= i < dec_bytes_of(n).len() ==> 48 <= #[trigger] dec_bytes_of(n)[i] <= 57,
    decreases n,
{
    if n >= 10 {
        lemma_dec_bytes_ascii(n / 10);
        assert forall|i: int|
            0 <= i < dec_bytes_of(n).len() implies 48 <= #[trigger] dec_bytes_of(n)[i] <= 57 by {
            if i < dec_bytes_of(n / 10).len() {
                assert(dec_bytes_of(n)[i] == dec_bytes_of(n / 10)[i]);
            } else {
                assert(dec_bytes_of(n)[i] == (48 + n % 10) as u8);
            }
        }
    }
}

proof fn lemma_key_bytes_ascii(post_ts: int, period: int)
    ensures
        forall|i: int|
            0 <= i < key_bytes(post_ts, period).len() ==> #[trigger] key_bytes(post_ts, period)[i]
                < 128,
{
    lemma_dec_bytes_ascii(if post_ts >= 0 {
        post_ts
    } else {
        -post_ts
    });
    lemma_dec_bytes_ascii(if period >= 0 {
        period
    } else {
        -period
    });
}

/// Bytes below 128 decode as themselves, character for character.
proof fn lemma_ascii_decode(b: Seq<u8>)
    requires
        forall|i: int| 0 <= i < b.len() ==> #[trigger] b[i] < 128,
    ensures
        valid_utf8(b),
        decode_utf8(b) == ascii_chars(b),
{
    let chars = ascii_chars(b);
    assert(is_ascii_chars(chars));
    is_ascii_chars_encode_utf8(chars);
    assert(encode_utf8(chars) =~= b);
    encode_utf8_valid_utf8(chars);
    encode_utf8_decode_utf8(chars);
}

/// Appends the decimal digits of `n`.
fn push_dec(out: &mut Vec<u8>, n: u64)
    ensures
        final(out)@ == old(out)@ + dec_bytes_of(n as int),
    decreases n,
{
    if n < 10 {
        out.push(48 + (n as u8));
        proof {
            assert(final(out)@ =~= old(out)@ + dec_bytes_of(n as int));
        }
    } else {
        push_dec(out, n / 10);
        out.push(48 + ((n % 10) as u8));
        proof {
            assert(final(out)@ =~= old(out)@ + dec_bytes_of(n as int));
        }
    }
}

/// Appends `v` in decimal, with a leading `'-'` when negative.
fn push_signed_dec(out: &mut Vec<u8>, v: i64)
    ensures
        final(out)@ == old(out)@ + signed_dec_bytes(v as int),
{
    if v >= 0 {
        push_dec(out, v as u64);
    } else {
        out.push(45);
        let mag: u64 = ((-(v + 1)) as u64) + 1;
        proof {
            assert(mag as int == -(v as int));
        }
        push_dec(out, mag);
        proof {
            assert(final(out)@ =~= old(out)@ + signed_dec_bytes(v as int));
        }
    }
}

impl MktArchiveMsg {
    /// Builds the entry the log stores: the composite key joins the
    /// publish time and the period with a separator, and the metric and
    /// payload are carried through unchanged.
    pub fn new(period: i64, post_ts: i64, info_count: u64, msg_content: Vec<u8>) -> (r:
        MktArchiveMsg)
        ensures
            r.key@ == key_chars(post_ts as int, period as int),
            r.info_count == info_count,
            r.msg_content == msg_content,
    {
        let mut kb: Vec<u8> = Vec::new();
        push_signed_dec(&mut kb, post_ts);
        kb.push(45);
        push_signed_dec(&mut kb, period);
        proof {
            assert(kb@ =~= key_bytes(post_ts as int, period as int));
            lemma_key_bytes_ascii(post_ts as int, period as int);
            lemma_ascii_decode(kb@);
        }
        let key = match string_from_utf8(kb) {
            Some(s) => s,
            None => {
                proof {
                    assert(false);
                }
                String::new()
            },
        };
        MktArchiveMsg { key, info_count, msg_content }
    }
}

} // verus!
