//! Encoding undoes decoding on canonical frames.
//!
//! The decoder reads more than the encoder writes, so a frame need not be
//! the frame of the value it decodes to. It is if it is canonical, and the
//! frames that the encoder writes are.

use crate::decimal::{decimal, signed_decimal};
use crate::order::keys_ascend;
use crate::sorted::lemma_insert_after_last;
use crate::value::SpecValue;
use crate::wire::{
    canonical_items, canonical_number, canonical_pairs, canonical_value, crlf, crlf_at, decode,
    decode_items, decode_pairs, decode_value, encode_absent, encode_bool, encode_bulk,
    encode_count, encode_int, encode_items, encode_pairs, encode_simple, encode_value, first_crlf,
    has_crlf, lemma_decode_advances, lemma_first_crlf, parse_bool, read_count, read_line,
    read_number, read_payload, COLON, DOLLAR, HASH, PERCENT, PLUS, STAR,
};
use vstd::prelude::*;
use vstd::utf8::*;

verus! {

/// A line that was read holds no CRLF, and its CRLF follows it.
proof fn lemma_line_read(s: Seq<u8>, pos: int)
    requires
        0 <= pos,
        read_line(s, pos) is Ok,
    ensures
        ({
            let (line, next) = read_line(s, pos)->Ok_0;
            &&& pos + line.len() + 2 == next
            &&& next <= s.len()
            &&& !has_crlf(line)
            &&& s.subrange(pos, next) == line + crlf()
        }),
{
    let (line, next) = read_line(s, pos)->Ok_0;
    let at = first_crlf(s, pos)->0;
    lemma_first_crlf(s, pos);
    lemma_first_crlf(line, 0);
    if has_crlf(line) {
        let k = first_crlf(line, 0)->0;
        assert(crlf_at(line, k));
        assert(line[k] == s[pos + k] && line[k + 1] == s[pos + k + 1]);
        assert(crlf_at(s, pos + k));
    }
    assert(s.subrange(pos, next) =~= line + crlf());
}

/// A canonical decimal line is the decimal text of the number read.
proof fn lemma_number_read(s: Seq<u8>, pos: int)
    requires
        0 <= pos,
        canonical_number(s, pos),
    ensures
        read_number(s, pos) is Ok,
        ({
            let (n, next) = read_number(s, pos)->Ok_0;
            &&& pos < next <= s.len()
            &&& s.subrange(pos, next) == signed_decimal(n as int) + crlf()
        }),
{
    lemma_line_read(s, pos);
}

/// The integer read from a canonical frame is written as that frame.
proof fn lemma_int_encoded(s: Seq<u8>, pos: int)
    requires
        0 <= pos < s.len(),
        s[pos] == COLON,
        canonical_number(s, pos + 1),
    ensures
        decode_value(s, pos) is Ok,
        encode_value(decode_value(s, pos)->Ok_0.0) == s.subrange(
            pos,
            decode_value(s, pos)->Ok_0.1,
        ),
{
    lemma_number_read(s, pos + 1);
    let (n, end) = read_number(s, pos + 1)->Ok_0;
    assert(s.subrange(pos, end) =~= seq![COLON] + s.subrange(pos + 1, end));
    assert(encode_int(n) =~= seq![COLON] + (signed_decimal(n as int) + crlf()));
}

/// The text read from a line is written as that line.
proof fn lemma_simple_encoded(s: Seq<u8>, pos: int)
    requires
        0 <= pos < s.len(),
        s[pos] == PLUS,
        decode_value(s, pos) is Ok,
    ensures
        encode_value(decode_value(s, pos)->Ok_0.0) == s.subrange(
            pos,
            decode_value(s, pos)->Ok_0.1,
        ),
{
    lemma_line_read(s, pos + 1);
    let (line, end) = read_line(s, pos + 1)->Ok_0;
    decode_utf8_encode_utf8(line);
    assert(s.subrange(pos, end) =~= seq![PLUS] + s.subrange(pos + 1, end));
    assert(encode_simple(line) =~= seq![PLUS] + (line + crlf()));
}

/// The boolean read from a frame is written as that frame.
proof fn lemma_bool_encoded(s: Seq<u8>, pos: int)
    requires
        0 <= pos < s.len(),
        s[pos] == HASH,
        decode_value(s, pos) is Ok,
    ensures
        encode_value(decode_value(s, pos)->Ok_0.0) == s.subrange(
            pos,
            decode_value(s, pos)->Ok_0.1,
        ),
{
    lemma_line_read(s, pos + 1);
    let (line, end) = read_line(s, pos + 1)->Ok_0;
    let b = parse_bool(line)->0;
    assert(s.subrange(pos, end) =~= seq![HASH] + s.subrange(pos + 1, end));
    assert(encode_bool(b) =~= seq![HASH] + (line + crlf()));
}

/// What is read from a canonical bulk frame is written as that frame.
proof fn lemma_bulk_encoded(s: Seq<u8>, pos: int)
    requires
        0 <= pos < s.len(),
        s[pos] == DOLLAR,
        canonical_value(s, pos),
        decode_value(s, pos) is Ok,
    ensures
        encode_value(decode_value(s, pos)->Ok_0.0) == s.subrange(
            pos,
            decode_value(s, pos)->Ok_0.1,
        ),
{
    lemma_number_read(s, pos + 1);
    let (n, start) = read_number(s, pos + 1)->Ok_0;
    let head = seq![DOLLAR] + (signed_decimal(n as int) + crlf());
    assert(s.subrange(pos, start) =~= head);
    if n == -1 {
        assert(decimal(1) =~= seq![49u8]);
        assert(encode_absent() =~= head);
    } else {
        let (bytes, end) = read_payload(s, start, n as nat)->Ok_0;
        decode_utf8_encode_utf8(bytes);
        assert(signed_decimal(n as int) == decimal(n as nat));
        assert(crlf_at(s, start + n));
        assert(s.subrange(start, end) =~= bytes + crlf());
        assert(s.subrange(pos, end) =~= head + (bytes + crlf()));
        assert(encode_bulk(bytes) =~= head + (bytes + crlf()));
    }
}

/// A header and the frames after it add up to the frame of the whole.
proof fn lemma_header_frames(s: Seq<u8>, pos: int, start: int, end: int, n: nat, sigil: u8)
    requires
        0 <= pos < start <= end <= s.len(),
        s[pos] == sigil,
        s.subrange(pos + 1, start) == signed_decimal(n as int) + crlf(),
    ensures
        s.subrange(pos, end) == encode_count(sigil, n) + s.subrange(start, end),
{
    assert(signed_decimal(n as int) == decimal(n));
    assert(s.subrange(pos, end) =~= seq![sigil] + s.subrange(pos + 1, start) + s.subrange(
        start,
        end,
    ));
    assert(encode_count(sigil, n) =~= seq![sigil] + (signed_decimal(n as int) + crlf()));
}

/// Encoding undoes decoding on canonical frames: the value read from a
/// canonical frame is written as the very bytes of that frame.
pub proof fn lemma_encode_decoded(s: Seq<u8>, pos: int)
    requires
        canonical_value(s, pos),
        decode_value(s, pos) is Ok,
    ensures
        ({
            let (v, next) = decode_value(s, pos)->Ok_0;
            &&& pos < next <= s.len()
            &&& encode_value(v) == s.subrange(pos, next)
        }),
    decreases s.len() - pos, 0nat,
{
    lemma_decode_advances(s, pos);
    if s[pos] == STAR {
        lemma_number_read(s, pos + 1);
        let (n, start) = read_count(s, pos + 1)->Ok_0;
        let (items, end) = decode_items(s, start, n, Seq::empty())->Ok_0;
        lemma_items_encoded(s, start, n, Seq::empty());
        assert(encode_items(items, 0) =~= Seq::<u8>::empty());
        assert(encode_items(items, items.len() as int) =~= s.subrange(start, end));
        lemma_header_frames(s, pos, start, end, n, STAR);
    } else if s[pos] == PERCENT {
        lemma_number_read(s, pos + 1);
        let (n, start) = read_count(s, pos + 1)->Ok_0;
        let (pairs, end) = decode_pairs(s, start, n, Seq::empty())->Ok_0;
        lemma_pairs_encoded(s, start, n, Seq::empty(), None);
        assert(encode_pairs(pairs, 0) =~= Seq::<u8>::empty());
        assert(encode_pairs(pairs, pairs.len() as int) =~= s.subrange(start, end));
        lemma_header_frames(s, pos, start, end, n, PERCENT);
    } else if s[pos] == DOLLAR {
        lemma_bulk_encoded(s, pos);
    } else if s[pos] == COLON {
        lemma_int_encoded(s, pos);
    } else if s[pos] == PLUS {
        lemma_simple_encoded(s, pos);
    } else if s[pos] == HASH {
        lemma_bool_encoded(s, pos);
    }
}

/// The values read from canonical frames after `acc` are written as the
/// very bytes of those frames.
pub proof fn lemma_items_encoded(s: Seq<u8>, pos: int, n: nat, acc: Seq<SpecValue>)
    requires
        0 <= pos <= s.len(),
        canonical_items(s, pos, n),
        decode_items(s, pos, n, acc) is Ok,
    ensures
        ({
            let (items, end) = decode_items(s, pos, n, acc)->Ok_0;
            &&& pos <= end <= s.len()
            &&& items.len() == acc.len() + n
            &&& items.take(acc.len() as int) == acc
            &&& encode_items(items, items.len() as int) == encode_items(items, acc.len() as int)
                + s.subrange(pos, end)
        }),
    decreases s.len() - pos, n + 1,
{
    let (items, end) = decode_items(s, pos, n, acc)->Ok_0;
    if n == 0 {
        assert(items.take(acc.len() as int) =~= acc);
        assert(encode_items(items, items.len() as int) =~= encode_items(items, acc.len() as int)
            + s.subrange(pos, end));
    } else {
        let (v, next) = decode_value(s, pos)->Ok_0;
        lemma_encode_decoded(s, pos);
        lemma_items_encoded(s, next, (n - 1) as nat, acc.push(v));
        let k = acc.len() as int;
        assert(items.take(k + 1)[k] == v);
        assert(items.take(k) =~= items.take(k + 1).take(k));
        assert(acc.push(v).take(k) =~= acc);
        assert(encode_items(items, k + 1) == encode_items(items, k) + encode_value(items[k]));
        assert(s.subrange(pos, end) =~= s.subrange(pos, next) + s.subrange(next, end));
        assert(encode_items(items, items.len() as int) =~= encode_items(items, k) + s.subrange(
            pos,
            end,
        ));
    }
}

/// The pairs read from canonical frames after the ascending `acc` are
/// `acc` and those pairs in the order of their frames, and are written as
/// the very bytes of those frames.
pub proof fn lemma_pairs_encoded(
    s: Seq<u8>,
    pos: int,
    n: nat,
    acc: Seq<(SpecValue, SpecValue)>,
    last: Option<SpecValue>,
)
    requires
        0 <= pos <= s.len(),
        keys_ascend(acc),
        last == if acc.len() > 0 {
            Some(acc.last().0)
        } else {
            None
        },
        canonical_pairs(s, pos, n, last),
        decode_pairs(s, pos, n, acc) is Ok,
    ensures
        ({
            let (pairs, end) = decode_pairs(s, pos, n, acc)->Ok_0;
            &&& pos <= end <= s.len()
            &&& pairs.len() == acc.len() + n
            &&& pairs.take(acc.len() as int) == acc
            &&& encode_pairs(pairs, pairs.len() as int) == encode_pairs(pairs, acc.len() as int)
                + s.subrange(pos, end)
        }),
    decreases s.len() - pos, n + 1,
{
    let (pairs, end) = decode_pairs(s, pos, n, acc)->Ok_0;
    if n == 0 {
        assert(pairs.take(acc.len() as int) =~= acc);
        assert(encode_pairs(pairs, pairs.len() as int) =~= encode_pairs(pairs, acc.len() as int)
            + s.subrange(pos, end));
    } else {
        let (key, mid) = decode_value(s, pos)->Ok_0;
        let (val, next) = decode_value(s, mid)->Ok_0;
        lemma_encode_decoded(s, pos);
        lemma_encode_decoded(s, mid);
        let k = acc.len() as int;
        let grown = acc.push((key, val));
        lemma_insert_after_last(acc, key, val);
        lemma_pairs_encoded(s, next, (n - 1) as nat, grown, Some(key));
        assert(pairs.take(k) == acc) by {
            assert(pairs.take(k + 1)[k] == (key, val));
            assert(pairs.take(k) =~= pairs.take(k + 1).take(k));
            assert(grown.take(k) =~= acc);
        }
        assert(pairs[k] == (key, val)) by {
            assert(pairs.take(k + 1)[k] == (key, val));
        }
        lemma_pairs_frames(
            encode_pairs(pairs, k),
            encode_pairs(pairs, k + 1),
            encode_pairs(pairs, pairs.len() as int),
            s,
            pos,
            mid,
            next,
            end,
        );
    }
}

/// Frames that stand one after the other in a buffer add up to the bytes
/// from the first offset to the last.
proof fn lemma_pairs_frames(
    before: Seq<u8>,
    with_pair: Seq<u8>,
    all: Seq<u8>,
    s: Seq<u8>,
    pos: int,
    mid: int,
    next: int,
    end: int,
)
    requires
        0 <= pos <= mid <= next <= end <= s.len(),
        with_pair == before + s.subrange(pos, mid) + s.subrange(mid, next),
        all == with_pair + s.subrange(next, end),
    ensures
        all == before + s.subrange(pos, end),
{
    assert(s.subrange(pos, end) =~= s.subrange(pos, mid) + s.subrange(mid, next) + s.subrange(
        next,
        end,
    ));
    assert(all =~= before + s.subrange(pos, end));
}

/// Encoding undoes decoding on canonical frames: a buffer that is one
/// canonical frame decodes to a value whose frame is that buffer.
pub proof fn lemma_encode_decode(s: Seq<u8>)
    requires
        canonical_value(s, 0),
        decode(s) is Ok,
    ensures
        encode_value(decode(s)->Ok_0) == s,
{
    lemma_encode_decoded(s, 0);
    assert(s.subrange(0, s.len() as int) =~= s);
}

} // verus!
