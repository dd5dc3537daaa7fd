//! Decoding undoes encoding.
//!
//! The frame of a value decodes to that value, with two provisos: `Null`
//! and an absent array are written like an absent text, which is what they
//! come back as; and a length that does not fit in 64 bits cannot be
//! declared. `portable` names the values that neither touches.

use crate::decimal::{
    decimal, lemma_decimal_text_bytes, lemma_parse_signed_decimal, signed_decimal,
};
use crate::order::{keys_ascend, sorts_before};
use crate::sorted::lemma_insert_greatest;
use crate::value::SpecValue;
use crate::wire::{
    canonical_items, canonical_number, canonical_pairs, canonical_value, crlf, crlf_at, decode,
    decode_items, decode_pairs, decode_value, encode_absent, encode_bool, encode_bulk,
    encode_count, encode_int, encode_items, encode_pairs, encode_simple, encode_text, encode_value,
    has_crlf, lemma_decode_advances, lemma_first_crlf, lemma_first_crlf_is, read_count,
    read_header, read_line, read_number, SpecError, COLON, CR, DOLLAR, HASH, LF, PERCENT, PLUS,
    STAR,
};
use vstd::prelude::*;
use vstd::utf8::*;

verus! {

/// The bytes `t` stand in `s` at `pos`.
pub open spec fn holds_at(s: Seq<u8>, pos: int, t: Seq<u8>) -> bool {
    &&& 0 <= pos
    &&& pos + t.len() <= s.len()
    &&& forall|j: int| 0 <= j < t.len() ==> s[pos + j] == #[trigger] t[j]
}

/// Where `a` followed by `b` stands, `a` stands, and `b` right after it.
pub proof fn lemma_holds_split(s: Seq<u8>, pos: int, a: Seq<u8>, b: Seq<u8>)
    requires
        holds_at(s, pos, a + b),
    ensures
        holds_at(s, pos, a),
        holds_at(s, pos + a.len(), b),
{
    assert forall|j: int| 0 <= j < a.len() implies s[pos + j] == #[trigger] a[j] by {
        assert((a + b)[j] == a[j]);
    }
    assert forall|j: int| 0 <= j < b.len() implies s[pos + a.len() + j] == #[trigger] b[j] by {
        assert((a + b)[a.len() + j] == b[j]);
    }
}

/// A byte string without a carriage return holds no CRLF.
pub proof fn lemma_no_cr_no_crlf(t: Seq<u8>)
    requires
        forall|j: int| 0 <= j < t.len() ==> (#[trigger] t[j]) != CR,
    ensures
        !has_crlf(t),
{
    lemma_first_crlf(t, 0);
}

/// Where a line without a CRLF inside stands with its CRLF, that line is
/// read.
pub proof fn lemma_line_at(s: Seq<u8>, pos: int, body: Seq<u8>)
    requires
        holds_at(s, pos, body + crlf()),
        !has_crlf(body),
    ensures
        read_line(s, pos) == Ok::<(Seq<u8>, int), SpecError>((body, pos + body.len() + 2)),
{
    let at = pos + body.len();
    lemma_holds_split(s, pos, body, crlf());
    assert(crlf()[0] == CR && crlf()[1] == LF);
    assert(crlf_at(s, at));
    lemma_first_crlf(body, 0);
    assert forall|j: int| pos <= j < at implies !crlf_at(s, j) by {
        if crlf_at(s, j) {
            assert(s[j] == body[j - pos]);
            if j + 1 < at {
                assert(s[j + 1] == body[j + 1 - pos]);
                assert(crlf_at(body, j - pos));
            }
        }
    }
    lemma_first_crlf_is(s, pos, at);
    assert(s.subrange(pos, at) =~= body);
}

/// Where the decimal text of `i` stands with its CRLF, `i` is read.
pub proof fn lemma_number_at(s: Seq<u8>, pos: int, i: i64)
    requires
        holds_at(s, pos, signed_decimal(i as int) + crlf()),
    ensures
        read_number(s, pos) == Ok::<(i64, int), SpecError>(
            (i, pos + signed_decimal(i as int).len() + 2),
        ),
        canonical_number(s, pos),
{
    let text = signed_decimal(i as int);
    lemma_parse_signed_decimal(i);
    lemma_decimal_text_bytes(text);
    lemma_no_cr_no_crlf(text);
    lemma_line_at(s, pos, text);
}

/// A value that the format carries unchanged: one without `Null` or an
/// absent array, which are written as an absent text, and whose texts,
/// arrays and mappings each have a length that a frame can declare.
pub open spec fn portable(v: SpecValue) -> bool
    decreases v,
{
    match v {
        SpecValue::Int(_) => true,
        SpecValue::Bool(_) => true,
        SpecValue::Text(Some(t)) => encode_utf8(t).len() <= i64::MAX,
        SpecValue::Text(None) => true,
        SpecValue::Array(Some(items)) => items.len() <= i64::MAX && forall|i: int|
            0 <= i < items.len() ==> portable(#[trigger] items[i]),
        SpecValue::Array(None) => false,
        SpecValue::Mapping(pairs) => pairs.len() <= i64::MAX && forall|i: int|
            0 <= i < pairs.len() ==> portable((#[trigger] pairs[i]).0) && portable(pairs[i].1),
        SpecValue::Null => false,
    }
}

/// The frames of the first `k` items are the start of the frames of the
/// first `n`.
pub proof fn lemma_encode_items_prefix(items: Seq<SpecValue>, k: int, n: int)
    requires
        0 <= k <= n <= items.len(),
    ensures
        encode_items(items, k).len() <= encode_items(items, n).len(),
        encode_items(items, n).subrange(0, encode_items(items, k).len() as int) == encode_items(
            items,
            k,
        ),
    decreases n - k,
{
    if k < n {
        lemma_encode_items_prefix(items, k, n - 1);
        let a = encode_items(items, n - 1);
        let b = encode_value(items[n - 1]);
        assert(encode_items(items, n) == a + b);
        assert((a + b).subrange(0, encode_items(items, k).len() as int) =~= a.subrange(
            0,
            encode_items(items, k).len() as int,
        ));
    } else {
        assert(encode_items(items, n).subrange(0, encode_items(items, n).len() as int)
            =~= encode_items(items, n));
    }
}

/// The frames of the first `k` pairs are the start of the frames of the
/// first `n`.
pub proof fn lemma_encode_pairs_prefix(pairs: Seq<(SpecValue, SpecValue)>, k: int, n: int)
    requires
        0 <= k <= n <= pairs.len(),
    ensures
        encode_pairs(pairs, k).len() <= encode_pairs(pairs, n).len(),
        encode_pairs(pairs, n).subrange(0, encode_pairs(pairs, k).len() as int) == encode_pairs(
            pairs,
            k,
        ),
    decreases n - k,
{
    if k < n {
        lemma_encode_pairs_prefix(pairs, k, n - 1);
        let a = encode_pairs(pairs, n - 1);
        let b = encode_value(pairs[n - 1].0) + encode_value(pairs[n - 1].1);
        assert(encode_pairs(pairs, n) =~= a + b);
        assert((a + b).subrange(0, encode_pairs(pairs, k).len() as int) =~= a.subrange(
            0,
            encode_pairs(pairs, k).len() as int,
        ));
    } else {
        assert(encode_pairs(pairs, n).subrange(0, encode_pairs(pairs, n).len() as int)
            =~= encode_pairs(pairs, n));
    }
}

/// Where the frames of `items` stand from `base` on, the frame of item `k`
/// stands after the frames of the items before it.
pub proof fn lemma_item_frame_at(s: Seq<u8>, base: int, items: Seq<SpecValue>, k: int)
    requires
        0 <= k < items.len(),
        holds_at(s, base, encode_items(items, items.len() as int)),
    ensures
        holds_at(s, base + encode_items(items, k).len(), encode_value(items[k])),
        encode_items(items, k + 1) == encode_items(items, k) + encode_value(items[k]),
{
    let whole = encode_items(items, items.len() as int);
    let done = encode_items(items, k);
    let frame = encode_value(items[k]);
    lemma_encode_items_prefix(items, k + 1, items.len() as int);
    assert(whole.subrange(0, (done + frame).len() as int) == done + frame);
    assert forall|j: int| 0 <= j < frame.len() implies s[base + done.len() + j]
        == #[trigger] frame[j] by {
        assert(whole.subrange(0, (done + frame).len() as int)[done.len() + j] == whole[done.len()
            + j]);
        assert((done + frame)[done.len() + j] == frame[j]);
        assert(s[base + (done.len() + j)] == whole[done.len() + j]);
    }
}

/// Where the frames of `pairs` stand from `base` on, the frames of the key
/// and the value of pair `k` stand after the frames of the pairs before it.
pub proof fn lemma_pair_frames_at(
    s: Seq<u8>,
    base: int,
    pairs: Seq<(SpecValue, SpecValue)>,
    k: int,
)
    requires
        0 <= k < pairs.len(),
        holds_at(s, base, encode_pairs(pairs, pairs.len() as int)),
    ensures
        holds_at(s, base + encode_pairs(pairs, k).len(), encode_value(pairs[k].0)),
        holds_at(
            s,
            base + encode_pairs(pairs, k).len() + encode_value(pairs[k].0).len(),
            encode_value(pairs[k].1),
        ),
        encode_pairs(pairs, k + 1) == encode_pairs(pairs, k) + encode_value(pairs[k].0)
            + encode_value(pairs[k].1),
{
    let whole = encode_pairs(pairs, pairs.len() as int);
    let done = encode_pairs(pairs, k);
    let frame = encode_value(pairs[k].0) + encode_value(pairs[k].1);
    lemma_encode_pairs_prefix(pairs, k + 1, pairs.len() as int);
    assert(encode_pairs(pairs, k + 1) =~= done + frame);
    assert(whole.subrange(0, (done + frame).len() as int) == done + frame);
    assert forall|j: int| 0 <= j < frame.len() implies s[base + done.len() + j]
        == #[trigger] frame[j] by {
        assert(whole.subrange(0, (done + frame).len() as int)[done.len() + j] == whole[done.len()
            + j]);
        assert((done + frame)[done.len() + j] == frame[j]);
        assert(s[base + (done.len() + j)] == whole[done.len() + j]);
    }
    lemma_holds_split(s, base + done.len(), encode_value(pairs[k].0), encode_value(pairs[k].1));
}

/// Where the frame of an integer stands, that integer is read.
pub proof fn lemma_int_at(s: Seq<u8>, pos: int, i: i64)
    requires
        holds_at(s, pos, encode_int(i)),
    ensures
        decode_value(s, pos) == Ok::<(SpecValue, int), SpecError>(
            (SpecValue::Int(i), pos + encode_int(i).len()),
        ),
        canonical_value(s, pos),
{
    let text = signed_decimal(i as int);
    assert(encode_int(i) =~= seq![COLON] + (text + crlf()));
    lemma_holds_split(s, pos, seq![COLON], text + crlf());
    assert(s[pos] == seq![COLON][0]);
    lemma_number_at(s, pos + 1, i);
}

/// Where the frame of a boolean stands, that boolean is read.
pub proof fn lemma_bool_at(s: Seq<u8>, pos: int, b: bool)
    requires
        holds_at(s, pos, encode_bool(b)),
    ensures
        decode_value(s, pos) == Ok::<(SpecValue, int), SpecError>(
            (SpecValue::Bool(b), pos + encode_bool(b).len()),
        ),
        canonical_value(s, pos),
{
    let letter: u8 = if b {
        116
    } else {
        102
    };
    let body = seq![letter];
    assert(encode_bool(b) =~= seq![HASH] + (body + crlf()));
    lemma_holds_split(s, pos, seq![HASH], body + crlf());
    assert(s[pos] == seq![HASH][0]);
    lemma_no_cr_no_crlf(body);
    lemma_line_at(s, pos + 1, body);
    assert(seq![116u8][0] != seq![102u8][0]);
}

/// Where the frame of an absent value stands, an absent text is read.
pub proof fn lemma_absent_at(s: Seq<u8>, pos: int)
    requires
        holds_at(s, pos, encode_absent()),
    ensures
        decode_value(s, pos) == Ok::<(SpecValue, int), SpecError>(
            (SpecValue::Text(None), pos + encode_absent().len()),
        ),
        canonical_value(s, pos),
{
    let text = signed_decimal(-1int);
    assert(decimal(1) =~= seq![49u8]);
    assert(text =~= seq![45u8, 49u8]);
    assert(encode_absent() =~= seq![DOLLAR] + (text + crlf()));
    lemma_holds_split(s, pos, seq![DOLLAR], text + crlf());
    assert(s[pos] == seq![DOLLAR][0]);
    lemma_number_at(s, pos + 1, -1i64);
}

/// Where the header of `n` entries stands, the count `n` is read.
pub proof fn lemma_count_at(s: Seq<u8>, pos: int, sigil: u8, n: nat)
    requires
        holds_at(s, pos, encode_count(sigil, n)),
        n <= i64::MAX,
    ensures
        s[pos] == sigil,
        read_count(s, pos + 1) == Ok::<(nat, int), SpecError>(
            (n, pos + encode_count(sigil, n).len()),
        ),
        read_header(s, pos, sigil) == Ok::<(nat, int), SpecError>(
            (n, pos + encode_count(sigil, n).len()),
        ),
        canonical_number(s, pos + 1),
{
    let text = signed_decimal(n as int);
    assert(encode_count(sigil, n) =~= seq![sigil] + (text + crlf()));
    lemma_holds_split(s, pos, seq![sigil], text + crlf());
    assert(s[pos] == seq![sigil][0]);
    lemma_number_at(s, pos + 1, n as i64);
}

/// Where the frame of a text stands, that text is read.
pub proof fn lemma_text_at(s: Seq<u8>, pos: int, t: Seq<char>)
    requires
        holds_at(s, pos, encode_text(encode_utf8(t))),
        encode_utf8(t).len() <= i64::MAX,
    ensures
        decode_value(s, pos) == Ok::<(SpecValue, int), SpecError>(
            (SpecValue::Text(Some(t)), pos + encode_text(encode_utf8(t)).len()),
        ),
        canonical_value(s, pos),
{
    let bytes = encode_utf8(t);
    encode_utf8_valid_utf8(t);
    encode_utf8_decode_utf8(t);
    if has_crlf(bytes) {
        let n = bytes.len();
        let text = signed_decimal(n as int);
        let head = seq![DOLLAR] + (text + crlf());
        assert(encode_bulk(bytes) =~= head + (bytes + crlf()));
        lemma_holds_split(s, pos, head, bytes + crlf());
        lemma_holds_split(s, pos, seq![DOLLAR], text + crlf());
        assert(s[pos] == seq![DOLLAR][0]);
        lemma_number_at(s, pos + 1, n as i64);
        let start = pos + head.len();
        lemma_holds_split(s, start, bytes, crlf());
        assert(crlf()[0] == CR && crlf()[1] == LF);
        assert(crlf_at(s, start + n));
        assert(s.subrange(start, start + n) =~= bytes);
    } else {
        assert(encode_simple(bytes) =~= seq![PLUS] + (bytes + crlf()));
        lemma_holds_split(s, pos, seq![PLUS], bytes + crlf());
        assert(s[pos] == seq![PLUS][0]);
        lemma_line_at(s, pos + 1, bytes);
    }
}

/// Decoding undoes encoding, wherever the frame stands: where the frame of
/// a well-formed, portable value stands in a buffer, that value is read, up
/// to the end of the frame. And that frame is canonical.
pub proof fn lemma_decode_at(s: Seq<u8>, pos: int, v: SpecValue)
    requires
        v.wf(),
        portable(v),
        holds_at(s, pos, encode_value(v)),
    ensures
        decode_value(s, pos) == Ok::<(SpecValue, int), SpecError>(
            (v, pos + encode_value(v).len()),
        ),
        canonical_value(s, pos),
    decreases v, 0nat,
{
    match v {
        SpecValue::Int(i) => {
            lemma_int_at(s, pos, i);
        },
        SpecValue::Bool(b) => {
            lemma_bool_at(s, pos, b);
        },
        SpecValue::Text(Some(t)) => {
            lemma_text_at(s, pos, t);
        },
        SpecValue::Text(None) => {
            lemma_absent_at(s, pos);
        },
        SpecValue::Array(Some(items)) => {
            let n = items.len();
            let head = encode_count(STAR, n);
            let body = encode_items(items, n as int);
            lemma_holds_split(s, pos, head, body);
            lemma_count_at(s, pos, STAR, n);
            lemma_items_at(s, pos + head.len(), items, 0);
            assert(items.take(0) =~= Seq::<SpecValue>::empty());
        },
        SpecValue::Mapping(pairs) => {
            let n = pairs.len();
            let head = encode_count(PERCENT, n);
            let body = encode_pairs(pairs, n as int);
            lemma_holds_split(s, pos, head, body);
            lemma_count_at(s, pos, PERCENT, n);
            lemma_pairs_at(s, pos + head.len(), pairs, 0);
            assert(pairs.take(0) =~= Seq::<(SpecValue, SpecValue)>::empty());
        },
        _ => {},
    }
}

/// Where the frames of `items` stand from `base` on, reading on after the
/// first `k` of them gives all of them.
pub proof fn lemma_items_at(s: Seq<u8>, base: int, items: Seq<SpecValue>, k: int)
    requires
        0 <= k <= items.len(),
        forall|i: int| 0 <= i < items.len() ==> (#[trigger] items[i]).wf(),
        forall|i: int| 0 <= i < items.len() ==> portable(#[trigger] items[i]),
        holds_at(s, base, encode_items(items, items.len() as int)),
    ensures
        decode_items(
            s,
            base + encode_items(items, k).len(),
            (items.len() - k) as nat,
            items.take(k),
        ) == Ok::<(Seq<SpecValue>, int), SpecError>(
            (items, base + encode_items(items, items.len() as int).len()),
        ),
        canonical_items(s, base + encode_items(items, k).len(), (items.len() - k) as nat),
    decreases items, items.len() - k,
{
    let n = items.len() as int;
    if k == n {
        assert(items.take(k) =~= items);
    } else {
        let at = base + encode_items(items, k).len();
        lemma_item_frame_at(s, base, items, k);
        lemma_decode_at(s, at, items[k]);
        lemma_decode_advances(s, at);
        lemma_items_at(s, base, items, k + 1);
        assert(items.take(k).push(items[k]) =~= items.take(k + 1));
    }
}

/// Where the frames of the ascending `pairs` stand from `base` on, reading
/// on after the first `k` of them gives all of them.
pub proof fn lemma_pairs_at(s: Seq<u8>, base: int, pairs: Seq<(SpecValue, SpecValue)>, k: int)
    requires
        0 <= k <= pairs.len(),
        keys_ascend(pairs),
        forall|i: int| 0 <= i < pairs.len() ==> (#[trigger] pairs[i]).0.wf() && pairs[i].1.wf(),
        forall|i: int|
            0 <= i < pairs.len() ==> portable((#[trigger] pairs[i]).0) && portable(pairs[i].1),
        holds_at(s, base, encode_pairs(pairs, pairs.len() as int)),
    ensures
        decode_pairs(
            s,
            base + encode_pairs(pairs, k).len(),
            (pairs.len() - k) as nat,
            pairs.take(k),
        ) == Ok::<(Seq<(SpecValue, SpecValue)>, int), SpecError>(
            (pairs, base + encode_pairs(pairs, pairs.len() as int).len()),
        ),
        canonical_pairs(
            s,
            base + encode_pairs(pairs, k).len(),
            (pairs.len() - k) as nat,
            if k > 0 {
                Some(pairs[k - 1].0)
            } else {
                None
            },
        ),
    decreases pairs, pairs.len() - k,
{
    let n = pairs.len() as int;
    if k == n {
        assert(pairs.take(k) =~= pairs);
    } else {
        let at = base + encode_pairs(pairs, k).len();
        let mid = at + encode_value(pairs[k].0).len();
        lemma_pair_frames_at(s, base, pairs, k);
        lemma_decode_at(s, at, pairs[k].0);
        lemma_decode_advances(s, at);
        lemma_decode_at(s, mid, pairs[k].1);
        lemma_decode_advances(s, mid);
        assert forall|j: int| 0 <= j < pairs.take(k).len() implies sorts_before(
            (#[trigger] pairs.take(k)[j]).0,
            pairs[k].0,
        ) by {
            assert(pairs.take(k)[j] == pairs[j]);
        }
        lemma_insert_greatest(pairs.take(k), pairs[k].0, pairs[k].1);
        assert(pairs.take(k).push(pairs[k]) =~= pairs.take(k + 1));
        lemma_pairs_at(s, base, pairs, k + 1);
    }
}

/// Decoding undoes encoding: the frame of a well-formed, portable value
/// decodes to that value. And that frame is canonical.
pub proof fn lemma_decode_encode(v: SpecValue)
    requires
        v.wf(),
        portable(v),
    ensures
        decode(encode_value(v)) == Ok::<SpecValue, SpecError>(v),
        canonical_value(encode_value(v), 0),
{
    lemma_decode_at(encode_value(v), 0, v);
}

/// A text that holds a CRLF is written as a bulk frame, never as a line:
/// its frame starts with `$` and declares the length of the text.
pub proof fn lemma_crlf_text_is_bulk(t: Seq<char>)
    requires
        has_crlf(encode_utf8(t)),
    ensures
        encode_value(SpecValue::Text(Some(t))) == encode_bulk(encode_utf8(t)),
        encode_value(SpecValue::Text(Some(t)))[0] == DOLLAR,
{
}

/// An absent text is written as `$-1` and its CRLF, and that frame decodes
/// to an absent text.
pub proof fn lemma_absent_round_trips()
    ensures
        encode_value(SpecValue::Text(None)) == seq![36u8, 45u8, 49u8, 13u8, 10u8],
        decode(seq![36u8, 45u8, 49u8, 13u8, 10u8]) == Ok::<SpecValue, SpecError>(
            SpecValue::Text(None),
        ),
{
    assert(encode_absent() =~= seq![36u8, 45u8, 49u8, 13u8, 10u8]);
    lemma_decode_encode(SpecValue::Text(None));
}

/// An absent array and `Null` are written as an absent text is, so what is
/// written of them decodes to an absent text: the frame keeps no trace of
/// which of the three it was.
pub proof fn lemma_absent_forms()
    ensures
        encode_value(SpecValue::Array(None)) == encode_value(SpecValue::Text(None)),
        encode_value(SpecValue::Null) == encode_value(SpecValue::Text(None)),
        decode(encode_value(SpecValue::Array(None))) == Ok::<SpecValue, SpecError>(
            SpecValue::Text(None),
        ),
        decode(encode_value(SpecValue::Null)) == Ok::<SpecValue, SpecError>(SpecValue::Text(None)),
{
    lemma_decode_encode(SpecValue::Text(None));
}

} // verus!
