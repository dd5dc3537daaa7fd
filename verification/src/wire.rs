//! The wire format, as functions on byte sequences.
//!
//! One frame is one value. A frame starts with a sigil byte and is made of
//! lines that end in CRLF:
//!
//! ```text
//! +text CRLF                      simple text, no CRLF inside
//! $len CRLF len bytes CRLF        bulk text; $-1 CRLF is an absent value
//! :decimal CRLF                   signed 64-bit integer
//! #t CRLF  or  #f CRLF            boolean
//! *count CRLF value...            sequence
//! %count CRLF (key value)...      mapping
//! ```
//!
//! `encode_value` says which bytes a value is written as; `decode_value` says
//! what a buffer holds at an offset, or why it holds no value there.

use crate::decimal::{decimal, parse_decimal, signed_decimal};
use crate::order::{keys_ascend, sorts_before};
use crate::sorted::{insert_pair, lemma_insert_ascends, lemma_insert_keeps};
use crate::value::SpecValue;
use vstd::prelude::*;
use vstd::utf8::*;

verus! {

pub const PLUS: u8 = 43;

pub const DOLLAR: u8 = 36;

pub const COLON: u8 = 58;

pub const HASH: u8 = 35;

pub const STAR: u8 = 42;

pub const PERCENT: u8 = 37;

pub const CR: u8 = 13;

pub const LF: u8 = 10;

/// The line terminator.
pub open spec fn crlf() -> Seq<u8> {
    seq![CR, LF]
}

/// A CRLF starts at index `i` of `s`.
pub open spec fn crlf_at(s: Seq<u8>, i: int) -> bool {
    0 <= i && i + 1 < s.len() && s[i] == CR && s[i + 1] == LF
}

/// The index of the first CRLF of `s` that starts at `from` or later.
pub open spec fn first_crlf(s: Seq<u8>, from: int) -> Option<int>
    decreases s.len() - from,
{
    if from < 0 || from + 1 >= s.len() {
        None
    } else if crlf_at(s, from) {
        Some(from)
    } else {
        first_crlf(s, from + 1)
    }
}

/// `s` holds a CRLF.
pub open spec fn has_crlf(s: Seq<u8>) -> bool {
    first_crlf(s, 0) is Some
}

/// The index of the first CRLF of `input` that starts at `from` or later.
pub fn find_crlf(input: &[u8], from: usize) -> (r: Option<usize>)
    ensures
        match r {
            Some(at) => first_crlf(input@, from as int) == Some(at as int) && from <= at && at + 2
                <= input@.len(),
            None => first_crlf(input@, from as int) is None,
        },
{
    let len = input.len();
    if from >= len {
        return None;
    }
    let mut i: usize = from;
    while i + 1 < len
        invariant
            from <= i < len,
            len == input@.len(),
            first_crlf(input@, from as int) == first_crlf(input@, i as int),
        decreases len - i,
    {
        if input[i] == CR && input[i + 1] == LF {
            return Some(i);
        }
        i += 1;
    }
    None
}

/// Why a buffer holds no value at an offset. Offsets count bytes from the
/// start of the buffer.
pub enum SpecError {
    Custom(Seq<char>),
    TrailingCharacters(int),
    UnexpectedEof,
    Syntax(int),
    NegativeLength(int),
    ParseIntError(int),
    ExpectedArray(int),
    MissingValue(int),
}

/// What a scalar frame holds.
pub enum SpecScalar {
    /// The bytes of a simple or bulk text.
    Text(Seq<u8>),
    /// The absent value, written `$-1`.
    Absent,
    Int(i64),
    Bool(bool),
}

// ---------------------------------------------------------------------------
// Encoding
// ---------------------------------------------------------------------------
/// The frame of a boolean.
pub open spec fn encode_bool(b: bool) -> Seq<u8> {
    seq![
        HASH,
        if b {
            116u8
        } else {
            102u8
        },
    ] + crlf()
}

/// The frame of an integer.
pub open spec fn encode_int(i: i64) -> Seq<u8> {
    seq![COLON] + signed_decimal(i as int) + crlf()
}

/// A frame of one line: the sigil, the body, and a CRLF.
pub open spec fn encode_line(sigil: u8, body: Seq<u8>) -> Seq<u8> {
    seq![sigil] + body + crlf()
}

/// The simple frame of the text bytes `t`.
pub open spec fn encode_simple(t: Seq<u8>) -> Seq<u8> {
    encode_line(PLUS, t)
}

/// The bulk frame of the bytes `t`.
pub open spec fn encode_bulk(t: Seq<u8>) -> Seq<u8> {
    seq![DOLLAR] + decimal(t.len()) + crlf() + t + crlf()
}

/// The frame of a text with bytes `t`: bulk if `t` holds a CRLF, which a
/// simple frame would cut short, and simple otherwise.
pub open spec fn encode_text(t: Seq<u8>) -> Seq<u8> {
    if has_crlf(t) {
        encode_bulk(t)
    } else {
        encode_simple(t)
    }
}

/// The frame of an absent value.
pub open spec fn encode_absent() -> Seq<u8> {
    seq![DOLLAR, 45u8, 49u8, CR, LF]
}

/// The header of a sequence (`*`) or mapping (`%`) of `n` entries.
pub open spec fn encode_count(sigil: u8, n: nat) -> Seq<u8> {
    seq![sigil] + decimal(n) + crlf()
}

/// The frame of a value.
pub open spec fn encode_value(v: SpecValue) -> Seq<u8>
    decreases v, 0nat,
{
    match v {
        SpecValue::Int(i) => encode_int(i),
        SpecValue::Bool(b) => encode_bool(b),
        SpecValue::Text(Some(t)) => encode_text(encode_utf8(t)),
        SpecValue::Text(None) => encode_absent(),
        SpecValue::Array(Some(items)) => encode_count(STAR, items.len()) + encode_items(
            items,
            items.len() as int,
        ),
        SpecValue::Array(None) => encode_absent(),
        SpecValue::Mapping(pairs) => encode_count(PERCENT, pairs.len()) + encode_pairs(
            pairs,
            pairs.len() as int,
        ),
        SpecValue::Null => encode_absent(),
    }
}

/// The frames of the first `n` of `items`, one after the other.
pub open spec fn encode_items(items: Seq<SpecValue>, n: int) -> Seq<u8>
    decreases items, n,
{
    if n <= 0 || n > items.len() {
        Seq::empty()
    } else {
        encode_items(items, n - 1) + encode_value(items[n - 1])
    }
}

/// The frames of the first `n` of `pairs`, each key followed by its value.
pub open spec fn encode_pairs(pairs: Seq<(SpecValue, SpecValue)>, n: int) -> Seq<u8>
    decreases pairs, n,
{
    if n <= 0 || n > pairs.len() {
        Seq::empty()
    } else {
        encode_pairs(pairs, n - 1) + encode_value(pairs[n - 1].0) + encode_value(pairs[n - 1].1)
    }
}

// ---------------------------------------------------------------------------
// Decoding
// ---------------------------------------------------------------------------
/// The line that starts at `pos`, without its CRLF, and the offset after
/// that CRLF.
pub open spec fn read_line(s: Seq<u8>, pos: int) -> Result<(Seq<u8>, int), SpecError> {
    match first_crlf(s, pos) {
        Some(end) => Ok((s.subrange(pos, end), end + 2)),
        None => Err(SpecError::UnexpectedEof),
    }
}

/// The decimal line that starts at `pos`.
pub open spec fn read_number(s: Seq<u8>, pos: int) -> Result<(i64, int), SpecError> {
    match read_line(s, pos) {
        Ok((line, next)) => match parse_decimal(line) {
            Some(n) => Ok((n, next)),
            None => Err(SpecError::ParseIntError(pos)),
        },
        Err(e) => Err(e),
    }
}

/// The count declared on the line that starts at `pos`. A negative number
/// is no count.
pub open spec fn read_count(s: Seq<u8>, pos: int) -> Result<(nat, int), SpecError> {
    match read_number(s, pos) {
        Ok((n, next)) => if n < 0 {
            Err(SpecError::NegativeLength(pos))
        } else {
            Ok((n as nat, next))
        },
        Err(e) => Err(e),
    }
}

/// The `n` bytes at `pos` and the offset after the CRLF that must follow
/// them.
pub open spec fn read_payload(s: Seq<u8>, pos: int, n: nat) -> Result<(Seq<u8>, int), SpecError> {
    if pos + n > s.len() {
        Err(SpecError::UnexpectedEof)
    } else if !crlf_at(s, pos + n) {
        Err(SpecError::Syntax(pos + n))
    } else {
        Ok((s.subrange(pos, pos + n), pos + n + 2))
    }
}

/// The body of a bulk frame whose length line starts at `pos`: the payload,
/// or nothing where the declared length is `-1`.
pub open spec fn read_bulk(s: Seq<u8>, pos: int) -> Result<(Option<Seq<u8>>, int), SpecError> {
    match read_number(s, pos) {
        Ok((n, next)) => if n == -1 {
            Ok((None, next))
        } else if n < 0 {
            Err(SpecError::NegativeLength(pos))
        } else {
            match read_payload(s, next, n as nat) {
                Ok((bytes, end)) => Ok((Some(bytes), end)),
                Err(e) => Err(e),
            }
        },
        Err(e) => Err(e),
    }
}

/// The boolean that the line `line` denotes.
pub open spec fn parse_bool(line: Seq<u8>) -> Option<bool> {
    if line == seq![116u8] {
        Some(true)
    } else if line == seq![102u8] {
        Some(false)
    } else {
        None
    }
}

/// The scalar frame at `pos`: a simple or bulk text, an absent value, an
/// integer or a boolean.
pub open spec fn read_scalar(s: Seq<u8>, pos: int) -> Result<(SpecScalar, int), SpecError> {
    if pos < 0 || pos >= s.len() {
        Err(SpecError::UnexpectedEof)
    } else if s[pos] == PLUS {
        match read_line(s, pos + 1) {
            Ok((line, next)) => Ok((SpecScalar::Text(line), next)),
            Err(e) => Err(e),
        }
    } else if s[pos] == DOLLAR {
        match read_bulk(s, pos + 1) {
            Ok((Some(bytes), next)) => Ok((SpecScalar::Text(bytes), next)),
            Ok((None, next)) => Ok((SpecScalar::Absent, next)),
            Err(e) => Err(e),
        }
    } else if s[pos] == COLON {
        match read_number(s, pos + 1) {
            Ok((n, next)) => Ok((SpecScalar::Int(n), next)),
            Err(e) => Err(e),
        }
    } else if s[pos] == HASH {
        match read_line(s, pos + 1) {
            Ok((line, next)) => match parse_bool(line) {
                Some(b) => Ok((SpecScalar::Bool(b), next)),
                None => Err(SpecError::Syntax(pos + 1)),
            },
            Err(e) => Err(e),
        }
    } else {
        Err(SpecError::Syntax(pos + 1))
    }
}

/// The scalar frame at `pos` where a value must be present: a simple or
/// bulk text, an integer or a boolean. The mark of an absent value declares
/// the length `-1` where a length is required, which is a negative length
/// at the offset of the declaration.
pub open spec fn read_present(s: Seq<u8>, pos: int) -> Result<(SpecScalar, int), SpecError> {
    match read_scalar(s, pos) {
        Ok((SpecScalar::Absent, _)) => Err(SpecError::NegativeLength(pos + 1)),
        other => other,
    }
}

/// The count of a sequence or mapping whose frame, with sigil `sigil`,
/// starts at `pos`.
pub open spec fn read_header(s: Seq<u8>, pos: int, sigil: u8) -> Result<(nat, int), SpecError> {
    if pos < 0 || pos >= s.len() {
        Err(SpecError::UnexpectedEof)
    } else if s[pos] != sigil {
        Err(SpecError::ExpectedArray(pos + 1))
    } else {
        read_count(s, pos + 1)
    }
}

/// The value that a scalar stands for. `first` is the offset of a text's
/// first byte: a text that is not UTF-8 is a syntax error there.
pub open spec fn scalar_value(scalar: SpecScalar, first: int) -> Result<SpecValue, SpecError> {
    match scalar {
        SpecScalar::Text(bytes) => if valid_utf8(bytes) {
            Ok(SpecValue::Text(Some(decode_utf8(bytes))))
        } else {
            Err(SpecError::Syntax(first))
        },
        SpecScalar::Absent => Ok(SpecValue::Text(None)),
        SpecScalar::Int(i) => Ok(SpecValue::Int(i)),
        SpecScalar::Bool(b) => Ok(SpecValue::Bool(b)),
    }
}

/// The offset of the first byte of the text `scalar`, read up to `next`.
pub open spec fn text_start(scalar: SpecScalar, next: int) -> int {
    match scalar {
        SpecScalar::Text(bytes) => next - 2 - bytes.len(),
        _ => next,
    }
}

/// The value whose frame starts at `pos`, and the offset after that frame.
///
/// A frame is never empty, so each line and each value read moves the
/// offset forward; the tests on `next` below say so to make the recursion
/// end, and never fail (see `lemma_sequence_frame`, `lemma_mapping_frame`,
/// `lemma_items_step` and `lemma_pairs_step`).
pub open spec fn decode_value(s: Seq<u8>, pos: int) -> Result<(SpecValue, int), SpecError>
    decreases s.len() - pos, 0nat,
{
    if pos < 0 || pos >= s.len() {
        Err(SpecError::UnexpectedEof)
    } else if s[pos] == STAR {
        match read_count(s, pos + 1) {
            Ok((n, next)) => if pos < next <= s.len() {
                match decode_items(s, next, n, Seq::empty()) {
                    Ok((items, end)) => Ok((SpecValue::Array(Some(items)), end)),
                    Err(e) => Err(e),
                }
            } else {
                Err(SpecError::UnexpectedEof)
            },
            Err(e) => Err(e),
        }
    } else if s[pos] == PERCENT {
        match read_count(s, pos + 1) {
            Ok((n, next)) => if pos < next <= s.len() {
                match decode_pairs(s, next, n, Seq::empty()) {
                    Ok((pairs, end)) => Ok((SpecValue::Mapping(pairs), end)),
                    Err(e) => Err(e),
                }
            } else {
                Err(SpecError::UnexpectedEof)
            },
            Err(e) => Err(e),
        }
    } else {
        match read_scalar(s, pos) {
            Ok((scalar, next)) => match scalar_value(scalar, text_start(scalar, next)) {
                Ok(v) => Ok((v, next)),
                Err(e) => Err(e),
            },
            Err(e) => Err(e),
        }
    }
}

/// `acc` followed by the `n` values whose frames start at `pos`, and the
/// offset after the last of them.
pub open spec fn decode_items(s: Seq<u8>, pos: int, n: nat, acc: Seq<SpecValue>) -> Result<
    (Seq<SpecValue>, int),
    SpecError,
>
    decreases s.len() - pos, n + 1,
{
    if n == 0 {
        Ok((acc, pos))
    } else {
        match decode_value(s, pos) {
            Ok((v, next)) => if pos < next <= s.len() {
                decode_items(s, next, (n - 1) as nat, acc.push(v))
            } else {
                Err(SpecError::UnexpectedEof)
            },
            Err(e) => Err(e),
        }
    }
}

/// `acc` with the `n` key/value pairs whose frames start at `pos` put in,
/// one after the other, and the offset after the last of them. A pair put in
/// under a key that is already there takes that key's place. A key with no
/// byte after it has no value.
pub open spec fn decode_pairs(
    s: Seq<u8>,
    pos: int,
    n: nat,
    acc: Seq<(SpecValue, SpecValue)>,
) -> Result<(Seq<(SpecValue, SpecValue)>, int), SpecError>
    decreases s.len() - pos, n + 1,
{
    if n == 0 {
        Ok((acc, pos))
    } else {
        match decode_value(s, pos) {
            Ok((key, mid)) => if mid <= pos {
                Err(SpecError::UnexpectedEof)
            } else if mid >= s.len() {
                Err(SpecError::MissingValue(mid))
            } else {
                match decode_value(s, mid) {
                    Ok((val, next)) => if mid < next <= s.len() {
                        decode_pairs(s, next, (n - 1) as nat, insert_pair(acc, key, val))
                    } else {
                        Err(SpecError::UnexpectedEof)
                    },
                    Err(e) => Err(e),
                }
            },
            Err(e) => Err(e),
        }
    }
}

/// The one value that the buffer `s` holds from its first byte to its last.
pub open spec fn decode(s: Seq<u8>) -> Result<SpecValue, SpecError> {
    match decode_value(s, 0) {
        Ok((v, end)) => if end == s.len() {
            Ok(v)
        } else {
            Err(SpecError::TrailingCharacters(end))
        },
        Err(e) => Err(e),
    }
}

// ---------------------------------------------------------------------------
// Canonical frames
// ---------------------------------------------------------------------------
// The decoder reads more than the encoder writes: numbers with leading
// zeros, bulk frames of texts that a line would hold, mappings whose keys
// come in any order. The frames that the encoder writes are the canonical
// ones.
/// The decimal line at `pos` is the decimal text of its number: no leading
/// zeros, and no sign before a zero.
pub open spec fn canonical_number(s: Seq<u8>, pos: int) -> bool {
    match read_line(s, pos) {
        Ok((line, next)) => match parse_decimal(line) {
            Some(n) => line == signed_decimal(n as int),
            None => false,
        },
        Err(_) => false,
    }
}

/// The frame at `pos` is canonical: its numbers are canonical, a bulk frame
/// holds a text with a CRLF or is the absent value, and in a mapping each
/// key sorts after the key before it. The frames inside it are canonical
/// too.
pub open spec fn canonical_value(s: Seq<u8>, pos: int) -> bool
    decreases s.len() - pos, 0nat,
{
    if pos < 0 || pos >= s.len() {
        false
    } else if s[pos] == STAR {
        canonical_number(s, pos + 1) && match read_count(s, pos + 1) {
            Ok((n, next)) => pos < next <= s.len() && canonical_items(s, next, n),
            Err(_) => false,
        }
    } else if s[pos] == PERCENT {
        canonical_number(s, pos + 1) && match read_count(s, pos + 1) {
            Ok((n, next)) => pos < next <= s.len() && canonical_pairs(s, next, n, None),
            Err(_) => false,
        }
    } else if s[pos] == DOLLAR {
        canonical_number(s, pos + 1) && match read_bulk(s, pos + 1) {
            Ok((Some(bytes), next)) => has_crlf(bytes),
            Ok((None, next)) => true,
            Err(_) => false,
        }
    } else if s[pos] == COLON {
        canonical_number(s, pos + 1)
    } else {
        true
    }
}

/// The `n` frames from `pos` on are canonical.
pub open spec fn canonical_items(s: Seq<u8>, pos: int, n: nat) -> bool
    decreases s.len() - pos, n + 1,
{
    n == 0 || (canonical_value(s, pos) && match decode_value(s, pos) {
        Ok((v, next)) => pos < next <= s.len() && canonical_items(s, next, (n - 1) as nat),
        Err(_) => false,
    })
}

/// The frames of the `n` pairs from `pos` on are canonical, and their keys
/// ascend, the first of them sorting after `last` if there is one.
pub open spec fn canonical_pairs(s: Seq<u8>, pos: int, n: nat, last: Option<SpecValue>) -> bool
    decreases s.len() - pos, n + 1,
{
    n == 0 || (canonical_value(s, pos) && match decode_value(s, pos) {
        Ok((key, mid)) => {
            &&& pos < mid < s.len()
            &&& last matches Some(before) ==> sorts_before(before, key)
            &&& canonical_value(s, mid)
            &&& match decode_value(s, mid) {
                Ok((val, next)) => mid < next <= s.len() && canonical_pairs(
                    s,
                    next,
                    (n - 1) as nat,
                    Some(key),
                ),
                Err(_) => false,
            }
        },
        Err(_) => false,
    })
}

// ---------------------------------------------------------------------------
// What holds of decoding
// ---------------------------------------------------------------------------
/// The first CRLF from `from` on, if there is one, is a CRLF, lies at `from`
/// or later, and has no CRLF between `from` and itself; if there is none,
/// no CRLF starts at `from` or later.
pub proof fn lemma_first_crlf(s: Seq<u8>, from: int)
    requires
        0 <= from,
    ensures
        match first_crlf(s, from) {
            Some(at) => {
                &&& from <= at
                &&& crlf_at(s, at)
                &&& forall|j: int| from <= j < at ==> !crlf_at(s, j)
            },
            None => forall|j: int| from <= j ==> !crlf_at(s, j),
        },
    decreases s.len() - from,
{
    if from + 1 < s.len() && !crlf_at(s, from) {
        lemma_first_crlf(s, from + 1);
    }
}

/// A CRLF at `at` with none between `from` and `at` is the first from
/// `from` on.
pub proof fn lemma_first_crlf_is(s: Seq<u8>, from: int, at: int)
    requires
        0 <= from <= at,
        crlf_at(s, at),
        forall|j: int| from <= j < at ==> !crlf_at(s, j),
    ensures
        first_crlf(s, from) == Some(at),
    decreases at - from,
{
    if from < at {
        lemma_first_crlf_is(s, from + 1, at);
    }
}

/// Every line read, with its CRLF, moves the offset forward and stays
/// within the buffer.
pub proof fn lemma_line_advances(s: Seq<u8>, pos: int)
    requires
        0 <= pos,
    ensures
        read_line(s, pos) matches Ok((line, next)) ==> pos + 2 <= next <= s.len() && next == pos
            + line.len() + 2,
        read_number(s, pos) matches Ok((n, next)) ==> pos + 2 <= next <= s.len(),
        read_count(s, pos) matches Ok((n, next)) ==> pos + 2 <= next <= s.len(),
{
    lemma_first_crlf(s, pos);
}

/// Every value read moves the offset forward and stays within the buffer.
pub proof fn lemma_decode_advances(s: Seq<u8>, pos: int)
    ensures
        decode_value(s, pos) matches Ok((v, next)) ==> 0 <= pos < next <= s.len(),
{
    if 0 <= pos < s.len() {
        lemma_line_advances(s, pos + 1);
        if s[pos] == STAR {
            if let Ok((n, next)) = read_count(s, pos + 1) {
                lemma_items_advance(s, next, n, Seq::empty());
            }
        } else if s[pos] == PERCENT {
            if let Ok((n, next)) = read_count(s, pos + 1) {
                lemma_pairs_advance(s, next, n, Seq::empty());
            }
        }
    }
}

/// Reading a sequence is reading its count and then its items: the test on
/// the offset in `decode_value` never fails.
pub proof fn lemma_sequence_frame(s: Seq<u8>, pos: int)
    requires
        0 <= pos < s.len(),
        s[pos] == STAR,
    ensures
        decode_value(s, pos) == match read_count(s, pos + 1) {
            Ok((n, next)) => match decode_items(s, next, n, Seq::empty()) {
                Ok((items, end)) => Ok((SpecValue::Array(Some(items)), end)),
                Err(e) => Err(e),
            },
            Err(e) => Err(e),
        },
{
    lemma_line_advances(s, pos + 1);
}

/// Reading a mapping is reading its count and then its pairs: the test on
/// the offset in `decode_value` never fails.
pub proof fn lemma_mapping_frame(s: Seq<u8>, pos: int)
    requires
        0 <= pos < s.len(),
        s[pos] == PERCENT,
    ensures
        decode_value(s, pos) == match read_count(s, pos + 1) {
            Ok((n, next)) => match decode_pairs(s, next, n, Seq::empty()) {
                Ok((pairs, end)) => Ok((SpecValue::Mapping(pairs), end)),
                Err(e) => Err(e),
            },
            Err(e) => Err(e),
        },
{
    lemma_line_advances(s, pos + 1);
}

/// Reading items is reading one value and then the rest: the test on the
/// offset in `decode_items` never fails.
pub proof fn lemma_items_step(s: Seq<u8>, pos: int, n: nat, acc: Seq<SpecValue>)
    requires
        n > 0,
    ensures
        decode_items(s, pos, n, acc) == match decode_value(s, pos) {
            Ok((v, next)) => decode_items(s, next, (n - 1) as nat, acc.push(v)),
            Err(e) => Err(e),
        },
{
    lemma_decode_advances(s, pos);
}

/// Reading pairs is reading a key, then its value, which must be there,
/// and then the rest: the tests on the offsets in `decode_pairs` never
/// fail.
pub proof fn lemma_pairs_step(s: Seq<u8>, pos: int, n: nat, acc: Seq<(SpecValue, SpecValue)>)
    requires
        n > 0,
    ensures
        decode_pairs(s, pos, n, acc) == match decode_value(s, pos) {
            Ok((key, mid)) => if mid >= s.len() {
                Err(SpecError::MissingValue(mid))
            } else {
                match decode_value(s, mid) {
                    Ok((val, next)) => decode_pairs(
                        s,
                        next,
                        (n - 1) as nat,
                        insert_pair(acc, key, val),
                    ),
                    Err(e) => Err(e),
                }
            },
            Err(e) => Err(e),
        },
{
    lemma_decode_advances(s, pos);
    if let Ok((key, mid)) = decode_value(s, pos) {
        lemma_decode_advances(s, mid);
    }
}

/// Reading `n` values never moves the offset back or out of the buffer.
pub proof fn lemma_items_advance(s: Seq<u8>, pos: int, n: nat, acc: Seq<SpecValue>)
    requires
        0 <= pos <= s.len(),
    ensures
        decode_items(s, pos, n, acc) matches Ok((items, end)) ==> pos <= end <= s.len(),
    decreases n,
{
    if n > 0 {
        if let Ok((v, next)) = decode_value(s, pos) {
            if pos < next <= s.len() {
                lemma_items_advance(s, next, (n - 1) as nat, acc.push(v));
            }
        }
    }
}

/// Reading `n` pairs never moves the offset back or out of the buffer.
pub proof fn lemma_pairs_advance(
    s: Seq<u8>,
    pos: int,
    n: nat,
    acc: Seq<(SpecValue, SpecValue)>,
)
    requires
        0 <= pos <= s.len(),
    ensures
        decode_pairs(s, pos, n, acc) matches Ok((pairs, end)) ==> pos <= end <= s.len(),
    decreases n,
{
    if n > 0 {
        if let Ok((key, mid)) = decode_value(s, pos) {
            if pos < mid < s.len() {
                if let Ok((val, next)) = decode_value(s, mid) {
                    if mid < next <= s.len() {
                        lemma_pairs_advance(s, next, (n - 1) as nat, insert_pair(acc, key, val));
                    }
                }
            }
        }
    }
}

/// Every value read is well formed: its mappings, at any depth, have
/// strictly ascending keys.
pub proof fn lemma_decode_wf(s: Seq<u8>, pos: int)
    ensures
        decode_value(s, pos) matches Ok((v, next)) ==> v.wf(),
    decreases s.len() - pos, 0nat,
{
    if 0 <= pos < s.len() {
        if s[pos] == STAR {
            if let Ok((n, next)) = read_count(s, pos + 1) {
                if pos < next <= s.len() {
                    lemma_items_wf(s, next, n, Seq::empty());
                }
            }
        } else if s[pos] == PERCENT {
            if let Ok((n, next)) = read_count(s, pos + 1) {
                if pos < next <= s.len() {
                    lemma_pairs_wf(s, next, n, Seq::empty());
                }
            }
        }
    }
}

/// Reading values after well-formed ones gives well-formed ones.
pub proof fn lemma_items_wf(s: Seq<u8>, pos: int, n: nat, acc: Seq<SpecValue>)
    requires
        forall|i: int| 0 <= i < acc.len() ==> (#[trigger] acc[i]).wf(),
    ensures
        decode_items(s, pos, n, acc) matches Ok((items, end)) ==> forall|i: int|
            0 <= i < items.len() ==> (#[trigger] items[i]).wf(),
    decreases s.len() - pos, n + 1,
{
    if n > 0 {
        if let Ok((v, next)) = decode_value(s, pos) {
            lemma_decode_wf(s, pos);
            if pos < next <= s.len() {
                lemma_items_wf(s, next, (n - 1) as nat, acc.push(v));
            }
        }
    }
}

/// Reading pairs into well-formed pairs with ascending keys gives
/// well-formed pairs with ascending keys.
pub proof fn lemma_pairs_wf(s: Seq<u8>, pos: int, n: nat, acc: Seq<(SpecValue, SpecValue)>)
    requires
        keys_ascend(acc),
        forall|i: int| 0 <= i < acc.len() ==> (#[trigger] acc[i]).0.wf() && acc[i].1.wf(),
    ensures
        decode_pairs(s, pos, n, acc) matches Ok((pairs, end)) ==> {
            &&& keys_ascend(pairs)
            &&& forall|i: int|
                0 <= i < pairs.len() ==> (#[trigger] pairs[i]).0.wf() && pairs[i].1.wf()
        },
    decreases s.len() - pos, n + 1,
{
    if n > 0 {
        if let Ok((key, mid)) = decode_value(s, pos) {
            lemma_decode_wf(s, pos);
            if pos < mid < s.len() {
                if let Ok((val, next)) = decode_value(s, mid) {
                    lemma_decode_wf(s, mid);
                    if mid < next <= s.len() {
                        lemma_insert_ascends(acc, key, val);
                        lemma_insert_keeps(
                            acc,
                            key,
                            val,
                            |p: (SpecValue, SpecValue)| p.0.wf() && p.1.wf(),
                        );
                        lemma_pairs_wf(s, next, (n - 1) as nat, insert_pair(acc, key, val));
                    }
                }
            }
        }
    }
}

/// A byte string holds a CRLF exactly if a CRLF starts at one of its
/// indices.
pub proof fn lemma_has_crlf(t: Seq<u8>)
    ensures
        has_crlf(t) <==> exists|i: int| crlf_at(t, i),
{
    lemma_first_crlf(t, 0);
    if has_crlf(t) {
        assert(crlf_at(t, first_crlf(t, 0)->0));
    }
}

/// Where a length or a count is required, a negative number is none: the
/// frame that declares one is `NegativeLength` at the offset of the
/// declaration, right after the sigil. That holds of a sequence and of a
/// mapping, and of a bulk frame where a value must be present. Where a
/// value may be absent, the bulk frame that declares `-1` is the absent
/// value, and every other negative length is `NegativeLength` all the same.
pub proof fn lemma_negative_count(s: Seq<u8>, pos: int)
    requires
        0 <= pos < s.len(),
        read_number(s, pos + 1) matches Ok((n, next)) && n < 0,
    ensures
        s[pos] == STAR || s[pos] == PERCENT ==> decode_value(s, pos) == Err::<
            (SpecValue, int),
            SpecError,
        >(SpecError::NegativeLength(pos + 1)),
        s[pos] == STAR ==> read_header(s, pos, STAR) == Err::<(nat, int), SpecError>(
            SpecError::NegativeLength(pos + 1),
        ),
        s[pos] == PERCENT ==> read_header(s, pos, PERCENT) == Err::<(nat, int), SpecError>(
            SpecError::NegativeLength(pos + 1),
        ),
        s[pos] == DOLLAR ==> read_present(s, pos) == Err::<(SpecScalar, int), SpecError>(
            SpecError::NegativeLength(pos + 1),
        ),
        s[pos] == DOLLAR && read_number(s, pos + 1)->Ok_0.0 != -1 ==> {
            &&& read_scalar(s, pos) == Err::<(SpecScalar, int), SpecError>(
                SpecError::NegativeLength(pos + 1),
            )
            &&& decode_value(s, pos) == Err::<(SpecValue, int), SpecError>(
                SpecError::NegativeLength(pos + 1),
            )
        },
{
}

/// Where a value must be present, everything but the mark of an absent
/// value is read as it is where a value may be absent.
pub proof fn lemma_present_scalar(s: Seq<u8>, pos: int)
    ensures
        read_scalar(s, pos) matches Ok((SpecScalar::Absent, next)) ==> read_present(s, pos)
            == Err::<(SpecScalar, int), SpecError>(SpecError::NegativeLength(pos + 1)),
        !(read_scalar(s, pos) matches Ok((SpecScalar::Absent, next))) ==> read_present(s, pos)
            == read_scalar(s, pos),
        read_present(s, pos) matches Ok((scalar, next)) ==> scalar != SpecScalar::Absent,
{
}

} // verus!
