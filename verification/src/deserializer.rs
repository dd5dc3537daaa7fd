//! Reading frames: a cursor over a byte buffer, and the decoder of values.

use crate::decimal::{parse_decimal, parse_i64};
use crate::order::keys_ascend;
use crate::sorted::put_pair;
use crate::value::{view_items, view_pairs, Value};
use crate::wire::{
    crlf_at, decode, decode_items, decode_pairs, decode_value, encode_absent, find_crlf,
    lemma_decode_wf, read_header, read_line, read_present, read_scalar, SpecError, SpecScalar,
    COLON, CR, DOLLAR, HASH, LF, PERCENT, PLUS, STAR,
};
use vstd::prelude::*;
use vstd::string::{StringExecFns, StringSliceAdditionalSpecFns};
use vstd::utf8::*;

verus! {

/// Why a buffer could not be decoded. A `usize` is the offset, in bytes from
/// the start of the buffer, at which the fault lies.
#[derive(Debug, PartialEq, Eq)]
pub enum Error {
    Custom(String),
    TrailingCharacters(usize),
    UnexpectedEof,
    Syntax(usize),
    NegativeLength(usize),
    ParseIntError(usize),
    ExpectedArray(usize),
    MissingValue(usize),
}

impl View for Error {
    type V = SpecError;

    open spec fn view(&self) -> SpecError {
        match self {
            Error::Custom(msg) => SpecError::Custom(msg@),
            Error::TrailingCharacters(at) => SpecError::TrailingCharacters(*at as int),
            Error::UnexpectedEof => SpecError::UnexpectedEof,
            Error::Syntax(at) => SpecError::Syntax(*at as int),
            Error::NegativeLength(at) => SpecError::NegativeLength(*at as int),
            Error::ParseIntError(at) => SpecError::ParseIntError(*at as int),
            Error::ExpectedArray(at) => SpecError::ExpectedArray(*at as int),
            Error::MissingValue(at) => SpecError::MissingValue(*at as int),
        }
    }
}

/// What a scalar frame holds. A text borrows its bytes from the buffer.
#[derive(Debug, Clone, Copy, PartialEq, Eq)]
pub enum Scalar<'a> {
    Text(&'a [u8]),
    Absent,
    Int(i64),
    Bool(bool),
}

impl<'a> View for Scalar<'a> {
    type V = SpecScalar;

    open spec fn view(&self) -> SpecScalar {
        match self {
            Scalar::Text(bytes) => SpecScalar::Text(bytes@),
            Scalar::Absent => SpecScalar::Absent,
            Scalar::Int(i) => SpecScalar::Int(*i),
            Scalar::Bool(b) => SpecScalar::Bool(*b),
        }
    }
}

/// `r` is the outcome `expected`: the same value read up to the same
/// offset, or the same error with the cursor left at `start`.
pub open spec fn outcome<T: View>(
    r: Result<T, Error>,
    end: int,
    expected: Result<(T::V, int), SpecError>,
    start: int,
) -> bool {
    match (r, expected) {
        (Ok(v), Ok((w, next))) => v@ == w && end == next,
        (Err(e), Err(f)) => e@ == f && end == start,
        _ => false,
    }
}

/// The bytes `t` stand in `s` at `pos`.
pub open spec fn starts_at(s: Seq<u8>, pos: int, t: Seq<u8>) -> bool {
    0 <= pos && pos + t.len() <= s.len() && s.subrange(pos, pos + t.len()) == t
}

/// Reads valid UTF-8 as a string slice with `core::str::from_utf8`, which
/// accepts exactly the byte strings that are UTF-8 and returns them
/// unchanged, seen as text.
#[verifier::external_body]
fn str_from_utf8<'a>(bytes: &'a [u8]) -> (r: Option<&'a str>)
    ensures
        r is Some <==> valid_utf8(bytes@),
        r is Some ==> r.unwrap().spec_bytes() == bytes@,
{
    match core::str::from_utf8(bytes) {
        Ok(text) => Some(text),
        Err(_) => None,
    }
}

/// Whether the bytes `tag` stand in `input` at `at`.
fn has_bytes_at(input: &[u8], at: usize, tag: &[u8]) -> (r: bool)
    ensures
        r == starts_at(input@, at as int, tag@),
{
    let n = tag.len();
    if at > input.len() || input.len() - at < n {
        return false;
    }
    let mut i: usize = 0;
    while i < n
        invariant
            i <= n,
            n == tag@.len(),
            at + n <= input@.len(),
            input@.len() <= usize::MAX,
            forall|j: int| 0 <= j < i ==> input@[at + j] == tag@[j],
        decreases n - i,
    {
        if input[at + i] != tag[i] {
            proof {
                let window = input@.subrange(at as int, at + n);
                assert(window[i as int] != tag@[i as int]);
            }
            return false;
        }
        i += 1;
    }
    assert(input@.subrange(at as int, at + n) =~= tag@);
    true
}

/// A cursor over a buffer of frames.
pub struct Deserializer<'de> {
    input: &'de [u8],
    pos: usize,
}

impl<'de> Deserializer<'de> {
    #[verifier::type_invariant]
    spec fn inv(self) -> bool {
        self.pos <= self.input@.len()
    }

    /// The whole buffer.
    pub closed spec fn buffer(&self) -> Seq<u8> {
        self.input@
    }

    /// The cursor: the number of bytes consumed so far.
    pub closed spec fn offset(&self) -> int {
        self.pos as int
    }

    /// A cursor at the start of `input`.
    pub fn from_bytes(input: &'de [u8]) -> (r: Self)
        ensures
            r.buffer() == input@,
            r.offset() == 0,
    {
        Deserializer { input, pos: 0 }
    }

    /// The number of bytes consumed so far.
    pub fn position(&self) -> (r: usize)
        ensures
            r == self.offset(),
            r <= self.buffer().len(),
    {
        proof {
            use_type_invariant(self);
        }
        self.pos
    }

    /// If the buffer goes on with `tag`, steps over it and returns `true`;
    /// otherwise stays and returns `false`.
    #[must_use]
    pub fn tag(&mut self, tag: &[u8]) -> (r: bool)
        ensures
            final(self).buffer() == old(self).buffer(),
            r == starts_at(old(self).buffer(), old(self).offset(), tag@),
            final(self).offset() == if r {
                old(self).offset() + tag@.len()
            } else {
                old(self).offset()
            },
    {
        proof {
            use_type_invariant(&*self);
        }
        let len = self.input.len();
        if has_bytes_at(self.input, self.pos, tag) {
            assert(self.pos + tag@.len() <= len);
            self.pos = self.pos + tag.len();
            true
        } else {
            false
        }
    }

    /// The next byte, without consuming it.
    pub fn peek(&self) -> (r: Result<u8, Error>)
        ensures
            match r {
                Ok(b) => self.offset() < self.buffer().len() && b == self.buffer()[self.offset()],
                Err(e) => self.offset() >= self.buffer().len() && e == Error::UnexpectedEof,
            },
    {
        if self.pos < self.input.len() {
            Ok(self.input[self.pos])
        } else {
            Err(Error::UnexpectedEof)
        }
    }

    /// Consumes the next byte.
    pub fn advance(&mut self) -> (r: Result<u8, Error>)
        ensures
            final(self).buffer() == old(self).buffer(),
            match r {
                Ok(b) => {
                    &&& old(self).offset() < old(self).buffer().len()
                    &&& b == old(self).buffer()[old(self).offset()]
                    &&& final(self).offset() == old(self).offset() + 1
                },
                Err(e) => {
                    &&& old(self).offset() >= old(self).buffer().len()
                    &&& e == Error::UnexpectedEof
                    &&& final(self).offset() == old(self).offset()
                },
            },
    {
        if self.pos < self.input.len() {
            let first = self.input[self.pos];
            self.pos = self.pos + 1;
            Ok(first)
        } else {
            Err(Error::UnexpectedEof)
        }
    }

    /// Consumes the line at the cursor and its CRLF, and returns the line
    /// without the CRLF. Without a CRLF ahead, fails with `UnexpectedEof`.
    pub fn until_crlf(&mut self) -> (r: Result<&'de [u8], Error>)
        ensures
            final(self).buffer() == old(self).buffer(),
            outcome(
                r,
                final(self).offset(),
                read_line(old(self).buffer(), old(self).offset()),
                old(self).offset(),
            ),
            r is Ok ==> old(self).offset() + 2 <= final(self).offset() <= old(self).buffer().len(),
    {
        proof {
            use_type_invariant(&*self);
        }
        let len = self.input.len();
        match find_crlf(self.input, self.pos) {
            Some(end) => {
                assert(end + 2 <= len);
                let line = vstd::slice::slice_subrange(self.input, self.pos, end);
                self.pos = end + 2;
                Ok(line)
            },
            None => Err(Error::UnexpectedEof),
        }
    }

    /// Reads `buf` as a signed 64-bit decimal; `position` is the offset to
    /// report if it is none.
    pub fn parse_int(&self, buf: &[u8], position: usize) -> (r: Result<i64, Error>)
        ensures
            r == match parse_decimal(buf@) {
                Some(n) => Ok::<i64, Error>(n),
                None => Err(Error::ParseIntError(position)),
            },
    {
        match parse_i64(buf) {
            Some(n) => Ok(n),
            None => Err(Error::ParseIntError(position)),
        }
    }

    /// Consumes the next `n` bytes. With fewer than `n` bytes left, fails
    /// with `UnexpectedEof`.
    pub fn take(&mut self, n: usize) -> (r: Result<&'de [u8], Error>)
        ensures
            final(self).buffer() == old(self).buffer(),
            match r {
                Ok(bytes) => {
                    &&& old(self).offset() + n <= old(self).buffer().len()
                    &&& bytes@ == old(self).buffer().subrange(
                        old(self).offset(),
                        old(self).offset() + n,
                    )
                    &&& final(self).offset() == old(self).offset() + n
                },
                Err(e) => {
                    &&& old(self).offset() + n > old(self).buffer().len()
                    &&& e == Error::UnexpectedEof
                    &&& final(self).offset() == old(self).offset()
                },
            },
    {
        proof {
            use_type_invariant(&*self);
        }
        if self.input.len() - self.pos < n {
            return Err(Error::UnexpectedEof);
        }
        let bytes = vstd::slice::slice_subrange(self.input, self.pos, self.pos + n);
        self.pos = self.pos + n;
        Ok(bytes)
    }

    /// If a CRLF stands at the cursor, steps over it and returns `true`;
    /// otherwise stays and returns `false`.
    fn expect_crlf(&mut self) -> (r: bool)
        ensures
            final(self).buffer() == old(self).buffer(),
            r == crlf_at(old(self).buffer(), old(self).offset()),
            final(self).offset() == if r {
                old(self).offset() + 2
            } else {
                old(self).offset()
            },
    {
        proof {
            use_type_invariant(&*self);
        }
        let len = self.input.len();
        if len - self.pos >= 2 && self.input[self.pos] == CR && self.input[self.pos + 1] == LF {
            self.pos = self.pos + 2;
            true
        } else {
            false
        }
    }

    /// Reads the scalar frame at the cursor; on an error the cursor is
    /// left wherever the fault was found.
    fn scalar_frame(&mut self) -> (r: Result<Scalar<'de>, Error>)
        ensures
            final(self).buffer() == old(self).buffer(),
            match (r, read_scalar(old(self).buffer(), old(self).offset())) {
                (Ok(v), Ok((w, next))) => v@ == w && final(self).offset() == next,
                (Err(e), Err(f)) => e@ == f,
                _ => false,
            },
            r is Ok ==> old(self).offset() < final(self).offset(),
            r matches Ok(Scalar::Text(bytes)) ==> old(self).offset() < final(self).offset() - 2
                - bytes@.len(),
    {
        proof {
            use_type_invariant(&*self);
        }
        let sigil = self.advance()?;
        let pos = self.pos;
        if sigil == PLUS {
            let line = self.until_crlf()?;
            Ok(Scalar::Text(line))
        } else if sigil == DOLLAR {
            let line = self.until_crlf()?;
            let n = self.parse_int(line, pos)?;
            if n == -1 {
                Ok(Scalar::Absent)
            } else if n < 0 {
                Err(Error::NegativeLength(pos))
            } else {
                proof {
                    use_type_invariant(&*self);
                }
                let left = self.input.len() - self.pos;
                if n as u64 > left as u64 {
                    return Err(Error::UnexpectedEof);
                }
                let bytes = self.take(n as usize)?;
                if !self.expect_crlf() {
                    return Err(Error::Syntax(self.pos));
                }
                Ok(Scalar::Text(bytes))
            }
        } else if sigil == COLON {
            let line = self.until_crlf()?;
            let n = self.parse_int(line, pos)?;
            Ok(Scalar::Int(n))
        } else if sigil == HASH {
            let line = self.until_crlf()?;
            if line.len() == 1 && line[0] == 116 {
                assert(line@ =~= seq![116u8]);
                Ok(Scalar::Bool(true))
            } else if line.len() == 1 && line[0] == 102 {
                assert(line@ =~= seq![102u8]);
                Ok(Scalar::Bool(false))
            } else {
                proof {
                    if line@.len() == 1 {
                        assert(seq![116u8][0] == 116u8);
                        assert(seq![102u8][0] == 102u8);
                    } else {
                        assert(seq![116u8].len() == 1);
                        assert(seq![102u8].len() == 1);
                    }
                }
                Err(Error::Syntax(pos))
            }
        } else {
            Err(Error::Syntax(pos))
        }
    }

    /// Reads the count that follows the sigil `sigil` at the cursor; on an
    /// error the cursor is left wherever the fault was found.
    fn count_frame(&mut self, sigil: u8) -> (r: Result<u64, Error>)
        ensures
            final(self).buffer() == old(self).buffer(),
            match (r, read_header(old(self).buffer(), old(self).offset(), sigil)) {
                (Ok(n), Ok((m, next))) => n == m && final(self).offset() == next,
                (Err(e), Err(f)) => e@ == f,
                _ => false,
            },
            r is Ok ==> old(self).offset() < final(self).offset(),
    {
        let first = self.advance()?;
        let pos = self.pos;
        if first != sigil {
            return Err(Error::ExpectedArray(pos));
        }
        let line = self.until_crlf()?;
        let n = self.parse_int(line, pos)?;
        if n < 0 {
            return Err(Error::NegativeLength(pos));
        }
        Ok(n as u64)
    }

    /// Reads one scalar frame: a simple or bulk text, an absent value
    /// (`$-1`), an integer or a boolean. On an error the cursor stays where
    /// it was.
    pub fn deserialize_any(&mut self) -> (r: Result<Scalar<'de>, Error>)
        ensures
            final(self).buffer() == old(self).buffer(),
            outcome(
                r,
                final(self).offset(),
                read_scalar(old(self).buffer(), old(self).offset()),
                old(self).offset(),
            ),
            r is Ok ==> old(self).offset() < final(self).offset(),
    {
        proof {
            use_type_invariant(&*self);
        }
        let start = self.pos;
        let r = self.scalar_frame();
        if r.is_err() {
            self.pos = start;
        }
        r
    }

    /// Reads one scalar frame where a value must be present: a simple or
    /// bulk text, an integer or a boolean, never `Scalar::Absent`. The mark
    /// of an absent value, `$-1`, is `NegativeLength` at the offset of its
    /// length. On an error the cursor stays where it was.
    pub fn deserialize_present(&mut self) -> (r: Result<Scalar<'de>, Error>)
        ensures
            final(self).buffer() == old(self).buffer(),
            outcome(
                r,
                final(self).offset(),
                read_present(old(self).buffer(), old(self).offset()),
                old(self).offset(),
            ),
            r is Ok ==> old(self).offset() < final(self).offset(),
            r matches Ok(scalar) ==> scalar != Scalar::Absent,
    {
        proof {
            use_type_invariant(&*self);
        }
        let start = self.pos;
        let len = self.input.len();
        match self.scalar_frame() {
            Ok(Scalar::Absent) => {
                self.pos = start;
                Err(Error::NegativeLength(start + 1))
            },
            Ok(scalar) => Ok(scalar),
            Err(e) => {
                self.pos = start;
                Err(e)
            },
        }
    }

    /// Reads the header of a sequence, `*count`, and returns the count. A
    /// frame with another sigil is `ExpectedArray`, a negative count
    /// `NegativeLength`. On an error the cursor stays where it was.
    pub fn deserialize_seq(&mut self) -> (r: Result<u64, Error>)
        ensures
            final(self).buffer() == old(self).buffer(),
            match (r, read_header(old(self).buffer(), old(self).offset(), STAR)) {
                (Ok(n), Ok((m, next))) => n == m && final(self).offset() == next,
                (Err(e), Err(f)) => e@ == f && final(self).offset() == old(self).offset(),
                _ => false,
            },
            r is Ok ==> old(self).offset() < final(self).offset(),
    {
        proof {
            use_type_invariant(&*self);
        }
        let start = self.pos;
        let r = self.count_frame(STAR);
        if r.is_err() {
            self.pos = start;
        }
        r
    }

    /// Reads the header of a mapping, `%count`, and returns the count of
    /// pairs. A frame with another sigil is `ExpectedArray`, a negative
    /// count `NegativeLength`. On an error the cursor stays where it was.
    pub fn deserialize_map(&mut self) -> (r: Result<u64, Error>)
        ensures
            final(self).buffer() == old(self).buffer(),
            match (r, read_header(old(self).buffer(), old(self).offset(), PERCENT)) {
                (Ok(n), Ok((m, next))) => n == m && final(self).offset() == next,
                (Err(e), Err(f)) => e@ == f && final(self).offset() == old(self).offset(),
                _ => false,
            },
            r is Ok ==> old(self).offset() < final(self).offset(),
    {
        proof {
            use_type_invariant(&*self);
        }
        let start = self.pos;
        let r = self.count_frame(PERCENT);
        if r.is_err() {
            self.pos = start;
        }
        r
    }

    /// Reads the value at the cursor; on an error the cursor is left
    /// wherever the fault was found.
    fn value_frame(&mut self) -> (r: Result<Value, Error>)
        ensures
            final(self).buffer() == old(self).buffer(),
            match (r, decode_value(old(self).buffer(), old(self).offset())) {
                (Ok(v), Ok((w, next))) => v@ == w && final(self).offset() == next,
                (Err(e), Err(f)) => e@ == f,
                _ => false,
            },
            r is Ok ==> old(self).offset() < final(self).offset(),
        decreases old(self).buffer().len() - old(self).offset(), 0nat,
    {
        proof {
            use_type_invariant(&*self);
        }
        let first = self.peek()?;
        if first == STAR {
            let n = self.count_frame(STAR)?;
            proof {
                use_type_invariant(&*self);
            }
            let items = self.items_frame(n)?;
            Ok(Value::Array(Some(items)))
        } else if first == PERCENT {
            let n = self.count_frame(PERCENT)?;
            proof {
                use_type_invariant(&*self);
            }
            let pairs = self.pairs_frame(n)?;
            Ok(Value::Mapping(pairs))
        } else {
            let scalar = self.scalar_frame()?;
            match scalar {
                Scalar::Text(bytes) => match str_from_utf8(bytes) {
                    Some(text) => {
                        proof {
                            encode_utf8_decode_utf8(text@);
                        }
                        Ok(Value::String(Some(String::from_str(text))))
                    },
                    None => Err(Error::Syntax(self.pos - 2 - bytes.len())),
                },
                Scalar::Absent => Ok(Value::String(None)),
                Scalar::Int(i) => Ok(Value::Int(i)),
                Scalar::Bool(b) => Ok(Value::Bool(b)),
            }
        }
    }

    /// Reads `n` values, one after the other; on an error the cursor is
    /// left wherever the fault was found.
    fn items_frame(&mut self, n: u64) -> (r: Result<Vec<Value>, Error>)
        ensures
            final(self).buffer() == old(self).buffer(),
            match (
                r,
                decode_items(old(self).buffer(), old(self).offset(), n as nat, Seq::empty()),
            ) {
                (Ok(v), Ok((w, next))) => view_items(v@) == w && final(self).offset() == next,
                (Err(e), Err(f)) => e@ == f,
                _ => false,
            },
            r is Ok ==> old(self).offset() <= final(self).offset(),
        decreases old(self).buffer().len() - old(self).offset(), 1nat,
    {
        let ghost s = self.input@;
        let ghost start = self.pos as int;
        let mut out: Vec<Value> = Vec::new();
        let mut i: u64 = 0;
        while i < n
            invariant
                i <= n,
                self.input@ == s,
                s == old(self).buffer(),
                start == old(self).offset(),
                start <= self.pos,
                decode_items(s, start, n as nat, Seq::empty()) == decode_items(
                    s,
                    self.pos as int,
                    (n - i) as nat,
                    view_items(out@),
                ),
            decreases n - i,
        {
            proof {
                use_type_invariant(&*self);
            }
            let item = match self.value_frame() {
                Ok(item) => item,
                Err(e) => {
                    return Err(e);
                },
            };
            proof {
                use_type_invariant(&*self);
                assert(out@.push(item).drop_last() =~= out@);
            }
            out.push(item);
            i += 1;
        }
        Ok(out)
    }

    /// Reads `n` key/value pairs, one after the other, into ascending key
    /// order; on an error the cursor is left wherever the fault was found.
    fn pairs_frame(&mut self, n: u64) -> (r: Result<Vec<(Value, Value)>, Error>)
        ensures
            final(self).buffer() == old(self).buffer(),
            match (
                r,
                decode_pairs(old(self).buffer(), old(self).offset(), n as nat, Seq::empty()),
            ) {
                (Ok(v), Ok((w, next))) => view_pairs(v@) == w && final(self).offset() == next,
                (Err(e), Err(f)) => e@ == f,
                _ => false,
            },
            r is Ok ==> old(self).offset() <= final(self).offset(),
        decreases old(self).buffer().len() - old(self).offset(), 1nat,
    {
        let ghost s = self.input@;
        let ghost start = self.pos as int;
        let mut out: Vec<(Value, Value)> = Vec::new();
        let mut i: u64 = 0;
        while i < n
            invariant
                i <= n,
                self.input@ == s,
                s == old(self).buffer(),
                start == old(self).offset(),
                start <= self.pos,
                keys_ascend(view_pairs(out@)),
                decode_pairs(s, start, n as nat, Seq::empty()) == decode_pairs(
                    s,
                    self.pos as int,
                    (n - i) as nat,
                    view_pairs(out@),
                ),
            decreases n - i,
        {
            proof {
                use_type_invariant(&*self);
            }
            let key = match self.value_frame() {
                Ok(key) => key,
                Err(e) => {
                    return Err(e);
                },
            };
            proof {
                use_type_invariant(&*self);
            }
            if self.pos >= self.input.len() {
                return Err(Error::MissingValue(self.pos));
            }
            let val = match self.value_frame() {
                Ok(val) => val,
                Err(e) => {
                    return Err(e);
                },
            };
            proof {
                use_type_invariant(&*self);
            }
            put_pair(&mut out, key, val);
            i += 1;
        }
        Ok(out)
    }

    /// Reads the mark of an absent value, `$-1`, if it stands at the
    /// cursor, and says whether a value is present instead.
    pub fn deserialize_option(&mut self) -> (present: bool)
        ensures
            final(self).buffer() == old(self).buffer(),
            present == !starts_at(old(self).buffer(), old(self).offset(), encode_absent()),
            final(self).offset() == if present {
                old(self).offset()
            } else {
                old(self).offset() + 5
            },
    {
        let mark: [u8; 5] = [DOLLAR, 45, 49, CR, LF];
        assert(mark@ =~= encode_absent());
        !self.tag(mark.as_slice())
    }

    /// Reads a value without content, which must be the mark of an absent
    /// value: a frame that is not is a syntax error at the cursor, which
    /// stays where it was.
    pub fn deserialize_unit(&mut self) -> (r: Result<(), Error>)
        ensures
            final(self).buffer() == old(self).buffer(),
            r == if starts_at(old(self).buffer(), old(self).offset(), encode_absent()) {
                Ok::<(), Error>(())
            } else {
                Err(Error::Syntax(old(self).offset() as usize))
            },
            final(self).offset() == if r is Ok {
                old(self).offset() + 5
            } else {
                old(self).offset()
            },
    {
        if self.deserialize_option() {
            Err(Error::Syntax(self.position()))
        } else {
            Ok(())
        }
    }

    /// Reads one value of any shape; its mappings have their pairs in
    /// ascending key order. On an error the cursor stays where it was.
    pub fn deserialize_value(&mut self) -> (r: Result<Value, Error>)
        ensures
            final(self).buffer() == old(self).buffer(),
            outcome(
                r,
                final(self).offset(),
                decode_value(old(self).buffer(), old(self).offset()),
                old(self).offset(),
            ),
            r is Ok ==> old(self).offset() < final(self).offset(),
            r matches Ok(v) ==> v@.wf(),
    {
        proof {
            use_type_invariant(&*self);
            lemma_decode_wf(self.buffer(), self.offset());
        }
        let start = self.pos;
        let r = self.value_frame();
        if r.is_err() {
            self.pos = start;
        }
        r
    }

    /// Checks that the whole buffer has been consumed: `TrailingCharacters`
    /// with the cursor's offset if it has not.
    pub fn end(&self) -> (r: Result<(), Error>)
        ensures
            r == if self.offset() == self.buffer().len() {
                Ok::<(), Error>(())
            } else {
                Err(Error::TrailingCharacters(self.offset() as usize))
            },
    {
        proof {
            use_type_invariant(self);
        }
        if self.pos == self.input.len() {
            Ok(())
        } else {
            Err(Error::TrailingCharacters(self.pos))
        }
    }
}

/// The count of what is still to be read of a sequence or a mapping whose
/// header has been read.
#[derive(Debug)]
pub struct Array {
    len: u64,
}

impl Array {
    /// The number of items, or of pairs, still to be read.
    pub closed spec fn remaining(&self) -> nat {
        self.len as nat
    }

    /// A sequence of `len` items, or a mapping of `len` pairs, none read
    /// yet.
    pub fn new(len: u64) -> (r: Array)
        ensures
            r.remaining() == len,
    {
        Array { len }
    }

    /// Whether the sequence has another item; if so, counts it as read.
    pub fn next_element(&mut self) -> (more: bool)
        ensures
            more == (old(self).remaining() > 0),
            final(self).remaining() == if more {
                (old(self).remaining() - 1) as nat
            } else {
                0
            },
    {
        if self.len == 0 {
            false
        } else {
            self.len = self.len - 1;
            true
        }
    }

    /// Whether the mapping has another pair, whose key comes next.
    pub fn next_key(&self) -> (more: bool)
        ensures
            more == (self.remaining() > 0),
    {
        self.len != 0
    }

    /// Counts the pair whose value comes next at the cursor `input` as
    /// read. With no pair left, or no byte left at the cursor, there is no
    /// value to come: `MissingValue` with the cursor's offset.
    pub fn next_value(&mut self, input: &Deserializer) -> (r: Result<(), Error>)
        ensures
            r == if old(self).remaining() > 0 && input.offset() < input.buffer().len() {
                Ok::<(), Error>(())
            } else {
                Err(Error::MissingValue(input.offset() as usize))
            },
            final(self).remaining() == if r is Ok {
                (old(self).remaining() - 1) as nat
            } else {
                old(self).remaining()
            },
    {
        let position = input.position();
        if self.len == 0 || input.peek().is_err() {
            Err(Error::MissingValue(position))
        } else {
            self.len = self.len - 1;
            Ok(())
        }
    }
}

/// Decodes the one value that `s` holds from its first byte to its last:
/// a buffer that goes on after the value is `TrailingCharacters`, with the
/// offset at which the value ends. The mappings of the value have their
/// pairs in ascending key order.
pub fn from_bytes(s: &[u8]) -> (r: Result<Value, Error>)
    ensures
        match (r, decode(s@)) {
            (Ok(v), Ok(w)) => v@ == w,
            (Err(e), Err(f)) => e@ == f,
            _ => false,
        },
        r matches Ok(v) ==> v@.wf(),
{
    let mut deserializer = Deserializer::from_bytes(s);
    let value = deserializer.deserialize_value()?;
    deserializer.end()?;
    Ok(value)
}

} // verus!
