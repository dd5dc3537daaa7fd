//! Writing frames: a sink of bytes, and the encoder of values.

use crate::decimal::{push_decimal, push_signed_decimal};
use crate::value::{lemma_view_items, lemma_view_pairs, view_items, view_pairs, Value};
use crate::wire::{
    crlf, encode_absent, encode_bool, encode_bulk, encode_count, encode_int, encode_items,
    encode_line, encode_pairs, encode_text, encode_value, find_crlf, has_crlf, COLON, CR, DOLLAR,
    HASH, LF, PERCENT, PLUS, STAR,
};
use vstd::prelude::*;
use vstd::string::StringSliceAdditionalSpecFns;

verus! {

/// Why a value could not be encoded.
#[derive(Debug, PartialEq, Eq)]
pub enum Error {
    Custom(String),
    /// An unsigned integer above the signed 64-bit range.
    IntOverflow(u64),
    /// A sequence or mapping whose number of entries is not known up front.
    LengthRequired,
}

/// A sink that frames are appended to.
#[derive(Debug)]
pub struct Serializer {
    output: Vec<u8>,
}

/// Whether `bytes` holds a CRLF.
pub fn contains_crlf(bytes: &[u8]) -> (r: bool)
    ensures
        r == has_crlf(bytes@),
{
    find_crlf(bytes, 0).is_some()
}

/// Appends `bytes` to `out`.
fn push_bytes(out: &mut Vec<u8>, bytes: &[u8])
    ensures
        final(out)@ == old(out)@ + bytes@,
{
    let mut i: usize = 0;
    while i < bytes.len()
        invariant
            i <= bytes.len(),
            out@ == old(out)@ + bytes@.subrange(0, i as int),
        decreases bytes.len() - i,
    {
        out.push(bytes[i]);
        i += 1;
        assert(out@ =~= old(out)@ + bytes@.subrange(0, i as int));
    }
    assert(bytes@.subrange(0, bytes@.len() as int) =~= bytes@);
}

/// Appends a CRLF to `out`.
fn push_crlf(out: &mut Vec<u8>)
    ensures
        final(out)@ == old(out)@ + crlf(),
{
    out.push(CR);
    out.push(LF);
    assert(final(out)@ =~= old(out)@ + crlf());
}

impl Serializer {
    /// The bytes written so far.
    pub closed spec fn bytes(&self) -> Seq<u8> {
        self.output@
    }

    /// An empty sink.
    pub fn new() -> (r: Serializer)
        ensures
            r.bytes() == Seq::<u8>::empty(),
    {
        Serializer { output: Vec::new() }
    }

    /// The bytes written.
    pub fn into_bytes(self) -> (r: Vec<u8>)
        ensures
            r@ == self.bytes(),
    {
        self.output
    }

    /// Writes a boolean: `#t` or `#f`.
    pub fn serialize_bool(&mut self, v: bool) -> (r: Result<(), Error>)
        ensures
            r is Ok,
            final(self).bytes() == old(self).bytes() + encode_bool(v),
    {
        self.output.push(HASH);
        self.output.push(
            if v {
                116
            } else {
                102
            },
        );
        push_crlf(&mut self.output);
        assert(final(self).bytes() =~= old(self).bytes() + encode_bool(v));
        Ok(())
    }

    /// Writes a signed integer: `:` and its decimal text.
    pub fn serialize_i64(&mut self, v: i64) -> (r: Result<(), Error>)
        ensures
            r is Ok,
            final(self).bytes() == old(self).bytes() + encode_int(v),
    {
        self.output.push(COLON);
        push_signed_decimal(&mut self.output, v);
        push_crlf(&mut self.output);
        assert(final(self).bytes() =~= old(self).bytes() + encode_int(v));
        Ok(())
    }

    /// Writes an 8-bit signed integer.
    pub fn serialize_i8(&mut self, v: i8) -> (r: Result<(), Error>)
        ensures
            r is Ok,
            final(self).bytes() == old(self).bytes() + encode_int(v as i64),
    {
        self.serialize_i64(v as i64)
    }

    /// Writes a 16-bit signed integer.
    pub fn serialize_i16(&mut self, v: i16) -> (r: Result<(), Error>)
        ensures
            r is Ok,
            final(self).bytes() == old(self).bytes() + encode_int(v as i64),
    {
        self.serialize_i64(v as i64)
    }

    /// Writes a 32-bit signed integer.
    pub fn serialize_i32(&mut self, v: i32) -> (r: Result<(), Error>)
        ensures
            r is Ok,
            final(self).bytes() == old(self).bytes() + encode_int(v as i64),
    {
        self.serialize_i64(v as i64)
    }

    /// Writes an 8-bit unsigned integer.
    pub fn serialize_u8(&mut self, v: u8) -> (r: Result<(), Error>)
        ensures
            r is Ok,
            final(self).bytes() == old(self).bytes() + encode_int(v as i64),
    {
        self.serialize_i64(v as i64)
    }

    /// Writes a 16-bit unsigned integer.
    pub fn serialize_u16(&mut self, v: u16) -> (r: Result<(), Error>)
        ensures
            r is Ok,
            final(self).bytes() == old(self).bytes() + encode_int(v as i64),
    {
        self.serialize_i64(v as i64)
    }

    /// Writes a 32-bit unsigned integer.
    pub fn serialize_u32(&mut self, v: u32) -> (r: Result<(), Error>)
        ensures
            r is Ok,
            final(self).bytes() == old(self).bytes() + encode_int(v as i64),
    {
        self.serialize_i64(v as i64)
    }

    /// Writes an unsigned integer as a signed one. One above the signed
    /// 64-bit range is `IntOverflow`, and nothing is written.
    pub fn serialize_u64(&mut self, v: u64) -> (r: Result<(), Error>)
        ensures
            v <= i64::MAX ==> r is Ok && final(self).bytes() == old(self).bytes() + encode_int(
                v as i64,
            ),
            v > i64::MAX ==> r == Err::<(), Error>(Error::IntOverflow(v)) && final(self).bytes()
                == old(self).bytes(),
    {
        if v > 0x7fff_ffff_ffff_ffff {
            return Err(Error::IntOverflow(v));
        }
        self.serialize_i64(v as i64)
    }

    /// Writes a frame of one line: the sigil, the body as it is, and a
    /// CRLF. The body should hold no CRLF, which would end the line early.
    pub fn serialize_line(&mut self, sigil: u8, body: &[u8]) -> (r: Result<(), Error>)
        ensures
            r is Ok,
            final(self).bytes() == old(self).bytes() + encode_line(sigil, body@),
    {
        self.output.push(sigil);
        push_bytes(&mut self.output, body);
        push_crlf(&mut self.output);
        assert(final(self).bytes() =~= old(self).bytes() + encode_line(sigil, body@));
        Ok(())
    }

    /// Writes a text: as a simple frame, or as a bulk frame if the text
    /// holds a CRLF.
    pub fn serialize_str(&mut self, v: &str) -> (r: Result<(), Error>)
        ensures
            r is Ok,
            final(self).bytes() == old(self).bytes() + encode_text(v.spec_bytes()),
    {
        let bytes = v.as_bytes();
        if contains_crlf(bytes) {
            return self.serialize_bytes(bytes);
        }
        self.serialize_line(PLUS, bytes)
    }

    /// Writes bytes as a bulk frame: `$`, the length, and the bytes.
    pub fn serialize_bytes(&mut self, v: &[u8]) -> (r: Result<(), Error>)
        ensures
            r is Ok,
            final(self).bytes() == old(self).bytes() + encode_bulk(v@),
    {
        self.output.push(DOLLAR);
        push_decimal(&mut self.output, v.len() as u64);
        push_crlf(&mut self.output);
        push_bytes(&mut self.output, v);
        push_crlf(&mut self.output);
        assert(final(self).bytes() =~= old(self).bytes() + encode_bulk(v@));
        Ok(())
    }

    /// Writes an absent value: `$-1`.
    pub fn serialize_none(&mut self) -> (r: Result<(), Error>)
        ensures
            r is Ok,
            final(self).bytes() == old(self).bytes() + encode_absent(),
    {
        self.output.push(DOLLAR);
        self.output.push(45);
        self.output.push(49);
        push_crlf(&mut self.output);
        assert(final(self).bytes() =~= old(self).bytes() + encode_absent());
        Ok(())
    }

    /// Writes a value without content as an absent value.
    pub fn serialize_unit(&mut self) -> (r: Result<(), Error>)
        ensures
            r is Ok,
            final(self).bytes() == old(self).bytes() + encode_absent(),
    {
        self.serialize_none()
    }

    /// Writes a variant without content as its name, a text.
    pub fn serialize_unit_variant(&mut self, variant: &str) -> (r: Result<(), Error>)
        ensures
            r is Ok,
            final(self).bytes() == old(self).bytes() + encode_text(variant.spec_bytes()),
    {
        self.serialize_str(variant)
    }

    /// Writes the start of a variant with content: the header of a mapping
    /// of one pair and, as the key of that pair, the name of the variant.
    /// The caller writes the content next, as the value of the pair.
    pub fn serialize_variant(&mut self, variant: &str) -> (r: Result<(), Error>)
        ensures
            r is Ok,
            final(self).bytes() == old(self).bytes() + encode_count(PERCENT, 1) + encode_text(
                variant.spec_bytes(),
            ),
    {
        self.serialize_count(PERCENT, 1);
        self.serialize_str(variant)
    }

    /// Writes the header of a sequence or mapping of `len` entries.
    fn serialize_count(&mut self, sigil: u8, len: usize)
        ensures
            final(self).bytes() == old(self).bytes() + encode_count(sigil, len as nat),
    {
        self.output.push(sigil);
        push_decimal(&mut self.output, len as u64);
        push_crlf(&mut self.output);
        assert(final(self).bytes() =~= old(self).bytes() + encode_count(sigil, len as nat));
    }

    /// Writes the header of a sequence of `len` items, which the caller
    /// writes next. The count goes first on the wire, so a sequence of
    /// unknown length is `LengthRequired`, and nothing is written.
    pub fn serialize_seq(&mut self, len: Option<usize>) -> (r: Result<(), Error>)
        ensures
            match len {
                Some(n) => r is Ok && final(self).bytes() == old(self).bytes() + encode_count(
                    STAR,
                    n as nat,
                ),
                None => r == Err::<(), Error>(Error::LengthRequired) && final(self).bytes() == old(
                    self,
                ).bytes(),
            },
    {
        match len {
            Some(n) => {
                self.serialize_count(STAR, n);
                Ok(())
            },
            None => Err(Error::LengthRequired),
        }
    }

    /// Writes the header of a tuple of `len` items: that of a sequence.
    pub fn serialize_tuple(&mut self, len: usize) -> (r: Result<(), Error>)
        ensures
            r is Ok,
            final(self).bytes() == old(self).bytes() + encode_count(STAR, len as nat),
    {
        self.serialize_seq(Some(len))
    }

    /// Writes the header of a record of `len` fields: that of a mapping.
    /// The caller writes each field next, its name as a text and then its
    /// value.
    pub fn serialize_struct(&mut self, len: usize) -> (r: Result<(), Error>)
        ensures
            r is Ok,
            final(self).bytes() == old(self).bytes() + encode_count(PERCENT, len as nat),
    {
        self.serialize_map(Some(len))
    }

    /// Writes the header of a mapping of `len` pairs, which the caller
    /// writes next, each key followed by its value. A mapping of unknown
    /// length is `LengthRequired`, and nothing is written.
    pub fn serialize_map(&mut self, len: Option<usize>) -> (r: Result<(), Error>)
        ensures
            match len {
                Some(n) => r is Ok && final(self).bytes() == old(self).bytes() + encode_count(
                    PERCENT,
                    n as nat,
                ),
                None => r == Err::<(), Error>(Error::LengthRequired) && final(self).bytes() == old(
                    self,
                ).bytes(),
            },
    {
        match len {
            Some(n) => {
                self.serialize_count(PERCENT, n);
                Ok(())
            },
            None => Err(Error::LengthRequired),
        }
    }

    /// Writes a value of any shape.
    pub fn serialize_value(&mut self, value: &Value) -> (r: Result<(), Error>)
        ensures
            r is Ok,
            final(self).bytes() == old(self).bytes() + encode_value(value@),
        decreases value,
    {
        match value {
            Value::Int(i) => self.serialize_i64(*i),
            Value::Bool(b) => self.serialize_bool(*b),
            Value::String(Some(text)) => self.serialize_str(text.as_str()),
            Value::String(None) => self.serialize_none(),
            Value::Array(Some(items)) => {
                proof {
                    lemma_view_items(items@);
                }
                self.serialize_count(STAR, items.len());
                self.serialize_items(items);
                assert(final(self).bytes() =~= old(self).bytes() + encode_value(value@));
                Ok(())
            },
            Value::Array(None) => self.serialize_none(),
            Value::Mapping(pairs) => {
                proof {
                    lemma_view_pairs(pairs@);
                }
                self.serialize_count(PERCENT, pairs.len());
                self.serialize_pairs(pairs);
                assert(final(self).bytes() =~= old(self).bytes() + encode_value(value@));
                Ok(())
            },
            Value::Null => self.serialize_none(),
        }
    }

    /// Writes one field of a record: its name as a text, and right after it
    /// its value.
    pub fn serialize_field(&mut self, key: &str, value: &Value) -> (r: Result<(), Error>)
        ensures
            r is Ok,
            final(self).bytes() == old(self).bytes() + encode_text(key.spec_bytes()) + encode_value(
                value@,
            ),
    {
        let _ = self.serialize_str(key);
        self.serialize_value(value)
    }

    /// Writes the frames of `items`, one after the other.
    fn serialize_items(&mut self, items: &Vec<Value>)
        ensures
            final(self).bytes() == old(self).bytes() + encode_items(
                view_items(items@),
                items@.len() as int,
            ),
        decreases items,
    {
        proof {
            lemma_view_items(items@);
        }
        let mut i: usize = 0;
        while i < items.len()
            invariant
                i <= items.len(),
                view_items(items@).len() == items@.len(),
                forall|j: int|
                    0 <= j < items.len() ==> (#[trigger] view_items(items@)[j]) == items[j]@,
                self.bytes() == old(self).bytes() + encode_items(view_items(items@), i as int),
            decreases items.len() - i,
        {
            let ghost before = self.bytes();
            let _ = self.serialize_value(&items[i]);
            i += 1;
            assert(self.bytes() =~= old(self).bytes() + encode_items(view_items(items@), i as int));
        }
    }

    /// Writes the frames of `pairs`, each key followed by its value.
    fn serialize_pairs(&mut self, pairs: &Vec<(Value, Value)>)
        ensures
            final(self).bytes() == old(self).bytes() + encode_pairs(
                view_pairs(pairs@),
                pairs@.len() as int,
            ),
        decreases pairs,
    {
        proof {
            lemma_view_pairs(pairs@);
        }
        let mut i: usize = 0;
        while i < pairs.len()
            invariant
                i <= pairs.len(),
                view_pairs(pairs@).len() == pairs@.len(),
                forall|j: int|
                    0 <= j < pairs.len() ==> (#[trigger] view_pairs(pairs@)[j]) == (
                        pairs[j].0@,
                        pairs[j].1@,
                    ),
                self.bytes() == old(self).bytes() + encode_pairs(view_pairs(pairs@), i as int),
            decreases pairs.len() - i,
        {
            let _ = self.serialize_value(&pairs[i].0);
            let _ = self.serialize_value(&pairs[i].1);
            i += 1;
            assert(self.bytes() =~= old(self).bytes() + encode_pairs(view_pairs(pairs@), i as int));
        }
    }
}

/// Encodes `value` as one frame.
pub fn to_bytes(value: &Value) -> (r: Result<Vec<u8>, Error>)
    ensures
        r matches Ok(bytes) && bytes@ == encode_value(value@),
{
    let mut serializer = Serializer::new();
    serializer.serialize_value(value)?;
    let bytes = serializer.into_bytes();
    assert(bytes@ =~= encode_value(value@));
    Ok(bytes)
}

} // verus!
