//! Reading protocol values from a byte stream: a cursor over the bytes with the primitive
//! reads that a deserializer is built from.
use vstd::prelude::*;
use vstd::utf8::{valid_utf8, decode_utf8};
use crate::error::Error;
use crate::leb128::{DecodeLeb128, LebOutcome};

verus! {

/// `std::str::from_utf8`.
///
/// Trusted: the standard library accepts exactly the bytes that are valid UTF-8, and the
/// string it returns holds the characters they encode.
#[verifier::external_body]
fn str_from_utf8(bytes: &[u8]) -> (r: Result<&str, std::str::Utf8Error>)
    ensures
        r is Ok <==> valid_utf8(bytes@),
        r matches Ok(s) ==> s@ == decode_utf8(bytes@),
{
    std::str::from_utf8(bytes)
}

/// A cursor over the bytes that remain to be read.
pub struct Deserializer<'de> {
    bytes: &'de [u8],
}

impl<'de> View for Deserializer<'de> {
    type V = Seq<u8>;

    /// The bytes not read yet.
    closed spec fn view(&self) -> Seq<u8> {
        self.bytes@
    }
}

/// What reading a LEB128-prefixed run of bytes from the front of `bytes` gives: the run and
/// the number of bytes read, or the error.
pub open spec fn parsed_bytes(bytes: Seq<u8>) -> Result<(Seq<u8>, nat), Error> {
    match usize::leb128_decoded(bytes) {
        LebOutcome::Value(len, n) => if n + len <= bytes.len() {
            Ok((bytes.subrange(n as int, n + len), (n + len) as nat))
        } else {
            Err(Error::Eof)
        },
        LebOutcome::Eof => Err(Error::Eof),
        LebOutcome::Overflow => Err(Error::Leb128Overflow),
    }
}

impl<'de> Deserializer<'de> {
    /// A cursor at the start of `bytes`.
    pub fn from_bytes(bytes: &'de [u8]) -> (d: Self)
        ensures
            d@ == bytes@,
    {
        Deserializer { bytes }
    }

    /// Whether every byte has been read.
    pub fn is_empty(&self) -> (r: bool)
        ensures
            r == (self@.len() == 0),
    {
        self.bytes.len() == 0
    }

    /// The next byte, without advancing.
    pub fn peek_byte(&self) -> (r: Result<u8, Error>)
        ensures
            self@.len() > 0 ==> r == Ok::<u8, Error>(self@[0]),
            self@.len() == 0 ==> (r matches Err(e) && e is Eof),
    {
        match self.bytes.first() {
            Some(b) => Ok(*b),
            None => Err(Error::Eof),
        }
    }

    /// The next byte; the cursor moves past it.
    pub fn next_byte(&mut self) -> (r: Result<u8, Error>)
        ensures
            old(self)@.len() > 0 ==> r == Ok::<u8, Error>(old(self)@[0]) && final(self)@ == old(self)@.drop_first(),
            old(self)@.len() == 0 ==> (r matches Err(e) && e is Eof) && final(self)@ == old(self)@,
    {
        if self.bytes.len() == 0 {
            return Err(Error::Eof);
        }
        let next = self.bytes[0];
        let (_, rest) = self.bytes.split_at(1);
        self.bytes = rest;
        proof {
            assert(rest@ =~= old(self)@.drop_first());
        }
        Ok(next)
    }

    /// The next `n` bytes; the cursor moves past them.
    pub fn next_bytes(&mut self, n: usize) -> (r: Result<&'de [u8], Error>)
        ensures
            n <= old(self)@.len() ==> (r matches Ok(s) && s@ == old(self)@.take(n as int))
                && final(self)@ == old(self)@.skip(n as int),
            n > old(self)@.len() ==> (r matches Err(e) && e is Eof) && final(self)@ == old(self)@,
    {
        if n > self.bytes.len() {
            Err(Error::Eof)
        } else {
            let (next, rest) = self.bytes.split_at(n);
            self.bytes = rest;
            Ok(next)
        }
    }

    /// A LEB128 integer; on success the cursor moves past it.
    pub fn parse_leb128<T: DecodeLeb128>(&mut self) -> (r: Result<T, Error>)
        ensures
            match T::leb128_decoded(old(self)@) {
                LebOutcome::Value(v, n) => n <= old(self)@.len() && (r matches Ok(x) && x.leb128_value() == v)
                    && final(self)@ == old(self)@.skip(n as int),
                LebOutcome::Eof => (r matches Err(e) && e is Eof) && final(self)@ == old(self)@,
                LebOutcome::Overflow => (r matches Err(e) && e is Leb128Overflow) && final(self)@ == old(self)@,
            },
    {
        let (value, rest) = match T::decode_leb128(self.bytes) {
            Ok(d) => d,
            Err(e) => return Err(e),
        };
        self.bytes = rest;
        Ok(value)
    }

    /// A run of bytes prefixed by its length as a LEB128 integer.
    pub fn parse_bytes(&mut self) -> (r: Result<&'de [u8], Error>)
        ensures
            match parsed_bytes(old(self)@) {
                Ok((s, n)) => (r matches Ok(b) && b@ == s) && final(self)@ == old(self)@.skip(n as int),
                Err(e) => r == Err::<&[u8], Error>(e),
            },
    {
        let len: usize = match self.parse_leb128() {
            Ok(l) => l,
            Err(e) => return Err(e),
        };
        let ghost after_len = self@;
        let r = self.next_bytes(len);
        proof {
            if let LebOutcome::Value(l, n) = usize::leb128_decoded(old(self)@) {
                if n + l <= old(self)@.len() {
                    assert(after_len.take(len as int) =~= old(self)@.subrange(n as int, n + l));
                    assert(after_len.skip(len as int) =~= old(self)@.skip(n + l));
                }
            }
        }
        r
    }

    /// A string: its UTF-8 bytes, prefixed by their number.
    pub fn parse_str(&mut self) -> (r: Result<&'de str, Error>)
        ensures
            match parsed_bytes(old(self)@) {
                Ok((s, n)) => final(self)@ == old(self)@.skip(n as int) && if valid_utf8(s) {
                    r matches Ok(text) && text@ == decode_utf8(s)
                } else {
                    r matches Err(e) && e is Utf
                },
                Err(e) => r == Err::<&str, Error>(e),
            },
    {
        let bytes = match self.parse_bytes() {
            Ok(b) => b,
            Err(e) => return Err(e),
        };
        match str_from_utf8(bytes) {
            Ok(text) => Ok(text),
            Err(e) => Err(Error::Utf(e)),
        }
    }

    /// A boolean: the byte 0 or 1.
    pub fn parse_bool(&mut self) -> (r: Result<bool, Error>)
        ensures
            old(self)@.len() > 0 ==> final(self)@ == old(self)@.drop_first() && r == (if old(self)@[0] == 0 {
                Ok::<bool, Error>(false)
            } else if old(self)@[0] == 1 {
                Ok::<bool, Error>(true)
            } else {
                Err::<bool, Error>(Error::InvalidBool(old(self)@[0]))
            }),
            old(self)@.len() == 0 ==> (r matches Err(e) && e is Eof) && final(self)@ == old(self)@,
    {
        match self.next_byte() {
            Ok(0) => Ok(false),
            Ok(1) => Ok(true),
            Ok(byte) => Err(Error::InvalidBool(byte)),
            Err(e) => Err(e),
        }
    }

    /// A character: a string that holds exactly one.
    pub fn parse_char(&mut self) -> (r: Result<char, Error>)
        ensures
            match parsed_bytes(old(self)@) {
                Ok((s, n)) => final(self)@ == old(self)@.skip(n as int) && if !valid_utf8(s) {
                    r matches Err(e) && e is Utf
                } else if decode_utf8(s).len() == 0 {
                    r matches Err(e) && e is EmptyString
                } else if decode_utf8(s).len() > 1 {
                    r matches Err(e) && e is MultiCharString
                } else {
                    r == Ok::<char, Error>(decode_utf8(s)[0])
                },
                Err(e) => r == Err::<char, Error>(e),
            },
    {
        broadcast use vstd::string::axiom_spec_iter, vstd::string::next_postcondition;
        let text = match self.parse_str() {
            Ok(text) => text,
            Err(e) => return Err(e),
        };
        let mut chars = text.chars();
        let first = match chars.next() {
            Some(c) => c,
            None => return Err(Error::EmptyString),
        };
        match chars.next() {
            Some(_) => Err(Error::MultiCharString),
            None => Ok(first),
        }
    }

    /// Succeeds when every byte has been read; the input must not go on after a value.
    pub fn end(&self) -> (r: Result<(), Error>)
        ensures
            self@.len() == 0 <==> r is Ok,
            r matches Err(e) ==> e is TrailingBytes,
    {
        if self.is_empty() {
            Ok(())
        } else {
            Err(Error::TrailingBytes)
        }
    }
}

} // verus!
