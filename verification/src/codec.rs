//! Big-endian primitives and the string forms of the wire format.
//!
//! Every reader method is specified by a `take_*` function on the bytes that are
//! left, and every writer by the bytes that it appends.

use vstd::prelude::*;
use vstd::utf8::{decode_utf8, encode_utf8, valid_utf8};

verus! {

/// Broad class of a [`CodecError`], as an I/O layer would report it.
#[derive(Clone, Copy, Debug, PartialEq, Eq, Structural)]
pub enum ErrorClass {
    UnexpectedEof,
    InvalidData,
    InvalidInput,
    Unsupported,
}

/// Everything that can go wrong while a packet is read or written.
#[derive(Clone, Copy, Debug, PartialEq, Eq, Structural)]
pub enum CodecError {
    /// The input ended inside a field.
    UnexpectedEof,
    /// A string field does not hold UTF-8.
    InvalidUtf8,
    /// A string is longer than its two-byte length field can say.
    StringTooLong,
    /// A kick reason byte outside the known range.
    UnknownKickReason,
    /// The identity of a connect packet is not base64.
    UuidNotBase64,
    /// The identity of a connect packet does not decode to 8 or 16 bytes.
    UuidLength,
    /// Neither identity length carries a matching checksum.
    UuidChecksum,
    /// More mods than the one-byte count can say.
    TooManyMods,
    /// A mod name was sent as the null string.
    NullModName,
    /// A tile tap payload longer than its form allows.
    TileTapTooLong,
    /// A tile tap payload shorter than its form demands.
    TileTapLength,
    /// A construction carries a configuration object.
    ConfigUnsupported,
    /// A rules payload length outside the accepted range.
    RulesLength,
    /// A rules payload that is not UTF-8.
    RulesNotUtf8,
    /// A rules text whose length does not fit its field.
    RulesTooLong,
    /// A stream chunk whose length does not fit its field.
    ChunkTooLong,
    /// A packet that does not fit the two-byte length of its frame.
    FrameTooLong,
    /// A packet number that names no remote call.
    UnknownRpcId,
    /// The variant has no packet of its own.
    NoOfficialPacket,
    /// The variant is only a marker.
    CompatibilityMarker,
    /// The client form exists for tile taps only.
    ClientFormOnlyTileTap,
    /// The server form exists for tile taps only.
    ServerFormOnlyTileTap,
}

impl CodecError {
    pub open spec fn spec_class(self) -> ErrorClass {
        match self {
            CodecError::UnexpectedEof => ErrorClass::UnexpectedEof,
            CodecError::StringTooLong | CodecError::UuidNotBase64 | CodecError::UuidLength
            | CodecError::TooManyMods | CodecError::RulesTooLong | CodecError::ChunkTooLong
            | CodecError::FrameTooLong | CodecError::ClientFormOnlyTileTap | CodecError::ServerFormOnlyTileTap =>
                ErrorClass::InvalidInput,
            CodecError::ConfigUnsupported | CodecError::NoOfficialPacket
            | CodecError::CompatibilityMarker => ErrorClass::Unsupported,
            _ => ErrorClass::InvalidData,
        }
    }

    /// The class under which the error is reported.
    pub fn class(&self) -> (c: ErrorClass)
        ensures
            c == self.spec_class(),
    {
        match self {
            CodecError::UnexpectedEof => ErrorClass::UnexpectedEof,
            CodecError::StringTooLong | CodecError::UuidNotBase64 | CodecError::UuidLength
            | CodecError::TooManyMods | CodecError::RulesTooLong | CodecError::ChunkTooLong
            | CodecError::FrameTooLong | CodecError::ClientFormOnlyTileTap | CodecError::ServerFormOnlyTileTap =>
                ErrorClass::InvalidInput,
            CodecError::ConfigUnsupported | CodecError::NoOfficialPacket
            | CodecError::CompatibilityMarker => ErrorClass::Unsupported,
            _ => ErrorClass::InvalidData,
        }
    }
}

// ---------------------------------------------------------------------------
// Two's complement.

/// The unsigned value with the same sixteen bits.
pub open spec fn unsigned16(v: i16) -> u16 {
    if v < 0 { (v + 0x1_0000) as u16 } else { v as u16 }
}

/// The signed value with the same sixteen bits.
pub open spec fn signed16(v: u16) -> i16 {
    if v >= 0x8000 { (v - 0x1_0000) as i16 } else { v as i16 }
}

/// The unsigned value with the same thirty-two bits.
pub open spec fn unsigned32(v: i32) -> u32 {
    if v < 0 { (v + 0x1_0000_0000) as u32 } else { v as u32 }
}

/// The signed value with the same thirty-two bits.
pub open spec fn signed32(v: u32) -> i32 {
    if v >= 0x8000_0000 { (v - 0x1_0000_0000) as i32 } else { v as i32 }
}

/// The unsigned value with the same sixty-four bits.
pub open spec fn unsigned64(v: i64) -> u64 {
    if v < 0 { (v + 0x1_0000_0000_0000_0000) as u64 } else { v as u64 }
}

pub(crate) fn to_unsigned16(v: i16) -> (r: u16)
    ensures
        r == unsigned16(v),
{
    if v < 0 { (v as i32 + 0x1_0000) as u16 } else { v as u16 }
}

pub(crate) fn to_signed16(v: u16) -> (r: i16)
    ensures
        r == signed16(v),
{
    if v >= 0x8000 { (v as i32 - 0x1_0000) as i16 } else { v as i16 }
}

pub(crate) fn to_unsigned32(v: i32) -> (r: u32)
    ensures
        r == unsigned32(v),
{
    if v < 0 { (v as i64 + 0x1_0000_0000) as u32 } else { v as u32 }
}

pub(crate) fn to_signed32(v: u32) -> (r: i32)
    ensures
        r == signed32(v),
{
    if v >= 0x8000_0000 { (v as i64 - 0x1_0000_0000) as i32 } else { v as i32 }
}

pub(crate) fn to_unsigned64(v: i64) -> (r: u64)
    ensures
        r == unsigned64(v),
{
    if v < 0 { (v as i128 + 0x1_0000_0000_0000_0000) as u64 } else { v as u64 }
}

// ---------------------------------------------------------------------------
// Big-endian byte strings.

/// Two bytes, the high one first.
pub open spec fn be16(v: u16) -> Seq<u8> {
    seq![(v / 0x100) as u8, (v % 0x100) as u8]
}

/// Four bytes, the high one first.
pub open spec fn be32(v: u32) -> Seq<u8> {
    be16((v / 0x1_0000) as u16) + be16((v % 0x1_0000) as u16)
}

/// Eight bytes, the high one first.
pub open spec fn be64(v: u64) -> Seq<u8> {
    be32((v / 0x1_0000_0000) as u32) + be32((v % 0x1_0000_0000) as u32)
}

/// The value of the first two bytes.
pub open spec fn of_be16(b: Seq<u8>) -> u16 {
    (b[0] * 0x100 + b[1]) as u16
}

/// The value of the first four bytes.
pub open spec fn of_be32(b: Seq<u8>) -> u32 {
    (of_be16(b) * 0x1_0000 + of_be16(b.skip(2))) as u32
}

/// The value of the first eight bytes.
pub open spec fn of_be64(b: Seq<u8>) -> u64 {
    (of_be32(b) * 0x1_0000_0000 + of_be32(b.skip(4))) as u64
}

/// Two bytes read back give the value that was written, whatever follows.
pub proof fn lemma_be16_round_trip(v: u16, tail: Seq<u8>)
    ensures
        be16(v).len() == 2,
        of_be16(be16(v) + tail) == v,
{
}

/// Four bytes read back give the value that was written, whatever follows.
pub proof fn lemma_be32_round_trip(v: u32, tail: Seq<u8>)
    ensures
        be32(v).len() == 4,
        of_be32(be32(v) + tail) == v,
{
    let hi = (v / 0x1_0000) as u16;
    let lo = (v % 0x1_0000) as u16;
    let all = be32(v) + tail;
    lemma_be16_round_trip(hi, be16(lo) + tail);
    lemma_be16_round_trip(lo, tail);
    assert(all =~= be16(hi) + (be16(lo) + tail));
    assert(all.skip(2) =~= be16(lo) + tail);
}

/// Eight bytes read back give the value that was written, whatever follows.
pub proof fn lemma_be64_round_trip(v: u64, tail: Seq<u8>)
    ensures
        be64(v).len() == 8,
        of_be64(be64(v) + tail) == v,
{
    let hi = (v / 0x1_0000_0000) as u32;
    let lo = (v % 0x1_0000_0000) as u32;
    let all = be64(v) + tail;
    lemma_be32_round_trip(hi, be32(lo) + tail);
    lemma_be32_round_trip(lo, tail);
    assert(all =~= be32(hi) + (be32(lo) + tail));
    assert(all.skip(4) =~= be32(lo) + tail);
}

// ---------------------------------------------------------------------------
// What a reader finds.

/// One byte.
pub open spec fn take_u8(s: Seq<u8>) -> Result<(u8, Seq<u8>), CodecError> {
    if s.len() < 1 { Err(CodecError::UnexpectedEof) } else { Ok((s[0], s.skip(1))) }
}

/// An unsigned two-byte number.
pub open spec fn take_u16(s: Seq<u8>) -> Result<(u16, Seq<u8>), CodecError> {
    if s.len() < 2 { Err(CodecError::UnexpectedEof) } else { Ok((of_be16(s), s.skip(2))) }
}

/// A signed four-byte number.
pub open spec fn take_i32(s: Seq<u8>) -> Result<(i32, Seq<u8>), CodecError> {
    if s.len() < 4 { Err(CodecError::UnexpectedEof) } else { Ok((signed32(of_be32(s)), s.skip(4))) }
}

/// A run of `n` bytes.
pub open spec fn take_bytes(s: Seq<u8>, n: nat) -> Result<(Seq<u8>, Seq<u8>), CodecError> {
    if s.len() < n {
        Err(CodecError::UnexpectedEof)
    } else {
        Ok((s.take(n as int), s.skip(n as int)))
    }
}

/// A string behind a two-byte length.
#[verifier::opaque]
pub open spec fn take_utf(s: Seq<u8>) -> Result<(Seq<char>, Seq<u8>), CodecError> {
    match take_u16(s) {
        Err(e) => Err(e),
        Ok((n, rest)) => match take_bytes(rest, n as nat) {
            Err(e) => Err(e),
            Ok((bytes, rest)) => if valid_utf8(bytes) {
                Ok((decode_utf8(bytes), rest))
            } else {
                Err(CodecError::InvalidUtf8)
            },
        },
    }
}

/// A string that may be null: a zero byte, or a non-zero byte and the string.
pub open spec fn take_typeio_string(s: Seq<u8>) -> Result<(Option<Seq<char>>, Seq<u8>), CodecError> {
    match take_u8(s) {
        Err(e) => Err(e),
        Ok((tag, rest)) => if tag == 0 {
            Ok((None, rest))
        } else {
            match take_utf(rest) {
                Err(e) => Err(e),
                Ok((text, rest)) => Ok((Some(text), rest)),
            }
        },
    }
}

/// A string that may be null, read as the empty string when it is.
pub open spec fn take_typeio_text(s: Seq<u8>) -> Result<(Seq<char>, Seq<u8>), CodecError> {
    match take_typeio_string(s) {
        Err(e) => Err(e),
        Ok((None, rest)) => Ok((Seq::empty(), rest)),
        Ok((Some(text), rest)) => Ok((text, rest)),
    }
}

// ---------------------------------------------------------------------------
// What a writer appends.

/// Whether a text fits a two-byte length.
pub open spec fn utf_fits(text: Seq<char>) -> bool {
    encode_utf8(text).len() <= 0xFFFF
}

/// A string behind a two-byte length.
pub open spec fn utf_bytes(text: Seq<char>) -> Seq<u8> {
    be16(encode_utf8(text).len() as u16) + encode_utf8(text)
}

/// A present string: its tag, then the string.
pub open spec fn typeio_bytes(text: Seq<char>) -> Seq<u8> {
    seq![1u8] + utf_bytes(text)
}

/// Reading a string that fits gives it back and leaves what follows.
pub proof fn law_utf_round_trip(text: Seq<char>, tail: Seq<u8>)
    requires
        utf_fits(text),
    ensures
        take_utf(utf_bytes(text) + tail) == Ok::<(Seq<char>, Seq<u8>), CodecError>((text, tail)),
{
    broadcast use vstd::utf8::encode_utf8_valid_utf8, vstd::utf8::encode_utf8_decode_utf8;

    reveal(take_utf);
    let body = encode_utf8(text);
    let all = utf_bytes(text) + tail;
    lemma_be16_round_trip(body.len() as u16, body + tail);
    assert(all =~= be16(body.len() as u16) + (body + tail));
    assert(all.skip(2) =~= body + tail);
    assert((body + tail).take(body.len() as int) =~= body);
    assert((body + tail).skip(body.len() as int) =~= tail);
}

/// Reading a present string that fits gives it back and leaves what follows.
pub proof fn law_typeio_round_trip(text: Seq<char>, tail: Seq<u8>)
    requires
        utf_fits(text),
    ensures
        take_typeio_string(typeio_bytes(text) + tail) == Ok::<
            (Option<Seq<char>>, Seq<u8>),
            CodecError,
        >((Some(text), tail)),
{
    let all = typeio_bytes(text) + tail;
    law_utf_round_trip(text, tail);
    assert(all.skip(1) =~= utf_bytes(text) + tail);
}

/// A signed four-byte number is read back, and what follows is left.
pub proof fn lemma_i32_round_trip(v: i32, tail: Seq<u8>)
    ensures
        be32(unsigned32(v)).len() == 4,
        take_i32(be32(unsigned32(v)) + tail) == Ok::<(i32, Seq<u8>), CodecError>((v, tail)),
{
    lemma_be32_round_trip(unsigned32(v), tail);
    assert((be32(unsigned32(v)) + tail).skip(4) =~= tail);
}

/// Calls `String::from_utf8` of the standard library: the text whose UTF-8 form is
/// `bytes`, and `None` exactly when they are no UTF-8.
#[verifier::external_body]
pub(crate) fn string_from_utf8(bytes: Vec<u8>) -> (r: Option<String>)
    ensures
        r is Some <==> valid_utf8(bytes@),
        r matches Some(s) ==> s@ == decode_utf8(bytes@),
{
    String::from_utf8(bytes).ok()
}

// ---------------------------------------------------------------------------
// Reader.

/// A cursor over bytes. Its view is what is left to read.
pub struct ByteReader<'a> {
    rest: &'a [u8],
}

impl<'a> View for ByteReader<'a> {
    type V = Seq<u8>;

    closed spec fn view(&self) -> Seq<u8> {
        self.rest@
    }
}

impl<'a> ByteReader<'a> {
    /// A cursor at the start of `data`.
    pub fn new(data: &'a [u8]) -> (r: ByteReader<'a>)
        ensures
            r@ == data@,
    {
        ByteReader { rest: data }
    }

    /// How many bytes are left.
    pub fn remaining(&self) -> (n: usize)
        ensures
            n == self@.len(),
    {
        self.rest.len()
    }

    /// Everything that is left; the cursor is then at the end.
    pub fn read_to_end(&mut self) -> (v: Vec<u8>)
        ensures
            v@ == old(self)@,
            final(self)@ == Seq::<u8>::empty(),
    {
        let n: usize = self.rest.len();
        let (head, tail) = self.rest.split_at(n);
        self.rest = tail;
        assert(head@ =~= old(self)@);
        slice_to_vec(head)
    }

    pub fn read_b(&mut self) -> (r: Result<u8, CodecError>)
        ensures
            match take_u8(old(self)@) {
                Ok((v, rest)) => r == Ok::<u8, CodecError>(v) && final(self)@ == rest,
                Err(e) => r == Err::<u8, CodecError>(e) && final(self)@ == old(self)@,
            },
    {
        if self.rest.len() < 1 {
            return Err(CodecError::UnexpectedEof);
        }
        let v: u8 = self.rest[0];
        let (_, tail) = self.rest.split_at(1);
        assert(tail@ =~= old(self)@.skip(1));
        self.rest = tail;
        Ok(v)
    }

    pub fn read_us(&mut self) -> (r: Result<u16, CodecError>)
        ensures
            match take_u16(old(self)@) {
                Ok((v, rest)) => r == Ok::<u16, CodecError>(v) && final(self)@ == rest,
                Err(e) => r == Err::<u16, CodecError>(e) && final(self)@ == old(self)@,
            },
    {
        if self.rest.len() < 2 {
            return Err(CodecError::UnexpectedEof);
        }
        let v: u16 = self.rest[0] as u16 * 0x100 + self.rest[1] as u16;
        let (_, tail) = self.rest.split_at(2);
        assert(tail@ =~= old(self)@.skip(2));
        self.rest = tail;
        Ok(v)
    }

    pub fn read_i(&mut self) -> (r: Result<i32, CodecError>)
        ensures
            match take_i32(old(self)@) {
                Ok((v, rest)) => r == Ok::<i32, CodecError>(v) && final(self)@ == rest,
                Err(e) => r == Err::<i32, CodecError>(e) && final(self)@ == old(self)@,
            },
    {
        if self.rest.len() < 4 {
            return Err(CodecError::UnexpectedEof);
        }
        let hi: u16 = self.rest[0] as u16 * 0x100 + self.rest[1] as u16;
        let lo: u16 = self.rest[2] as u16 * 0x100 + self.rest[3] as u16;
        let v: u32 = hi as u32 * 0x1_0000 + lo as u32;
        assert(v == of_be32(old(self)@));
        let (_, tail) = self.rest.split_at(4);
        assert(tail@ =~= old(self)@.skip(4));
        self.rest = tail;
        Ok(to_signed32(v))
    }

    pub fn read_bytes(&mut self, n: usize) -> (r: Result<Vec<u8>, CodecError>)
        ensures
            match take_bytes(old(self)@, n as nat) {
                Ok((v, rest)) => r matches Ok(out) && out@ == v && final(self)@ == rest,
                Err(e) => r == Err::<Vec<u8>, CodecError>(e) && final(self)@ == old(self)@,
            },
    {
        if self.rest.len() < n {
            return Err(CodecError::UnexpectedEof);
        }
        let (head, tail) = self.rest.split_at(n);
        assert(head@ =~= old(self)@.take(n as int));
        assert(tail@ =~= old(self)@.skip(n as int));
        self.rest = tail;
        Ok(slice_to_vec(head))
    }

    pub fn read_utf(&mut self) -> (r: Result<String, CodecError>)
        ensures
            match take_utf(old(self)@) {
                Ok((v, rest)) => r matches Ok(out) && out@ == v && final(self)@ == rest,
                Err(e) => r == Err::<String, CodecError>(e),
            },
    {
        reveal(take_utf);
        let n: u16 = match self.read_us() {
            Ok(n) => n,
            Err(e) => return Err(e),
        };
        let bytes = match self.read_bytes(n as usize) {
            Ok(bytes) => bytes,
            Err(e) => return Err(e),
        };
        match string_from_utf8(bytes) {
            Some(text) => Ok(text),
            None => Err(CodecError::InvalidUtf8),
        }
    }

    pub fn read_typeio_string(&mut self) -> (r: Result<Option<String>, CodecError>)
        ensures
            match take_typeio_string(old(self)@) {
                Ok((None, rest)) => r == Ok::<Option<String>, CodecError>(None) && final(self)@
                    == rest,
                Ok((Some(text), rest)) => r matches Ok(Some(out)) && out@ == text && final(self)@
                    == rest,
                Err(e) => r == Err::<Option<String>, CodecError>(e),
            },
    {
        match self.read_b() {
            Err(e) => Err(e),
            Ok(tag) => if tag == 0 {
                Ok(None)
            } else {
                match self.read_utf() {
                    Ok(text) => Ok(Some(text)),
                    Err(e) => Err(e),
                }
            },
        }
    }

    /// A string that may be null, the empty one when it is.
    pub fn read_typeio_text(&mut self) -> (r: Result<String, CodecError>)
        ensures
            match take_typeio_text(old(self)@) {
                Ok((v, rest)) => r matches Ok(out) && out@ == v && final(self)@ == rest,
                Err(e) => r == Err::<String, CodecError>(e),
            },
    {
        match self.read_typeio_string() {
            Ok(Some(text)) => Ok(text),
            Ok(None) => Ok(String::new()),
            Err(e) => Err(e),
        }
    }
}

/// A vector with the elements of `s`.
pub fn slice_to_vec(s: &[u8]) -> (v: Vec<u8>)
    ensures
        v@ == s@,
{
    let mut v: Vec<u8> = Vec::new();
    write_all(&mut v, s);
    v
}

// ---------------------------------------------------------------------------
// Writer.

/// Appends `data`.
pub fn write_all(out: &mut Vec<u8>, data: &[u8])
    ensures
        final(out)@ == old(out)@ + data@,
{
    let ghost before = out@;
    out.extend_from_slice(data);
    assert(out@ =~= before + data@);
}

/// Appends one byte.
pub fn write_b(out: &mut Vec<u8>, v: u8)
    ensures
        final(out)@ == old(out)@ + seq![v],
{
    let ghost before = out@;
    out.push(v);
    assert(out@ =~= before + seq![v]);
}

/// Appends an unsigned two-byte number.
pub fn write_us(out: &mut Vec<u8>, v: u16)
    ensures
        final(out)@ == old(out)@ + be16(v),
{
    let ghost before = out@;
    out.push((v / 0x100) as u8);
    out.push((v % 0x100) as u8);
    assert(out@ =~= before + be16(v));
}

/// Appends a signed two-byte number.
pub fn write_s(out: &mut Vec<u8>, v: i16)
    ensures
        final(out)@ == old(out)@ + be16(unsigned16(v)),
{
    write_us(out, to_unsigned16(v));
}

/// Appends an unsigned four-byte number.
pub fn write_ui(out: &mut Vec<u8>, v: u32)
    ensures
        final(out)@ == old(out)@ + be32(v),
{
    let ghost before = out@;
    write_us(out, (v / 0x1_0000) as u16);
    write_us(out, (v % 0x1_0000) as u16);
    assert(out@ =~= before + be32(v));
}

/// Appends a signed four-byte number.
pub fn write_i(out: &mut Vec<u8>, v: i32)
    ensures
        final(out)@ == old(out)@ + be32(unsigned32(v)),
{
    write_ui(out, to_unsigned32(v));
}

/// Appends a signed eight-byte number.
pub fn write_l(out: &mut Vec<u8>, v: i64)
    ensures
        final(out)@ == old(out)@ + be64(unsigned64(v)),
{
    let ghost before = out@;
    let u: u64 = to_unsigned64(v);
    write_ui(out, (u / 0x1_0000_0000) as u32);
    write_ui(out, (u % 0x1_0000_0000) as u32);
    assert(out@ =~= before + be64(u));
}

/// Appends a string behind its two-byte length. A string that does not fit leaves
/// the buffer as it was.
pub fn write_utf(out: &mut Vec<u8>, text: &str) -> (r: Result<(), CodecError>)
    ensures
        utf_fits(text@) ==> r == Ok::<(), CodecError>(()) && final(out)@ == old(out)@ + utf_bytes(
            text@,
        ),
        !utf_fits(text@) ==> r == Err::<(), CodecError>(CodecError::StringTooLong) && final(out)@
            == old(out)@,
{
    let ghost before = out@;
    let bytes = text.as_bytes();
    if bytes.len() > 0xFFFF {
        return Err(CodecError::StringTooLong);
    }
    write_us(out, bytes.len() as u16);
    write_all(out, bytes);
    assert(out@ =~= before + utf_bytes(text@));
    Ok(())
}

/// Appends a present string. A string that does not fit leaves only the tag.
pub fn write_typeio_string(out: &mut Vec<u8>, text: &str) -> (r: Result<(), CodecError>)
    ensures
        utf_fits(text@) ==> r == Ok::<(), CodecError>(()) && final(out)@ == old(out)@
            + typeio_bytes(text@),
        !utf_fits(text@) ==> r == Err::<(), CodecError>(CodecError::StringTooLong) && final(out)@
            == old(out)@ + seq![1u8],
{
    let ghost before = out@;
    write_b(out, 1);
    let r = write_utf(out, text);
    proof {
        if utf_fits(text@) {
            assert(out@ =~= before + typeio_bytes(text@));
        }
    }
    r
}

} // verus!
