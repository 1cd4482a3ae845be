//! The wire codec: fixed-width big-endian integers, booleans, length-prefixed
//! strings and sequences, read from and written to byte buffers.

use byteorder::{BigEndian, ByteOrder};
use std::io::ErrorKind;
use std::string::FromUtf8Error;
use vstd::prelude::*;
use vstd::slice::slice_subrange;
use vstd::std_specs::convert::FromSpecImpl;
use vstd::utf8::{decode_utf8, encode_utf8, valid_utf8};

verus! {

/// The I/O error of the standard library, carried through unchanged.
#[verifier::external_type_specification]
#[verifier::external_body]
pub struct ExIoError(std::io::Error);

/// The error that `String::from_utf8` hands back for bytes that are not UTF-8.
#[verifier::external_type_specification]
#[verifier::external_body]
pub struct ExFromUtf8Error(FromUtf8Error);

/// Why a value could not be read from a byte stream.
#[derive(Debug)]
pub enum SerializeError {
    /// The stream ended before the value was complete.
    IOError(std::io::Error),
    /// A string's bytes were not valid UTF-8.
    UTFError(FromUtf8Error),
}

/// The ways in which a byte sequence can fail to hold a value.
pub ghost enum Malformed {
    /// Fewer bytes than the value needs.
    Truncated,
    /// A string whose bytes are not UTF-8.
    InvalidUtf8,
}

/// What parsing a byte sequence yields: the value's model and the number of
/// bytes it took, or the reason why there is none.
pub type Parsed<V> = Result<(V, int), Malformed>;

impl From<std::io::Error> for SerializeError {
    /// An I/O error as a failure to read a value.
    fn from(err: std::io::Error) -> (r: SerializeError) {
        SerializeError::IOError(err)
    }
}

impl FromSpecImpl<std::io::Error> for SerializeError {
    open spec fn obeys_from_spec() -> bool {
        true
    }

    open spec fn from_spec(err: std::io::Error) -> SerializeError {
        SerializeError::IOError(err)
    }
}

impl From<FromUtf8Error> for SerializeError {
    /// Bytes that are no UTF-8 as a failure to read a value.
    fn from(err: FromUtf8Error) -> (r: SerializeError) {
        SerializeError::UTFError(err)
    }
}

impl FromSpecImpl<FromUtf8Error> for SerializeError {
    open spec fn obeys_from_spec() -> bool {
        true
    }

    open spec fn from_spec(err: FromUtf8Error) -> SerializeError {
        SerializeError::UTFError(err)
    }
}

impl SerializeError {
    /// The reason that this error stands for.
    pub open spec fn reason(self) -> Malformed {
        match self {
            SerializeError::IOError(_) => Malformed::Truncated,
            SerializeError::UTFError(_) => Malformed::InvalidUtf8,
        }
    }
}

// ---------------------------------------------------------------------------
// Big-endian layout
// ---------------------------------------------------------------------------
/// The two bytes of `n`, most significant first.
pub open spec fn be_u16(n: u16) -> Seq<u8> {
    seq![(n / 256) as u8, (n % 256) as u8]
}

/// The four bytes of `n`, most significant first.
pub open spec fn be_u32(n: u32) -> Seq<u8> {
    seq![
        (n / 256 / 256 / 256) as u8,
        (n / 256 / 256 % 256) as u8,
        (n / 256 % 256) as u8,
        (n % 256) as u8,
    ]
}

/// The eight bytes of `n`, most significant first.
pub open spec fn be_u64(n: u64) -> Seq<u8> {
    be_u32((n / 0x1_0000_0000) as u32) + be_u32((n % 0x1_0000_0000) as u32)
}

/// The number whose big-endian layout is the first two bytes of `b`.
pub open spec fn from_be_u16(b: Seq<u8>) -> u16 {
    (b[0] as int * 256 + b[1] as int) as u16
}

/// The number whose big-endian layout is the first four bytes of `b`.
pub open spec fn from_be_u32(b: Seq<u8>) -> u32 {
    (((b[0] as int * 256 + b[1] as int) * 256 + b[2] as int) * 256 + b[3] as int) as u32
}

/// The number whose big-endian layout is the first eight bytes of `b`.
pub open spec fn from_be_u64(b: Seq<u8>) -> u64 {
    (from_be_u32(b) as int * 0x1_0000_0000 + from_be_u32(b.skip(4)) as int) as u64
}

/// The two's complement bit pattern of `n`.
pub open spec fn bits_i8(n: i8) -> u8 {
    if n >= 0 {
        n as u8
    } else {
        (n + 0x100) as u8
    }
}

/// The two's complement bit pattern of `n`.
pub open spec fn bits_i16(n: i16) -> u16 {
    if n >= 0 {
        n as u16
    } else {
        (n + 0x1_0000) as u16
    }
}

/// The two's complement bit pattern of `n`.
pub open spec fn bits_i32(n: i32) -> u32 {
    if n >= 0 {
        n as u32
    } else {
        (n + 0x1_0000_0000) as u32
    }
}

/// The two's complement bit pattern of `n`.
pub open spec fn bits_i64(n: i64) -> u64 {
    if n >= 0 {
        n as u64
    } else {
        (n + 0x1_0000_0000_0000_0000) as u64
    }
}

/// The signed number with the bit pattern `u`.
pub open spec fn signed_i8(u: u8) -> i8 {
    if u < 0x80 {
        u as i8
    } else {
        (u - 0x100) as i8
    }
}

/// The signed number with the bit pattern `u`.
pub open spec fn signed_i16(u: u16) -> i16 {
    if u < 0x8000 {
        u as i16
    } else {
        (u - 0x1_0000) as i16
    }
}

/// The signed number with the bit pattern `u`.
pub open spec fn signed_i32(u: u32) -> i32 {
    if u < 0x8000_0000 {
        u as i32
    } else {
        (u - 0x1_0000_0000) as i32
    }
}

/// The signed number with the bit pattern `u`.
pub open spec fn signed_i64(u: u64) -> i64 {
    if u < 0x8000_0000_0000_0000 {
        u as i64
    } else {
        (u - 0x1_0000_0000_0000_0000) as i64
    }
}

/// Reading back the big-endian layout of a number gives the number, whatever
/// follows the layout.
pub proof fn lemma_be_u16_round_trip(n: u16, rest: Seq<u8>)
    ensures
        be_u16(n).len() == 2,
        from_be_u16(be_u16(n) + rest) == n,
{
}

/// Reading back the big-endian layout of a number gives the number, whatever
/// follows the layout.
pub proof fn lemma_be_u32_round_trip(n: u32, rest: Seq<u8>)
    ensures
        be_u32(n).len() == 4,
        from_be_u32(be_u32(n) + rest) == n,
{
    let b = be_u32(n) + rest;
    assert(b[0] == (n / 256 / 256 / 256) as u8);
    assert(b[1] == (n / 256 / 256 % 256) as u8);
    assert(b[2] == (n / 256 % 256) as u8);
    assert(b[3] == (n % 256) as u8);
}

/// Reading back the big-endian layout of a number gives the number, whatever
/// follows the layout.
pub proof fn lemma_be_u64_round_trip(n: u64, rest: Seq<u8>)
    ensures
        be_u64(n).len() == 8,
        from_be_u64(be_u64(n) + rest) == n,
{
    let hi = (n / 0x1_0000_0000) as u32;
    let lo = (n % 0x1_0000_0000) as u32;
    let b = be_u64(n) + rest;
    lemma_be_u32_round_trip(hi, be_u32(lo) + rest);
    lemma_be_u32_round_trip(lo, rest);
    assert(b == be_u32(hi) + (be_u32(lo) + rest));
    assert(b.skip(4) == be_u32(lo) + rest);
}

/// A signed number is the one that its bit pattern stands for.
pub proof fn lemma_bits_round_trip(a: i8, b: i16, c: i32, d: i64)
    ensures
        signed_i8(bits_i8(a)) == a,
        signed_i16(bits_i16(b)) == b,
        signed_i32(bits_i32(c)) == c,
        signed_i64(bits_i64(d)) == d,
{
}

// ---------------------------------------------------------------------------
// Calls into byteorder
// ---------------------------------------------------------------------------
/// `BigEndian::write_u16` on a fresh two-byte buffer: the buffer then holds
/// `n` with its most significant byte first.
#[verifier::external_body]
fn put_u16(n: u16) -> (out: [u8; 2])
    ensures
        out@ == be_u16(n),
{
    let mut out = [0u8; 2];
    BigEndian::write_u16(&mut out, n);
    out
}

/// `BigEndian::write_u32` on a fresh four-byte buffer: the buffer then holds
/// `n` with its most significant byte first.
#[verifier::external_body]
fn put_u32(n: u32) -> (out: [u8; 4])
    ensures
        out@ == be_u32(n),
{
    let mut out = [0u8; 4];
    BigEndian::write_u32(&mut out, n);
    out
}

/// `BigEndian::write_u64` on a fresh eight-byte buffer: the buffer then holds
/// `n` with its most significant byte first.
#[verifier::external_body]
fn put_u64(n: u64) -> (out: [u8; 8])
    ensures
        out@ == be_u64(n),
{
    let mut out = [0u8; 8];
    BigEndian::write_u64(&mut out, n);
    out
}

/// `BigEndian::write_i16` on a fresh two-byte buffer: the buffer then holds
/// the two's complement pattern of `n`, most significant byte first.
#[verifier::external_body]
fn put_i16(n: i16) -> (out: [u8; 2])
    ensures
        out@ == be_u16(bits_i16(n)),
{
    let mut out = [0u8; 2];
    BigEndian::write_i16(&mut out, n);
    out
}

/// `BigEndian::write_i32` on a fresh four-byte buffer: the buffer then holds
/// the two's complement pattern of `n`, most significant byte first.
#[verifier::external_body]
fn put_i32(n: i32) -> (out: [u8; 4])
    ensures
        out@ == be_u32(bits_i32(n)),
{
    let mut out = [0u8; 4];
    BigEndian::write_i32(&mut out, n);
    out
}

/// `BigEndian::write_i64` on a fresh eight-byte buffer: the buffer then holds
/// the two's complement pattern of `n`, most significant byte first.
#[verifier::external_body]
fn put_i64(n: i64) -> (out: [u8; 8])
    ensures
        out@ == be_u64(bits_i64(n)),
{
    let mut out = [0u8; 8];
    BigEndian::write_i64(&mut out, n);
    out
}

/// `BigEndian::read_u16`: the number laid out in the first two bytes of
/// `buf`. It panics on a shorter buffer.
#[verifier::external_body]
fn get_u16(buf: &[u8]) -> (n: u16)
    requires
        buf@.len() >= 2,
    ensures
        n == from_be_u16(buf@),
{
    BigEndian::read_u16(buf)
}

/// `BigEndian::read_u32`: the number laid out in the first four bytes of
/// `buf`. It panics on a shorter buffer.
#[verifier::external_body]
fn get_u32(buf: &[u8]) -> (n: u32)
    requires
        buf@.len() >= 4,
    ensures
        n == from_be_u32(buf@),
{
    BigEndian::read_u32(buf)
}

/// `BigEndian::read_u64`: the number laid out in the first eight bytes of
/// `buf`. It panics on a shorter buffer.
#[verifier::external_body]
fn get_u64(buf: &[u8]) -> (n: u64)
    requires
        buf@.len() >= 8,
    ensures
        n == from_be_u64(buf@),
{
    BigEndian::read_u64(buf)
}

/// `BigEndian::read_i16`: the signed number whose two's complement pattern
/// is laid out in the first two bytes of `buf`. It panics on a shorter buffer.
#[verifier::external_body]
fn get_i16(buf: &[u8]) -> (n: i16)
    requires
        buf@.len() >= 2,
    ensures
        n == signed_i16(from_be_u16(buf@)),
{
    BigEndian::read_i16(buf)
}

/// `BigEndian::read_i32`: the signed number whose two's complement pattern
/// is laid out in the first four bytes of `buf`. It panics on a shorter buffer.
#[verifier::external_body]
fn get_i32(buf: &[u8]) -> (n: i32)
    requires
        buf@.len() >= 4,
    ensures
        n == signed_i32(from_be_u32(buf@)),
{
    BigEndian::read_i32(buf)
}

/// `BigEndian::read_i64`: the signed number whose two's complement pattern
/// is laid out in the first eight bytes of `buf`. It panics on a shorter buffer.
#[verifier::external_body]
fn get_i64(buf: &[u8]) -> (n: i64)
    requires
        buf@.len() >= 8,
    ensures
        n == signed_i64(from_be_u64(buf@)),
{
    BigEndian::read_i64(buf)
}

/// `std::io::Error::from` on `ErrorKind::UnexpectedEof`: the error that a
/// reader reports when its input ends too early.
#[verifier::external_body]
fn unexpected_eof() -> std::io::Error {
    std::io::Error::from(ErrorKind::UnexpectedEof)
}

/// `String::from_utf8`: the string that the bytes spell, and an error exactly
/// when they are not UTF-8.
#[verifier::external_body]
fn string_from_utf8(bytes: Vec<u8>) -> (r: Result<String, FromUtf8Error>)
    ensures
        r is Ok <==> valid_utf8(bytes@),
        r matches Ok(s) ==> s@ == decode_utf8(bytes@),
{
    String::from_utf8(bytes)
}

// ---------------------------------------------------------------------------
// Cursor
// ---------------------------------------------------------------------------
/// A byte buffer that is read front to back.
pub struct Cursor {
    data: Vec<u8>,
    pos: usize,
}

impl Cursor {
    #[verifier::type_invariant]
    spec fn inv(self) -> bool {
        self.pos <= self.data@.len()
    }

    /// The bytes that have not been read yet.
    pub closed spec fn remaining(self) -> Seq<u8> {
        self.data@.skip(self.pos as int)
    }

    /// The number of bytes read so far.
    pub closed spec fn position(self) -> nat {
        self.pos as nat
    }

    /// The whole buffer, read or not.
    pub closed spec fn bytes(self) -> Seq<u8> {
        self.data@
    }

    /// A cursor at the start of `data`.
    pub fn new(data: Vec<u8>) -> (c: Cursor)
        ensures
            c.remaining() == data@,
            c.bytes() == data@,
            c.position() == 0,
    {
        Cursor { data, pos: 0 }
    }

    /// How many bytes have been read.
    pub fn offset(&self) -> (n: usize)
        ensures
            n == self.position(),
            n <= self.bytes().len(),
            self.remaining() == self.bytes().skip(n as int),
    {
        proof {
            use_type_invariant(self);
        }
        self.pos
    }

    /// The bytes of the buffer from the place `from` on.
    pub fn into_rest(self, from: usize) -> (rest: Vec<u8>)
        requires
            from <= self.bytes().len(),
        ensures
            rest@ == self.bytes().skip(from as int),
    {
        let part = slice_subrange(self.data.as_slice(), from, self.data.len());
        let mut out: Vec<u8> = Vec::new();
        append(&mut out, part);
        assert(out@ =~= self.data@.skip(from as int));
        out
    }

    /// How many bytes are left to read.
    pub fn available(&self) -> (n: usize)
        ensures
            n == self.remaining().len(),
    {
        proof {
            use_type_invariant(self);
        }
        self.data.len() - self.pos
    }

    /// Reads one byte, or reports that none is left and stays where it is.
    pub fn read_byte(&mut self) -> (r: Result<u8, SerializeError>)
        ensures
            final(self).bytes() == old(self).bytes(),
            old(self).remaining().len() >= 1 ==> r == Ok::<u8, SerializeError>(
                old(self).remaining()[0],
            ) && final(self).remaining() == old(self).remaining().skip(1),
            old(self).remaining().len() < 1 ==> (r is Err && r->Err_0 is IOError
                && *final(self) == *old(self)),
    {
        proof {
            use_type_invariant(&*self);
        }
        if self.pos < self.data.len() {
            let b = self.data[self.pos];
            self.pos = self.pos + 1;
            assert(self.data@.skip(self.pos as int) == old(self).data@.skip(
                old(self).pos as int,
            ).skip(1));
            Ok(b)
        } else {
            Err(SerializeError::IOError(unexpected_eof()))
        }
    }

    /// Reads `n` bytes into a vector of their own, or reports that fewer are
    /// left and stays where it is.
    pub fn read_bytes(&mut self, n: usize) -> (r: Result<Vec<u8>, SerializeError>)
        ensures
            final(self).bytes() == old(self).bytes(),
            old(self).remaining().len() >= n ==> r is Ok && r->Ok_0@ == old(
                self,
            ).remaining().take(n as int) && final(self).remaining() == old(self).remaining().skip(
                n as int,
            ),
            old(self).remaining().len() < n ==> (r is Err && r->Err_0 is IOError
                && *final(self) == *old(self)),
    {
        proof {
            use_type_invariant(&*self);
        }
        if n <= self.data.len() - self.pos {
            let end = self.pos + n;
            let part = slice_subrange(self.data.as_slice(), self.pos, end);
            let mut out: Vec<u8> = Vec::new();
            out.extend_from_slice(part);
            assert(out@ == old(self).data@.skip(old(self).pos as int).take(n as int));
            self.pos = end;
            assert(self.data@.skip(self.pos as int) == old(self).data@.skip(
                old(self).pos as int,
            ).skip(n as int));
            Ok(out)
        } else {
            Err(SerializeError::IOError(unexpected_eof()))
        }
    }

    /// The next `n` bytes, when that many are left.
    fn window(&self, n: usize) -> (r: Option<&[u8]>)
        ensures
            self.remaining().len() >= n ==> r is Some && r->Some_0@ == self.remaining().take(
                n as int,
            ),
            self.remaining().len() < n ==> r is None,
    {
        proof {
            use_type_invariant(self);
        }
        if n <= self.data.len() - self.pos {
            let part = slice_subrange(self.data.as_slice(), self.pos, self.pos + n);
            assert(part@ == self.data@.skip(self.pos as int).take(n as int));
            Some(part)
        } else {
            None
        }
    }

    /// Moves past the next `n` bytes.
    fn skip(&mut self, n: usize)
        requires
            n <= old(self).remaining().len(),
        ensures
            final(self).bytes() == old(self).bytes(),
            final(self).remaining() == old(self).remaining().skip(n as int),
            final(self).position() == old(self).position() + n,
    {
        proof {
            use_type_invariant(&*self);
        }
        assert(self.pos + n <= self.data.len());
        self.pos = self.pos + n;
        assert(self.data@.skip(self.pos as int) == old(self).data@.skip(
            old(self).pos as int,
        ).skip(n as int));
    }
}

// ---------------------------------------------------------------------------
// Values that can be written and read
// ---------------------------------------------------------------------------
/// A value that can be written to a byte stream.
pub trait ToStream: Sized + DeepView {
    /// The bytes that stand for a value with the model `v`.
    spec fn wire(v: Self::V) -> Seq<u8>;

    /// Appends the value's bytes to `stream`. Writing to a buffer in memory
    /// cannot fail.
    fn encode(&self, stream: &mut Vec<u8>) -> (r: Result<(), SerializeError>)
        ensures
            r is Ok,
            final(stream)@ == old(stream)@ + Self::wire(self.deep_view()),
    ;
}

/// A value that can be read back from the bytes it was written as.
pub trait FromStream: ToStream {
    /// What the front of `bytes` holds: a value and the number of bytes it
    /// takes, or the reason why it holds none.
    spec fn parse(bytes: Seq<u8>) -> Parsed<Self::V>;

    /// Whether the format can hold a value with the model `v`: every length
    /// in it must fit the 32-bit count that precedes it.
    spec fn fits(v: Self::V) -> bool;

    /// A parsed value takes no more bytes than there are.
    proof fn lemma_parse_bounds(bytes: Seq<u8>)
        ensures
            Self::parse(bytes) is Ok ==> 0 <= Self::parse(bytes)->Ok_0.1 <= bytes.len(),
    ;

    /// Parsing what was written gives the value back, whatever follows it.
    proof fn lemma_round_trip(v: Self::V, rest: Seq<u8>)
        requires
            Self::fits(v),
        ensures
            Self::parse(Self::wire(v) + rest) == Ok::<(Self::V, int), Malformed>(
                (v, Self::wire(v).len() as int),
            ),
    ;

    /// Reads one value from the front of what is left in `stream`.
    fn decode(stream: &mut Cursor) -> (r: Result<Self, SerializeError>)
        ensures
            final(stream).bytes() == old(stream).bytes(),
            match Self::parse(old(stream).remaining()) {
                Ok((v, n)) => r is Ok && r->Ok_0.deep_view() == v && final(stream).remaining()
                    == old(stream).remaining().skip(n),
                Err(e) => r is Err && r->Err_0.reason() == e,
            },
    ;
}

/// Reads one value of type `T` from the front of what is left in `stream`.
pub fn decode<T: FromStream>(stream: &mut Cursor) -> (r: Result<T, SerializeError>)
    ensures
        final(stream).bytes() == old(stream).bytes(),
        match T::parse(old(stream).remaining()) {
            Ok((v, n)) => r is Ok && r->Ok_0.deep_view() == v && final(stream).remaining() == old(
                stream,
            ).remaining().skip(n),
            Err(e) => r is Err && r->Err_0.reason() == e,
        },
{
    T::decode(stream)
}

/// Appends the bytes of `val` to `stream`.
pub fn encode<T: ToStream>(stream: &mut Vec<u8>, val: &T) -> (r: Result<(), SerializeError>)
    ensures
        r is Ok,
        final(stream)@ == old(stream)@ + T::wire(val.deep_view()),
{
    val.encode(stream)
}

impl ToStream for u8 {
    open spec fn wire(v: u8) -> Seq<u8> {
        seq![v]
    }

    fn encode(&self, stream: &mut Vec<u8>) -> (r: Result<(), SerializeError>) {
        stream.push(*self);
        assert(stream@ == old(stream)@ + seq![*self]);
        Ok(())
    }
}

impl FromStream for u8 {
    open spec fn parse(bytes: Seq<u8>) -> Parsed<u8> {
        if bytes.len() < 1 {
            Err(Malformed::Truncated)
        } else {
            Ok((bytes[0], 1))
        }
    }

    open spec fn fits(v: u8) -> bool {
        true
    }

    proof fn lemma_parse_bounds(bytes: Seq<u8>) {
    }

    proof fn lemma_round_trip(v: u8, rest: Seq<u8>) {
    }

    fn decode(stream: &mut Cursor) -> (r: Result<u8, SerializeError>) {
        stream.read_byte()
    }
}

impl ToStream for i8 {
    open spec fn wire(v: i8) -> Seq<u8> {
        seq![bits_i8(v)]
    }

    fn encode(&self, stream: &mut Vec<u8>) -> (r: Result<(), SerializeError>) {
        let b: u8 = if *self >= 0 {
            *self as u8
        } else {
            (*self as i16 + 0x100) as u8
        };
        stream.push(b);
        assert(stream@ == old(stream)@ + seq![bits_i8(*self)]);
        Ok(())
    }
}

impl FromStream for i8 {
    open spec fn parse(bytes: Seq<u8>) -> Parsed<i8> {
        if bytes.len() < 1 {
            Err(Malformed::Truncated)
        } else {
            Ok((signed_i8(bytes[0]), 1))
        }
    }

    open spec fn fits(v: i8) -> bool {
        true
    }

    proof fn lemma_parse_bounds(bytes: Seq<u8>) {
    }

    proof fn lemma_round_trip(v: i8, rest: Seq<u8>) {
    }

    fn decode(stream: &mut Cursor) -> (r: Result<i8, SerializeError>) {
        let b = stream.read_byte()?;
        if b < 0x80 {
            Ok(b as i8)
        } else {
            Ok((b as i16 - 0x100) as i8)
        }
    }
}

impl ToStream for u16 {
    open spec fn wire(v: u16) -> Seq<u8> {
        be_u16(v)
    }

    fn encode(&self, stream: &mut Vec<u8>) -> (r: Result<(), SerializeError>) {
        let b = put_u16(*self);
        stream.push(b[0]);
        stream.push(b[1]);
        assert(stream@ == old(stream)@ + b@);
        assert(stream@ == old(stream)@ + Self::wire(*self));
        Ok(())
    }
}

impl FromStream for u16 {
    open spec fn parse(bytes: Seq<u8>) -> Parsed<u16> {
        if bytes.len() < 2 {
            Err(Malformed::Truncated)
        } else {
            Ok((from_be_u16(bytes), 2))
        }
    }

    open spec fn fits(v: u16) -> bool {
        true
    }

    proof fn lemma_parse_bounds(bytes: Seq<u8>) {
    }

    proof fn lemma_round_trip(v: u16, rest: Seq<u8>) {
        lemma_be_u16_round_trip(v, rest);
    }

    fn decode(stream: &mut Cursor) -> (r: Result<u16, SerializeError>) {
        match stream.window(2) {
            Some(part) => {
                let n = get_u16(part);
                stream.skip(2);
                Ok(n)
            },
            None => Err(SerializeError::IOError(unexpected_eof())),
        }
    }
}

impl ToStream for i16 {
    open spec fn wire(v: i16) -> Seq<u8> {
        be_u16(bits_i16(v))
    }

    fn encode(&self, stream: &mut Vec<u8>) -> (r: Result<(), SerializeError>) {
        let b = put_i16(*self);
        stream.push(b[0]);
        stream.push(b[1]);
        assert(stream@ == old(stream)@ + b@);
        assert(stream@ == old(stream)@ + Self::wire(*self));
        Ok(())
    }
}

impl FromStream for i16 {
    open spec fn parse(bytes: Seq<u8>) -> Parsed<i16> {
        if bytes.len() < 2 {
            Err(Malformed::Truncated)
        } else {
            Ok((signed_i16(from_be_u16(bytes)), 2))
        }
    }

    open spec fn fits(v: i16) -> bool {
        true
    }

    proof fn lemma_parse_bounds(bytes: Seq<u8>) {
    }

    proof fn lemma_round_trip(v: i16, rest: Seq<u8>) {
        lemma_be_u16_round_trip(bits_i16(v), rest);
    }

    fn decode(stream: &mut Cursor) -> (r: Result<i16, SerializeError>) {
        match stream.window(2) {
            Some(part) => {
                let n = get_i16(part);
                stream.skip(2);
                Ok(n)
            },
            None => Err(SerializeError::IOError(unexpected_eof())),
        }
    }
}

impl ToStream for u32 {
    open spec fn wire(v: u32) -> Seq<u8> {
        be_u32(v)
    }

    fn encode(&self, stream: &mut Vec<u8>) -> (r: Result<(), SerializeError>) {
        let b = put_u32(*self);
        stream.push(b[0]);
        stream.push(b[1]);
        stream.push(b[2]);
        stream.push(b[3]);
        assert(stream@ == old(stream)@ + b@);
        assert(stream@ == old(stream)@ + Self::wire(*self));
        Ok(())
    }
}

impl FromStream for u32 {
    open spec fn parse(bytes: Seq<u8>) -> Parsed<u32> {
        if bytes.len() < 4 {
            Err(Malformed::Truncated)
        } else {
            Ok((from_be_u32(bytes), 4))
        }
    }

    open spec fn fits(v: u32) -> bool {
        true
    }

    proof fn lemma_parse_bounds(bytes: Seq<u8>) {
    }

    proof fn lemma_round_trip(v: u32, rest: Seq<u8>) {
        lemma_be_u32_round_trip(v, rest);
    }

    fn decode(stream: &mut Cursor) -> (r: Result<u32, SerializeError>) {
        match stream.window(4) {
            Some(part) => {
                let n = get_u32(part);
                stream.skip(4);
                Ok(n)
            },
            None => Err(SerializeError::IOError(unexpected_eof())),
        }
    }
}

impl ToStream for i32 {
    open spec fn wire(v: i32) -> Seq<u8> {
        be_u32(bits_i32(v))
    }

    fn encode(&self, stream: &mut Vec<u8>) -> (r: Result<(), SerializeError>) {
        let b = put_i32(*self);
        stream.push(b[0]);
        stream.push(b[1]);
        stream.push(b[2]);
        stream.push(b[3]);
        assert(stream@ == old(stream)@ + b@);
        assert(stream@ == old(stream)@ + Self::wire(*self));
        Ok(())
    }
}

impl FromStream for i32 {
    open spec fn parse(bytes: Seq<u8>) -> Parsed<i32> {
        if bytes.len() < 4 {
            Err(Malformed::Truncated)
        } else {
            Ok((signed_i32(from_be_u32(bytes)), 4))
        }
    }

    open spec fn fits(v: i32) -> bool {
        true
    }

    proof fn lemma_parse_bounds(bytes: Seq<u8>) {
    }

    proof fn lemma_round_trip(v: i32, rest: Seq<u8>) {
        lemma_be_u32_round_trip(bits_i32(v), rest);
    }

    fn decode(stream: &mut Cursor) -> (r: Result<i32, SerializeError>) {
        match stream.window(4) {
            Some(part) => {
                let n = get_i32(part);
                stream.skip(4);
                Ok(n)
            },
            None => Err(SerializeError::IOError(unexpected_eof())),
        }
    }
}

impl ToStream for u64 {
    open spec fn wire(v: u64) -> Seq<u8> {
        be_u64(v)
    }

    fn encode(&self, stream: &mut Vec<u8>) -> (r: Result<(), SerializeError>) {
        let b = put_u64(*self);
        let mut i: usize = 0;
        while i < 8
            invariant
                i <= 8,
                b@.len() == 8,
                stream@ == old(stream)@ + b@.take(i as int),
            decreases 8 - i,
        {
            stream.push(b[i]);
            assert(b@.take(i as int + 1) == b@.take(i as int).push(b@[i as int]));
            i = i + 1;
        }
        assert(b@.take(8) == b@);
        assert(stream@ == old(stream)@ + Self::wire(*self));
        Ok(())
    }
}

impl FromStream for u64 {
    open spec fn parse(bytes: Seq<u8>) -> Parsed<u64> {
        if bytes.len() < 8 {
            Err(Malformed::Truncated)
        } else {
            Ok((from_be_u64(bytes), 8))
        }
    }

    open spec fn fits(v: u64) -> bool {
        true
    }

    proof fn lemma_parse_bounds(bytes: Seq<u8>) {
    }

    proof fn lemma_round_trip(v: u64, rest: Seq<u8>) {
        lemma_be_u64_round_trip(v, rest);
    }

    fn decode(stream: &mut Cursor) -> (r: Result<u64, SerializeError>) {
        match stream.window(8) {
            Some(part) => {
                let n = get_u64(part);
                proof {
                    lemma_from_be_u64_prefix(stream.remaining());
                }
                stream.skip(8);
                Ok(n)
            },
            None => Err(SerializeError::IOError(unexpected_eof())),
        }
    }
}

impl ToStream for i64 {
    open spec fn wire(v: i64) -> Seq<u8> {
        be_u64(bits_i64(v))
    }

    fn encode(&self, stream: &mut Vec<u8>) -> (r: Result<(), SerializeError>) {
        let b = put_i64(*self);
        let mut i: usize = 0;
        while i < 8
            invariant
                i <= 8,
                b@.len() == 8,
                stream@ == old(stream)@ + b@.take(i as int),
            decreases 8 - i,
        {
            stream.push(b[i]);
            assert(b@.take(i as int + 1) == b@.take(i as int).push(b@[i as int]));
            i = i + 1;
        }
        assert(b@.take(8) == b@);
        assert(stream@ == old(stream)@ + Self::wire(*self));
        Ok(())
    }
}

impl FromStream for i64 {
    open spec fn parse(bytes: Seq<u8>) -> Parsed<i64> {
        if bytes.len() < 8 {
            Err(Malformed::Truncated)
        } else {
            Ok((signed_i64(from_be_u64(bytes)), 8))
        }
    }

    open spec fn fits(v: i64) -> bool {
        true
    }

    proof fn lemma_parse_bounds(bytes: Seq<u8>) {
    }

    proof fn lemma_round_trip(v: i64, rest: Seq<u8>) {
        lemma_be_u64_round_trip(bits_i64(v), rest);
    }

    fn decode(stream: &mut Cursor) -> (r: Result<i64, SerializeError>) {
        match stream.window(8) {
            Some(part) => {
                let n = get_i64(part);
                proof {
                    lemma_from_be_u64_prefix(stream.remaining());
                }
                stream.skip(8);
                Ok(n)
            },
            None => Err(SerializeError::IOError(unexpected_eof())),
        }
    }
}

/// Only the first eight bytes count when a 64-bit number is read.
proof fn lemma_from_be_u64_prefix(b: Seq<u8>)
    requires
        b.len() >= 8,
    ensures
        from_be_u64(b.take(8)) == from_be_u64(b),
{
    assert(from_be_u32(b.take(8)) == from_be_u32(b));
    assert(from_be_u32(b.take(8).skip(4)) == from_be_u32(b.skip(4)));
}

impl ToStream for bool {
    open spec fn wire(v: bool) -> Seq<u8> {
        seq![if v { 1u8 } else { 0u8 }]
    }

    fn encode(&self, stream: &mut Vec<u8>) -> (r: Result<(), SerializeError>) {
        let b: u8 = if *self {
            1u8
        } else {
            0u8
        };
        stream.push(b);
        assert(stream@ == old(stream)@ + seq![b]);
        Ok(())
    }
}

impl FromStream for bool {
    open spec fn parse(bytes: Seq<u8>) -> Parsed<bool> {
        if bytes.len() < 1 {
            Err(Malformed::Truncated)
        } else {
            Ok((bytes[0] > 0, 1))
        }
    }

    open spec fn fits(v: bool) -> bool {
        true
    }

    proof fn lemma_parse_bounds(bytes: Seq<u8>) {
    }

    proof fn lemma_round_trip(v: bool, rest: Seq<u8>) {
    }

    fn decode(stream: &mut Cursor) -> (r: Result<bool, SerializeError>) {
        let b = stream.read_byte()?;
        Ok(b > 0)
    }
}

/// Appends `bytes` to `stream`.
pub fn append(stream: &mut Vec<u8>, bytes: &[u8])
    ensures
        final(stream)@ == old(stream)@ + bytes@,
{
    let mut i: usize = 0;
    while i < bytes.len()
        invariant
            i <= bytes.len(),
            stream@ == old(stream)@ + bytes@.take(i as int),
        decreases bytes.len() - i,
    {
        stream.push(bytes[i]);
        assert(bytes@.take(i as int + 1) == bytes@.take(i as int).push(bytes@[i as int]));
        i = i + 1;
    }
    assert(bytes@.take(i as int) == bytes@);
}

/// The count that precedes a sequence of `len` items: `len` itself where it
/// fits 32 bits, and its low 32 bits where it does not.
pub open spec fn count_of(len: nat) -> u32 {
    (len % 0x1_0000_0000) as u32
}

/// The count that precedes a sequence of `len` items.
pub fn count(len: usize) -> (n: u32)
    ensures
        n == count_of(len as nat),
{
    ((len as u64) % 0x1_0000_0000) as u32
}

impl ToStream for String {
    open spec fn wire(v: Seq<char>) -> Seq<u8> {
        be_u32(count_of(encode_utf8(v).len())) + encode_utf8(v)
    }

    fn encode(&self, stream: &mut Vec<u8>) -> (r: Result<(), SerializeError>) {
        let bytes = self.as_str().as_bytes();
        let n = count(bytes.len());
        let _ = n.encode(stream);
        append(stream, bytes);
        assert(stream@ == old(stream)@ + (be_u32(n) + bytes@));
        Ok(())
    }
}

impl FromStream for String {
    open spec fn parse(bytes: Seq<u8>) -> Parsed<Seq<char>> {
        if bytes.len() < 4 {
            Err(Malformed::Truncated)
        } else {
            let n = from_be_u32(bytes) as int;
            if bytes.len() - 4 < n {
                Err(Malformed::Truncated)
            } else if !valid_utf8(bytes.subrange(4, 4 + n)) {
                Err(Malformed::InvalidUtf8)
            } else {
                Ok((decode_utf8(bytes.subrange(4, 4 + n)), 4 + n))
            }
        }
    }

    open spec fn fits(v: Seq<char>) -> bool {
        encode_utf8(v).len() <= u32::MAX
    }

    proof fn lemma_parse_bounds(bytes: Seq<u8>) {
    }

    proof fn lemma_round_trip(v: Seq<char>, rest: Seq<u8>) {
        let body = encode_utf8(v);
        let n = count_of(body.len());
        lemma_be_u32_round_trip(n, body + rest);
        let all = Self::wire(v) + rest;
        assert(all == be_u32(n) + (body + rest));
        assert(all.subrange(4, 4 + n as int) == body);
        vstd::utf8::encode_utf8_valid_utf8(v);
        vstd::utf8::encode_utf8_decode_utf8(v);
    }

    fn decode(stream: &mut Cursor) -> (r: Result<String, SerializeError>) {
        let ghost start = stream.remaining();
        let n: u32 = u32::decode(stream)?;
        let body = stream.read_bytes(n as usize)?;
        assert(body@ == start.subrange(4, 4 + n as int));
        assert(stream.remaining() == start.skip(4 + n as int));
        match string_from_utf8(body) {
            Ok(text) => Ok(text),
            Err(e) => Err(SerializeError::UTFError(e)),
        }
    }
}

/// The bytes of the items of a sequence, one after the other.
pub open spec fn wire_all<T: ToStream>(items: Seq<T::V>) -> Seq<u8>
    decreases items.len(),
{
    if items.len() == 0 {
        Seq::empty()
    } else {
        wire_all::<T>(items.drop_last()) + T::wire(items.last())
    }
}

/// What the front of `bytes` holds when read as `n` items in a row.
pub open spec fn parse_n<T: FromStream>(bytes: Seq<u8>, n: nat) -> Parsed<Seq<T::V>>
    decreases n,
{
    if n == 0 {
        Ok((Seq::empty(), 0))
    } else {
        match T::parse(bytes) {
            Err(e) => Err(e),
            Ok((v, k)) => match parse_n::<T>(bytes.skip(k), (n - 1) as nat) {
                Err(e) => Err(e),
                Ok((vs, m)) => Ok((seq![v] + vs, k + m)),
            },
        }
    }
}

/// Whether the format can hold each of `items`.
pub open spec fn all_fit<T: FromStream>(items: Seq<T::V>) -> bool {
    forall|i: int| 0 <= i < items.len() ==> T::fits(#[trigger] items[i])
}

/// The bytes of a sequence are those of its first item and then those of the
/// others.
pub proof fn lemma_wire_all_front<T: ToStream>(first: T::V, others: Seq<T::V>)
    ensures
        wire_all::<T>(seq![first] + others) == T::wire(first) + wire_all::<T>(others),
    decreases others.len(),
{
    let all = seq![first] + others;
    if others.len() == 0 {
        assert(all.drop_last() == Seq::<T::V>::empty());
        assert(wire_all::<T>(all.drop_last()) == Seq::<u8>::empty());
        assert(all.last() == first);
    } else {
        lemma_wire_all_front::<T>(first, others.drop_last());
        assert(all.drop_last() == seq![first] + others.drop_last());
        assert(all.last() == others.last());
    }
}

/// `n` items in a row take no more bytes than there are, and there are `n`
/// of them.
pub proof fn lemma_parse_n_bounds<T: FromStream>(bytes: Seq<u8>, n: nat)
    ensures
        parse_n::<T>(bytes, n) is Ok ==> 0 <= parse_n::<T>(bytes, n)->Ok_0.1 <= bytes.len()
            && parse_n::<T>(bytes, n)->Ok_0.0.len() == n,
    decreases n,
{
    if n > 0 {
        T::lemma_parse_bounds(bytes);
        if T::parse(bytes) is Ok {
            let k = T::parse(bytes)->Ok_0.1;
            lemma_parse_n_bounds::<T>(bytes.skip(k), (n - 1) as nat);
        }
    }
}

/// Reading the items that were written one after the other gives them back.
pub proof fn lemma_parse_n_round_trip<T: FromStream>(items: Seq<T::V>, rest: Seq<u8>)
    requires
        all_fit::<T>(items),
    ensures
        parse_n::<T>(wire_all::<T>(items) + rest, items.len()) == Ok::<(Seq<T::V>, int), Malformed>(
            (items, wire_all::<T>(items).len() as int),
        ),
    decreases items.len(),
{
    if items.len() == 0 {
        assert(items == Seq::<T::V>::empty());
    } else {
        let first = items[0];
        let others = items.skip(1);
        assert(items == seq![first] + others);
        lemma_wire_all_front::<T>(first, others);
        let tail = wire_all::<T>(others) + rest;
        assert(wire_all::<T>(items) + rest == T::wire(first) + tail);
        T::lemma_round_trip(first, tail);
        assert((T::wire(first) + tail).skip(T::wire(first).len() as int) == tail);
        assert(all_fit::<T>(others)) by {
            assert forall|i: int| 0 <= i < others.len() implies T::fits(#[trigger] others[i]) by {
                assert(others[i] == items[i + 1]);
            }
        }
        lemma_parse_n_round_trip::<T>(others, rest);
    }
}

impl<T: ToStream> ToStream for Vec<T> {
    open spec fn wire(v: Seq<T::V>) -> Seq<u8> {
        be_u32(count_of(v.len())) + wire_all::<T>(v)
    }

    fn encode(&self, stream: &mut Vec<u8>) -> (r: Result<(), SerializeError>) {
        let n = count(self.len());
        let _ = n.encode(stream);
        let ghost items = self.deep_view();
        let mut i: usize = 0;
        while i < self.len()
            invariant
                i <= self.len(),
                items == self.deep_view(),
                items.len() == self.len(),
                stream@ == old(stream)@ + be_u32(n) + wire_all::<T>(items.take(i as int)),
            decreases self.len() - i,
        {
            let _ = self[i].encode(stream);
            proof {
                let next = items.take(i as int + 1);
                assert(next.drop_last() == items.take(i as int));
                assert(next.last() == self@[i as int].deep_view());
            }
            i = i + 1;
        }
        assert(items.take(i as int) == items);
        assert(stream@ == old(stream)@ + (be_u32(n) + wire_all::<T>(items)));
        Ok(())
    }
}

impl<T: FromStream> FromStream for Vec<T> {
    open spec fn parse(bytes: Seq<u8>) -> Parsed<Seq<T::V>> {
        if bytes.len() < 4 {
            Err(Malformed::Truncated)
        } else {
            match parse_n::<T>(bytes.skip(4), from_be_u32(bytes) as nat) {
                Err(e) => Err(e),
                Ok((items, m)) => Ok((items, 4 + m)),
            }
        }
    }

    open spec fn fits(v: Seq<T::V>) -> bool {
        v.len() <= u32::MAX && all_fit::<T>(v)
    }

    proof fn lemma_parse_bounds(bytes: Seq<u8>) {
        if bytes.len() >= 4 {
            lemma_parse_n_bounds::<T>(bytes.skip(4), from_be_u32(bytes) as nat);
        }
    }

    proof fn lemma_round_trip(v: Seq<T::V>, rest: Seq<u8>) {
        let n = count_of(v.len());
        let body = wire_all::<T>(v);
        lemma_be_u32_round_trip(n, body + rest);
        let all = Self::wire(v) + rest;
        assert(all == be_u32(n) + (body + rest));
        assert(all.skip(4) == body + rest);
        lemma_parse_n_round_trip::<T>(v, rest);
    }

    fn decode(stream: &mut Cursor) -> (r: Result<Vec<T>, SerializeError>) {
        let ghost start = stream.remaining();
        let n: u32 = u32::decode(stream)?;
        let ghost body = start.skip(4);
        let mut result: Vec<T> = Vec::new();
        let mut i: u32 = 0;
        let ghost mut used: int = 0;
        proof {
            assert(body.skip(0) == body);
            assert(result.deep_view() == Seq::<T::V>::empty());
            match parse_n::<T>(body, n as nat) {
                Ok((vs, m)) => {
                    assert(Seq::<T::V>::empty() + vs == vs);
                },
                Err(_) => {},
            }
        }
        while i < n
            invariant
                i <= n,
                result@.len() == i,
                start == old(stream).remaining(),
                start.len() >= 4,
                body == start.skip(4),
                n == from_be_u32(start),
                0 <= used <= body.len(),
                stream.bytes() == old(stream).bytes(),
                stream.remaining() == body.skip(used),
                parse_n::<T>(body, n as nat) == match parse_n::<T>(
                    body.skip(used),
                    (n - i) as nat,
                ) {
                    Err(e) => Err::<(Seq<T::V>, int), Malformed>(e),
                    Ok((vs, m)) => Ok((result.deep_view() + vs, used + m)),
                },
            decreases n - i,
        {
            let ghost before = result.deep_view();
            let ghost old_items = result@;
            let ghost cur = body.skip(used);
            proof {
                T::lemma_parse_bounds(cur);
            }
            let item = T::decode(stream)?;
            let ghost shown = item.deep_view();
            result.push(item);
            proof {
                let k = T::parse(cur)->Ok_0.1;
                let v = T::parse(cur)->Ok_0.0;
                assert(cur.skip(k) == body.skip(used + k));
                let after = before.push(v);
                assert(result.deep_view() == after) by {
                    assert(result.deep_view().len() == after.len());
                    assert forall|j: int| 0 <= j < after.len() implies result.deep_view()[j]
                        == after[j] by {
                        if j < i {
                            assert(result@[j] == old_items[j]);
                        } else {
                            assert(result@[j].deep_view() == shown);
                        }
                    }
                }
                match parse_n::<T>(cur.skip(k), (n - i - 1) as nat) {
                    Ok((vs, m)) => {
                        assert(before + (seq![v] + vs) == after + vs);
                    },
                    Err(_) => {},
                }
                used = used + k;
            }
            i = i + 1;
        }
        proof {
            assert(result.deep_view() + Seq::<T::V>::empty() == result.deep_view());
            assert(start.skip(4).skip(used) == start.skip(4 + used));
        }
        Ok(result)
    }
}

} // verus!
