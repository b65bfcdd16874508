//! Reading little-endian numbers and text from a run of bytes.
use vstd::prelude::*;
use vstd::slice::slice_subrange;
use vstd::utf8::{decode_utf8, valid_utf8};

use crate::float::Float32;

verus! {

/// What can go wrong when a file's contents are read.
#[derive(Clone, Copy, Debug, PartialEq, Eq, Structural)]
pub enum LoadError {
    /// The bytes end before a value does.
    UnexpectedEof,
}

/// The number whose little-endian bytes are the first four of `b`.
pub open spec fn le_u32(b: Seq<u8>) -> int {
    b[0] + 0x100 * b[1] + 0x1_0000 * b[2] + 0x100_0000 * b[3]
}

/// The same bytes as a number in two's complement.
pub open spec fn le_i32(b: Seq<u8>) -> int {
    if le_u32(b) < 0x8000_0000 {
        le_u32(b)
    } else {
        le_u32(b) - 0x1_0000_0000
    }
}

/// A position in a run of bytes.
pub struct ByteReader<'a> {
    data: &'a [u8],
    pos: usize,
}

impl<'a> ByteReader<'a> {
    /// The position does not lie past the end.
    pub closed spec fn wf(&self) -> bool {
        self.pos <= self.data@.len()
    }

    /// The bytes not read yet.
    pub closed spec fn rest(&self) -> Seq<u8> {
        self.data@.skip(self.pos as int)
    }

    /// Starts at the first byte.
    pub fn new(data: &'a [u8]) -> (r: ByteReader<'a>)
        ensures
            r.wf(),
            r.rest() == data@,
    {
        let r = ByteReader { data, pos: 0 };
        assert(r.rest() =~= data@);
        r
    }

    /// Takes the next `len` bytes, or none where fewer are left.
    pub fn take(&mut self, len: usize) -> (r: Result<&'a [u8], LoadError>)
        requires
            old(self).wf(),
        ensures
            final(self).wf(),
            match r {
                Ok(bytes) => {
                    &&& len <= old(self).rest().len()
                    &&& bytes@ == old(self).rest().take(len as int)
                    &&& final(self).rest() == old(self).rest().skip(len as int)
                },
                Err(LoadError::UnexpectedEof) => {
                    &&& old(self).rest().len() < len
                    &&& final(self).rest() == old(self).rest()
                },
            },
    {
        if self.data.len() - self.pos < len {
            return Err(LoadError::UnexpectedEof);
        }
        let bytes = slice_subrange(self.data, self.pos, self.pos + len);
        assert(bytes@ =~= self.rest().take(len as int));
        assert(self.data@.skip(self.pos + len) =~= self.rest().skip(len as int));
        self.pos = self.pos + len;
        Ok(bytes)
    }
}

/// Reads an unsigned 32-bit number.
pub fn read_u32(r: &mut ByteReader<'_>) -> (res: Result<u32, LoadError>)
    requires
        old(r).wf(),
    ensures
        final(r).wf(),
        match res {
            Ok(v) => {
                &&& 4 <= old(r).rest().len()
                &&& v == le_u32(old(r).rest())
                &&& final(r).rest() == old(r).rest().skip(4)
            },
            Err(LoadError::UnexpectedEof) => {
                &&& old(r).rest().len() < 4
                &&& final(r).rest() == old(r).rest()
            },
        },
{
    match r.take(4) {
        Ok(b) => Ok(
            b[0] as u32 + 0x100 * (b[1] as u32) + 0x1_0000 * (b[2] as u32) + 0x100_0000 * (
            b[3] as u32),
        ),
        Err(e) => Err(e),
    }
}

/// Reads a signed 32-bit number in two's complement.
pub fn read_i32(r: &mut ByteReader<'_>) -> (res: Result<i32, LoadError>)
    requires
        old(r).wf(),
    ensures
        final(r).wf(),
        match res {
            Ok(v) => {
                &&& 4 <= old(r).rest().len()
                &&& v == le_i32(old(r).rest())
                &&& final(r).rest() == old(r).rest().skip(4)
            },
            Err(LoadError::UnexpectedEof) => {
                &&& old(r).rest().len() < 4
                &&& final(r).rest() == old(r).rest()
            },
        },
{
    match read_u32(r) {
        Ok(u) => if u < 0x8000_0000 {
            Ok(u as i32)
        } else {
            Ok((u as i64 - 0x1_0000_0000) as i32)
        },
        Err(e) => Err(e),
    }
}

/// Reads a single-precision number.
pub fn read_f32(r: &mut ByteReader<'_>) -> (res: Result<Float32, LoadError>)
    requires
        old(r).wf(),
    ensures
        final(r).wf(),
        match res {
            Ok(v) => {
                &&& 4 <= old(r).rest().len()
                &&& v.bits == le_u32(old(r).rest())
                &&& final(r).rest() == old(r).rest().skip(4)
            },
            Err(LoadError::UnexpectedEof) => {
                &&& old(r).rest().len() < 4
                &&& final(r).rest() == old(r).rest()
            },
        },
{
    match read_u32(r) {
        Ok(bits) => Ok(Float32 { bits }),
        Err(e) => Err(e),
    }
}

/// The text that `String::from_utf8_lossy` makes of `bytes`.
pub uninterp spec fn utf8_lossy(bytes: Seq<u8>) -> Seq<char>;

/// Calls `String::from_utf8_lossy`. Its result depends on the bytes alone, and is the text that
/// they encode where they are valid UTF-8. Which replacement characters stand for the parts of
/// other bytes is not stated.
#[verifier::external_body]
fn lossy(bytes: &[u8]) -> (r: String)
    ensures
        r@ == utf8_lossy(bytes@),
        valid_utf8(bytes@) ==> r@ == decode_utf8(bytes@),
{
    String::from_utf8_lossy(bytes).into_owned()
}

/// The text of bytes: what they encode, or what `String::from_utf8_lossy` makes of them where they
/// are not valid UTF-8.
pub open spec fn text_of_bytes(bytes: Seq<u8>) -> Seq<char> {
    if valid_utf8(bytes) {
        decode_utf8(bytes)
    } else {
        utf8_lossy(bytes)
    }
}

/// Reads `len` bytes as text. Bytes that are not valid UTF-8 become replacement characters.
pub fn read_string(r: &mut ByteReader<'_>, len: usize) -> (res: Result<String, LoadError>)
    requires
        old(r).wf(),
    ensures
        final(r).wf(),
        match res {
            Ok(s) => {
                &&& len <= old(r).rest().len()
                &&& s@ == text_of_bytes(old(r).rest().take(len as int))
                &&& final(r).rest() == old(r).rest().skip(len as int)
            },
            Err(LoadError::UnexpectedEof) => {
                &&& old(r).rest().len() < len
                &&& final(r).rest() == old(r).rest()
            },
        },
{
    match r.take(len) {
        Ok(bytes) => Ok(lossy(bytes)),
        Err(e) => Err(e),
    }
}

} // verus!
