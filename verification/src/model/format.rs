//! Byte primitives of the model format: little-endian fixed-width fields,
//! a read cursor, UTF-8 strings and the FNV-1a 64 checksum.
//!
//! Every field is little-endian and fixed-width, with no implicit padding.

use vstd::prelude::*;
use vstd::bytes::{
    spec_u16_from_le_bytes, spec_u16_to_le_bytes, spec_u32_from_le_bytes, spec_u32_to_le_bytes,
    spec_u64_from_le_bytes, spec_u64_to_le_bytes,
};
use vstd::utf8::{decode_utf8, valid_utf8};
use crate::model::error::{LayoutError, ModelError};

verus! {

/// Model magic.
pub const MAGIC: [u8; 4] = [0x53u8, 0x4fu8, 0x4fu8, 0x42u8];

/// Current format version.
pub const VERSION: u32 = 4;

/// Checksum algorithm tag (FNV-1a 64).
pub const CHECKSUM_FNV1A64: u8 = 1;

/// FNV-1a 64 offset basis.
pub const FNV_OFFSET: u64 = 0xcbf2_9ce4_8422_2325;

/// FNV-1a 64 prime.
pub const FNV_PRIME: u64 = 0x0000_0100_0000_01b3;

/// The magic bytes `b"SOOB"`.
pub open spec fn magic_seq() -> Seq<u8> {
    seq![0x53u8, 0x4fu8, 0x4fu8, 0x42u8]
}

/// The multiclass softmax loss name.
pub open spec fn multiclass_loss_name() -> Seq<char> {
    seq!['m', 'u', 'l', 't', 'i', 'c', 'l', 'a', 's', 's', '_', 's', 'o', 'f', 't', 'm', 'a', 'x']
}

// -- writing -------------------------------------------------------------

/// Appends one byte.
pub fn push_u8(out: &mut Vec<u8>, v: u8)
    ensures
        final(out)@ == old(out)@.push(v),
{
    out.push(v);
}

/// Appends a little-endian `u16`.
pub fn push_u16(out: &mut Vec<u8>, v: u16)
    ensures
        final(out)@ == old(out)@ + spec_u16_to_le_bytes(v),
{
    let mut bytes = vstd::bytes::u16_to_le_bytes(v);
    out.append(&mut bytes);
}

/// Appends a little-endian `u32`.
pub fn push_u32(out: &mut Vec<u8>, v: u32)
    ensures
        final(out)@ == old(out)@ + spec_u32_to_le_bytes(v),
{
    let mut bytes = vstd::bytes::u32_to_le_bytes(v);
    out.append(&mut bytes);
}

/// Appends a little-endian `u64`.
pub fn push_u64(out: &mut Vec<u8>, v: u64)
    ensures
        final(out)@ == old(out)@ + spec_u64_to_le_bytes(v),
{
    let mut bytes = vstd::bytes::u64_to_le_bytes(v);
    out.append(&mut bytes);
}

/// Appends an `f64` given by its bit pattern (its little-endian bytes).
pub fn push_f64_bits(out: &mut Vec<u8>, bits: u64)
    ensures
        final(out)@ == old(out)@ + spec_u64_to_le_bytes(bits),
{
    push_u64(out, bits);
}

/// Appends a little-endian `i32` (two's complement).
pub fn push_i32(out: &mut Vec<u8>, v: i32)
    ensures
        final(out)@ == old(out)@ + spec_u32_to_le_bytes(v as u32),
{
    push_u32(out, v as u32);
}

/// Appends raw bytes.
pub fn push_bytes(out: &mut Vec<u8>, bytes: &[u8])
    ensures
        final(out)@ == old(out)@ + bytes@,
{
    let ghost start = out@;
    let mut i: usize = 0;
    while i < bytes.len()
        invariant
            i <= bytes@.len(),
            out@ == start + bytes@.subrange(0, i as int),
        decreases bytes@.len() - i,
    {
        out.push(bytes[i]);
        i = i + 1;
        assert(out@ =~= start + bytes@.subrange(0, i as int));
    }
    assert(bytes@.subrange(0, i as int) =~= bytes@);
}

// -- reading -------------------------------------------------------------

/// Whether `n` bytes starting at `pos` lie within `b`.
pub open spec fn in_range(b: Seq<u8>, pos: int, n: int) -> bool {
    0 <= pos && 0 <= n && pos + n <= b.len()
}

/// The little-endian `u16` at `pos`.
pub open spec fn u16_at(b: Seq<u8>, pos: int) -> u16 {
    spec_u16_from_le_bytes(b.subrange(pos, pos + 2))
}

/// The little-endian `u32` at `pos`.
pub open spec fn u32_at(b: Seq<u8>, pos: int) -> u32 {
    spec_u32_from_le_bytes(b.subrange(pos, pos + 4))
}

/// The little-endian `u64` at `pos`.
pub open spec fn u64_at(b: Seq<u8>, pos: int) -> u64 {
    spec_u64_from_le_bytes(b.subrange(pos, pos + 8))
}

/// The little-endian `i32` at `pos`.
pub open spec fn i32_at(b: Seq<u8>, pos: int) -> i32 {
    u32_at(b, pos) as i32
}

/// A read position over a byte slice.
pub struct Cursor<'a> {
    data: &'a [u8],
    pos: usize,
}

impl<'a> Cursor<'a> {
    /// The bytes read from.
    pub closed spec fn bytes(&self) -> Seq<u8> {
        self.data@
    }

    /// The current position.
    pub closed spec fn pos(&self) -> int {
        self.pos as int
    }

    /// A cursor at the start of `data`.
    pub fn new(data: &'a [u8]) -> (c: Cursor<'a>)
        ensures
            c.bytes() == data@,
            c.pos() == 0,
    {
        Cursor { data, pos: 0 }
    }

    /// The current position.
    pub fn position(&self) -> (p: usize)
        ensures
            p as int == self.pos(),
    {
        self.pos
    }

    /// The underlying bytes.
    pub fn get_ref(&self) -> (d: &'a [u8])
        ensures
            d@ == self.bytes(),
    {
        self.data
    }

    /// Moves the position.
    pub fn set_position(&mut self, pos: usize)
        ensures
            final(self).bytes() == old(self).bytes(),
            final(self).pos() == pos as int,
    {
        self.pos = pos;
    }
}

/// Reads `n` bytes, or fails with `Truncated` leaving the cursor unchanged.
pub fn read_exact<'a>(c: &mut Cursor<'a>, n: usize) -> (res: Result<&'a [u8], ModelError>)
    ensures
        final(c).bytes() == old(c).bytes(),
        in_range(old(c).bytes(), old(c).pos(), n as int) ==> {
            &&& res matches Ok(s)
            &&& s@ == old(c).bytes().subrange(old(c).pos(), old(c).pos() + n)
            &&& final(c).pos() == old(c).pos() + n
        },
        !in_range(old(c).bytes(), old(c).pos(), n as int) ==> {
            &&& res matches Err(e)
            &&& e == ModelError::Truncated
            &&& final(c).pos() == old(c).pos()
        },
{
    let data = c.get_ref();
    let pos = c.position();
    if pos > data.len() || n > data.len() - pos {
        return Err(ModelError::Truncated);
    }
    c.set_position(pos + n);
    Ok(vstd::slice::slice_subrange(data, pos, pos + n))
}

/// Reads one byte.
pub fn read_u8(c: &mut Cursor) -> (res: Result<u8, ModelError>)
    ensures
        final(c).bytes() == old(c).bytes(),
        in_range(old(c).bytes(), old(c).pos(), 1) ==> {
            &&& res matches Ok(v)
            &&& v == old(c).bytes()[old(c).pos()]
            &&& final(c).pos() == old(c).pos() + 1
        },
        !in_range(old(c).bytes(), old(c).pos(), 1) ==> {
            &&& res matches Err(e)
            &&& e == ModelError::Truncated
            &&& final(c).pos() == old(c).pos()
        },
{
    let s = read_exact(c, 1)?;
    Ok(s[0])
}

/// Reads a little-endian `u16`.
pub fn read_u16(c: &mut Cursor) -> (res: Result<u16, ModelError>)
    ensures
        final(c).bytes() == old(c).bytes(),
        in_range(old(c).bytes(), old(c).pos(), 2) ==> {
            &&& res matches Ok(v)
            &&& v == u16_at(old(c).bytes(), old(c).pos())
            &&& final(c).pos() == old(c).pos() + 2
        },
        !in_range(old(c).bytes(), old(c).pos(), 2) ==> {
            &&& res matches Err(e)
            &&& e == ModelError::Truncated
            &&& final(c).pos() == old(c).pos()
        },
{
    let s = read_exact(c, 2)?;
    Ok(vstd::bytes::u16_from_le_bytes(s))
}

/// Reads a little-endian `u32`.
pub fn read_u32(c: &mut Cursor) -> (res: Result<u32, ModelError>)
    ensures
        final(c).bytes() == old(c).bytes(),
        in_range(old(c).bytes(), old(c).pos(), 4) ==> {
            &&& res matches Ok(v)
            &&& v == u32_at(old(c).bytes(), old(c).pos())
            &&& final(c).pos() == old(c).pos() + 4
        },
        !in_range(old(c).bytes(), old(c).pos(), 4) ==> {
            &&& res matches Err(e)
            &&& e == ModelError::Truncated
            &&& final(c).pos() == old(c).pos()
        },
{
    let s = read_exact(c, 4)?;
    Ok(vstd::bytes::u32_from_le_bytes(s))
}

/// Reads a little-endian `u64`.
pub fn read_u64(c: &mut Cursor) -> (res: Result<u64, ModelError>)
    ensures
        final(c).bytes() == old(c).bytes(),
        in_range(old(c).bytes(), old(c).pos(), 8) ==> {
            &&& res matches Ok(v)
            &&& v == u64_at(old(c).bytes(), old(c).pos())
            &&& final(c).pos() == old(c).pos() + 8
        },
        !in_range(old(c).bytes(), old(c).pos(), 8) ==> {
            &&& res matches Err(e)
            &&& e == ModelError::Truncated
            &&& final(c).pos() == old(c).pos()
        },
{
    let s = read_exact(c, 8)?;
    Ok(vstd::bytes::u64_from_le_bytes(s))
}

/// Reads the bit pattern of a little-endian `f64`.
pub fn read_f64_bits(c: &mut Cursor) -> (res: Result<u64, ModelError>)
    ensures
        final(c).bytes() == old(c).bytes(),
        in_range(old(c).bytes(), old(c).pos(), 8) ==> {
            &&& res matches Ok(v)
            &&& v == u64_at(old(c).bytes(), old(c).pos())
            &&& final(c).pos() == old(c).pos() + 8
        },
        !in_range(old(c).bytes(), old(c).pos(), 8) ==> {
            &&& res matches Err(e)
            &&& e == ModelError::Truncated
            &&& final(c).pos() == old(c).pos()
        },
{
    read_u64(c)
}

/// Reads a little-endian `i32`.
pub fn read_i32(c: &mut Cursor) -> (res: Result<i32, ModelError>)
    ensures
        final(c).bytes() == old(c).bytes(),
        in_range(old(c).bytes(), old(c).pos(), 4) ==> {
            &&& res matches Ok(v)
            &&& v == i32_at(old(c).bytes(), old(c).pos())
            &&& final(c).pos() == old(c).pos() + 4
        },
        !in_range(old(c).bytes(), old(c).pos(), 4) ==> {
            &&& res matches Err(e)
            &&& e == ModelError::Truncated
            &&& final(c).pos() == old(c).pos()
        },
{
    let v = read_u32(c)?;
    Ok(v as i32)
}

/// Reads `n` raw bytes.
pub fn read_bytes<'a>(c: &mut Cursor<'a>, n: usize) -> (res: Result<&'a [u8], ModelError>)
    ensures
        final(c).bytes() == old(c).bytes(),
        in_range(old(c).bytes(), old(c).pos(), n as int) ==> {
            &&& res matches Ok(s)
            &&& s@ == old(c).bytes().subrange(old(c).pos(), old(c).pos() + n)
            &&& final(c).pos() == old(c).pos() + n
        },
        !in_range(old(c).bytes(), old(c).pos(), n as int) ==> {
            &&& res matches Err(e)
            &&& e == ModelError::Truncated
            &&& final(c).pos() == old(c).pos()
        },
{
    read_exact(c, n)
}

#[verifier::external_type_specification]
#[verifier::external_body]
pub struct ExFromUtf8Error(std::string::FromUtf8Error);

/// `String::from_utf8`: succeeds exactly on valid UTF-8, and then holds the
/// decoded characters.
#[verifier::external_body]
fn string_from_utf8(bytes: Vec<u8>) -> (r: Result<String, std::string::FromUtf8Error>)
    ensures
        r is Ok <==> valid_utf8(bytes@),
        r matches Ok(s) ==> s@ == decode_utf8(bytes@),
{
    String::from_utf8(bytes)
}

/// Decodes UTF-8 bytes into a `String`, or `None` when they are not UTF-8.
pub fn utf8_string(bytes: &[u8]) -> (r: Option<String>)
    ensures
        r is Some <==> valid_utf8(bytes@),
        r matches Some(s) ==> s@ == decode_utf8(bytes@),
{
    match string_from_utf8(vstd::slice::slice_to_vec(bytes)) {
        Ok(s) => Some(s),
        Err(_) => None,
    }
}

/// Reads a UTF-8 string with a `u16` length prefix (the loss name). On a
/// short input the cursor stays where the part that did not fit begins; on
/// bytes that are not UTF-8 it stands after them.
pub fn read_len_str16(c: &mut Cursor) -> (res: Result<String, ModelError>)
    ensures
        final(c).bytes() == old(c).bytes(),
        ({
            let b = old(c).bytes();
            let p = old(c).pos();
            if !in_range(b, p, 2) {
                &&& res matches Err(e) && e == ModelError::Truncated
                &&& final(c).pos() == p
            } else if !in_range(b, p + 2, u16_at(b, p) as int) {
                &&& res matches Err(e) && e == ModelError::Truncated
                &&& final(c).pos() == p + 2
            } else if !valid_utf8(b.subrange(p + 2, p + 2 + u16_at(b, p))) {
                &&& res matches Err(e) && e == ModelError::InvalidLayout(LayoutError::LossNameNotUtf8)
                &&& final(c).pos() == p + 2 + u16_at(b, p)
            } else {
                &&& res matches Ok(s)
                &&& s@ == decode_utf8(b.subrange(p + 2, p + 2 + u16_at(b, p)))
                &&& final(c).pos() == p + 2 + u16_at(b, p)
            }
        }),
{
    let len = read_u16(c)?;
    let bytes = read_exact(c, len as usize)?;
    match utf8_string(bytes) {
        Some(s) => Ok(s),
        None => Err(ModelError::InvalidLayout(LayoutError::LossNameNotUtf8)),
    }
}

/// Reads a UTF-8 string with a `u32` length prefix (the metadata). The
/// cursor moves as in `read_len_str16`.
pub fn read_len_str32(c: &mut Cursor) -> (res: Result<String, ModelError>)
    ensures
        final(c).bytes() == old(c).bytes(),
        ({
            let b = old(c).bytes();
            let p = old(c).pos();
            if !in_range(b, p, 4) {
                &&& res matches Err(e) && e == ModelError::Truncated
                &&& final(c).pos() == p
            } else if !in_range(b, p + 4, u32_at(b, p) as int) {
                &&& res matches Err(e) && e == ModelError::Truncated
                &&& final(c).pos() == p + 4
            } else if !valid_utf8(b.subrange(p + 4, p + 4 + u32_at(b, p))) {
                &&& res matches Err(e) && e == ModelError::InvalidLayout(LayoutError::MetadataNotUtf8)
                &&& final(c).pos() == p + 4 + u32_at(b, p)
            } else {
                &&& res matches Ok(s)
                &&& s@ == decode_utf8(b.subrange(p + 4, p + 4 + u32_at(b, p)))
                &&& final(c).pos() == p + 4 + u32_at(b, p)
            }
        }),
{
    let len = read_u32(c)?;
    let bytes = read_exact(c, len as usize)?;
    match utf8_string(bytes) {
        Some(s) => Ok(s),
        None => Err(ModelError::InvalidLayout(LayoutError::MetadataNotUtf8)),
    }
}

// -- checksum --------------------------------------------------------------

/// One FNV-1a step: xor the byte in, multiply by the prime (wrapping).
pub open spec fn fnv_step(h: u64, byte: u8) -> u64 {
    vstd::wrapping::u64_specs::wrapping_mul(h ^ (byte as u64), FNV_PRIME)
}

/// FNV-1a 64 of a byte sequence.
pub open spec fn fnv1a64_spec(data: Seq<u8>) -> u64
    decreases data.len(),
{
    if data.len() == 0 {
        FNV_OFFSET
    } else {
        fnv_step(fnv1a64_spec(data.drop_last()), data.last())
    }
}

/// FNV-1a 64 checksum.
pub fn fnv1a64(data: &[u8]) -> (h: u64)
    ensures
        h == fnv1a64_spec(data@),
{
    let mut h: u64 = FNV_OFFSET;
    let mut i: usize = 0;
    while i < data.len()
        invariant
            i <= data@.len(),
            h == fnv1a64_spec(data@.subrange(0, i as int)),
        decreases data@.len() - i,
    {
        let b = data[i];
        h = (h ^ (b as u64)).wrapping_mul(FNV_PRIME);
        i = i + 1;
        assert(data@.subrange(0, i as int).drop_last() =~= data@.subrange(0, i - 1));
    }
    assert(data@.subrange(0, i as int) =~= data@);
    h
}

} // verus!
