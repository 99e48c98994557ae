//! Fixed-width little-endian encoding of integers, produced by `bincode`.

use vstd::prelude::*;

verus! {

/// `bincode::ErrorKind`: what `bincode` hands back where it cannot encode. It
/// is carried through and never looked into.
#[verifier::external_type_specification]
#[verifier::external_body]
pub struct ExErrorKind(bincode::ErrorKind);

/// Why a value could not be encoded.
#[derive(Debug)]
pub enum EncodeError {
    /// The codec refused the value.
    Codec(Box<bincode::ErrorKind>),
}

/// The `width` low bytes of `v` in two's complement, least significant first.
pub open spec fn le_bytes(v: int, width: nat) -> Seq<u8>
    decreases width,
{
    if width == 0 {
        Seq::empty()
    } else {
        seq![(v % 256) as u8] + le_bytes(v / 256, (width - 1) as nat)
    }
}

/// `le_bytes` has exactly `width` bytes.
pub proof fn lemma_le_bytes_len(v: int, width: nat)
    ensures
        le_bytes(v, width).len() == width,
    decreases width,
{
    if width > 0 {
        lemma_le_bytes_len(v / 256, (width - 1) as nat);
    }
}

/// Calls `bincode::serialize` on a `u8`. With the options that function
/// fixes (fixed-width integers, little endian, no size limit) and a `Vec` as
/// the sink no step of it can fail, and the output is the single byte.
#[verifier::external_body]
pub(crate) fn serialize_u8(v: u8) -> (r: Result<Vec<u8>, Box<bincode::ErrorKind>>)
    ensures
        r is Ok,
        r.unwrap()@ == le_bytes(v as int, 1),
{
    bincode::serialize(&v)
}

/// Calls `bincode::serialize` on a `u16`: always `Ok`, two bytes, little endian.
#[verifier::external_body]
pub(crate) fn serialize_u16(v: u16) -> (r: Result<Vec<u8>, Box<bincode::ErrorKind>>)
    ensures
        r is Ok,
        r.unwrap()@ == le_bytes(v as int, 2),
{
    bincode::serialize(&v)
}

/// Calls `bincode::serialize` on a `u32`: always `Ok`, four bytes, little endian.
#[verifier::external_body]
pub(crate) fn serialize_u32(v: u32) -> (r: Result<Vec<u8>, Box<bincode::ErrorKind>>)
    ensures
        r is Ok,
        r.unwrap()@ == le_bytes(v as int, 4),
{
    bincode::serialize(&v)
}

/// Calls `bincode::serialize` on a `u64`: always `Ok`, eight bytes, little endian.
#[verifier::external_body]
pub(crate) fn serialize_u64(v: u64) -> (r: Result<Vec<u8>, Box<bincode::ErrorKind>>)
    ensures
        r is Ok,
        r.unwrap()@ == le_bytes(v as int, 8),
{
    bincode::serialize(&v)
}

/// Calls `bincode::serialize` on an `i8`: always `Ok`, the byte of its two's
/// complement.
#[verifier::external_body]
pub(crate) fn serialize_i8(v: i8) -> (r: Result<Vec<u8>, Box<bincode::ErrorKind>>)
    ensures
        r is Ok,
        r.unwrap()@ == le_bytes(v as int, 1),
{
    bincode::serialize(&v)
}

/// Calls `bincode::serialize` on an `i16`: always `Ok`, the two bytes of its
/// two's complement, little endian.
#[verifier::external_body]
pub(crate) fn serialize_i16(v: i16) -> (r: Result<Vec<u8>, Box<bincode::ErrorKind>>)
    ensures
        r is Ok,
        r.unwrap()@ == le_bytes(v as int, 2),
{
    bincode::serialize(&v)
}

/// Calls `bincode::serialize` on an `i32`: always `Ok`, the four bytes of its
/// two's complement, little endian.
#[verifier::external_body]
pub(crate) fn serialize_i32(v: i32) -> (r: Result<Vec<u8>, Box<bincode::ErrorKind>>)
    ensures
        r is Ok,
        r.unwrap()@ == le_bytes(v as int, 4),
{
    bincode::serialize(&v)
}

/// Calls `bincode::serialize` on an `i64`: always `Ok`, the eight bytes of its
/// two's complement, little endian.
#[verifier::external_body]
pub(crate) fn serialize_i64(v: i64) -> (r: Result<Vec<u8>, Box<bincode::ErrorKind>>)
    ensures
        r is Ok,
        r.unwrap()@ == le_bytes(v as int, 8),
{
    bincode::serialize(&v)
}

} // verus!
