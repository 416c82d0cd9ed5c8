//! How a key is seen by the table: as the sequence of bytes that it is
//! hashed and compared by.
use vstd::prelude::*;
use vstd::utf8::encode_utf8;

verus! {

/// A type whose values can key a `HashTable`, or look one up.
///
/// Two keys are the same key exactly when their byte projections are equal,
/// so a stored key may be queried by a value of another type (a `String` by a
/// `&str`) as long as both project the same logical value to the same bytes.
pub trait TableKey {
    /// The bytes by which the key is hashed and compared.
    spec fn key_view(&self) -> Seq<u8>;

    fn key_bytes(&self) -> (r: Vec<u8>)
        ensures
            r@ == self.key_view(),
    ;
}

/// Little-endian bytes of a 32-bit word.
pub open spec fn le_bytes32(x: u32) -> Seq<u8> {
    seq![x as u8, (x >> 8u32) as u8, (x >> 16u32) as u8, (x >> 24u32) as u8]
}

/// Little-endian bytes of a 64-bit word.
pub open spec fn le_bytes64(x: u64) -> Seq<u8> {
    le_bytes32(x as u32) + le_bytes32((x >> 32u64) as u32)
}

fn word32_bytes(x: u32) -> (r: Vec<u8>)
    ensures
        r@ == le_bytes32(x),
{
    let mut r: Vec<u8> = Vec::new();
    r.push(x as u8);
    r.push((x >> 8u32) as u8);
    r.push((x >> 16u32) as u8);
    r.push((x >> 24u32) as u8);
    assert(r@ =~= le_bytes32(x));
    r
}

fn word64_bytes(x: u64) -> (r: Vec<u8>)
    ensures
        r@ == le_bytes64(x),
{
    let mut r = word32_bytes(x as u32);
    let mut hi = word32_bytes((x >> 32u64) as u32);
    r.append(&mut hi);
    r
}

impl TableKey for u32 {
    open spec fn key_view(&self) -> Seq<u8> {
        le_bytes32(*self)
    }

    fn key_bytes(&self) -> (r: Vec<u8>) {
        word32_bytes(*self)
    }
}

impl TableKey for i32 {
    open spec fn key_view(&self) -> Seq<u8> {
        le_bytes32(*self as u32)
    }

    fn key_bytes(&self) -> (r: Vec<u8>) {
        word32_bytes(*self as u32)
    }
}

impl TableKey for u64 {
    open spec fn key_view(&self) -> Seq<u8> {
        le_bytes64(*self)
    }

    fn key_bytes(&self) -> (r: Vec<u8>) {
        word64_bytes(*self)
    }
}

impl TableKey for i64 {
    open spec fn key_view(&self) -> Seq<u8> {
        le_bytes64(*self as u64)
    }

    fn key_bytes(&self) -> (r: Vec<u8>) {
        word64_bytes(*self as u64)
    }
}

impl TableKey for usize {
    open spec fn key_view(&self) -> Seq<u8> {
        le_bytes64(*self as u64)
    }

    fn key_bytes(&self) -> (r: Vec<u8>) {
        word64_bytes(*self as u64)
    }
}

impl TableKey for String {
    open spec fn key_view(&self) -> Seq<u8> {
        encode_utf8(self@)
    }

    fn key_bytes(&self) -> (r: Vec<u8>) {
        vstd::slice::slice_to_vec(self.as_str().as_bytes())
    }
}

impl<'a> TableKey for &'a str {
    open spec fn key_view(&self) -> Seq<u8> {
        encode_utf8(self@)
    }

    fn key_bytes(&self) -> (r: Vec<u8>) {
        vstd::slice::slice_to_vec(self.as_bytes())
    }
}

} // verus!
