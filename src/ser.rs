//! The capability that every serializable value offers.
use vstd::prelude::*;
use crate::varint::{varint_enc, zigzag, encode_varint, varint_size, zigzag_i64};
use crate::wire::WireType;

verus! {

/// A value with a static wire type and an exact encoding.
pub trait Serialize {
    /// The bytes that `serialize` writes.
    spec fn encoding(&self) -> Seq<u8>;

    /// The wire type of every value of the type.
    spec fn kind() -> WireType;

    fn wire_type() -> (r: WireType)
        ensures
            r == Self::kind(),
    ;

    /// Number of bytes that `serialize` writes, without any field key.
    fn size(&self) -> (r: u32)
        requires
            self.encoding().len() <= u32::MAX,
        ensures
            r as nat == self.encoding().len(),
    ;

    fn serialize(&self, out: &mut Vec<u8>)
        ensures
            final(out)@ == old(out)@ + self.encoding(),
    ;
}

impl Serialize for u64 {
    open spec fn encoding(&self) -> Seq<u8> {
        varint_enc(*self as nat)
    }

    open spec fn kind() -> WireType {
        WireType::Varint
    }

    fn wire_type() -> (r: WireType) {
        WireType::Varint
    }

    fn size(&self) -> (r: u32) {
        varint_size(*self)
    }

    fn serialize(&self, out: &mut Vec<u8>) {
        encode_varint(*self, out)
    }
}

impl Serialize for u32 {
    open spec fn encoding(&self) -> Seq<u8> {
        varint_enc(*self as nat)
    }

    open spec fn kind() -> WireType {
        WireType::Varint
    }

    fn wire_type() -> (r: WireType) {
        WireType::Varint
    }

    fn size(&self) -> (r: u32) {
        varint_size(*self as u64)
    }

    fn serialize(&self, out: &mut Vec<u8>) {
        encode_varint(*self as u64, out)
    }
}

impl Serialize for u16 {
    open spec fn encoding(&self) -> Seq<u8> {
        varint_enc(*self as nat)
    }

    open spec fn kind() -> WireType {
        WireType::Varint
    }

    fn wire_type() -> (r: WireType) {
        WireType::Varint
    }

    fn size(&self) -> (r: u32) {
        varint_size(*self as u64)
    }

    fn serialize(&self, out: &mut Vec<u8>) {
        encode_varint(*self as u64, out)
    }
}

impl Serialize for i64 {
    open spec fn encoding(&self) -> Seq<u8> {
        varint_enc(zigzag(*self as int))
    }

    open spec fn kind() -> WireType {
        WireType::Varint
    }

    fn wire_type() -> (r: WireType) {
        WireType::Varint
    }

    fn size(&self) -> (r: u32) {
        varint_size(zigzag_i64(*self))
    }

    fn serialize(&self, out: &mut Vec<u8>) {
        encode_varint(zigzag_i64(*self), out)
    }
}

impl Serialize for i32 {
    open spec fn encoding(&self) -> Seq<u8> {
        varint_enc(zigzag(*self as int))
    }

    open spec fn kind() -> WireType {
        WireType::Varint
    }

    fn wire_type() -> (r: WireType) {
        WireType::Varint
    }

    fn size(&self) -> (r: u32) {
        varint_size(zigzag_i64(*self as i64))
    }

    fn serialize(&self, out: &mut Vec<u8>) {
        encode_varint(zigzag_i64(*self as i64), out)
    }
}

/// Appends a byte sequence.
pub fn push_bytes(b: &Vec<u8>, out: &mut Vec<u8>)
    ensures
        final(out)@ == old(out)@ + b@,
{
    let mut i: usize = 0;
    while i < b.len()
        invariant
            0 <= i <= b@.len(),
            out@ == old(out)@ + b@.subrange(0, i as int),
        decreases b@.len() - i,
    {
        out.push(b[i]);
        assert(b@.subrange(0, i + 1) =~= b@.subrange(0, i as int).push(b@[i as int]));
        i = i + 1;
    }
    assert(b@.subrange(0, b@.len() as int) =~= b@);
}

} // verus!
