//! Field framing: a key varint (tag and wire type), then a varint payload or a
//! length-prefixed byte blob.
use vstd::prelude::*;
use crate::varint::{DecodeError, varint_enc, read_u64, encode_varint, varint_size, lemma_enc_len_u64};

verus! {

/// The two framing classes of a value on the wire.
#[derive(Debug, Clone, Copy, PartialEq, Eq, Structural)]
pub enum WireType {
    Varint,
    Sized,
}

/// The number a wire type takes in the low three bits of a field key.
pub open spec fn wire_code(w: WireType) -> nat {
    match w {
        WireType::Varint => 0,
        WireType::Sized => 2,
    }
}

/// The value of one field: a single varint, or the encoded content of a
/// sized value (a nested record, a string, a list).
#[derive(Debug, Clone, PartialEq, Eq)]
pub enum FieldValue {
    Varint(u64),
    Sized(Vec<u8>),
}

/// Mathematical form of a `FieldValue`.
pub enum WireValue {
    Varint(u64),
    Bytes(Seq<u8>),
}

/// Mathematical form of a field as framed on the wire; a tag read back from
/// bytes may exceed 16 bits.
pub struct WireField {
    pub tag: nat,
    pub value: WireValue,
}

/// One field of a record: its tag and its value.
#[derive(Debug, Clone, PartialEq, Eq)]
pub struct Field {
    pub tag: u16,
    pub value: FieldValue,
}

impl View for FieldValue {
    type V = WireValue;

    open spec fn view(&self) -> WireValue {
        match self {
            FieldValue::Varint(x) => WireValue::Varint(*x),
            FieldValue::Sized(b) => WireValue::Bytes(b@),
        }
    }
}

impl View for Field {
    type V = WireField;

    open spec fn view(&self) -> WireField {
        WireField { tag: self.tag as nat, value: self.value@ }
    }
}

pub open spec fn value_wire_type(v: WireValue) -> WireType {
    match v {
        WireValue::Varint(_) => WireType::Varint,
        WireValue::Bytes(_) => WireType::Sized,
    }
}

/// The views of a sequence of fields.
pub open spec fn fields_view(fs: Seq<Field>) -> Seq<WireField> {
    fs.map_values(|f: Field| f@)
}

/// A value's own encoding, without any field key: the varint itself, or the
/// content bytes of a sized value.
pub open spec fn payload_enc(v: WireValue) -> Seq<u8> {
    match v {
        WireValue::Varint(x) => varint_enc(x as nat),
        WireValue::Bytes(b) => b,
    }
}

/// The key of a field: its tag shifted past the three wire-type bits.
pub open spec fn key_of(f: WireField) -> nat {
    f.tag * 8 + wire_code(value_wire_type(f.value))
}

/// A framed field: key, then the payload, with a length prefix if sized.
pub open spec fn field_enc(f: WireField) -> Seq<u8> {
    match f.value {
        WireValue::Varint(x) => varint_enc(key_of(f)) + varint_enc(x as nat),
        WireValue::Bytes(b) => varint_enc(key_of(f)) + varint_enc(b.len()) + b,
    }
}

/// The encoding of a record: its fields framed one after another.
pub open spec fn fields_enc(fs: Seq<WireField>) -> Seq<u8>
    decreases fs.len(),
{
    if fs.len() == 0 {
        Seq::empty()
    } else {
        field_enc(fs[0]) + fields_enc(fs.drop_first())
    }
}

/// The field framed at `pos`, and the position after it.
pub open spec fn field_at(s: Seq<u8>, pos: int) -> Result<(WireField, int), DecodeError> {
    match read_u64(s, pos) {
        Err(e) => Err(e),
        Ok((key, after_key)) => if key % 8 == 0 {
            match read_u64(s, after_key) {
                Err(e) => Err(e),
                Ok((x, after_len)) => Ok((WireField { tag: (key / 8) as nat, value: WireValue::Varint(x) }, after_len)),
            }
        } else if key % 8 == 2 {
            match read_u64(s, after_key) {
                Err(e) => Err(e),
                Ok((n, after_len)) => if after_len + n > s.len() {
                    Err(DecodeError::Truncated)
                } else {
                    Ok(
                        (
                            WireField {
                                tag: (key / 8) as nat,
                                value: WireValue::Bytes(s.subrange(after_len, after_len + n)),
                            },
                            after_len + n,
                        ),
                    )
                },
            }
        } else {
            Err(DecodeError::UnknownWireType)
        },
    }
}

/// The fields framed from `pos` to the end of `s`, or the first failure.
pub open spec fn parse_from(s: Seq<u8>, pos: int) -> Result<Seq<WireField>, DecodeError>
    decreases s.len() - pos,
{
    if pos >= s.len() {
        Ok(Seq::empty())
    } else {
        match field_at(s, pos) {
            Err(e) => Err(e),
            Ok((f, next)) => if next <= pos || next > s.len() {
                // never taken: a field spans at least one byte, inside `s`
                Err(DecodeError::Truncated)
            } else {
                match parse_from(s, next) {
                    Ok(rest) => Ok(seq![f] + rest),
                    Err(e) => Err(e),
                }
            },
        }
    }
}

/// Exact size of a field's framing and payload.
pub fn field_size(f: &Field) -> (r: u64)
    requires
        field_enc(f@).len() <= u32::MAX,
    ensures
        r as nat == field_enc(f@).len(),
{
    let key: u64 = match &f.value {
        FieldValue::Varint(_) => (f.tag as u64) * 8,
        FieldValue::Sized(_) => (f.tag as u64) * 8 + 2,
    };
    match &f.value {
        FieldValue::Varint(x) => varint_size(key) as u64 + varint_size(*x) as u64,
        FieldValue::Sized(b) => {
            proof {
                lemma_enc_len_u64(b.len() as u64);
                assert(field_enc(f@).len() >= b@.len());
            }
            varint_size(key) as u64 + varint_size(b.len() as u64) as u64 + b.len() as u64
        },
    }
}

/// Appends the framed field.
pub fn encode_field(f: &Field, out: &mut Vec<u8>)
    ensures
        final(out)@ == old(out)@ + field_enc(f@),
{
    match &f.value {
        FieldValue::Varint(x) => {
            encode_varint((f.tag as u64) * 8, out);
            encode_varint(*x, out);
            assert(out@ =~= old(out)@ + field_enc(f@));
        },
        FieldValue::Sized(b) => {
            encode_varint((f.tag as u64) * 8 + 2, out);
            encode_varint(b.len() as u64, out);
            let mut i: usize = 0;
            let ghost mid = out@;
            while i < b.len()
                invariant
                    0 <= i <= b@.len(),
                    out@ == mid + b@.subrange(0, i as int),
                decreases b@.len() - i,
            {
                out.push(b[i]);
                assert(b@.subrange(0, i + 1) =~= b@.subrange(0, i as int).push(b@[i as int]));
                i = i + 1;
            }
            assert(b@.subrange(0, b@.len() as int) =~= b@);
            assert(out@ =~= old(out)@ + field_enc(f@));
        },
    }
}

proof fn lemma_fields_enc_push(fs: Seq<WireField>, f: WireField)
    ensures
        fields_enc(fs.push(f)) == fields_enc(fs) + field_enc(f),
    decreases fs.len(),
{
    if fs.len() == 0 {
        let t = fs.push(f);
        assert(t.drop_first() =~= Seq::<WireField>::empty());
        assert(fields_enc(t.drop_first()) == Seq::<u8>::empty());
        assert(t[0] == f);
        assert(fields_enc(t) =~= field_enc(f));
        assert(fields_enc(fs) == Seq::<u8>::empty());
    } else {
        lemma_fields_enc_push(fs.drop_first(), f);
        assert(fs.push(f).drop_first() =~= fs.drop_first().push(f));
        assert(fields_enc(fs.push(f)) =~= fields_enc(fs) + field_enc(f));
    }
}

/// Appends the encoding of a record's fields, in their order.
pub fn encode_fields(fs: &Vec<Field>, out: &mut Vec<u8>)
    ensures
        final(out)@ == old(out)@ + fields_enc(fields_view(fs@)),
{
    let mut i: usize = 0;
    while i < fs.len()
        invariant
            0 <= i <= fs@.len(),
            out@ == old(out)@ + fields_enc(fields_view(fs@.subrange(0, i as int))),
        decreases fs@.len() - i,
    {
        encode_field(&fs[i], out);
        proof {
            lemma_fields_enc_push(fields_view(fs@.subrange(0, i as int)), fs@[i as int]@);
            assert(fields_view(fs@.subrange(0, i + 1)) =~= fields_view(fs@.subrange(0, i as int)).push(
                fs@[i as int]@,
            ));
        }
        i = i + 1;
    }
    assert(fs@.subrange(0, fs@.len() as int) =~= fs@);
}

/// Exact length of a record's encoding.
pub fn fields_size(fs: &Vec<Field>) -> (r: u32)
    requires
        fields_enc(fields_view(fs@)).len() <= u32::MAX,
    ensures
        r as nat == fields_enc(fields_view(fs@)).len(),
{
    let mut total: u64 = 0;
    let mut i: usize = 0;
    while i < fs.len()
        invariant
            0 <= i <= fs@.len(),
            total as nat == fields_enc(fields_view(fs@.subrange(0, i as int))).len(),
            fields_enc(fields_view(fs@)).len() <= u32::MAX,
        decreases fs@.len() - i,
    {
        proof {
            lemma_fields_enc_push(fields_view(fs@.subrange(0, i as int)), fs@[i as int]@);
            assert(fields_view(fs@.subrange(0, i + 1)) =~= fields_view(fs@.subrange(0, i as int)).push(
                fs@[i as int]@,
            ));
            lemma_fields_enc_prefix(fields_view(fs@), i as int + 1);
            assert(fields_view(fs@).subrange(0, i + 1) =~= fields_view(fs@.subrange(0, i + 1)));
            assert(field_enc(fs@[i as int]@).len() <= u32::MAX);
        }
        total = total + field_size(&fs[i]);
        i = i + 1;
    }
    assert(fs@.subrange(0, fs@.len() as int) =~= fs@);
    total as u32
}

proof fn lemma_fields_enc_prefix(fs: Seq<WireField>, k: int)
    requires
        0 <= k <= fs.len(),
    ensures
        fields_enc(fs.subrange(0, k)).len() <= fields_enc(fs).len(),
    decreases fs.len() - k,
{
    if k < fs.len() {
        lemma_fields_enc_prefix(fs, k + 1);
        lemma_fields_enc_push(fs.subrange(0, k), fs[k]);
        assert(fs.subrange(0, k + 1) =~= fs.subrange(0, k).push(fs[k]));
    } else {
        assert(fs.subrange(0, k) =~= fs);
    }
}

} // verus!
