use steit::decode::{merge_from, read_field};
use steit::ser::Serialize;
use steit::varint::{decode_varint, encode_varint, unzigzag_i64, varint_size, zigzag_i64, DecodeError};
use steit::wire::{encode_field, encode_fields, field_size, fields_size, Field, FieldValue};

fn varint_field(tag: u16, x: u64) -> Field {
    Field { tag, value: FieldValue::Varint(x) }
}

#[test]
fn varint_exact_bytes() {
    let mut out = Vec::new();
    encode_varint(0, &mut out);
    encode_varint(127, &mut out);
    encode_varint(128, &mut out);
    encode_varint(300, &mut out);
    assert_eq!(out, vec![0x00, 0x7F, 0x80, 0x01, 0xAC, 0x02]);
    assert_eq!(varint_size(0), 1);
    assert_eq!(varint_size(127), 1);
    assert_eq!(varint_size(128), 2);
    assert_eq!(varint_size(u64::MAX), 10);
}

#[test]
fn varint_decode_values_and_errors() {
    assert_eq!(decode_varint(&vec![0xAC, 0x02, 0x05], 0), Ok((300, 2)));
    assert_eq!(decode_varint(&vec![0xAC, 0x02, 0x05], 2), Ok((5, 3)));
    assert_eq!(decode_varint(&vec![0x80, 0x80], 0), Err(DecodeError::Truncated));
    assert_eq!(decode_varint(&vec![], 0), Err(DecodeError::Truncated));
    let mut max = Vec::new();
    encode_varint(u64::MAX, &mut max);
    assert_eq!(decode_varint(&max, 0), Ok((u64::MAX, 10)));
    let over = vec![0xFF, 0xFF, 0xFF, 0xFF, 0xFF, 0xFF, 0xFF, 0xFF, 0xFF, 0x02];
    assert_eq!(decode_varint(&over, 0), Err(DecodeError::Overflow));
}

#[test]
fn zigzag_values() {
    assert_eq!(zigzag_i64(0), 0);
    assert_eq!(zigzag_i64(-1), 1);
    assert_eq!(zigzag_i64(1), 2);
    assert_eq!(zigzag_i64(-2), 3);
    assert_eq!(zigzag_i64(i64::MIN), u64::MAX);
    assert_eq!(unzigzag_i64(3), -2);
    assert_eq!(unzigzag_i64(u64::MAX), i64::MIN);
    let mut out = Vec::new();
    (-1i32).serialize(&mut out);
    assert_eq!(out, vec![1]);
    assert_eq!(100i32.size(), 2);
}

#[test]
fn field_framing() {
    let mut out = Vec::new();
    let f = varint_field(2, 150);
    encode_field(&f, &mut out);
    assert_eq!(out, vec![16, 0x96, 0x01]);
    assert_eq!(field_size(&f), 3);
    let s = Field { tag: 1, value: FieldValue::Sized(vec![7, 8, 9]) };
    let mut out2 = Vec::new();
    encode_field(&s, &mut out2);
    assert_eq!(out2, vec![10, 3, 7, 8, 9]);
    assert_eq!(field_size(&s), 5);
}

#[test]
fn size_matches_encoding() {
    let fs = vec![
        varint_field(0, 1),
        varint_field(300, 1 << 40),
        Field { tag: 5, value: FieldValue::Sized(vec![1; 200]) },
    ];
    let mut out = Vec::new();
    encode_fields(&fs, &mut out);
    assert_eq!(out.len() as u32, fields_size(&fs));
    assert_eq!(fields_size(&vec![]), 0);
}

#[test]
fn round_trip_record() {
    let v = vec![varint_field(2, 200), Field { tag: 7, value: FieldValue::Sized(vec![1, 2, 3]) }];
    let mut bytes = Vec::new();
    encode_fields(&v, &mut bytes);
    let mut target = vec![varint_field(2, 0), Field { tag: 7, value: FieldValue::Sized(vec![]) }];
    assert_eq!(merge_from(&mut target, &bytes, 0), Ok(()));
    assert_eq!(target, v);
}

#[test]
fn forward_compatible_decoding() {
    let newer = vec![varint_field(1, 11), varint_field(9, 99), Field { tag: 10, value: FieldValue::Sized(vec![4]) }];
    let mut bytes = Vec::new();
    encode_fields(&newer, &mut bytes);
    let mut older = vec![varint_field(1, 0)];
    assert_eq!(merge_from(&mut older, &bytes, 0), Ok(()));
    assert_eq!(older, vec![varint_field(1, 11)]);
}

#[test]
fn mismatched_wire_type_is_skipped() {
    let bytes = vec![10, 1, 5];
    let mut target = vec![varint_field(1, 4)];
    assert_eq!(merge_from(&mut target, &bytes, 0), Ok(()));
    assert_eq!(target, vec![varint_field(1, 4)]);
}

#[test]
fn decode_errors() {
    let mut t = vec![varint_field(1, 0)];
    assert_eq!(merge_from(&mut t, &vec![8], 0), Err(DecodeError::Truncated));
    assert_eq!(merge_from(&mut t, &vec![10, 5, 1], 0), Err(DecodeError::Truncated));
    assert_eq!(merge_from(&mut t, &vec![9, 1], 0), Err(DecodeError::UnknownWireType));
    assert_eq!(read_field(&vec![8, 0xAC, 0x02], 0), Ok((1, FieldValue::Varint(300), 3)));
}
