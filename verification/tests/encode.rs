use dbus_marshal::{to_bytes, ByteOrder, EncodingFormat, Error, Serializer, Value};

fn le(v: &Value) -> Vec<u8> {
    to_bytes(EncodingFormat::DBus, ByteOrder::LittleEndian, v).unwrap()
}

fn be(v: &Value) -> Vec<u8> {
    to_bytes(EncodingFormat::DBus, ByteOrder::BigEndian, v).unwrap()
}

#[test]
fn byte_alone() {
    assert_eq!(le(&Value::U8(0x2A)), vec![0x2A]);
}

#[test]
fn u32_little_endian() {
    assert_eq!(le(&Value::U32(0x01020304)), vec![0x04, 0x03, 0x02, 0x01]);
}

#[test]
fn u32_big_endian() {
    assert_eq!(be(&Value::U32(0x01020304)), vec![0x01, 0x02, 0x03, 0x04]);
}

#[test]
fn string_length_prefixed_and_nul_terminated() {
    assert_eq!(
        le(&Value::Str(b"hi".to_vec())),
        vec![0x02, 0x00, 0x00, 0x00, 0x68, 0x69, 0x00]
    );
}

#[test]
fn bool_as_u32() {
    assert_eq!(le(&Value::Bool(true)), vec![0x01, 0x00, 0x00, 0x00]);
    assert_eq!(le(&Value::Bool(false)), vec![0x00, 0x00, 0x00, 0x00]);
}

#[test]
fn struct_pads_second_field_to_its_alignment() {
    let v = Value::Struct(vec![Value::U8(0x01), Value::U32(0x00000002)]);
    assert_eq!(le(&v), vec![0x01, 0x00, 0x00, 0x00, 0x02, 0x00, 0x00, 0x00]);
}

#[test]
fn empty_byte_array() {
    let v = Value::Array(b"y".to_vec(), vec![]);
    assert_eq!(le(&v), vec![0x00, 0x00, 0x00, 0x00]);
}

#[test]
fn i32_array_length_counts_element_bytes() {
    let v = Value::Array(b"i".to_vec(), vec![Value::I32(1)]);
    assert_eq!(le(&v), vec![0x04, 0x00, 0x00, 0x00, 0x01, 0x00, 0x00, 0x00]);
}

#[test]
fn dict_single_entry() {
    let v = Value::Dict(
        b"s".to_vec(),
        b"y".to_vec(),
        vec![(Value::Str(b"a".to_vec()), Value::U8(1))],
    );
    // length 7: key string (4 + 1 + 1) plus the byte value, after 4 bytes of
    // padding that carry the first entry to alignment 8.
    assert_eq!(
        le(&v),
        vec![0x07, 0x00, 0x00, 0x00, 0x00, 0x00, 0x00, 0x00, 0x01, 0x00, 0x00, 0x00, 0x61, 0x00,
            0x01]
    );
}

#[test]
fn empty_dict_keeps_first_entry_padding() {
    let v = Value::Dict(b"s".to_vec(), b"y".to_vec(), vec![]);
    assert_eq!(le(&v), vec![0x00, 0x00, 0x00, 0x00, 0x00, 0x00, 0x00, 0x00]);
}

#[test]
fn variant_carries_inner_signature() {
    let v = Value::Variant(Box::new(Value::U32(0x41)));
    assert_eq!(
        le(&v),
        vec![0x01, 0x75, 0x00, 0x00, 0x41, 0x00, 0x00, 0x00]
    );
}

#[test]
fn variant_of_string() {
    let v = Value::Variant(Box::new(Value::Str(b"hi".to_vec())));
    assert_eq!(
        le(&v),
        vec![0x01, 0x73, 0x00, 0x00, 0x02, 0x00, 0x00, 0x00, 0x68, 0x69, 0x00]
    );
}

#[test]
fn array_of_strings() {
    let v = Value::Array(b"s".to_vec(), vec![Value::Str(b"x".to_vec())]);
    assert_eq!(
        le(&v),
        vec![0x06, 0x00, 0x00, 0x00, 0x01, 0x00, 0x00, 0x00, 0x78, 0x00]
    );
}

#[test]
fn i16_sign_extension_little_and_big() {
    assert_eq!(le(&Value::I16(-2)), vec![0xFE, 0xFF]);
    assert_eq!(be(&Value::I16(-2)), vec![0xFF, 0xFE]);
}

#[test]
fn i64_after_byte_pads_to_eight() {
    let v = Value::Struct(vec![Value::U8(1), Value::I64(3)]);
    assert_eq!(
        le(&v),
        vec![1, 0, 0, 0, 0, 0, 0, 0, 3, 0, 0, 0, 0, 0, 0, 0]
    );
}

#[test]
fn double_bits_round_trip_ieee() {
    let bits = (1.5f64).to_bits();
    assert_eq!(le(&Value::F64Bits(bits)), (1.5f64).to_le_bytes().to_vec());
    assert_eq!(be(&Value::F64Bits(bits)), (1.5f64).to_be_bytes().to_vec());
}

#[test]
fn signature_value_u8_prefixed() {
    assert_eq!(le(&Value::Sig(b"ai".to_vec())), vec![0x02, 0x61, 0x69, 0x00]);
}

#[test]
fn object_path_same_wire_as_string() {
    assert_eq!(
        le(&Value::ObjectPath(b"/a".to_vec())),
        vec![0x02, 0x00, 0x00, 0x00, 0x2F, 0x61, 0x00]
    );
}

#[test]
fn encoding_is_deterministic() {
    let v = Value::Array(
        b"s".to_vec(),
        vec![Value::Str(b"one".to_vec()), Value::Str(b"two".to_vec())],
    );
    assert_eq!(le(&v), le(&v));
}

#[test]
fn unit_is_unsupported() {
    let r = to_bytes(EncodingFormat::DBus, ByteOrder::LittleEndian, &Value::Unit);
    assert_eq!(r, Err(Error::UnsupportedShape));
}

#[test]
fn composite_map_key_is_rejected() {
    let v = Value::Dict(
        b"(y)".to_vec(),
        b"y".to_vec(),
        vec![(Value::Struct(vec![Value::U8(1)]), Value::U8(2))],
    );
    let r = to_bytes(EncodingFormat::DBus, ByteOrder::LittleEndian, &v);
    assert_eq!(r, Err(Error::InvalidMapKey));
}

#[test]
fn over_long_signature_is_rejected() {
    let v = Value::Sig(vec![b'y'; 256]);
    let r = to_bytes(EncodingFormat::DBus, ByteOrder::LittleEndian, &v);
    assert_eq!(r, Err(Error::SignatureTooLong));
}

#[test]
fn variant_value_slot_without_pending_signature() {
    let mut s = Serializer::new(
        b"v".to_vec(),
        EncodingFormat::DBus,
        ByteOrder::LittleEndian,
    );
    let st = s.serialize_struct().unwrap();
    let r = st.serialize_struct_element(&mut s, true, &Value::U8(1));
    assert_eq!(r, Err(Error::MissingVariantSignature));
}

#[test]
fn wrong_signature_char_is_a_mismatch() {
    let mut s = Serializer::new(
        b"u".to_vec(),
        EncodingFormat::DBus,
        ByteOrder::LittleEndian,
    );
    assert_eq!(s.serialize_u8(5), Err(Error::SignatureMismatch));
}

#[test]
fn serialize_bytes_matches_generic_array_path() {
    let mut s = Serializer::new(
        b"ay".to_vec(),
        EncodingFormat::DBus,
        ByteOrder::LittleEndian,
    );
    s.serialize_bytes(&vec![1, 2, 3]).unwrap();
    let generic = le(&Value::Array(
        b"y".to_vec(),
        vec![Value::U8(1), Value::U8(2), Value::U8(3)],
    ));
    assert_eq!(s.buf, generic);
    assert_eq!(s.buf, vec![3, 0, 0, 0, 1, 2, 3]);
}

#[test]
fn padding_counts_from_current_offset() {
    let mut s = Serializer::new(
        b"".to_vec(),
        EncodingFormat::DBus,
        ByteOrder::LittleEndian,
    );
    s.write(&vec![9]);
    let pad = s.add_padding(4);
    assert_eq!(pad, 3);
    assert_eq!(s.buf, vec![9, 0, 0, 0]);
    assert_eq!(s.bytes_written, 4);
}

#[test]
fn unit_variant_is_its_index() {
    let mut s = Serializer::new(
        b"u".to_vec(),
        EncodingFormat::DBus,
        ByteOrder::LittleEndian,
    );
    s.serialize_unit_variant(3).unwrap();
    assert_eq!(s.buf, vec![3, 0, 0, 0]);
}

#[test]
fn i8_widens_to_i16() {
    let mut s = Serializer::new(
        b"n".to_vec(),
        EncodingFormat::DBus,
        ByteOrder::LittleEndian,
    );
    s.serialize_i8(-1).unwrap();
    assert_eq!(s.buf, vec![0xFF, 0xFF]);
}

#[test]
fn nested_array_in_struct() {
    // (yai): byte, pad to 4, array length at 4, elements at 8.
    let v = Value::Struct(vec![
        Value::U8(7),
        Value::Array(b"i".to_vec(), vec![Value::I32(5), Value::I32(6)]),
    ]);
    assert_eq!(
        le(&v),
        vec![7, 0, 0, 0, 8, 0, 0, 0, 5, 0, 0, 0, 6, 0, 0, 0]
    );
}

#[test]
fn dict_two_entries_pad_between() {
    let v = Value::Dict(
        b"y".to_vec(),
        b"y".to_vec(),
        vec![(Value::U8(1), Value::U8(2)), (Value::U8(3), Value::U8(4))],
    );
    // First entry at 8 (two bytes), pad to 16, second entry (two bytes):
    // element region is 8..18, length 10.
    assert_eq!(
        le(&v),
        vec![10, 0, 0, 0, 0, 0, 0, 0, 1, 2, 0, 0, 0, 0, 0, 0, 3, 4]
    );
}

#[test]
fn well_formedness_checker_agrees_with_the_encoder() {
    let good = Value::Array(b"i".to_vec(), vec![Value::I32(1)]);
    assert!(good.is_well_formed());
    // An element that does not match the stored element signature.
    let bad = Value::Array(b"i".to_vec(), vec![Value::U8(1)]);
    assert!(!bad.is_well_formed());
    // A struct must have at least one field.
    assert!(!Value::Struct(vec![]).is_well_formed());
    // A stored element signature that is not one complete type.
    assert!(!Value::Array(b"(i".to_vec(), vec![]).is_well_formed());
}

#[test]
fn counter_equals_buffer_length_throughout() {
    let mut s = Serializer::new(
        b"ai".to_vec(),
        EncodingFormat::DBus,
        ByteOrder::LittleEndian,
    );
    let v = Value::Array(b"i".to_vec(), vec![Value::I32(1), Value::I32(2)]);
    s.serialize_value(&v).unwrap();
    assert_eq!(s.bytes_written, s.buf.len());
    assert_eq!(s.buf.len(), 12);
}

#[test]
fn variant_nested_in_struct() {
    let v = Value::Struct(vec![
        Value::U8(5),
        Value::Variant(Box::new(Value::U32(7))),
    ]);
    assert_eq!(le(&v), vec![5, 1, 0x75, 0, 7, 0, 0, 0]);
}
