//! Byte-level codec behavior, cross-checked against independent encoders.

use surreal_bridge::value::{
    cbor_slice_to_json, cbor_to_json, int_to_dec_bytes, surreal_to_cbor_bytes, IntermediateValue,
};
use surreal_bridge::wire::{check_wire_wf, decode_value, encode_value, DecodeError, WireValue};

fn enc(v: &WireValue) -> Vec<u8> {
    encode_value(v)
}

fn round_trip(v: WireValue) {
    let bytes = enc(&v);
    let back = decode_value(&bytes).expect("canonical encoding must parse");
    assert_eq!(back, v);
}

#[test]
fn integer_headers_are_minimal() {
    assert_eq!(enc(&WireValue::Integer(0)), vec![0x00]);
    assert_eq!(enc(&WireValue::Integer(23)), vec![0x17]);
    assert_eq!(enc(&WireValue::Integer(24)), vec![0x18, 24]);
    assert_eq!(enc(&WireValue::Integer(500)), vec![0x19, 0x01, 0xf4]);
    assert_eq!(enc(&WireValue::Integer(100000)), vec![0x1a, 0x00, 0x01, 0x86, 0xa0]);
    assert_eq!(
        enc(&WireValue::Integer(4294967296)),
        vec![0x1b, 0, 0, 0, 1, 0, 0, 0, 0]
    );
    assert_eq!(enc(&WireValue::Integer(-1)), vec![0x20]);
    assert_eq!(enc(&WireValue::Integer(-500)), vec![0x39, 0x01, 0xf3]);
    assert_eq!(
        enc(&WireValue::Integer(-(1i128 << 64))),
        vec![0x3b, 0xff, 0xff, 0xff, 0xff, 0xff, 0xff, 0xff, 0xff]
    );
}

#[test]
fn simple_values_encode() {
    assert_eq!(enc(&WireValue::Null), vec![0xf6]);
    assert_eq!(enc(&WireValue::Bool(false)), vec![0xf4]);
    assert_eq!(enc(&WireValue::Bool(true)), vec![0xf5]);
    assert_eq!(
        enc(&WireValue::Float(1.5f64.to_bits())),
        vec![0xfb, 0x3f, 0xf8, 0, 0, 0, 0, 0, 0]
    );
}

#[test]
fn containers_encode() {
    assert_eq!(enc(&WireValue::Bytes(vec![1, 2, 3])), vec![0x43, 1, 2, 3]);
    assert_eq!(enc(&WireValue::Text(b"abc".to_vec())), vec![0x63, 0x61, 0x62, 0x63]);
    assert_eq!(
        enc(&WireValue::Array(vec![WireValue::Integer(1), WireValue::Text(b"a".to_vec())])),
        vec![0x82, 0x01, 0x61, 0x61]
    );
    assert_eq!(
        enc(&WireValue::Dict(vec![(WireValue::Integer(1), WireValue::Text(b"x".to_vec()))])),
        vec![0xa1, 0x01, 0x61, 0x78]
    );
    assert_eq!(
        enc(&WireValue::Tag(1, Box::new(WireValue::Integer(5)))),
        vec![0xc1, 0x05]
    );
}

#[test]
fn scalar_round_trips() {
    round_trip(WireValue::Null);
    round_trip(WireValue::Bool(true));
    round_trip(WireValue::Bool(false));
    for i in [0i128, 1, 23, 24, 255, 256, 65535, 65536, 1 << 32, u64::MAX as i128] {
        round_trip(WireValue::Integer(i));
        round_trip(WireValue::Integer(-1 - i));
    }
    for f in [0.0f64, 1.5, -2.25, 1e300, f64::MIN_POSITIVE] {
        round_trip(WireValue::Float(f.to_bits()));
    }
}

#[test]
fn nested_round_trips() {
    round_trip(WireValue::Array(vec![
        WireValue::Integer(7),
        WireValue::Array(vec![WireValue::Text(b"hi".to_vec()), WireValue::Null]),
        WireValue::Dict(vec![
            (WireValue::Text(b"k".to_vec()), WireValue::Bytes(vec![9, 9])),
            (WireValue::Integer(-4), WireValue::Bool(true)),
        ]),
        WireValue::Tag(37, Box::new(WireValue::Integer(12))),
    ]));
}

#[test]
fn parses_what_ciborium_writes() {
    let mut bytes: Vec<u8> = Vec::new();
    ciborium::into_writer(&42u64, &mut bytes).unwrap();
    assert_eq!(decode_value(&bytes).unwrap(), WireValue::Integer(42));

    let mut bytes: Vec<u8> = Vec::new();
    ciborium::into_writer(&"demo", &mut bytes).unwrap();
    assert_eq!(decode_value(&bytes).unwrap(), WireValue::Text(b"demo".to_vec()));

    let mut bytes: Vec<u8> = Vec::new();
    ciborium::into_writer(&vec![1u8, 2, 3], &mut bytes).unwrap();
    assert_eq!(
        decode_value(&bytes).unwrap(),
        WireValue::Array(vec![
            WireValue::Integer(1),
            WireValue::Integer(2),
            WireValue::Integer(3)
        ])
    );
}

#[test]
fn serde_cbor_parses_what_we_write() {
    let v = WireValue::Array(vec![
        WireValue::Integer(-9),
        WireValue::Text(b"ok".to_vec()),
        WireValue::Bool(true),
    ]);
    let bytes = enc(&v);
    let parsed: serde_cbor::Value = serde_cbor::from_slice(&bytes).unwrap();
    let expected = serde_cbor::Value::Array(vec![
        serde_cbor::Value::Integer(-9),
        serde_cbor::Value::Text("ok".to_string()),
        serde_cbor::Value::Bool(true),
    ]);
    assert_eq!(parsed, expected);
}

#[test]
fn half_and_single_floats_widen() {
    // 1.0 as a half-precision float.
    assert_eq!(
        decode_value(&vec![0xf9, 0x3c, 0x00]).unwrap(),
        WireValue::Float(1.0f64.to_bits())
    );
    // -1.0 as a half-precision float.
    assert_eq!(
        decode_value(&vec![0xf9, 0xbc, 0x00]).unwrap(),
        WireValue::Float((-1.0f64).to_bits())
    );
    // Smallest subnormal half-precision value: 2^-24.
    assert_eq!(
        decode_value(&vec![0xf9, 0x00, 0x01]).unwrap(),
        WireValue::Float(2.0f64.powi(-24).to_bits())
    );
    // Positive infinity as a half-precision float.
    assert_eq!(
        decode_value(&vec![0xf9, 0x7c, 0x00]).unwrap(),
        WireValue::Float(f64::INFINITY.to_bits())
    );
    // 1.0 as a single-precision float.
    assert_eq!(
        decode_value(&vec![0xfa, 0x3f, 0x80, 0x00, 0x00]).unwrap(),
        WireValue::Float(1.0f64.to_bits())
    );
    // Smallest subnormal single-precision value.
    assert_eq!(
        decode_value(&vec![0xfa, 0x00, 0x00, 0x00, 0x01]).unwrap(),
        WireValue::Float((f32::from_bits(1) as f64).to_bits())
    );
    // ciborium writes 1.5 at half precision; it must widen back exactly.
    let mut bytes: Vec<u8> = Vec::new();
    ciborium::into_writer(&1.5f64, &mut bytes).unwrap();
    assert_eq!(bytes[0], 0xf9);
    assert_eq!(decode_value(&bytes).unwrap(), WireValue::Float(1.5f64.to_bits()));
}

#[test]
fn malformed_inputs_are_refused() {
    assert!(decode_value(&vec![]).is_err());
    assert!(decode_value(&vec![0x19, 0x01]).is_err());
    assert!(decode_value(&vec![0x00, 0x00]).is_err());
    assert!(decode_value(&vec![0x9f, 0xff]).is_err());
    assert!(decode_value(&vec![0x1c]).is_err());
    assert!(decode_value(&vec![0x43, 1, 2]).is_err());
}

#[test]
fn serialization_rejects_out_of_range_integers() {
    let too_big = WireValue::Integer(1i128 << 64);
    assert!(!check_wire_wf(&too_big));
    assert_eq!(
        surreal_to_cbor_bytes(&too_big),
        Err(DecodeError::UnsupportedInteger)
    );
    let fine = WireValue::Array(vec![WireValue::Integer(5)]);
    assert!(check_wire_wf(&fine));
    assert_eq!(surreal_to_cbor_bytes(&fine), Ok(vec![0x81, 0x05]));
}

#[test]
fn decimal_text_of_integers() {
    assert_eq!(int_to_dec_bytes(0), b"0".to_vec());
    assert_eq!(int_to_dec_bytes(42), b"42".to_vec());
    assert_eq!(int_to_dec_bytes(-7), b"-7".to_vec());
    assert_eq!(
        int_to_dec_bytes(u64::MAX as i128),
        b"18446744073709551615".to_vec()
    );
    assert_eq!(
        int_to_dec_bytes(-(1i128 << 64)),
        b"-18446744073709551616".to_vec()
    );
}

#[test]
fn integers_pivot_by_range() {
    assert_eq!(cbor_to_json(WireValue::Integer(5)), Ok(IntermediateValue::UInt(5)));
    assert_eq!(cbor_to_json(WireValue::Integer(-5)), Ok(IntermediateValue::Int(-5)));
    assert_eq!(
        cbor_to_json(WireValue::Integer(u64::MAX as i128)),
        Ok(IntermediateValue::UInt(u64::MAX))
    );
    assert_eq!(
        cbor_to_json(WireValue::Integer(i64::MIN as i128)),
        Ok(IntermediateValue::Int(i64::MIN))
    );
    assert_eq!(
        cbor_to_json(WireValue::Integer((i64::MIN as i128) - 1)),
        Err(DecodeError::UnsupportedInteger)
    );
}

#[test]
fn floats_pivot_only_when_finite() {
    assert_eq!(
        cbor_to_json(WireValue::Float(2.5f64.to_bits())),
        Ok(IntermediateValue::Float(2.5f64.to_bits()))
    );
    assert_eq!(
        cbor_to_json(WireValue::Float(f64::NAN.to_bits())),
        Err(DecodeError::InvalidFloat)
    );
    assert_eq!(
        cbor_to_json(WireValue::Float(f64::INFINITY.to_bits())),
        Err(DecodeError::InvalidFloat)
    );
}

#[test]
fn byte_strings_pivot_to_small_integer_arrays() {
    assert_eq!(
        cbor_to_json(WireValue::Bytes(vec![7, 8, 255])),
        Ok(IntermediateValue::Array(vec![
            IntermediateValue::UInt(7),
            IntermediateValue::UInt(8),
            IntermediateValue::UInt(255),
        ]))
    );
}

#[test]
fn tags_are_transparent() {
    assert_eq!(
        cbor_to_json(WireValue::Tag(77, Box::new(WireValue::Text(b"t".to_vec())))),
        Ok(IntermediateValue::Text(b"t".to_vec()))
    );
}

#[test]
fn map_keys_sort_and_later_duplicates_win() {
    let v = WireValue::Dict(vec![
        (WireValue::Text(b"b".to_vec()), WireValue::Integer(1)),
        (WireValue::Text(b"a".to_vec()), WireValue::Integer(2)),
        (WireValue::Text(b"b".to_vec()), WireValue::Integer(3)),
    ]);
    assert_eq!(
        cbor_to_json(v),
        Ok(IntermediateValue::Object(vec![
            (b"a".to_vec(), IntermediateValue::UInt(2)),
            (b"b".to_vec(), IntermediateValue::UInt(3)),
        ]))
    );
}

#[test]
fn integer_map_keys_become_decimal_text() {
    let v = WireValue::Dict(vec![
        (WireValue::Integer(42), WireValue::Bool(true)),
        (WireValue::Integer(-3), WireValue::Bool(false)),
    ]);
    assert_eq!(
        cbor_to_json(v),
        Ok(IntermediateValue::Object(vec![
            (b"-3".to_vec(), IntermediateValue::Bool(false)),
            (b"42".to_vec(), IntermediateValue::Bool(true)),
        ]))
    );
}

#[test]
fn unsupported_map_keys_fail_decoding() {
    let v = WireValue::Dict(vec![(WireValue::Bool(true), WireValue::Integer(1))]);
    assert_eq!(cbor_to_json(v), Err(DecodeError::UnsupportedMapKey));
}

#[test]
fn slice_decoding_composes_parse_and_pivot() {
    let mut bytes: Vec<u8> = Vec::new();
    ciborium::into_writer(&"person:demo", &mut bytes).unwrap();
    assert_eq!(
        cbor_slice_to_json(&bytes),
        Ok(IntermediateValue::Text(b"person:demo".to_vec()))
    );
    assert!(cbor_slice_to_json(&vec![0xff]).is_err());
}
