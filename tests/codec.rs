use canpack::{from_bytes, to_bytes, Deserializer, Error, Serializer, Shape, Value};

fn pass(v: &Value, sh: &Shape, b: &[u8]) {
    let s = to_bytes(v).unwrap();
    assert_eq!(s.len(), b.len());
    for i in 0..s.len() {
        assert_eq!(s[i], b[i]);
    }
    let back = from_bytes(sh, s.as_slice()).unwrap();
    assert_eq!(v, &back);
}

fn e_ser(v: &Value, err: Error) {
    match to_bytes(v) {
        Err(e) => assert_eq!(err, e),
        Ok(_) => panic!("ser should fail"),
    }
}

fn e_de(sh: &Shape, b: &[u8], err: Error) {
    match from_bytes(sh, b) {
        Err(e) => assert_eq!(err, e),
        Ok(_) => panic!("de should fail"),
    }
}

fn tuple(vs: Vec<Value>) -> Value {
    Value::Tuple(vs)
}

fn tuple_shape(shs: Vec<Shape>) -> Shape {
    Shape::Tuple(shs)
}

fn variant(name: &'static str, variant: &'static str, index: u32, payload: Value) -> Value {
    Value::Variant { name, variant, index, payload: Box::new(payload) }
}

fn some(v: Value) -> Value {
    Value::Opt(Some(Box::new(v)))
}

fn str_value(s: &str) -> Value {
    Value::Str(String::from(s))
}

#[test]
fn ser_msg_too_long() {
    e_ser(&tuple(vec![Value::I32(0x1), Value::I32(0x1), Value::U8(0)]), Error::SerMsgTooLong);
}

#[test]
fn ser_field_index_too_large() {
    e_ser(&variant("E", "FIdx16", 16, Value::Unit), Error::SerFieldIndexTooLarge("E", "FIdx16"));
}

#[test]
fn ser_length_too_large() {
    let x: Vec<Value> = (0..16).map(|_| Value::U8(0)).collect();
    e_ser(&Value::Sequence(x), Error::SerLengthTooLarge("seq", 16));
}

#[test]
fn de_utf8_decode_fail() {
    e_de(&Shape::Char, &[0x2c, 0x32, 0x80], Error::DeUtf8DecodeFail);
}

#[test]
fn de_char_fail() {
    e_de(&Shape::Char, &[0x0], Error::DeCharFail);
}

#[test]
fn de_msg_too_long() {
    let sh = tuple_shape((0..9).map(|_| Shape::U8).collect());
    e_de(&sh, &[0; 9], Error::DeMsgTooLong);
}

#[test]
fn t_bool() {
    pass(&Value::Bool(false), &Shape::Bool, &[0]);
    pass(&Value::Bool(true), &Shape::Bool, &[0x80]);

    let bin_ary = [true, false, true, false, false, true, true, false, false, false, true];
    let v = tuple(bin_ary.iter().map(|b| Value::Bool(*b)).collect());
    let sh = tuple_shape(bin_ary.iter().map(|_| Shape::Bool).collect());
    pass(&v, &sh, &[0xa6, 0x20]);
}

#[test]
fn t_unit() {
    let e = || Shape::Enum { name: "E", variants: vec!["A", "B"], payloads: vec![Shape::Unit, Shape::Unit] };
    pass(&Value::Unit, &Shape::Unit, &[]);
    pass(&variant("E", "A", 0, Value::Unit), &e(), &[0 << 4]);
    pass(&variant("E", "B", 1, Value::Unit), &e(), &[1 << 4]);
    pass(&Value::Unit, &Shape::Unit, &[]);
}

#[test]
fn t_int() {
    pass(&Value::U8(0), &Shape::U8, &[0]);
    pass(&Value::U8(1), &Shape::U8, &[1]);
    pass(&Value::U8(100), &Shape::U8, &[100]);
    pass(&Value::U8(255), &Shape::U8, &[255]);

    pass(&Value::I8(0), &Shape::I8, &[0]);
    pass(&Value::I8(-1), &Shape::I8, &[0xff]);
    pass(&Value::I8(127), &Shape::I8, &[127]);
    pass(&Value::I8(-128), &Shape::I8, &[0x80]);

    pass(&Value::U16(0), &Shape::U16, &[0, 0]);
    pass(&Value::U16(1), &Shape::U16, &[0, 1]);
    pass(&Value::U16(1000), &Shape::U16, &[3, 232]);
    pass(&Value::U16(0xffff), &Shape::U16, &[0xff, 0xff]);

    pass(&Value::I16(0), &Shape::I16, &[0, 0]);
    pass(&Value::I16(-1), &Shape::I16, &[0xff, 0xff]);
    pass(&Value::I16(0x7f_ff), &Shape::I16, &[0x7f, 0xff]);
    pass(&Value::I16(-0x80_00), &Shape::I16, &[0x80, 0]);

    pass(&Value::U32(0), &Shape::U32, &[0, 0, 0, 0]);
    pass(&Value::U32(1), &Shape::U32, &[0, 0, 0, 1]);
    pass(
        &tuple(vec![Value::U32(0xffff_ffff), Value::U32(0x1234_5678)]),
        &tuple_shape(vec![Shape::U32, Shape::U32]),
        &[0xff, 0xff, 0xff, 0xff, 0x12, 0x34, 0x56, 0x78],
    );

    pass(&Value::I32(0), &Shape::I32, &[0, 0, 0, 0]);
    pass(&Value::I32(-1), &Shape::I32, &[0xff, 0xff, 0xff, 0xff]);
    pass(
        &tuple(vec![Value::I32(0x7fff_ffff), Value::I32(0x1234_5678)]),
        &tuple_shape(vec![Shape::I32, Shape::I32]),
        &[0x7f, 0xff, 0xff, 0xff, 0x12, 0x34, 0x56, 0x78],
    );

    pass(&Value::U64(0), &Shape::U64, &[0; 8]);
    pass(&Value::U64(0xffffffff_ffffffff), &Shape::U64, &[0xff; 8]);
    pass(&Value::U64(0xabcd1234_7856aa55), &Shape::U64, &[0xab, 0xcd, 0x12, 0x34, 0x78, 0x56, 0xaa, 0x55]);

    pass(&Value::I64(0), &Shape::I64, &[0; 8]);
    pass(&Value::I64(-1), &Shape::I64, &[0xff; 8]);
    pass(&Value::U64(0x7654_3210_fedc_ba98), &Shape::U64, &[0x76, 0x54, 0x32, 0x10, 0xfe, 0xdc, 0xba, 0x98]);
}

fn f32_value(f: f32) -> Value {
    Value::U32(f.to_bits())
}

fn f64_value(f: f64) -> Value {
    Value::U64(f.to_bits())
}

#[test]
fn t_float() {
    pass(&f32_value(0.0f32), &Shape::U32, &[0; 4]);
    pass(&f32_value(-1.125f32), &Shape::U32, &[0xbf, 0x90, 0, 0]);
    pass(&f32_value(1.234e-18f32), &Shape::U32, &[0x21, 0xb6, 0x1b, 0x34]);
    let two = || tuple_shape(vec![Shape::U32, Shape::U32]);
    pass(
        &tuple(vec![f32_value(65536.25f32), f32_value(-1122.1234f32)]),
        &two(),
        &[0x47, 0x80, 0, 0x20, 0xc4, 0x8c, 0x43, 0xf3],
    );
    pass(
        &tuple(vec![f32_value(std::f32::consts::PI), f32_value(std::f32::consts::E)]),
        &two(),
        &[0x40, 0x49, 0x0f, 0xdb, 0x40, 0x2d, 0xf8, 0x54],
    );
    pass(
        &tuple(vec![f32_value(f32::INFINITY), f32_value(f32::NEG_INFINITY)]),
        &two(),
        &[0x7f, 0x80, 0, 0, 0xff, 0x80, 0, 0],
    );

    pass(&f64_value(0f64), &Shape::U64, &[0; 8]);
    pass(&f64_value(1.234e-18), &Shape::U64, &[0x3c, 0x36, 0xc3, 0x66, 0x76, 0x1e, 0x9a, 0x29]);
    pass(&f64_value(-3.4567891234125e10), &Shape::U64, &[0xc2, 0x20, 0x18, 0xd0, 0x52, 0x44, 0x40, 0x00]);
    pass(&f64_value(std::f64::consts::PI), &Shape::U64, &[0x40, 0x09, 0x21, 0xfb, 0x54, 0x44, 0x2d, 0x18]);
    pass(&f64_value(f64::INFINITY), &Shape::U64, &[0x7f, 0xf0, 0, 0, 0, 0, 0, 0]);
}

#[test]
fn t_char() {
    pass(&Value::Char('a'), &Shape::Char, &[0x16, 0x10]);
    pass(&Value::Char('好'), &Shape::Char, &[0x3e, 0x5a, 0x5b, 0xd0]);
}

#[test]
fn t_str() {
    pass(&str_value("abcdefg"), &Shape::Str, &[0x76, 0x16, 0x26, 0x36, 0x46, 0x56, 0x66, 0x70]);
    pass(&str_value("你好"), &Shape::Str, &[0x6e, 0x4b, 0xda, 0x0e, 0x5a, 0x5b, 0xd0]);
}

#[test]
fn t_bytes() {
    let x = tuple(vec![Value::Bytes(vec![0x37, 0x21]), Value::Bytes(vec![0x55, 0xaa, 0x0f])]);
    pass(&x, &tuple_shape(vec![Shape::Bytes, Shape::Bytes]), &[0x23, 0x72, 0x13, 0x55, 0xaa, 0x0f]);
}

#[test]
fn t_seq() {
    let v = Value::Sequence(vec![Value::U16(0x1234), Value::U16(0x5678), Value::U16(0x9abc)]);
    pass(&v, &Shape::Sequence(Box::new(Shape::U16)), &[0x31, 0x23, 0x45, 0x67, 0x89, 0xab, 0xc0]);
}

#[test]
fn t_struct() {
    let v = tuple(vec![
        Value::U16(0x1234),
        tuple(vec![Value::I8(0x24), tuple(vec![Value::U8(0x68)])]),
        tuple(vec![Value::U16(0xfedc), Value::U8(0xba)]),
        Value::I8(-1),
    ]);
    let sh = tuple_shape(vec![
        Shape::U16,
        tuple_shape(vec![Shape::I8, tuple_shape(vec![Shape::U8])]),
        tuple_shape(vec![Shape::U16, Shape::U8]),
        Shape::I8,
    ]);
    pass(&v, &sh, &[0x12, 0x34, 0x24, 0x68, 0xfe, 0xdc, 0xba, 0xff]);
}

#[test]
fn t_tuple() {
    let v = tuple(vec![
        Value::U8(0x34),
        tuple(vec![Value::U8(0x56), Value::U8(0x78)]),
        Value::U16(0x9abc),
        tuple(vec![Value::U8(0xde), Value::U8(0xf1)]),
    ]);
    let sh = tuple_shape(vec![
        Shape::U8,
        tuple_shape(vec![Shape::U8, Shape::U8]),
        Shape::U16,
        tuple_shape(vec![Shape::U8, Shape::U8]),
    ]);
    pass(&v, &sh, &[0x34, 0x56, 0x78, 0x9a, 0xbc, 0xde, 0xf1]);
    let v = tuple(vec![Value::I32(0x12345678), tuple(vec![Value::U16(0xabcd), Value::U8(0xef)])]);
    let sh = tuple_shape(vec![Shape::I32, tuple_shape(vec![Shape::U16, Shape::U8])]);
    pass(&v, &sh, &[0x12, 0x34, 0x56, 0x78, 0xab, 0xcd, 0xef]);
}

fn enum_e() -> Shape {
    Shape::Enum {
        name: "E",
        variants: vec!["A", "B", "C", "D"],
        payloads: vec![
            Shape::Unit,
            tuple_shape(vec![Shape::I16, Shape::U16]),
            tuple_shape(vec![Shape::I16, tuple_shape(vec![Shape::U8, Shape::U8])]),
            Shape::U32,
        ],
    }
}

#[test]
fn t_enum() {
    pass(&variant("E", "A", 0, Value::Unit), &enum_e(), &[0x0]);
    pass(
        &variant("E", "B", 1, tuple(vec![Value::I16(-2), Value::U16(0x1234)])),
        &enum_e(),
        &[0x1f, 0xff, 0xe1, 0x23, 0x40],
    );
    pass(
        &variant("E", "C", 2, tuple(vec![Value::I16(-0x5679), tuple(vec![Value::U8(0x12), Value::U8(0x34)])])),
        &enum_e(),
        &[0x2a, 0x98, 0x71, 0x23, 0x40],
    );
    pass(&variant("E", "D", 3, Value::U32(0x8765_4321)), &enum_e(), &[0x38, 0x76, 0x54, 0x32, 0x10]);
}

#[test]
fn t_option() {
    let t1 = || Shape::Opt(Box::new(Shape::U32));
    let t2 = || tuple_shape(vec![t1(), Shape::U16]);
    pass(&Value::Opt(None), &t1(), &[0x0]);
    pass(&tuple(vec![Value::Opt(None), Value::U16(0x8765)]), &t2(), &[0x43, 0xb2, 0x80]);
    pass(&some(Value::U32(0x2345_6789)), &t1(), &[0x91, 0xa2, 0xb3, 0xc4, 0x80]);
    pass(
        &tuple(vec![some(Value::U32(0x5678_4321)), Value::U16(0xa987)]),
        &t2(),
        &[0xab, 0x3c, 0x21, 0x90, 0xd4, 0xc3, 0x80],
    );
}

#[test]
fn string_length_fifteen_and_sixteen() {
    let s15 = "abcdefghijklmno";
    let r = to_bytes(&str_value(s15));
    assert_eq!(r, Err(Error::SerMsgTooLong));
    let r = to_bytes(&str_value("abcdefghijklmnop"));
    assert_eq!(r, Err(Error::SerLengthTooLarge("string", 16)));
    let bytes: Vec<u8> = vec![0; 15];
    assert_eq!(to_bytes(&Value::Bytes(bytes)), Err(Error::SerMsgTooLong));
    let bytes: Vec<u8> = vec![0; 16];
    assert_eq!(to_bytes(&Value::Bytes(bytes)), Err(Error::SerLengthTooLarge("bytes", 16)));
}

#[test]
fn sequence_length_fifteen_and_sixteen() {
    let s15 = Value::Sequence((0..15).map(|i| Value::Bool(i % 2 == 0)).collect());
    let sh = Shape::Sequence(Box::new(Shape::Bool));
    let out = to_bytes(&s15).unwrap();
    assert_eq!(out.as_slice(), &[0xfa, 0xaa, 0xa0]);
    assert_eq!(from_bytes(&sh, out.as_slice()).unwrap(), s15);
    let s16 = Value::Sequence((0..16).map(|_| Value::Bool(true)).collect());
    assert_eq!(to_bytes(&s16), Err(Error::SerLengthTooLarge("seq", 16)));
}

#[test]
fn variant_index_fifteen_and_sixteen() {
    let out = to_bytes(&variant("E", "P", 15, Value::Unit)).unwrap();
    assert_eq!(out.as_slice(), &[0xf0]);
    assert_eq!(
        to_bytes(&variant("E", "Q", 16, Value::Unit)),
        Err(Error::SerFieldIndexTooLarge("E", "Q"))
    );
}

#[test]
fn payload_of_sixty_four_and_sixty_five_bits() {
    let v = tuple(vec![Value::U32(0x0102_0304), Value::U32(0x0506_0708)]);
    let out = to_bytes(&v).unwrap();
    assert_eq!(out.as_slice(), &[1, 2, 3, 4, 5, 6, 7, 8]);
    let v = tuple(vec![Value::U32(0x0102_0304), Value::U32(0x0506_0708), Value::Bool(true)]);
    assert_eq!(to_bytes(&v), Err(Error::SerMsgTooLong));
    assert_eq!(to_bytes(&tuple(vec![Value::Bool(true), Value::U64(0)])), Err(Error::SerMsgTooLong));
}

#[test]
fn nine_byte_input_runs_out() {
    let sh = tuple_shape((0..9).map(|_| Shape::U8).collect());
    assert_eq!(from_bytes(&sh, &[1, 2, 3, 4, 5, 6, 7, 8, 9]), Err(Error::DeMsgTooLong));
    let sh8 = tuple_shape((0..8).map(|_| Shape::U8).collect());
    let v = from_bytes(&sh8, &[1, 2, 3, 4, 5, 6, 7, 8, 9]).unwrap();
    assert_eq!(v, tuple((1..9).map(|i| Value::U8(i)).collect()));
}

#[test]
fn trailing_bytes_are_ignored() {
    let v = tuple(vec![Value::Opt(None), Value::U16(0x8765)]);
    let sh = tuple_shape(vec![Shape::Opt(Box::new(Shape::U32)), Shape::U16]);
    let mut bytes = to_bytes(&v).unwrap().as_slice().to_vec();
    bytes.push(0xff);
    bytes.push(0x12);
    assert_eq!(from_bytes(&sh, &bytes).unwrap(), v);
}

#[test]
fn short_input_fails_at_the_end() {
    assert_eq!(from_bytes(&Shape::U16, &[0x12]), Err(Error::DeMsgTooLong));
    assert_eq!(from_bytes(&Shape::U8, &[]), Err(Error::DeMsgTooLong));
    let sh = tuple_shape(vec![Shape::U8, Shape::Bool]);
    assert_eq!(from_bytes(&sh, &[0x12]), Err(Error::DeMsgTooLong));
}

#[test]
fn unknown_variant_index_fails() {
    assert_eq!(from_bytes(&enum_e(), &[0x40]), Err(Error::DeCustom));
}

#[test]
fn register_primitives() {
    let mut ser = Serializer::new();
    assert_eq!(ser.enc_bool(true), Ok(()));
    assert_eq!(ser.enc_4bit(5, Error::Other("tag")), Ok(()));
    assert_eq!(ser.enc_4bit(16, Error::Other("tag")), Err(Error::Other("tag")));
    assert_eq!(ser.enc_u8(0xab), Ok(()));
    assert_eq!(ser.enc_u16(0xcdef), Ok(()));
    assert_eq!(ser.bit_len(), 29);
    assert_eq!(ser.enc_u64(1), Err(Error::SerMsgTooLong));
    assert_eq!(ser.enc_bytes(&[0x11, 0x22], Error::Other("bytes")), Ok(()));
    assert_eq!(ser.bit_len(), 49);
    let out = ser.finish();
    assert_eq!(out.as_slice(), &[0xad, 0x5e, 0x6f, 0x79, 0x08, 0x91, 0x00]);

    let mut de = Deserializer::from_bytes(out.as_slice());
    assert_eq!(de.check_len(), Ok(()));
    assert_eq!(de.dec_bool(), Ok(true));
    assert_eq!(de.dec_4bit(), Ok(5));
    assert_eq!(de.dec_u8(), Ok(0xab));
    assert_eq!(de.dec_u16(), Ok(0xcdef));
    assert_eq!(de.dec_bytes(), Ok(vec![0x11, 0x22]));
    assert_eq!(de.check_len(), Ok(()));
    assert_eq!(de.dec_u32(), Ok(0));
    assert_eq!(de.check_len(), Err(Error::DeMsgTooLong));

    let mut de = Deserializer::from_bytes(&[0x26, 0x16, 0x20]);
    assert_eq!(de.dec_str(), Ok(String::from("ab")));
    let mut de = Deserializer::from_bytes(&[0xff; 8]);
    assert_eq!(de.dec_u64(), Ok(u64::MAX));
    assert_eq!(de.check_len(), Ok(()));
}
