use canpack::frame::{Error as FrameError, Frame};
use canpack::node_group::{Error, NodeGroup};
use canpack::{from_frame, to_frame, Error as CodecError, Shape, Value};

const U32: u64 = 0x10;
const ISIZE: u64 = 0x11;
const U8: u64 = 0x12;
const I8: u64 = 0x13;
const USIZE: u64 = 0x14;

fn t4() -> Vec<u64> {
    vec![ISIZE, U8, I8, USIZE]
}

fn t5() -> Vec<u64> {
    vec![U32, ISIZE, U8, I8, USIZE]
}

#[test]
fn msg_id() {
    let g4 = NodeGroup::new("g", 0, 2, 3, t4());
    assert_eq!(g4.msg_id(USIZE), 3);
    assert_eq!(g4.msg_id(I8), 2);
    assert_eq!(g4.msg_id(U8), 1);
    assert_eq!(g4.msg_id(ISIZE), 0);

    let g5 = NodeGroup::new("g", 0, 2, 3, t5());
    assert_eq!(g5.msg_id(USIZE), 4);
    assert_eq!(g5.msg_id(U32), 0);
}

#[test]
fn msg_id_of_unlisted_type() {
    let g4 = NodeGroup::new("g", 0, 2, 3, t4());
    assert_eq!(g4.msg_id(U32), -1);
}

#[test]
fn endec() {
    let g0 = NodeGroup::new("g0", 0x1_9876_540, 3, 3, t5());

    let Ok(f) = g0.encode_ext(3, U32, &Value::U32(12345)) else { panic!("fail") };
    assert_eq!(f.id, 0x1_9876_558);
    assert!(f.extended);

    match g0.decode(&f, U32, &Shape::U32) {
        Ok((node_id, msg)) => {
            assert_eq!(node_id, 3);
            assert_eq!(msg, Value::U32(12345));
        },
        _ => panic!("fail"),
    }

    if let Ok(_) = g0.decode(&f, USIZE, &Shape::U64) {
        panic!("fail");
    }
    assert_eq!(g0.decode(&f, USIZE, &Shape::U64), Err(Error::DecMsgIdMismatch(0, 4)));
}

#[test]
fn err() {
    let g0 = NodeGroup::new("g0", 0x1_9876_540, 3, 3, t5());
    let g1 = NodeGroup::with_layout("g1", 0x1_1234_560, 3, 3, t4());
    let g2 = NodeGroup::with_layout("g2", 0x2_0000_000, 3, 3, t4());

    assert_eq!(g1.encode_ext(8, U8, &Value::U8(0)), Err(Error::EncNodeIdOutOfRange(8, 3)));
    assert_eq!(g2.encode_ext(0, U8, &Value::U8(0)), Err(Error::EncCanIdOutOfRange(0x2_0000_001)));

    let Ok(f) = g0.encode_ext(5, I8, &Value::I8(-123)) else { panic!("fail") };

    assert_eq!(g0.decode(&f, U8, &Shape::U8), Err(Error::DecMsgIdMismatch(3, 2)));
    assert_eq!(g1.decode(&f, I8, &Shape::I8), Err(Error::DecNodeGroupMismatch));
}

#[test]
fn remote_frame_is_refused() {
    let g0 = NodeGroup::new("g0", 0x1_9876_540, 3, 3, t5());
    let f = Frame { id: 0x1_9876_558, extended: true, remote: true, data: vec![] };
    assert_eq!(g0.decode(&f, U32, &Shape::U32), Err(Error::FrameErr(FrameError::RemoteFrame)));
    assert_eq!(from_frame(&Shape::U32, &f), Err(FrameError::RemoteFrame));
}

#[test]
fn payload_errors_surface() {
    let g0 = NodeGroup::new("g0", 0x1_9876_540, 3, 3, t5());
    let too_long = Value::Tuple(vec![Value::U64(1), Value::U8(2)]);
    assert_eq!(g0.encode_ext(1, U32, &too_long), Err(Error::SerdeErr(CodecError::SerMsgTooLong)));
    let f = Frame { id: 0x1_9876_548, extended: true, remote: false, data: vec![0x12] };
    assert_eq!(g0.decode(&f, U32, &Shape::U32), Err(Error::SerdeErr(CodecError::DeMsgTooLong)));
}

#[test]
fn frames_carry_packed_payloads() {
    let f = to_frame(0x123, false, &Value::U16(0xbeef)).unwrap();
    assert_eq!(f, Frame { id: 0x123, extended: false, remote: false, data: vec![0xbe, 0xef] });
    assert_eq!(from_frame(&Shape::U16, &f), Ok(Value::U16(0xbeef)));
    assert_eq!(Frame::new(1, true, &[0; 9]), None);
    assert_eq!(
        to_frame(1, true, &Value::Sequence((0..16).map(|_| Value::Unit).collect())),
        Err(FrameError::SerdeErr(CodecError::SerLengthTooLarge("seq", 16)))
    );
}
