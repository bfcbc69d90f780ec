//! A CAN frame as the codec sees it, and the adaptor between frames and
//! packed values.
use crate::error::Error as CodecError;
use crate::ser::frame_bytes;
use crate::value::{decoding, encoding, from_bytes, to_bytes, Shape, Value};
use vstd::prelude::*;

verus! {

/// What can go wrong between a frame and a value.
#[derive(Debug, PartialEq)]
pub enum Error {
    /// A remote frame carries no data to decode.
    RemoteFrame,
    /// The payload does not fit a frame.
    MsgTooLong,
    /// The codec failed.
    SerdeErr(CodecError),
}

/// The parts of a CAN frame that the codec reads: the raw identifier, whether
/// it is extended (29 bits) or standard (11 bits), whether the frame is a
/// remote one, and its data, at most eight bytes.
#[derive(Debug, PartialEq)]
pub struct Frame {
    pub id: u32,
    pub extended: bool,
    pub remote: bool,
    pub data: Vec<u8>,
}

/// Relies on heapless::Vec::as_slice: the slice holds the vector's items in order.
#[verifier::external_body]
fn frame_bytes_slice(v: &heapless::Vec<u8, 8>) -> (r: &[u8])
    ensures
        r@ == frame_bytes(*v),
{
    v.as_slice()
}

impl Frame {
    /// A data frame with the given identifier and payload; `None` when the
    /// payload is longer than eight bytes.
    pub fn new(id: u32, extended: bool, data: &[u8]) -> (r: Option<Frame>)
        ensures
            data@.len() > 8 ==> r is None,
            data@.len() <= 8 ==> (r matches Some(f) && f.id == id && f.extended == extended
                && !f.remote && f.data@ == data@),
    {
        if data.len() > 8 {
            return None;
        }
        let mut out: Vec<u8> = Vec::new();
        let mut i: usize = 0;
        while i < data.len()
            invariant
                i <= data@.len(),
                out@ == data@.take(i as int),
            decreases data@.len() - i,
        {
            out.push(data[i]);
            proof {
                assert(out@ =~= data@.take(i + 1));
            }
            i = i + 1;
        }
        proof {
            assert(data@.take(data@.len() as int) =~= data@);
        }
        Some(Frame { id, extended, remote: false, data: out })
    }
}

/// Unpacks the payload of a data frame as `sh`.
pub fn from_frame(sh: &Shape, f: &Frame) -> (r: Result<Value, Error>)
    ensures
        f.remote ==> r == Err::<Value, Error>(Error::RemoteFrame),
        !f.remote ==> match decoding(*sh, f.data@) {
            Ok(m) => r matches Ok(v) && v@ == m,
            Err(e) => r == Err::<Value, Error>(Error::SerdeErr(e)),
        },
{
    if f.remote {
        return Err(Error::RemoteFrame);
    }
    match from_bytes(sh, f.data.as_slice()) {
        Ok(v) => Ok(v),
        Err(e) => Err(Error::SerdeErr(e)),
    }
}

/// Packs `v` into a data frame with identifier `id`.
pub fn to_frame(id: u32, extended: bool, v: &Value) -> (r: Result<Frame, Error>)
    ensures
        match encoding(v@) {
            Ok(b) => r matches Ok(f) && f.id == id && f.extended == extended && !f.remote
                && f.data@ == b,
            Err(e) => r == Err::<Frame, Error>(Error::SerdeErr(e)),
        },
{
    let data = match to_bytes(v) {
        Ok(d) => d,
        Err(e) => {
            return Err(Error::SerdeErr(e));
        },
    };
    match Frame::new(id, extended, frame_bytes_slice(&data)) {
        Some(f) => Ok(f),
        None => Err(Error::MsgTooLong),
    }
}

} // verus!
