//! A bit-packed codec for values that fit one CAN frame (at most 64 bits),
//! with a node-group layer that composes and splits 29-bit identifiers.
pub mod bits;
pub mod error;
pub mod ser;
pub mod de;
pub mod value;
pub mod frame;
pub mod node_group;
pub mod roundtrip;

pub use de::Deserializer;
pub use error::Error;
pub use frame::{from_frame, to_frame};
pub use ser::Serializer;
pub use value::{from_bytes, to_bytes, Shape, Value};
