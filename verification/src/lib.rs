//! A streaming codec for EBML, the container grammar beneath Matroska and
//! WebM: byte streams on one side, a linear sequence of tag events on the
//! other, with a caller-supplied schema that maps tag identifiers to types.

pub mod bytes;
pub mod convert;
pub mod decoder;
pub mod ebml;
pub mod encoder;
pub mod float;
pub mod machine;
pub mod roundtrip;
pub mod schema;
pub mod vint;

pub use crate::decoder::Decoder;
pub use crate::ebml::{
    BinaryElement, ChildElement, DateElement, EbmlId, Element, ElementDetail, ElementPosition,
    FloatElement, IntegerElement, MasterElement, MasterEndElement, MasterStartElement, Schema,
    SimpleBlock, StringElement, UnsignedIntegerElement, Utf8Element,
};
pub use crate::encoder::Encoder;
