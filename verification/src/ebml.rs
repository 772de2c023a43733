//! The element model: the events that a decoder emits and an encoder
//! accepts, and the position record that accompanies a decoded event.

use vstd::prelude::*;

verus! {

/// A tag identifier: the bytes of its variable-length encoding, marker bit
/// included, read as a big-endian integer.
#[derive(Debug, Clone, Copy, PartialEq, Eq, Structural, PartialOrd, Ord, Hash)]
pub struct EbmlId(pub i64);

/// The start of a master element.
#[derive(Debug, Clone, Copy, PartialEq, Eq, Structural, PartialOrd, Ord, Hash)]
pub struct MasterStartElement {
    pub ebml_id: EbmlId,
    pub unknown_size: bool,
}

/// The end of a master element.
#[derive(Debug, Clone, Copy, PartialEq, Eq, Structural, PartialOrd, Ord, Hash)]
pub struct MasterEndElement {
    pub ebml_id: EbmlId,
}

#[derive(Debug, Clone, Copy, PartialEq, Eq, Structural, PartialOrd, Ord, Hash)]
pub struct UnsignedIntegerElement {
    pub ebml_id: EbmlId,
    pub value: u64,
}

#[derive(Debug, Clone, Copy, PartialEq, Eq, Structural, PartialOrd, Ord, Hash)]
pub struct IntegerElement {
    pub ebml_id: EbmlId,
    pub value: i64,
}

/// A floating-point leaf. `value` holds the bits of an IEEE-754 binary64
/// number.
#[derive(Debug, Clone, Copy, PartialEq, Eq, Structural, PartialOrd, Ord, Hash)]
pub struct FloatElement {
    pub ebml_id: EbmlId,
    pub value: u64,
}

/// A leaf of printable ASCII, held as the bytes on the wire, padding
/// included.
#[derive(Debug, PartialEq, PartialOrd)]
pub struct StringElement {
    pub ebml_id: EbmlId,
    pub value: Vec<u8>,
}

#[derive(Debug, PartialEq, PartialOrd)]
pub struct Utf8Element {
    pub ebml_id: EbmlId,
    pub value: String,
}

#[derive(Debug, PartialEq, PartialOrd)]
pub struct BinaryElement {
    pub ebml_id: EbmlId,
    pub value: Vec<u8>,
}

/// A date leaf. `value` counts nanoseconds from 2001-01-01T00:00:00 UTC.
#[derive(Debug, Clone, Copy, PartialEq, Eq, Structural, PartialOrd, Ord, Hash)]
pub struct DateElement {
    pub ebml_id: EbmlId,
    pub value: i64,
}

/// The nanoseconds from 1970-01-01T00:00:00 UTC to 2001-01-01T00:00:00 UTC.
pub const MILLENNIUM_UNIX_NANOS: i64 = 978_307_200_000_000_000;

impl DateElement {
    /// The date in nanoseconds from 1970-01-01T00:00:00 UTC, where 64 bits
    /// hold it.
    pub fn unix_nanos(&self) -> (nanos: Option<i64>)
        ensures
            nanos == (if self.value + MILLENNIUM_UNIX_NANOS <= i64::MAX {
                Some((self.value + MILLENNIUM_UNIX_NANOS) as i64)
            } else {
                None
            }),
    {
        if self.value <= i64::MAX - MILLENNIUM_UNIX_NANOS {
            Some(self.value + MILLENNIUM_UNIX_NANOS)
        } else {
            None
        }
    }

    /// The date leaf for a time in nanoseconds from 1970-01-01T00:00:00 UTC,
    /// where 64 bits hold its distance from 2001.
    pub fn from_unix_nanos(ebml_id: EbmlId, unix_nanos: i64) -> (date: Option<DateElement>)
        ensures
            date == (if unix_nanos - MILLENNIUM_UNIX_NANOS >= i64::MIN {
                Some(
                    DateElement {
                        ebml_id,
                        value: (unix_nanos - MILLENNIUM_UNIX_NANOS) as i64,
                    },
                )
            } else {
                None
            }),
    {
        if unix_nanos >= i64::MIN + MILLENNIUM_UNIX_NANOS {
            Some(DateElement { ebml_id, value: unix_nanos - MILLENNIUM_UNIX_NANOS })
        } else {
            None
        }
    }
}

#[derive(Debug, Clone, Copy, PartialEq, Eq, Structural, PartialOrd)]
pub enum MasterElement {
    MasterStartElement(MasterStartElement),
    MasterEndElement(MasterEndElement),
}

#[derive(Debug, PartialEq, PartialOrd)]
pub enum ChildElement {
    UnsignedIntegerElement(UnsignedIntegerElement),
    IntegerElement(IntegerElement),
    FloatElement(FloatElement),
    StringElement(StringElement),
    Utf8Element(Utf8Element),
    BinaryElement(BinaryElement),
    DateElement(DateElement),
}

/// An event: one bracket of a master element, or a leaf.
#[derive(Debug, PartialEq, PartialOrd)]
pub enum Element {
    MasterElement(MasterElement),
    ChildElement(ChildElement),
}

/// Where a decoded element stood in the stream, in bytes from its start.
/// `content_size` is -1 for a master element of unknown size.
#[derive(Debug, Clone, Copy, PartialEq, Eq, Structural, PartialOrd, Ord, Hash)]
pub struct ElementPosition {
    pub ebml_id: EbmlId,
    pub level: i64,
    pub type_code: char,
    pub tag_start: usize,
    pub size_start: usize,
    pub content_start: usize,
    pub content_size: i64,
}

/// An event as a decoder emits it: with the position of its element.
#[derive(Debug, PartialEq, PartialOrd)]
pub enum ElementDetail {
    MasterElement((MasterElement, ElementPosition)),
    ChildElement((ChildElement, ElementPosition)),
}

/// The parts of a block of frames.
#[derive(Debug, Clone, PartialEq, PartialOrd)]
pub struct SimpleBlock {
    pub discardable: bool,
    pub frames: Vec<Vec<u8>>,
    pub invisible: bool,
    pub keyframe: bool,
    pub timecode: i64,
    pub track_number: i64,
}

/// What a schema says of one identifier: its type code, one of
/// `m u i f s 8 b d`, and the level at which it may occur.
#[derive(Debug, Clone, Copy, PartialEq, Eq, Structural, PartialOrd, Ord, Hash)]
pub struct Schema {
    pub type_code: char,
    pub level: i64,
}

/// An event as a mathematical value: one bracket of a master element, or
/// one leaf with what it holds.
pub enum Event {
    MasterStart { ebml_id: EbmlId, unknown_size: bool },
    MasterEnd { ebml_id: EbmlId },
    UnsignedInt { ebml_id: EbmlId, unsigned: u64 },
    SignedInt { ebml_id: EbmlId, signed: i64 },
    Float { ebml_id: EbmlId, bits: u64 },
    AsciiString { ebml_id: EbmlId, ascii: Seq<u8> },
    Utf8String { ebml_id: EbmlId, text: Seq<char> },
    Binary { ebml_id: EbmlId, bytes: Seq<u8> },
    Date { ebml_id: EbmlId, nanos: i64 },
}

impl Event {
    /// The identifier of the element that the event belongs to.
    pub open spec fn ebml_id(self) -> EbmlId {
        match self {
            Event::MasterStart { ebml_id, .. } => ebml_id,
            Event::MasterEnd { ebml_id } => ebml_id,
            Event::UnsignedInt { ebml_id, .. } => ebml_id,
            Event::SignedInt { ebml_id, .. } => ebml_id,
            Event::Float { ebml_id, .. } => ebml_id,
            Event::AsciiString { ebml_id, .. } => ebml_id,
            Event::Utf8String { ebml_id, .. } => ebml_id,
            Event::Binary { ebml_id, .. } => ebml_id,
            Event::Date { ebml_id, .. } => ebml_id,
        }
    }

    /// The event is a leaf, not a bracket of a master element.
    pub open spec fn is_leaf(self) -> bool {
        !(self is MasterStart) && !(self is MasterEnd)
    }
}

impl View for MasterElement {
    type V = Event;

    open spec fn view(&self) -> Event {
        match *self {
            MasterElement::MasterStartElement(o) => Event::MasterStart {
                ebml_id: o.ebml_id,
                unknown_size: o.unknown_size,
            },
            MasterElement::MasterEndElement(o) => Event::MasterEnd { ebml_id: o.ebml_id },
        }
    }
}

impl View for ChildElement {
    type V = Event;

    open spec fn view(&self) -> Event {
        match *self {
            ChildElement::UnsignedIntegerElement(o) => Event::UnsignedInt {
                ebml_id: o.ebml_id,
                unsigned: o.value,
            },
            ChildElement::IntegerElement(o) => Event::SignedInt {
                ebml_id: o.ebml_id,
                signed: o.value,
            },
            ChildElement::FloatElement(o) => Event::Float { ebml_id: o.ebml_id, bits: o.value },
            ChildElement::StringElement(o) => Event::AsciiString {
                ebml_id: o.ebml_id,
                ascii: o.value@,
            },
            ChildElement::Utf8Element(o) => Event::Utf8String {
                ebml_id: o.ebml_id,
                text: o.value@,
            },
            ChildElement::BinaryElement(o) => Event::Binary {
                ebml_id: o.ebml_id,
                bytes: o.value@,
            },
            ChildElement::DateElement(o) => Event::Date { ebml_id: o.ebml_id, nanos: o.value },
        }
    }
}

impl View for Element {
    type V = Event;

    open spec fn view(&self) -> Event {
        match *self {
            Element::MasterElement(o) => o@,
            Element::ChildElement(o) => o@,
        }
    }
}

impl DeepView for Element {
    type V = Event;

    open spec fn deep_view(&self) -> Event {
        self@
    }
}

impl View for ElementDetail {
    type V = (Event, ElementPosition);

    open spec fn view(&self) -> (Event, ElementPosition) {
        match *self {
            ElementDetail::MasterElement((o, position)) => (o@, position),
            ElementDetail::ChildElement((o, position)) => (o@, position),
        }
    }
}

impl DeepView for ElementDetail {
    type V = (Event, ElementPosition);

    open spec fn deep_view(&self) -> (Event, ElementPosition) {
        self@
    }
}

} // verus!
