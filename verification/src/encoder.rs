//! The encoder: events in, bytes out. The content of a master element of
//! known size is held back until its end arrives, so that its size can be
//! written in front of it.

use crate::bytes::{be_bytes, lemma_pow2_values, twos_complement_bits, write_int, write_uint};
use crate::ebml::{
    ChildElement, EbmlId, Element, ElementDetail, Event, MasterElement, MasterStartElement,
    Schema,
};
use crate::machine::plain;
use crate::schema::SchemaDict;
use crate::vint::{write_vint, write_vint_spec, UnrepresentableValueError};
use vstd::arithmetic::power2::{lemma_pow2_adds, lemma_pow2_strictly_increases, pow2};
use vstd::bits::lemma_u64_shl_is_mul;
use vstd::prelude::*;
use vstd::slice::slice_to_vec;
use vstd::std_specs::convert::FromSpecImpl;
use vstd::utf8::encode_utf8;

verus! {

/// The size of a content cannot be written.
#[derive(Debug, Copy, Clone, PartialEq, Eq, Structural)]
pub enum EncodeTagError {
    /// The size is the reserved value of eight bytes or beyond it.
    UnrepresentableValue(UnrepresentableValueError),
    /// The size does not fit a signed 64-bit integer.
    TryFromIntError,
}

/// An event cannot be encoded.
#[derive(Debug, Copy, Clone, PartialEq, Eq, Structural)]
pub enum EncodeError {
    /// A master element starts whose identifier the dictionary lacks.
    UnknownEbmlId(EbmlId),
    /// An end arrives while no master element is open.
    Bloken,
    /// An end arrives for another element than the innermost open one.
    MismatchedEnd { open: EbmlId, found: EbmlId },
    /// The size of a content cannot be written.
    EncodeTag(EncodeTagError),
}

/// The least length from `length` on at which `id` fits; 0 where there is
/// none up to 8.
pub open spec fn id_length_from(id: int, length: nat) -> nat
    decreases 9 - length,
{
    if length > 8 {
        0
    } else if id < pow2(7 * length + 1) {
        length
    } else {
        id_length_from(id, length + 1)
    }
}

/// The least length in 1..=8 at which `id` fits below the bit next above the
/// marker; 0 where `id` is negative or fits at no length.
pub open spec fn id_length(id: int) -> nat {
    if id < 0 {
        0
    } else {
        id_length_from(id, 1)
    }
}

/// An identifier on the wire: its big-endian bytes at the least length that
/// fits, with the marker bit of that length set. An identifier that fits at
/// no length has no bytes.
pub open spec fn id_bytes(ebml_id: EbmlId) -> Seq<u8> {
    let length = id_length(ebml_id.0 as int);
    if length == 0 {
        Seq::empty()
    } else if ebml_id.0 >= pow2(7 * length) {
        be_bytes(ebml_id.0 as nat, length)
    } else {
        be_bytes((ebml_id.0 + pow2(7 * length)) as nat, length)
    }
}

/// An identifier that is the big-endian value of its own bytes on the wire:
/// its highest set bit is the marker of its length.
pub open spec fn is_wire_id(ebml_id: EbmlId) -> bool {
    id_length(ebml_id.0 as int) > 0 && ebml_id.0 >= pow2(7 * id_length(ebml_id.0 as int))
}

/// The least number of bytes from `length` on that hold `value`.
pub open spec fn unsigned_length_from(value: u64, length: nat) -> nat
    decreases 8 - length,
{
    if length >= 8 || value < pow2(8 * length) {
        length
    } else {
        unsigned_length_from(value, length + 1)
    }
}

/// The least number of bytes, from 1 to 8, that hold `value`.
pub open spec fn unsigned_length(value: u64) -> nat {
    unsigned_length_from(value, 1)
}

/// The least number of bytes from `length` on that hold `value` in two's
/// complement.
pub open spec fn signed_length_from(value: i64, length: nat) -> nat
    decreases 8 - length,
{
    if length >= 8 || -pow2((8 * length - 1) as nat) <= value < pow2((8 * length - 1) as nat) {
        length
    } else {
        signed_length_from(value, length + 1)
    }
}

/// The least number of bytes, from 1 to 8, that hold `value` in two's
/// complement.
pub open spec fn signed_length(value: i64) -> nat {
    signed_length_from(value, 1)
}

/// The content of a leaf on the wire. An unsigned or signed integer takes
/// the least number of bytes that hold it, a float and a date eight.
pub open spec fn leaf_payload(leaf: Event) -> Seq<u8> {
    match leaf {
        Event::UnsignedInt { unsigned, .. } => be_bytes(unsigned as nat, unsigned_length(unsigned)),
        Event::SignedInt { signed, .. } => be_bytes(
            twos_complement_bits(signed as int, signed_length(signed)),
            signed_length(signed),
        ),
        Event::Float { bits, .. } => be_bytes(bits as nat, 8),
        Event::AsciiString { ascii, .. } => ascii,
        Event::Utf8String { text, .. } => encode_utf8(text),
        Event::Binary { bytes, .. } => bytes,
        Event::Date { nanos, .. } => be_bytes(twos_complement_bits(nanos as int, 8), 8),
        Event::MasterStart { .. } => Seq::empty(),
        Event::MasterEnd { .. } => Seq::empty(),
    }
}

/// The size field that announces an unknown size.
pub open spec fn unknown_size_field() -> Seq<u8> {
    seq![0x01u8, 0xff, 0xff, 0xff, 0xff, 0xff, 0xff, 0xff]
}

/// The size field for a content of `length` bytes.
pub open spec fn size_field(length: nat) -> Result<Seq<u8>, EncodeTagError> {
    if length > i64::MAX {
        Err(EncodeTagError::TryFromIntError)
    } else {
        match write_vint_spec(length as i64) {
            Ok(field) => Ok(field),
            Err(e) => Err(EncodeTagError::UnrepresentableValue(e)),
        }
    }
}

/// An element on the wire: identifier, size, content.
pub open spec fn sized_tag(ebml_id: EbmlId, content: Seq<u8>) -> Result<Seq<u8>, EncodeTagError> {
    match size_field(content.len()) {
        Ok(field) => Ok(id_bytes(ebml_id) + field + content),
        Err(e) => Err(e),
    }
}

/// A master element on the wire. One of unknown size has the reserved size
/// field, and `body` follows it as it is.
pub open spec fn master_tag(start: MasterStartElement, body: Seq<u8>) -> Result<
    Seq<u8>,
    EncodeTagError,
> {
    if start.unknown_size {
        Ok(id_bytes(start.ebml_id) + unknown_size_field() + body)
    } else {
        sized_tag(start.ebml_id, body)
    }
}

/// A leaf on the wire.
pub open spec fn child_tag(leaf: Event) -> Result<Seq<u8>, EncodeTagError> {
    sized_tag(leaf.ebml_id(), leaf_payload(leaf))
}

/// The state of an encoder between two events.
pub struct EncoderState {
    /// The open master elements of known size, outermost first, each with
    /// the bytes of the children that it has so far.
    pub stack: Seq<(MasterStartElement, Seq<u8>)>,
    /// The bytes that are complete and not yet handed out.
    pub output: Seq<u8>,
}

/// What encoding a run of events does: the state reached, and the error at
/// which the run stopped, if it did. The state is then the one before the
/// event that failed.
pub struct Encoded {
    pub state: EncoderState,
    pub error: Option<EncodeError>,
}

impl EncoderState {
    /// The state of an encoder that has seen nothing.
    pub open spec fn initial() -> EncoderState {
        EncoderState { stack: Seq::empty(), output: Seq::empty() }
    }

    /// The state after a complete element has been written: its bytes join
    /// the innermost open master element, or the output where none is open.
    pub open spec fn written(self, bytes: Seq<u8>) -> EncoderState {
        if self.stack.len() > 0 {
            let (start, body) = self.stack.last();
            EncoderState { stack: self.stack.drop_last().push((start, body + bytes)), ..self }
        } else {
            EncoderState { output: self.output + bytes, ..self }
        }
    }

    /// The state after the output has been handed out.
    pub open spec fn drained(self) -> EncoderState {
        EncoderState { output: Seq::empty(), ..self }
    }
}

/// What one event does to an encoder.
pub open spec fn encode_step(dict: Map<EbmlId, Schema>, s: EncoderState, event: Event) -> Result<
    EncoderState,
    EncodeError,
> {
    match event {
        Event::MasterStart { ebml_id, unknown_size } => {
            let start = MasterStartElement { ebml_id, unknown_size };
            if !dict.contains_key(ebml_id) {
                Err(EncodeError::UnknownEbmlId(ebml_id))
            } else if unknown_size {
                match master_tag(start, Seq::empty()) {
                    Ok(bytes) => Ok(EncoderState { output: s.output + bytes, ..s }),
                    Err(e) => Err(EncodeError::EncodeTag(e)),
                }
            } else {
                Ok(EncoderState { stack: s.stack.push((start, Seq::empty())), ..s })
            }
        },
        Event::MasterEnd { ebml_id } => {
            if s.stack.len() == 0 {
                Err(EncodeError::Bloken)
            } else {
                let (start, body) = s.stack.last();
                if start.ebml_id != ebml_id {
                    Err(EncodeError::MismatchedEnd { open: start.ebml_id, found: ebml_id })
                } else {
                    match master_tag(start, body) {
                        Ok(bytes) => Ok(
                            EncoderState { stack: s.stack.drop_last(), ..s }.written(bytes),
                        ),
                        Err(e) => Err(EncodeError::EncodeTag(e)),
                    }
                }
            }
        },
        _ => match child_tag(event) {
            Ok(bytes) => Ok(s.written(bytes)),
            Err(e) => Err(EncodeError::EncodeTag(e)),
        },
    }
}

/// What a run of events does to an encoder: each event in turn, up to the
/// first that fails.
pub open spec fn encode_all(dict: Map<EbmlId, Schema>, s: EncoderState, events: Seq<Event>)
    -> Encoded
    decreases events.len(),
{
    if events.len() == 0 {
        Encoded { state: s, error: None }
    } else {
        match encode_step(dict, s, events[0]) {
            Ok(next) => encode_all(dict, next, events.drop_first()),
            Err(e) => Encoded { state: s, error: Some(e) },
        }
    }
}

/// `2^exponent`.
fn power_of_two(exponent: u64) -> (power: u64)
    requires
        exponent < 64,
    ensures
        power == pow2(exponent as nat),
{
    proof {
        lemma_pow2_values();
        lemma_pow2_strictly_increases(exponent as nat, 64);
        lemma_u64_shl_is_mul(1u64, exponent);
    }
    1u64 << exponent
}

impl FromSpecImpl<EbmlId> for Vec<u8> {
    /// A vector is known by its view alone: see the contract of `from`.
    open spec fn obeys_from_spec() -> bool {
        false
    }

    open spec fn from_spec(ebml_id: EbmlId) -> Vec<u8> {
        arbitrary()
    }
}

impl From<EbmlId> for Vec<u8> {
    /// The bytes of an identifier on the wire.
    fn from(ebml_id: EbmlId) -> (bytes: Vec<u8>)
        ensures
            bytes@ == id_bytes(ebml_id),
    {
        id_to_bytes(ebml_id)
    }
}

/// The bytes of an identifier on the wire.
pub fn id_to_bytes(ebml_id: EbmlId) -> (bytes: Vec<u8>)
    ensures
        bytes@ == id_bytes(ebml_id),
{
    if ebml_id.0 < 0 {
        return Vec::new();
    }
    let id = ebml_id.0 as u64;
    let mut length: u64 = 1;
    while length <= 8 && id >= power_of_two(7 * length + 1)
        invariant
            1 <= length <= 9,
            id == ebml_id.0,
            id_length_from(id as int, length as nat) == id_length(id as int),
        decreases 9 - length,
    {
        length = length + 1;
    }
    if length > 8 {
        return Vec::new();
    }
    let marker = power_of_two(7 * length);
    proof {
        lemma_pow2_values();
        lemma_pow2_adds(7 * length as nat, 1);
        if length < 8 {
            lemma_pow2_strictly_increases(7 * length as nat + 1, 8 * length as nat + 1);
        }
        if length > 1 {
            lemma_pow2_strictly_increases(7 * length as nat + 1, 8 * length as nat);
        }
    }
    let marked = if id >= marker {
        id
    } else {
        id + marker
    };
    write_uint(marked, length as usize)
}

/// The size field for a content of `length` bytes.
fn size_to_bytes(length: usize) -> (r: Result<Vec<u8>, EncodeTagError>)
    ensures
        match r {
            Ok(field) => size_field(length as nat) == Ok::<_, EncodeTagError>(field@),
            Err(e) => size_field(length as nat) == Err::<Seq<u8>, _>(e),
        },
{
    if length as u64 > 0x7fff_ffff_ffff_ffffu64 {
        return Err(EncodeTagError::TryFromIntError);
    }
    match write_vint(length as i64) {
        Ok(field) => Ok(field),
        Err(e) => Err(EncodeTagError::UnrepresentableValue(e)),
    }
}

/// An element on the wire: identifier, size, content.
fn encode_sized_tag(ebml_id: EbmlId, content: Vec<u8>) -> (r: Result<Vec<u8>, EncodeTagError>)
    ensures
        match r {
            Ok(bytes) => sized_tag(ebml_id, content@) == Ok::<_, EncodeTagError>(bytes@),
            Err(e) => sized_tag(ebml_id, content@) == Err::<Seq<u8>, _>(e),
        },
{
    let mut size_buffer = size_to_bytes(content.len())?;
    let mut content = content;
    let mut bytes: Vec<u8> = ebml_id.into();
    bytes.append(&mut size_buffer);
    bytes.append(&mut content);
    Ok(bytes)
}

/// A master element on the wire, from its start and the bytes of its
/// children.
pub fn encode_master_tag(o: MasterStartElement, body: Vec<u8>) -> (r: Result<
    Vec<u8>,
    EncodeTagError,
>)
    ensures
        match r {
            Ok(bytes) => master_tag(o, body@) == Ok::<_, EncodeTagError>(bytes@),
            Err(e) => master_tag(o, body@) == Err::<Seq<u8>, _>(e),
        },
{
    if o.unknown_size {
        let mut size_buffer: Vec<u8> = vec![0x01u8, 0xff, 0xff, 0xff, 0xff, 0xff, 0xff, 0xff];
        let mut body = body;
        let mut bytes: Vec<u8> = o.ebml_id.into();
        bytes.append(&mut size_buffer);
        bytes.append(&mut body);
        proof {
            assert(size_buffer@ =~= Seq::<u8>::empty());
        }
        Ok(bytes)
    } else {
        encode_sized_tag(o.ebml_id, body)
    }
}

/// The least number of bytes that hold `value`.
fn unsigned_width(value: u64) -> (width: usize)
    ensures
        width == unsigned_length(value),
        1 <= width <= 8,
        value < pow2(8 * width as nat),
{
    proof {
        lemma_pow2_values();
    }
    let mut width: u64 = 1;
    while width < 8 && value >= power_of_two(8 * width)
        invariant
            1 <= width <= 8,
            unsigned_length_from(value, width as nat) == unsigned_length(value),
        decreases 8 - width,
    {
        width = width + 1;
    }
    width as usize
}

/// Whether `width` bytes hold `value` in two's complement.
fn holds_signed(value: i64, width: u64) -> (holds: bool)
    requires
        1 <= width <= 8,
    ensures
        holds == (-pow2((8 * width - 1) as nat) <= value < pow2((8 * width - 1) as nat)),
{
    proof {
        lemma_pow2_values();
        if width < 8 {
            lemma_pow2_strictly_increases((8 * width - 1) as nat, 63);
        }
    }
    if width == 8 {
        true
    } else {
        let half = power_of_two(8 * width - 1) as i64;
        -half <= value && value < half
    }
}

/// The least number of bytes that hold `value` in two's complement.
fn signed_width(value: i64) -> (width: usize)
    ensures
        width == signed_length(value),
        1 <= width <= 8,
        -pow2((8 * width - 1) as nat) <= value < pow2((8 * width - 1) as nat),
{
    proof {
        lemma_pow2_values();
    }
    let mut width: u64 = 1;
    while width < 8 && !holds_signed(value, width)
        invariant
            1 <= width <= 8,
            signed_length_from(value, width as nat) == signed_length(value),
        decreases 8 - width,
    {
        width = width + 1;
    }
    width as usize
}

/// The content of a leaf on the wire.
fn encode_payload(elm: ChildElement) -> (payload: Vec<u8>)
    ensures
        payload@ == leaf_payload(elm@),
{
    proof {
        lemma_pow2_values();
    }
    match elm {
        ChildElement::UnsignedIntegerElement(o) => {
            let width = unsigned_width(o.value);
            write_uint(o.value, width)
        },
        ChildElement::IntegerElement(o) => {
            let width = signed_width(o.value);
            write_int(o.value, width)
        },
        ChildElement::FloatElement(o) => write_uint(o.value, 8),
        ChildElement::StringElement(o) => o.value,
        ChildElement::Utf8Element(o) => slice_to_vec(o.value.as_str().as_bytes()),
        ChildElement::BinaryElement(o) => o.value,
        ChildElement::DateElement(o) => write_int(o.value, 8),
    }
}

/// A leaf on the wire.
pub fn encode_child_tag(elm: ChildElement) -> (r: Result<Vec<u8>, EncodeTagError>)
    ensures
        match r {
            Ok(bytes) => child_tag(elm@) == Ok::<_, EncodeTagError>(bytes@),
            Err(e) => child_tag(elm@) == Err::<Seq<u8>, _>(e),
        },
{
    let ghost leaf = elm@;
    let ebml_id = match &elm {
        ChildElement::UnsignedIntegerElement(o) => o.ebml_id,
        ChildElement::IntegerElement(o) => o.ebml_id,
        ChildElement::FloatElement(o) => o.ebml_id,
        ChildElement::StringElement(o) => o.ebml_id,
        ChildElement::Utf8Element(o) => o.ebml_id,
        ChildElement::BinaryElement(o) => o.ebml_id,
        ChildElement::DateElement(o) => o.ebml_id,
    };
    let payload = encode_payload(elm);
    encode_sized_tag(ebml_id, payload)
}

/// An encoder over the dictionary `D`.
pub struct Encoder<'a, D: SchemaDict> {
    schema: &'a D,
    stack: Vec<(MasterStartElement, Vec<u8>)>,
    queue: Vec<u8>,
}

impl<'a, D: SchemaDict> View for Encoder<'a, D> {
    type V = EncoderState;

    closed spec fn view(&self) -> EncoderState {
        EncoderState {
            stack: Seq::new(self.stack@.len(), |i: int| (self.stack@[i].0, self.stack@[i].1@)),
            output: self.queue@,
        }
    }
}

impl<'a, D: SchemaDict> Encoder<'a, D> {
    /// The dictionary that the encoder looks identifiers up in.
    pub closed spec fn dict(&self) -> Map<EbmlId, Schema> {
        self.schema.entries()
    }

    /// An encoder with no open element and no output.
    pub fn new(schema: &'a D) -> (encoder: Self)
        ensures
            encoder@ == EncoderState::initial(),
            encoder.dict() == schema.entries(),
    {
        let encoder = Self { schema, stack: Vec::new(), queue: Vec::new() };
        assert(encoder@.stack =~= Seq::empty());
        assert(encoder@.output =~= Seq::empty());
        encoder
    }

    /// Encodes the events in turn and hands out the bytes that are complete:
    /// those of leaves and of master elements that stand in no open master
    /// element. At an error the encoder stays as the events before the one
    /// that failed have left it, output included.
    pub fn encode(&mut self, elms: Vec<Element>) -> (r: Result<Vec<u8>, EncodeError>)
        ensures
            final(self).dict() == old(self).dict(),
            match r {
                Ok(bytes) => {
                    let done = encode_all(old(self).dict(), old(self)@, elms.deep_view());
                    &&& done.error is None
                    &&& bytes@ == done.state.output
                    &&& final(self)@ == done.state.drained()
                },
                Err(e) => {
                    let done = encode_all(old(self).dict(), old(self)@, elms.deep_view());
                    &&& done.error == Some(e)
                    &&& final(self)@ == done.state
                },
            },
    {
        let ghost events = elms.deep_view();
        let ghost given = elms@;
        let ghost dict = self.dict();
        let count = elms.len();
        let mut incoming = elms;
        // The events are taken out of the vector one by one, first to last:
        // they are turned over once, and then taken from the end.
        let mut waiting: Vec<Element> = Vec::new();
        while incoming.len() > 0
            invariant
                incoming@.len() + waiting@.len() == count,
                given.len() == count,
                incoming@ == given.subrange(0, incoming@.len() as int),
                forall|j: int| 0 <= j < waiting@.len() ==> waiting@[j] == given[count - 1 - j],
            decreases incoming@.len(),
        {
            let elm = incoming.pop().unwrap();
            waiting.push(elm);
        }
        proof {
            assert(events.subrange(0, count as int) =~= events);
        }
        while waiting.len() > 0
            invariant
                waiting@.len() <= count,
                given.len() == count == events.len(),
                events == elms.deep_view(),
                forall|j: int| 0 <= j < count ==> events[j] == given[j]@,
                forall|j: int| 0 <= j < waiting@.len() ==> waiting@[j] == given[count - 1 - j],
                self.dict() == dict,
                dict == old(self).dict(),
                encode_all(dict, old(self)@, events) == encode_all(
                    dict,
                    self@,
                    events.subrange(count - waiting@.len(), count as int),
                ),
            decreases waiting@.len(),
        {
            let ghost index = count - waiting@.len();
            let ghost rest = events.subrange(index, count as int);
            proof {
                assert(rest[0] == events[index]);
                assert(rest.drop_first() =~= events.subrange(index + 1, count as int));
            }
            let elm = waiting.pop().unwrap();
            let ghost before = self@;
            proof {
                assert(elm@ == rest[0]);
            }
            match self.encode_chunk(elm) {
                Ok(_) => {},
                Err(e) => {
                    proof {
                        assert(encode_all(dict, before, rest) == (Encoded {
                            state: before,
                            error: Some(e),
                        }));
                    }
                    return Err(e);
                },
            }
        }
        let mut result: Vec<u8> = Vec::new();
        core::mem::swap(&mut self.queue, &mut result);
        proof {
            assert(self@.stack =~= encode_all(dict, old(self)@, events).state.stack);
            assert(self@.output =~= Seq::<u8>::empty());
        }
        Ok(result)
    }

    /// Encodes the events that a decoder has emitted, without their position
    /// records, as `encode` does.
    pub fn encode_details(&mut self, elms: Vec<ElementDetail>) -> (r: Result<
        Vec<u8>,
        EncodeError,
    >)
        ensures
            final(self).dict() == old(self).dict(),
            match r {
                Ok(bytes) => {
                    let done = encode_all(old(self).dict(), old(self)@, plain(elms.deep_view()));
                    &&& done.error is None
                    &&& bytes@ == done.state.output
                    &&& final(self)@ == done.state.drained()
                },
                Err(e) => {
                    let done = encode_all(old(self).dict(), old(self)@, plain(elms.deep_view()));
                    &&& done.error == Some(e)
                    &&& final(self)@ == done.state
                },
            },
    {
        let ghost given = elms@;
        let count = elms.len();
        let mut incoming = elms;
        let mut waiting: Vec<ElementDetail> = Vec::new();
        while incoming.len() > 0
            invariant
                incoming@.len() + waiting@.len() == count,
                given.len() == count,
                incoming@ == given.subrange(0, incoming@.len() as int),
                forall|j: int| 0 <= j < waiting@.len() ==> waiting@[j] == given[count - 1 - j],
            decreases incoming@.len(),
        {
            let elm = incoming.pop().unwrap();
            waiting.push(elm);
        }
        let mut events: Vec<Element> = Vec::new();
        while waiting.len() > 0
            invariant
                events@.len() + waiting@.len() == count,
                given.len() == count,
                forall|j: int| 0 <= j < waiting@.len() ==> waiting@[j] == given[count - 1 - j],
                forall|j: int| 0 <= j < events@.len() ==> (#[trigger] events@[j])@ == given[j]@.0,
            decreases waiting@.len(),
        {
            let elm = waiting.pop().unwrap();
            events.push(elm.into());
        }
        proof {
            assert(events.deep_view() =~= plain(elms.deep_view()));
        }
        self.encode(events)
    }

    /// Encodes one event.
    fn encode_chunk(&mut self, elm: Element) -> (r: Result<(), EncodeError>)
        ensures
            final(self).dict() == old(self).dict(),
            match r {
                Ok(_) => encode_step(old(self).dict(), old(self)@, elm@) == Ok::<_, EncodeError>(
                    final(self)@,
                ),
                Err(e) => encode_step(old(self).dict(), old(self)@, elm@) == Err::<
                    EncoderState,
                    _,
                >(e) && final(self)@ == old(self)@,
            },
    {
        match elm {
            Element::MasterElement(MasterElement::MasterStartElement(o)) => self.start_tag(o),
            Element::MasterElement(MasterElement::MasterEndElement(o)) => self.end_tag(o.ebml_id),
            Element::ChildElement(o) => self.write_tag(o),
        }
    }

    /// Adds the bytes of a complete element to the innermost open master
    /// element, or to the output where none is open.
    fn emit(&mut self, data: Vec<u8>)
        ensures
            final(self).dict() == old(self).dict(),
            final(self)@ == old(self)@.written(data@),
    {
        let mut data = data;
        let ghost bytes = data@;
        match self.stack.pop() {
            Some((start, mut body)) => {
                let ghost before = body@;
                body.append(&mut data);
                self.stack.push((start, body));
                proof {
                    assert(self@.stack =~= old(self)@.stack.drop_last().push(
                        (start, before + bytes),
                    ));
                }
            },
            None => {
                self.queue.append(&mut data);
                proof {
                    assert(self@.stack =~= old(self)@.stack);
                }
            },
        }
    }

    /// Writes a leaf.
    fn write_tag(&mut self, elm: ChildElement) -> (r: Result<(), EncodeError>)
        ensures
            final(self).dict() == old(self).dict(),
            match r {
                Ok(_) => encode_step(old(self).dict(), old(self)@, elm@) == Ok::<_, EncodeError>(
                    final(self)@,
                ),
                Err(e) => encode_step(old(self).dict(), old(self)@, elm@) == Err::<
                    EncoderState,
                    _,
                >(e) && final(self)@ == old(self)@,
            },
    {
        match encode_child_tag(elm) {
            Ok(data) => {
                self.emit(data);
                Ok(())
            },
            Err(e) => Err(EncodeError::EncodeTag(e)),
        }
    }

    /// Opens a master element. One of unknown size is written to the output
    /// at once and is not kept open.
    fn start_tag(&mut self, o: MasterStartElement) -> (r: Result<(), EncodeError>)
        ensures
            final(self).dict() == old(self).dict(),
            match r {
                Ok(_) => encode_step(
                    old(self).dict(),
                    old(self)@,
                    MasterElement::MasterStartElement(o)@,
                ) == Ok::<_, EncodeError>(final(self)@),
                Err(e) => encode_step(
                    old(self).dict(),
                    old(self)@,
                    MasterElement::MasterStartElement(o)@,
                ) == Err::<EncoderState, _>(e) && final(self)@ == old(self)@,
            },
    {
        if self.schema.get(o.ebml_id).is_none() {
            return Err(EncodeError::UnknownEbmlId(o.ebml_id));
        }
        if o.unknown_size {
            match encode_master_tag(o, Vec::new()) {
                Ok(data) => {
                    let mut data = data;
                    self.queue.append(&mut data);
                    proof {
                        assert(self@.stack =~= old(self)@.stack);
                    }
                    return Ok(());
                },
                Err(e) => {
                    return Err(EncodeError::EncodeTag(e));
                },
            }
        }
        self.stack.push((o, Vec::new()));
        proof {
            assert(self@.stack =~= old(self)@.stack.push((o, Seq::<u8>::empty())));
        }
        Ok(())
    }

    /// Closes the innermost open master element and writes it with its size.
    fn end_tag(&mut self, ebml_id: EbmlId) -> (r: Result<(), EncodeError>)
        ensures
            final(self).dict() == old(self).dict(),
            match r {
                Ok(_) => encode_step(
                    old(self).dict(),
                    old(self)@,
                    Event::MasterEnd { ebml_id },
                ) == Ok::<_, EncodeError>(final(self)@),
                Err(e) => encode_step(old(self).dict(), old(self)@, Event::MasterEnd { ebml_id })
                    == Err::<EncoderState, _>(e) && final(self)@ == old(self)@,
            },
    {
        let (o, body) = match self.stack.pop() {
            Some(frame) => frame,
            None => {
                proof {
                    assert(self@.stack =~= old(self)@.stack);
                }
                return Err(EncodeError::Bloken);
            },
        };
        if o.ebml_id.0 != ebml_id.0 {
            let error = EncodeError::MismatchedEnd { open: o.ebml_id, found: ebml_id };
            self.stack.push((o, body));
            proof {
                assert(self@.stack =~= old(self)@.stack);
            }
            return Err(error);
        }
        let ghost held = body@;
        proof {
            assert(old(self)@.stack.last() == (o, held));
            assert(self@.stack =~= old(self)@.stack.drop_last());
        }
        if !o.unknown_size {
            if let Err(e) = size_to_bytes(body.len()) {
                self.stack.push((o, body));
                proof {
                    assert(self@.stack =~= old(self)@.stack);
                }
                return Err(EncodeError::EncodeTag(e));
            }
        }
        match encode_master_tag(o, body) {
            Ok(data) => {
                self.emit(data);
                Ok(())
            },
            Err(e) => {
                proof {
                    // The size was found to be writable above.
                    assert(false);
                }
                Err(EncodeError::EncodeTag(e))
            },
        }
    }
}

} // verus!
