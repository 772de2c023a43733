//! Encoding and decoding undo each other: what an encoder writes for a
//! sequence of complete elements, a decoder reads back as that sequence.

use crate::bytes::{
    be_bytes, be_value, lemma_be_bytes_len, lemma_be_value_of_bytes, lemma_pow2_values,
    lemma_twos_complement_roundtrip, twos_complement_bits,
};
use crate::decoder::{ReadContentError, State};
use crate::machine::{
    closes, closing_events, end_event, leaf_event, lemma_plain_concat, plain, run, start_event,
    step, still_open, DecoderState, Emitted, Outcome, Step,
};
use crate::ebml::{EbmlId, ElementPosition, Event, MasterStartElement, Schema};
use crate::encoder::{
    encode_all, encode_step, id_bytes, id_length, id_length_from, is_wire_id, leaf_payload,
    signed_length, signed_length_from, size_field, sized_tag, unknown_size_field,
    unsigned_length, unsigned_length_from, EncodeError, EncodeTagError, Encoded, EncoderState,
};
use crate::vint::{
    lemma_minimal_length, lemma_read_encoding, max_vint_value, minimal_length, vint_encoding,
};
use vstd::arithmetic::power2::{lemma_pow2_adds, lemma_pow2_strictly_increases, pow2};
use vstd::prelude::*;
use vstd::utf8::{encode_utf8_decode_utf8, encode_utf8_valid_utf8};

verus! {

/// A sequence of complete elements: empty, or a leaf and the elements after
/// it, or a master element of known size with its children and the elements
/// after it.
pub enum Forest {
    Nil,
    Leaf(Event, Box<Forest>),
    Master(EbmlId, Box<Forest>, Box<Forest>),
}

/// The type code under which a leaf is decoded.
pub open spec fn leaf_type_code(leaf: Event) -> char {
    match leaf {
        Event::UnsignedInt { .. } => 'u',
        Event::SignedInt { .. } => 'i',
        Event::Float { .. } => 'f',
        Event::AsciiString { .. } => 's',
        Event::Utf8String { .. } => '8',
        Event::Binary { .. } => 'b',
        Event::Date { .. } => 'd',
        _ => 'm',
    }
}

/// An element on the wire whose content can be sized; no bytes where it
/// cannot.
pub open spec fn tag_bytes(ebml_id: EbmlId, content: Seq<u8>) -> Seq<u8> {
    match sized_tag(ebml_id, content) {
        Ok(bytes) => bytes,
        Err(_) => Seq::empty(),
    }
}

impl Forest {
    /// The events of the elements, in stream order.
    pub open spec fn events(self) -> Seq<Event>
        decreases self,
    {
        match self {
            Forest::Nil => Seq::empty(),
            Forest::Leaf(leaf, next) => seq![leaf] + next.events(),
            Forest::Master(ebml_id, children, next) => seq![
                Event::MasterStart { ebml_id, unknown_size: false },
            ] + children.events() + seq![Event::MasterEnd { ebml_id }] + next.events(),
        }
    }

    /// The elements on the wire.
    pub open spec fn wire(self) -> Seq<u8>
        decreases self,
    {
        match self {
            Forest::Nil => Seq::empty(),
            Forest::Leaf(leaf, next) => tag_bytes(leaf.ebml_id(), leaf_payload(leaf))
                + next.wire(),
            Forest::Master(ebml_id, children, next) => tag_bytes(ebml_id, children.wire())
                + next.wire(),
        }
    }

    /// The elements can be written and read back under `dict`: every
    /// identifier is one on the wire and stands in the dictionary under the
    /// type of its element, and every content has a size that can be
    /// written.
    pub open spec fn fits(self, dict: Map<EbmlId, Schema>) -> bool
        decreases self,
    {
        match self {
            Forest::Nil => true,
            Forest::Leaf(leaf, next) => {
                &&& leaf.is_leaf()
                &&& is_wire_id(leaf.ebml_id())
                &&& dict.contains_key(leaf.ebml_id())
                &&& dict[leaf.ebml_id()].type_code == leaf_type_code(leaf)
                &&& leaf_payload(leaf).len() <= max_vint_value()
                &&& next.fits(dict)
            },
            Forest::Master(ebml_id, children, next) => {
                &&& is_wire_id(ebml_id)
                &&& dict.contains_key(ebml_id)
                &&& dict[ebml_id].type_code == 'm'
                &&& children.wire().len() <= max_vint_value()
                &&& children.fits(dict)
                &&& next.fits(dict)
            },
        }
    }
}

/// A content whose size can be written has a size field of one to eight
/// bytes, which is the encoding of the size at its minimal length.
pub proof fn lemma_size_field(length: nat)
    requires
        length <= max_vint_value(),
    ensures
        size_field(length) == Ok::<_, EncodeTagError>(
            vint_encoding(length as int, minimal_length(length as int)),
        ),
        1 <= minimal_length(length as int) <= 8,
        vint_encoding(length as int, minimal_length(length as int)).len() == minimal_length(
            length as int,
        ),
        length < pow2(7 * minimal_length(length as int)) - 1,
{
    lemma_pow2_values();
    lemma_minimal_length(length as int);
    let m = minimal_length(length as int);
    lemma_be_bytes_len((length + pow2(7 * m)) as nat, m);
}

/// An identifier on the wire has one to eight bytes, whose big-endian value
/// it is.
pub proof fn lemma_wire_id(ebml_id: EbmlId)
    requires
        is_wire_id(ebml_id),
    ensures
        1 <= id_length(ebml_id.0 as int) <= 8,
        id_bytes(ebml_id).len() == id_length(ebml_id.0 as int),
        id_bytes(ebml_id) == vint_encoding(
            ebml_id.0 - pow2(7 * id_length(ebml_id.0 as int)),
            id_length(ebml_id.0 as int),
        ),
        0 <= ebml_id.0 - pow2(7 * id_length(ebml_id.0 as int)) < pow2(
            7 * id_length(ebml_id.0 as int),
        ),
        be_value(id_bytes(ebml_id)) == ebml_id.0,
{
    let id = ebml_id.0 as int;
    let n = id_length(id);
    reveal_with_fuel(id_length_from, 10);
    lemma_pow2_values();
    lemma_pow2_adds(7 * n, 1);
    if n > 1 {
        lemma_pow2_strictly_increases(7 * n + 1, 8 * n);
    }
    lemma_be_bytes_len(id as nat, n);
    lemma_be_value_of_bytes(id as nat, n);
}

/// Writing a complete element twice is writing both at once.
pub proof fn lemma_written_twice(s: EncoderState, first: Seq<u8>, second: Seq<u8>)
    ensures
        s.written(first).written(second) == s.written(first + second),
{
    if s.stack.len() > 0 {
        let (start, body) = s.stack.last();
        assert((body + first) + second =~= body + (first + second));
        assert(s.written(first).stack.drop_last() =~= s.stack.drop_last());
        assert(s.written(first).written(second).stack =~= s.written(first + second).stack);
    } else {
        assert((s.output + first) + second =~= s.output + (first + second));
    }
}

/// Encoding the elements of a forest, whatever follows them, writes their
/// bytes on the wire as one complete run and goes on with what follows.
pub proof fn lemma_encode_forest(
    dict: Map<EbmlId, Schema>,
    s: EncoderState,
    forest: Forest,
    rest: Seq<Event>,
)
    requires
        forest.fits(dict),
    ensures
        encode_all(dict, s, forest.events() + rest) == encode_all(
            dict,
            s.written(forest.wire()),
            rest,
        ),
    decreases forest,
{
    match forest {
        Forest::Nil => {
            assert(forest.events() + rest =~= rest);
            if s.stack.len() > 0 {
                let (start, body) = s.stack.last();
                assert(body + Seq::<u8>::empty() =~= body);
                assert(s.written(forest.wire()).stack =~= s.stack);
            } else {
                assert(s.output + Seq::<u8>::empty() =~= s.output);
            }
            assert(s.written(forest.wire()) == s);
        },
        Forest::Leaf(leaf, next) => {
            let all = forest.events() + rest;
            let bytes = tag_bytes(leaf.ebml_id(), leaf_payload(leaf));
            lemma_size_field(leaf_payload(leaf).len());
            assert(all[0] == leaf);
            assert(all.drop_first() =~= next.events() + rest);
            assert(encode_step(dict, s, leaf) == Ok::<_, EncodeError>(
                s.written(bytes),
            ));
            lemma_encode_forest(dict, s.written(bytes), *next, rest);
            lemma_written_twice(s, bytes, next.wire());
        },
        Forest::Master(ebml_id, children, next) => {
            let all = forest.events() + rest;
            let start = MasterStartElement { ebml_id, unknown_size: false };
            let opened = EncoderState { stack: s.stack.push((start, Seq::empty())), ..s };
            let after = seq![Event::MasterEnd { ebml_id }] + next.events() + rest;
            let bytes = tag_bytes(ebml_id, children.wire());
            lemma_size_field(children.wire().len());
            assert(all[0] == Event::MasterStart { ebml_id, unknown_size: false });
            assert(all.drop_first() =~= children.events() + after);
            assert(encode_step(dict, s, all[0]) == Ok::<_, EncodeError>(opened));
            lemma_encode_forest(dict, opened, *children, after);
            let filled = opened.written(children.wire());
            assert(Seq::<u8>::empty() + children.wire() =~= children.wire());
            assert(filled.stack.last() == (start, children.wire()));
            assert(filled.stack.drop_last() =~= s.stack);
            assert(after[0] == Event::MasterEnd { ebml_id });
            assert(after.drop_first() =~= next.events() + rest);
            assert(EncoderState { stack: filled.stack.drop_last(), ..filled } == s);
            assert(encode_step(dict, filled, after[0]) == Ok::<_, EncodeError>(
                s.written(bytes),
            ));
            lemma_encode_forest(dict, s.written(bytes), *next, rest);
            lemma_written_twice(s, bytes, next.wire());
        },
    }
}

/// A leaf that was written is read back under its type code.
pub proof fn lemma_leaf_roundtrip(leaf: Event)
    requires
        leaf.is_leaf(),
    ensures
        leaf_event(leaf_type_code(leaf), leaf.ebml_id(), leaf_payload(leaf)) == Ok::<
            _,
            ReadContentError,
        >(leaf),
{
    broadcast use {encode_utf8_valid_utf8, encode_utf8_decode_utf8};

    lemma_pow2_values();
    let payload = leaf_payload(leaf);
    match leaf {
        Event::UnsignedInt { unsigned, .. } => {
            reveal_with_fuel(unsigned_length_from, 9);
            let n = unsigned_length(unsigned);
            lemma_be_bytes_len(unsigned as nat, n);
            lemma_be_value_of_bytes(unsigned as nat, n);
        },
        Event::SignedInt { signed, .. } => {
            reveal_with_fuel(signed_length_from, 9);
            let n = signed_length(signed);
            lemma_twos_complement_roundtrip(signed as int, n);
            let bits = twos_complement_bits(signed as int, n);
            lemma_be_bytes_len(bits, n);
            lemma_be_value_of_bytes(bits, n);
        },
        Event::Float { bits, .. } => {
            lemma_be_bytes_len(bits as nat, 8);
            lemma_be_value_of_bytes(bits as nat, 8);
        },
        Event::Date { nanos, .. } => {
            lemma_twos_complement_roundtrip(nanos as int, 8);
            let bits = twos_complement_bits(nanos as int, 8);
            lemma_be_bytes_len(bits, 8);
            lemma_be_value_of_bytes(bits, 8);
            assert(payload.subrange(0, 8) =~= payload);
        },
        _ => {},
    }
}

/// The events of a run with `events` in front.
pub open spec fn after_events(events: Seq<Emitted>, rest: Outcome) -> Outcome {
    Outcome { state: rest.state, events: events + rest.events, error: rest.error }
}

/// The bytes that an identifier and the size of a content take.
pub open spec fn header_length(ebml_id: EbmlId, content_length: nat) -> nat {
    id_length(ebml_id.0 as int) + minimal_length(content_length as int)
}

/// The position record of an element whose tag starts at `total`.
pub open spec fn element_frame(
    dict: Map<EbmlId, Schema>,
    ebml_id: EbmlId,
    total: usize,
    content_length: nat,
) -> ElementPosition {
    ElementPosition {
        ebml_id,
        level: dict[ebml_id].level,
        type_code: dict[ebml_id].type_code,
        tag_start: total,
        size_start: (total + id_length(ebml_id.0 as int)) as usize,
        content_start: (total + header_length(ebml_id, content_length)) as usize,
        content_size: content_length as i64,
    }
}

/// The position record of an element whose tag starts at `total` and whose
/// size field holds `size_value` at `size_length` bytes.
pub open spec fn read_frame(
    dict: Map<EbmlId, Schema>,
    ebml_id: EbmlId,
    total: usize,
    size_value: int,
    size_length: nat,
) -> ElementPosition {
    ElementPosition {
        ebml_id,
        level: dict[ebml_id].level,
        type_code: dict[ebml_id].type_code,
        tag_start: total,
        size_start: (total + id_length(ebml_id.0 as int)) as usize,
        content_start: (total + id_length(ebml_id.0 as int) + size_length) as usize,
        content_size: if size_value == pow2(7 * size_length) - 1 {
            -1i64
        } else {
            size_value as i64
        },
    }
}

/// Two steps read an identifier on the wire and a size field, and lead to
/// the content.
pub proof fn lemma_tag_and_size_steps(
    dict: Map<EbmlId, Schema>,
    stack: Seq<ElementPosition>,
    total: usize,
    ebml_id: EbmlId,
    size_value: int,
    size_length: nat,
    rest: Seq<u8>,
)
    requires
        is_wire_id(ebml_id),
        dict.contains_key(ebml_id),
        1 <= size_length <= 8,
        0 <= size_value < pow2(7 * size_length),
        total + id_length(ebml_id.0 as int) + size_length <= usize::MAX,
    ensures
        run(
            dict,
            DecoderState {
                phase: State::Tag,
                pending: id_bytes(ebml_id) + vint_encoding(size_value, size_length) + rest,
                total,
                stack,
            },
        ) == run(
            dict,
            DecoderState {
                phase: State::Content,
                pending: rest,
                total: (total + id_length(ebml_id.0 as int) + size_length) as usize,
                stack: stack.push(read_frame(dict, ebml_id, total, size_value, size_length)),
            },
        ),
{
    let n = id_length(ebml_id.0 as int);
    let m = size_length;
    let field = vint_encoding(size_value, m);
    let before_tag = DecoderState {
        phase: State::Tag,
        pending: id_bytes(ebml_id) + field + rest,
        total,
        stack,
    };
    lemma_wire_id(ebml_id);
    lemma_be_bytes_len((size_value + pow2(7 * m)) as nat, m);
    lemma_pow2_values();
    assert(before_tag.pending.subrange(0, n as int) =~= id_bytes(ebml_id));
    lemma_read_encoding(before_tag.pending, 0, ebml_id.0 - pow2(7 * n), n);
    let frame0 = ElementPosition {
        ebml_id,
        level: dict[ebml_id].level,
        type_code: dict[ebml_id].type_code,
        tag_start: total,
        size_start: (total + n) as usize,
        content_start: 0,
        content_size: 0,
    };
    let before_size = DecoderState {
        phase: State::Size,
        pending: field + rest,
        total: (total + n) as usize,
        stack: stack.push(frame0),
    };
    assert(before_tag.consumed(n as int).pending =~= field + rest);
    assert(step(dict, before_tag) == Step::Advance(before_size, Seq::empty()));
    assert(before_size.pending.subrange(0, m as int) =~= field);
    lemma_read_encoding(before_size.pending, 0, size_value, m);
    lemma_pow2_strictly_increases(7 * m, 63);
    let before_content = DecoderState {
        phase: State::Content,
        pending: rest,
        total: (total + n + m) as usize,
        stack: stack.push(read_frame(dict, ebml_id, total, size_value, size_length)),
    };
    assert(before_size.consumed(m as int).pending =~= rest);
    assert(before_size.stack.drop_last() =~= stack);
    assert(step(dict, before_size) == Step::Advance(before_content, Seq::empty()));
    let none = Seq::<Emitted>::empty();
    assert(none + run(dict, before_content).events =~= run(dict, before_content).events);
    assert(run(dict, before_size) == run(dict, before_content));
    assert(none + run(dict, before_size).events =~= run(dict, before_size).events);
}

/// Two steps read the identifier and the size of an element that was
/// written with its size, and lead to its content.
pub proof fn lemma_header_steps(
    dict: Map<EbmlId, Schema>,
    stack: Seq<ElementPosition>,
    total: usize,
    ebml_id: EbmlId,
    content_length: nat,
    rest: Seq<u8>,
)
    requires
        is_wire_id(ebml_id),
        dict.contains_key(ebml_id),
        content_length <= max_vint_value(),
        total + header_length(ebml_id, content_length) <= usize::MAX,
    ensures
        run(
            dict,
            DecoderState {
                phase: State::Tag,
                pending: id_bytes(ebml_id) + vint_encoding(
                    content_length as int,
                    minimal_length(content_length as int),
                ) + rest,
                total,
                stack,
            },
        ) == run(
            dict,
            DecoderState {
                phase: State::Content,
                pending: rest,
                total: (total + header_length(ebml_id, content_length)) as usize,
                stack: stack.push(element_frame(dict, ebml_id, total, content_length)),
            },
        ),
{
    let m = minimal_length(content_length as int);
    lemma_size_field(content_length);
    lemma_pow2_values();
    lemma_tag_and_size_steps(dict, stack, total, ebml_id, content_length as int, m, rest);
    assert(element_frame(dict, ebml_id, total, content_length) == read_frame(
        dict,
        ebml_id,
        total,
        content_length as int,
        m,
    ));
}

/// An element on the wire has a header and its content.
pub proof fn lemma_tag_bytes(ebml_id: EbmlId, content: Seq<u8>)
    requires
        is_wire_id(ebml_id),
        content.len() <= max_vint_value(),
    ensures
        tag_bytes(ebml_id, content) == id_bytes(ebml_id) + vint_encoding(
            content.len() as int,
            minimal_length(content.len() as int),
        ) + content,
        tag_bytes(ebml_id, content).len() == header_length(ebml_id, content.len())
            + content.len(),
        header_length(ebml_id, content.len()) >= 2,
{
    lemma_wire_id(ebml_id);
    lemma_size_field(content.len());
}

/// A forest that is not empty has bytes on the wire.
pub proof fn lemma_wire_not_empty(dict: Map<EbmlId, Schema>, forest: Forest)
    requires
        forest.fits(dict),
        !(forest is Nil),
    ensures
        forest.wire().len() >= 2,
{
    match forest {
        Forest::Nil => {},
        Forest::Leaf(leaf, next) => {
            lemma_tag_bytes(leaf.ebml_id(), leaf_payload(leaf));
        },
        Forest::Master(ebml_id, children, next) => {
            lemma_tag_bytes(ebml_id, children.wire());
        },
    }
}

/// The open elements as a decoder of the bytes of a forest finds them: the
/// innermost, if there is one, has a known size and does not end before the
/// forest does.
pub open spec fn encloses(stack: Seq<ElementPosition>, end: int) -> bool {
    stack.len() > 0 ==> stack.last().content_size >= 0 && stack.last().content_start
        + stack.last().content_size >= end
}

/// The state of a decoder that expects a tag.
pub open spec fn at_tag(pending: Seq<u8>, total: usize, stack: Seq<ElementPosition>)
    -> DecoderState {
    DecoderState { phase: State::Tag, pending, total, stack }
}

/// A run leads from one state to another with `events` on the way: from
/// there on both runs are one, and the events of the first are `events`
/// and then those of the second, position records apart.
#[verifier::opaque]
pub open spec fn leads(
    dict: Map<EbmlId, Schema>,
    from: DecoderState,
    events: Seq<Event>,
    to: DecoderState,
) -> bool {
    &&& run(dict, from).state == run(dict, to).state
    &&& run(dict, from).error == run(dict, to).error
    &&& plain(run(dict, from).events) == events + plain(run(dict, to).events)
}

/// The step that reads the content of a leaf: the leaf is emitted, and the
/// open elements that end with it are closed.
proof fn lemma_leaf_content_step(
    dict: Map<EbmlId, Schema>,
    stack: Seq<ElementPosition>,
    start: usize,
    frame: ElementPosition,
    leaf: Event,
    after: Seq<u8>,
)
    requires
        leaf.is_leaf(),
        frame.type_code == leaf_type_code(leaf),
        frame.ebml_id == leaf.ebml_id(),
        frame.content_size == leaf_payload(leaf).len(),
        start + leaf_payload(leaf).len() <= usize::MAX,
    ensures
        ({
            let end = (start + leaf_payload(leaf).len()) as usize;
            step(
                dict,
                DecoderState {
                    phase: State::Content,
                    pending: leaf_payload(leaf) + after,
                    total: start,
                    stack: stack.push(frame),
                },
            ) == Step::Advance(
                at_tag(after, end, still_open(stack, end)),
                seq![(leaf, frame)] + closing_events(stack, end),
            )
        }),
{
    let payload = leaf_payload(leaf);
    let content = DecoderState {
        phase: State::Content,
        pending: payload + after,
        total: start,
        stack: stack.push(frame),
    };
    lemma_leaf_roundtrip(leaf);
    assert(content.pending.subrange(0, payload.len() as int) =~= payload);
    assert(content.stack.drop_last() =~= stack);
    assert(content.stack.last() == frame);
    assert(content.consumed(payload.len() as int).pending =~= after);
}

/// A decoder reads a leaf that was written: it emits the leaf and closes
/// the open elements that end with it.
proof fn lemma_decode_leaf(
    dict: Map<EbmlId, Schema>,
    stack: Seq<ElementPosition>,
    total: usize,
    leaf: Event,
    after: Seq<u8>,
)
    requires
        leaf.is_leaf(),
        is_wire_id(leaf.ebml_id()),
        dict.contains_key(leaf.ebml_id()),
        dict[leaf.ebml_id()].type_code == leaf_type_code(leaf),
        leaf_payload(leaf).len() <= max_vint_value(),
        total + tag_bytes(leaf.ebml_id(), leaf_payload(leaf)).len() <= usize::MAX,
    ensures
        ({
            let first = tag_bytes(leaf.ebml_id(), leaf_payload(leaf));
            let middle = (total + first.len()) as usize;
            leads(
                dict,
                at_tag(first + after, total, stack),
                seq![leaf] + plain(closing_events(stack, middle)),
                at_tag(after, middle, still_open(stack, middle)),
            )
        }),
{
    reveal(leads);
    let ebml_id = leaf.ebml_id();
    let payload = leaf_payload(leaf);
    let first = tag_bytes(ebml_id, payload);
    let from = at_tag(first + after, total, stack);
    let field = vint_encoding(payload.len() as int, minimal_length(payload.len() as int));
    lemma_tag_bytes(ebml_id, payload);
    assert(from.pending =~= id_bytes(ebml_id) + field + (payload + after));
    lemma_header_steps(dict, stack, total, ebml_id, payload.len(), payload + after);
    let frame = element_frame(dict, ebml_id, total, payload.len());
    let inside = (total + header_length(ebml_id, payload.len())) as usize;
    let content = DecoderState {
        phase: State::Content,
        pending: payload + after,
        total: inside,
        stack: stack.push(frame),
    };
    lemma_pow2_values();
    let middle = (total + first.len()) as usize;
    let reached = at_tag(after, middle, still_open(stack, middle));
    let emitted = seq![(leaf, frame)] + closing_events(stack, middle);
    lemma_leaf_content_step(dict, stack, inside, frame, leaf, after);
    assert(run(dict, content) == after_events(emitted, run(dict, reached)));
    lemma_plain_concat(emitted, run(dict, reached).events);
    lemma_plain_concat(seq![(leaf, frame)], closing_events(stack, middle));
    assert(plain(seq![(leaf, frame)]) =~= seq![leaf]);
}

/// A decoder reads the header of a master element that was written: it
/// emits the start and, where the element is empty, the end, and then
/// closes the open elements that end with it.
proof fn lemma_decode_master_header(
    dict: Map<EbmlId, Schema>,
    stack: Seq<ElementPosition>,
    total: usize,
    ebml_id: EbmlId,
    body_length: nat,
    rest: Seq<u8>,
)
    requires
        is_wire_id(ebml_id),
        dict.contains_key(ebml_id),
        dict[ebml_id].type_code == 'm',
        body_length <= max_vint_value(),
        total + header_length(ebml_id, body_length) <= usize::MAX,
    ensures
        ({
            let field = vint_encoding(body_length as int, minimal_length(body_length as int));
            let inside = (total + header_length(ebml_id, body_length)) as usize;
            let frame = element_frame(dict, ebml_id, total, body_length);
            let from = at_tag(id_bytes(ebml_id) + field + rest, total, stack);
            let started = seq![Event::MasterStart { ebml_id, unknown_size: false }];
            if body_length == 0 {
                leads(
                    dict,
                    from,
                    started + seq![Event::MasterEnd { ebml_id }] + plain(
                        closing_events(stack, inside),
                    ),
                    at_tag(rest, inside, still_open(stack, inside)),
                )
            } else {
                leads(dict, from, started, at_tag(rest, inside, stack.push(frame)))
            }
        }),
{
    reveal(leads);
    let field = vint_encoding(body_length as int, minimal_length(body_length as int));
    let inside = (total + header_length(ebml_id, body_length)) as usize;
    let frame = element_frame(dict, ebml_id, total, body_length);
    lemma_header_steps(dict, stack, total, ebml_id, body_length, rest);
    let content = DecoderState {
        phase: State::Content,
        pending: rest,
        total: inside,
        stack: stack.push(frame),
    };
    lemma_pow2_values();
    assert(content.stack.drop_last() =~= stack);
    let started = seq![start_event(frame, inside)];
    assert(plain(started) =~= seq![Event::MasterStart { ebml_id, unknown_size: false }]);
    if body_length == 0 {
        let reached = at_tag(rest, inside, still_open(stack, inside));
        let both = seq![start_event(frame, inside), end_event(frame, inside)];
        let emitted = both + closing_events(stack, inside);
        assert(step(dict, content) == Step::Advance(reached, emitted));
        assert(run(dict, content) == after_events(emitted, run(dict, reached)));
        lemma_plain_concat(emitted, run(dict, reached).events);
        lemma_plain_concat(both, closing_events(stack, inside));
        assert(plain(both) =~= seq![Event::MasterStart { ebml_id, unknown_size: false }] + seq![
            Event::MasterEnd { ebml_id },
        ]);
    } else {
        let opened = at_tag(rest, inside, stack.push(frame));
        assert(step(dict, content) == Step::Advance(opened, started));
        assert(run(dict, content) == after_events(started, run(dict, opened)));
        lemma_plain_concat(started, run(dict, opened).events);
    }
}

/// One run after another leads where the second leads, with the events of
/// both.
proof fn lemma_leads_on(
    dict: Map<EbmlId, Schema>,
    from: DecoderState,
    first: Seq<Event>,
    middle: DecoderState,
    second: Seq<Event>,
    to: DecoderState,
)
    requires
        leads(dict, from, first, middle),
        leads(dict, middle, second, to),
    ensures
        leads(dict, from, first + second, to),
{
    reveal(leads);
    let last = plain(run(dict, to).events);
    assert(first + (second + last) =~= (first + second) + last);
}

/// What a decoder makes of the bytes of a forest, whatever follows them:
/// the events of the forest, then the ends of the open elements that end
/// with it, then what it makes of the bytes that follow.
pub proof fn lemma_decode_forest(
    dict: Map<EbmlId, Schema>,
    stack: Seq<ElementPosition>,
    total: usize,
    forest: Forest,
    tail: Seq<u8>,
)
    requires
        forest.fits(dict),
        !(forest is Nil),
        total + forest.wire().len() <= usize::MAX,
        encloses(stack, total + forest.wire().len()),
    ensures
        ({
            let end = (total + forest.wire().len()) as usize;
            leads(
                dict,
                at_tag(forest.wire() + tail, total, stack),
                forest.events() + plain(closing_events(stack, end)),
                at_tag(tail, end, still_open(stack, end)),
            )
        }),
    decreases forest, 1nat,
{
    let from = at_tag(forest.wire() + tail, total, stack);
    match forest {
        Forest::Nil => {},
        Forest::Leaf(leaf, next) => {
            let first = tag_bytes(leaf.ebml_id(), leaf_payload(leaf));
            let after = next.wire() + tail;
            lemma_tag_bytes(leaf.ebml_id(), leaf_payload(leaf));
            assert(from.pending =~= first + after);
            lemma_decode_leaf(dict, stack, total, leaf, after);
            lemma_after_first(dict, stack, total, forest, *next, tail, first.len(), seq![leaf]);
        },
        Forest::Master(ebml_id, children, next) => {
            let body = children.wire();
            let first = tag_bytes(ebml_id, body);
            let after = next.wire() + tail;
            let field = vint_encoding(body.len() as int, minimal_length(body.len() as int));
            let inside = (total + header_length(ebml_id, body.len())) as usize;
            let middle = (total + first.len()) as usize;
            let frame = element_frame(dict, ebml_id, total, body.len());
            let started = seq![Event::MasterStart { ebml_id, unknown_size: false }];
            let ended = seq![Event::MasterEnd { ebml_id }];
            let brackets = started + children.events() + ended;
            let reached = at_tag(after, middle, still_open(stack, middle));
            lemma_tag_bytes(ebml_id, body);
            assert(from.pending =~= id_bytes(ebml_id) + field + (body + after));
            lemma_decode_master_header(dict, stack, total, ebml_id, body.len(), body + after);
            if *children is Nil {
                assert(body + after =~= after);
                assert(started + ended + plain(closing_events(stack, middle)) =~= brackets
                    + plain(closing_events(stack, middle)));
            } else {
                let inner = stack.push(frame);
                lemma_pow2_values();
                lemma_wire_not_empty(dict, *children);
                lemma_decode_forest(dict, inner, inside, *children, after);
                assert(inner.drop_last() =~= stack);
                assert(closes(frame, middle));
                assert(still_open(inner, middle) == still_open(stack, middle));
                assert(closing_events(inner, middle) =~= seq![end_event(frame, middle)]
                    + closing_events(stack, middle));
                lemma_plain_concat(seq![end_event(frame, middle)], closing_events(stack, middle));
                assert(plain(seq![end_event(frame, middle)]) =~= ended);
                lemma_leads_on(
                    dict,
                    from,
                    started,
                    at_tag(body + after, inside, inner),
                    children.events() + plain(closing_events(inner, middle)),
                    reached,
                );
                assert(started + (children.events() + (ended + plain(
                    closing_events(stack, middle),
                ))) =~= brackets + plain(closing_events(stack, middle)));
            }
            lemma_after_first(dict, stack, total, forest, *next, tail, first.len(), brackets);
        },
    }
}

/// The step from the first element of a forest to the whole of it, once the
/// decoder is known to read the first element back.
proof fn lemma_after_first(
    dict: Map<EbmlId, Schema>,
    stack: Seq<ElementPosition>,
    total: usize,
    forest: Forest,
    next: Forest,
    tail: Seq<u8>,
    first_length: nat,
    first_events: Seq<Event>,
)
    requires
        forest.fits(dict),
        next.fits(dict),
        forest.wire().len() == first_length + next.wire().len(),
        forest.events() == first_events + next.events(),
        first_length >= 2,
        total + forest.wire().len() <= usize::MAX,
        encloses(stack, total + forest.wire().len()),
        decreases_to!(forest => next),
        ({
            let middle = (total + first_length) as usize;
            leads(
                dict,
                at_tag(forest.wire() + tail, total, stack),
                first_events + plain(closing_events(stack, middle)),
                at_tag(next.wire() + tail, middle, still_open(stack, middle)),
            )
        }),
    ensures
        ({
            let end = (total + forest.wire().len()) as usize;
            leads(
                dict,
                at_tag(forest.wire() + tail, total, stack),
                forest.events() + plain(closing_events(stack, end)),
                at_tag(tail, end, still_open(stack, end)),
            )
        }),
    decreases forest, 0nat,
{
    let middle = (total + first_length) as usize;
    let end = (total + forest.wire().len()) as usize;
    if next is Nil {
        assert(next.wire() + tail =~= tail);
        assert(first_events + next.events() =~= first_events);
    } else {
        lemma_wire_not_empty(dict, next);
        assert(still_open(stack, middle) == stack);
        assert(closing_events(stack, middle) =~= Seq::<Emitted>::empty());
        assert(plain(Seq::<Emitted>::empty()) =~= Seq::<Event>::empty());
        assert(first_events + Seq::<Event>::empty() =~= first_events);
        lemma_decode_forest(dict, stack, middle, next, tail);
        lemma_leads_on(
            dict,
            at_tag(forest.wire() + tail, total, stack),
            first_events,
            at_tag(next.wire() + tail, middle, stack),
            next.events() + plain(closing_events(stack, end)),
            at_tag(tail, end, still_open(stack, end)),
        );
        assert(first_events + (next.events() + plain(closing_events(stack, end)))
            =~= forest.events() + plain(closing_events(stack, end)));
    }
}

/// The starts of master elements of unknown size, one for each identifier.
pub open spec fn unknown_starts(ids: Seq<EbmlId>) -> Seq<Event> {
    Seq::new(ids.len(), |i: int| Event::MasterStart { ebml_id: ids[i], unknown_size: true })
}

/// The headers of master elements of unknown size on the wire.
pub open spec fn unknown_wire(ids: Seq<EbmlId>) -> Seq<u8>
    decreases ids.len(),
{
    if ids.len() == 0 {
        Seq::empty()
    } else {
        id_bytes(ids[0]) + unknown_size_field() + unknown_wire(ids.drop_first())
    }
}

/// The frames of master elements of unknown size whose headers follow one
/// another from `total` on.
pub open spec fn unknown_frames(dict: Map<EbmlId, Schema>, ids: Seq<EbmlId>, total: usize) -> Seq<
    ElementPosition,
>
    decreases ids.len(),
{
    if ids.len() == 0 {
        Seq::empty()
    } else {
        seq![read_frame(dict, ids[0], total, pow2(56) - 1, 8)] + unknown_frames(
            dict,
            ids.drop_first(),
            (total + id_length(ids[0].0 as int) + 8) as usize,
        )
    }
}

/// Every identifier is one on the wire and stands in the dictionary as a
/// master element.
pub open spec fn masters_fit(dict: Map<EbmlId, Schema>, ids: Seq<EbmlId>) -> bool {
    forall|i: int|
        0 <= i < ids.len() ==> is_wire_id(#[trigger] ids[i]) && dict.contains_key(ids[i])
            && dict[ids[i]].type_code == 'm'
}

/// The size field for an unknown size is the encoding of the reserved value
/// at eight bytes.
pub proof fn lemma_unknown_size_field()
    ensures
        unknown_size_field() == vint_encoding(pow2(56) - 1, 8),
{
    lemma_pow2_values();
    reveal_with_fuel(be_bytes, 9);
    assert(unknown_size_field() =~= be_bytes(0x1ff_ffff_ffff_ffff, 8));
}

/// The header of a master element of unknown size takes the bytes of its
/// identifier and eight more.
pub proof fn lemma_unknown_wire_length(ids: Seq<EbmlId>)
    requires
        ids.len() > 0,
        is_wire_id(ids[0]),
    ensures
        unknown_wire(ids).len() == id_length(ids[0].0 as int) + 8 + unknown_wire(
            ids.drop_first(),
        ).len(),
{
    lemma_wire_id(ids[0]);
}

/// Encoding the starts of master elements of unknown size writes their
/// headers to the output at once, whatever is open.
pub proof fn lemma_encode_unknown_starts(
    dict: Map<EbmlId, Schema>,
    s: EncoderState,
    ids: Seq<EbmlId>,
)
    requires
        masters_fit(dict, ids),
    ensures
        encode_all(dict, s, unknown_starts(ids)) == (Encoded {
            state: EncoderState { output: s.output + unknown_wire(ids), ..s },
            error: None,
        }),
    decreases ids.len(),
{
    let events = unknown_starts(ids);
    if ids.len() == 0 {
        assert(s.output + unknown_wire(ids) =~= s.output);
    } else {
        let header = id_bytes(ids[0]) + unknown_size_field();
        let next = EncoderState { output: s.output + header, ..s };
        assert(header + Seq::<u8>::empty() =~= header);
        assert(encode_step(dict, s, events[0]) == Ok::<_, EncodeError>(next));
        assert(events.drop_first() =~= unknown_starts(ids.drop_first()));
        assert(masters_fit(dict, ids.drop_first())) by {
            assert forall|i: int| 0 <= i < ids.drop_first().len() implies is_wire_id(
                #[trigger] ids.drop_first()[i],
            ) && dict.contains_key(ids.drop_first()[i]) && dict[ids.drop_first()[i]].type_code
                == 'm' by {
                assert(ids.drop_first()[i] == ids[i + 1]);
            }
        }
        lemma_encode_unknown_starts(dict, next, ids.drop_first());
        assert((s.output + header) + unknown_wire(ids.drop_first()) =~= s.output + unknown_wire(
            ids,
        ));
    }
}

/// A run leads from a state to itself with no event on the way.
proof fn lemma_leads_nowhere(dict: Map<EbmlId, Schema>, s: DecoderState)
    ensures
        leads(dict, s, Seq::empty(), s),
{
    reveal(leads);
    assert(Seq::<Event>::empty() + plain(run(dict, s).events) =~= plain(run(dict, s).events));
}

/// A decoder reads the header of a master element of unknown size: it
/// emits its start and keeps it open.
proof fn lemma_decode_unknown_start(
    dict: Map<EbmlId, Schema>,
    stack: Seq<ElementPosition>,
    total: usize,
    ebml_id: EbmlId,
    after: Seq<u8>,
)
    requires
        is_wire_id(ebml_id),
        dict.contains_key(ebml_id),
        dict[ebml_id].type_code == 'm',
        total + id_length(ebml_id.0 as int) + 8 <= usize::MAX,
    ensures
        leads(
            dict,
            at_tag(id_bytes(ebml_id) + unknown_size_field() + after, total, stack),
            seq![Event::MasterStart { ebml_id, unknown_size: true }],
            at_tag(
                after,
                (total + id_length(ebml_id.0 as int) + 8) as usize,
                stack.push(read_frame(dict, ebml_id, total, pow2(56) - 1, 8)),
            ),
        ),
{
    reveal(leads);
    let frame = read_frame(dict, ebml_id, total, pow2(56) - 1, 8);
    let inside = (total + id_length(ebml_id.0 as int) + 8) as usize;
    let opened = at_tag(after, inside, stack.push(frame));
    lemma_unknown_size_field();
    lemma_pow2_values();
    lemma_tag_and_size_steps(dict, stack, total, ebml_id, pow2(56) - 1, 8, after);
    lemma_unknown_start_step(dict, stack, inside, frame, after);
    let content = DecoderState {
        phase: State::Content,
        pending: after,
        total: inside,
        stack: stack.push(frame),
    };
    let started = seq![start_event(frame, inside)];
    assert(run(dict, content) == after_events(started, run(dict, opened)));
    lemma_plain_concat(started, run(dict, opened).events);
    assert(plain(started) =~= seq![Event::MasterStart { ebml_id, unknown_size: true }]);
}

/// A decoder reads the headers of master elements of unknown size: it
/// emits a start for each and keeps them all open.
pub proof fn lemma_decode_unknown_starts(
    dict: Map<EbmlId, Schema>,
    stack: Seq<ElementPosition>,
    total: usize,
    ids: Seq<EbmlId>,
    tail: Seq<u8>,
)
    requires
        masters_fit(dict, ids),
        total + unknown_wire(ids).len() <= usize::MAX,
    ensures
        leads(
            dict,
            at_tag(unknown_wire(ids) + tail, total, stack),
            unknown_starts(ids),
            at_tag(
                tail,
                (total + unknown_wire(ids).len()) as usize,
                stack + unknown_frames(dict, ids, total),
            ),
        ),
    decreases ids.len(),
{
    if ids.len() == 0 {
        assert(unknown_wire(ids) + tail =~= tail);
        assert(stack + unknown_frames(dict, ids, total) =~= stack);
        assert(unknown_starts(ids) =~= Seq::<Event>::empty());
        lemma_leads_nowhere(dict, at_tag(tail, total, stack));
    } else {
        let ebml_id = ids[0];
        let rest = ids.drop_first();
        let after = unknown_wire(rest) + tail;
        let frame = read_frame(dict, ebml_id, total, pow2(56) - 1, 8);
        let inside = (total + id_length(ebml_id.0 as int) + 8) as usize;
        let from = at_tag(unknown_wire(ids) + tail, total, stack);
        let opened = at_tag(after, inside, stack.push(frame));
        lemma_unknown_wire_length(ids);
        assert(from.pending =~= id_bytes(ebml_id) + unknown_size_field() + after);
        lemma_decode_unknown_start(dict, stack, total, ebml_id, after);
        assert(masters_fit(dict, rest)) by {
            assert forall|i: int| 0 <= i < rest.len() implies is_wire_id(#[trigger] rest[i])
                && dict.contains_key(rest[i]) && dict[rest[i]].type_code == 'm' by {
                assert(rest[i] == ids[i + 1]);
            }
        }
        lemma_decode_unknown_starts(dict, stack.push(frame), inside, rest, tail);
        let first = seq![Event::MasterStart { ebml_id, unknown_size: true }];
        assert(stack.push(frame) + unknown_frames(dict, rest, inside) =~= stack
            + unknown_frames(dict, ids, total));
        lemma_leads_on(
            dict,
            from,
            first,
            opened,
            unknown_starts(rest),
            at_tag(
                tail,
                (total + unknown_wire(ids).len()) as usize,
                stack + unknown_frames(dict, ids, total),
            ),
        );
        assert(first + unknown_starts(rest) =~= unknown_starts(ids));
    }
}

/// The step that announces a master element of unknown size: the start is
/// emitted and the element stays open.
proof fn lemma_unknown_start_step(
    dict: Map<EbmlId, Schema>,
    stack: Seq<ElementPosition>,
    total: usize,
    frame: ElementPosition,
    after: Seq<u8>,
)
    requires
        frame.type_code == 'm',
        frame.content_size == -1,
    ensures
        step(
            dict,
            DecoderState {
                phase: State::Content,
                pending: after,
                total,
                stack: stack.push(frame),
            },
        ) == Step::Advance(
            at_tag(after, total, stack.push(frame)),
            seq![start_event(frame, total)],
        ),
{
}

/// Events in, bytes out, events in. An encoder writes the elements of a
/// forest, and after them the starts of master elements of unknown size,
/// as their bytes on the wire; a decoder that is fed those bytes emits the
/// same events in the same order, and stops without an error at the end of
/// the stream with the elements of unknown size open.
pub proof fn lemma_encode_decode_roundtrip(
    dict: Map<EbmlId, Schema>,
    forest: Forest,
    open: Seq<EbmlId>,
)
    requires
        forest.fits(dict),
        masters_fit(dict, open),
        forest.wire().len() + unknown_wire(open).len() <= usize::MAX,
    ensures
        ({
            let events = forest.events() + unknown_starts(open);
            let wire = forest.wire() + unknown_wire(open);
            let decoded = run(dict, DecoderState::initial().fed(wire));
            &&& encode_all(dict, EncoderState::initial(), events) == (Encoded {
                state: EncoderState { stack: Seq::empty(), output: wire },
                error: None,
            })
            &&& plain(decoded.events) == events
            &&& decoded.error is None
            &&& decoded.state == at_tag(
                Seq::empty(),
                wire.len() as usize,
                unknown_frames(dict, open, forest.wire().len() as usize),
            )
        }),
{
    let events = forest.events() + unknown_starts(open);
    let wire = forest.wire() + unknown_wire(open);
    lemma_encode_forest(dict, EncoderState::initial(), forest, unknown_starts(open));
    let written = EncoderState::initial().written(forest.wire());
    assert(Seq::<u8>::empty() + forest.wire() =~= forest.wire());
    lemma_encode_unknown_starts(dict, written, open);
    let none = Seq::<ElementPosition>::empty();
    let start = DecoderState::initial().fed(wire);
    let middle = forest.wire().len() as usize;
    let frames = unknown_frames(dict, open, middle);
    let stop = at_tag(Seq::empty(), wire.len() as usize, frames);
    assert(step(dict, stop) is NeedMore);
    assert(start.pending =~= wire);
    assert(start == at_tag(wire, 0, none));
    lemma_decode_unknown_starts(dict, none, middle, open, Seq::empty());
    assert(unknown_wire(open) + Seq::<u8>::empty() =~= unknown_wire(open));
    assert(none + frames =~= frames);
    if forest is Nil {
        assert(wire =~= unknown_wire(open));
        assert(events =~= unknown_starts(open));
    } else {
        lemma_decode_forest(dict, none, 0, forest, unknown_wire(open));
        assert(plain(closing_events(none, middle)) =~= Seq::<Event>::empty());
        assert(forest.events() + Seq::<Event>::empty() =~= forest.events());
        lemma_leads_on(
            dict,
            start,
            forest.events(),
            at_tag(unknown_wire(open), middle, none),
            unknown_starts(open),
            stop,
        );
    }
    reveal(leads);
    assert(events + plain(Seq::<Emitted>::empty()) =~= events);
}

} // verus!
