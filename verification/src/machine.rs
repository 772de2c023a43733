//! The decoder as a state machine over mathematical values: its states,
//! what one step does, what a run of steps does, and the laws of both.

use crate::bytes::{be_value, twos_complement};
use crate::decoder::{DecodeError, ReadContentError, State};
use crate::ebml::{EbmlId, ElementPosition, Event, Schema};
use crate::float::promoted;
use crate::vint::{
    lemma_read_vint_extend, lemma_read_vint_facts, read_vint_spec, UnrepresentableLengthError,
    Vint,
};
use vstd::arithmetic::power2::pow2;
use vstd::prelude::*;
use vstd::utf8::{decode_utf8, valid_utf8};

verus! {

/// An event with the position of the element it belongs to.
pub type Emitted = (Event, ElementPosition);

/// The state of a decoder between two steps.
pub struct DecoderState {
    pub phase: State,
    /// The bytes received and not yet consumed.
    pub pending: Seq<u8>,
    /// The number of bytes consumed from the stream.
    pub total: usize,
    /// The open elements, outermost first. In the phases `Size` and
    /// `Content` the last one is the element being read.
    pub stack: Seq<ElementPosition>,
}

/// What one step of the parser does.
pub enum Step {
    /// The pending bytes do not hold the next field in full.
    NeedMore,
    /// The stream cannot be decoded further.
    Fail(DecodeError),
    /// A field was consumed.
    Advance(DecoderState, Seq<Emitted>),
}

/// What running the parser as far as the pending bytes allow does.
pub struct Outcome {
    /// Where the parser stopped: before the step that needs more bytes, or
    /// before the step that failed.
    pub state: DecoderState,
    pub events: Seq<Emitted>,
    pub error: Option<DecodeError>,
}

impl DecoderState {
    /// The state of a decoder that has seen nothing.
    pub open spec fn initial() -> DecoderState {
        DecoderState { phase: State::Tag, pending: Seq::empty(), total: 0, stack: Seq::empty() }
    }

    /// The state after `chunk` has arrived.
    pub open spec fn fed(self, chunk: Seq<u8>) -> DecoderState {
        DecoderState { pending: self.pending + chunk, ..self }
    }

    /// The state after `count` pending bytes have been consumed.
    pub open spec fn consumed(self, count: int) -> DecoderState {
        DecoderState {
            pending: self.pending.subrange(count, self.pending.len() as int),
            total: (self.total + count) as usize,
            ..self
        }
    }

    /// The number of bytes received so far.
    pub open spec fn received(self) -> int {
        self.total + self.pending.len()
    }

    /// The open master elements: the stack without the element being read.
    pub open spec fn open_masters(self) -> Seq<ElementPosition> {
        if self.phase == State::Tag || self.stack.len() == 0 {
            self.stack
        } else {
            self.stack.drop_last()
        }
    }
}

/// The events without their position records.
pub open spec fn plain(events: Seq<Emitted>) -> Seq<Event> {
    Seq::new(events.len(), |i: int| events[i].0)
}

/// The events of two runs without their position records are those of the
/// one and then those of the other.
pub proof fn lemma_plain_concat(first: Seq<Emitted>, second: Seq<Emitted>)
    ensures
        plain(first + second) == plain(first) + plain(second),
{
    assert(plain(first + second) =~= plain(first) + plain(second));
}

/// The identifier that the bytes of a tag hold: their big-endian value,
/// marker bit included.
pub open spec fn tag_id(encoding: Seq<u8>) -> EbmlId {
    EbmlId(be_value(encoding) as i64)
}

/// The content size that a size field announces: -1 where every payload bit
/// is set, which stands for an unknown size.
pub open spec fn announced_size(size: Vint) -> i64 {
    if size.value == pow2(7 * size.length as nat) - 1 {
        -1i64
    } else {
        size.value
    }
}

/// The leaf that `content` holds under a type code.
pub open spec fn leaf_event(type_code: char, ebml_id: EbmlId, content: Seq<u8>) -> Result<
    Event,
    ReadContentError,
> {
    if type_code == 'u' {
        if 1 <= content.len() <= 8 {
            Ok(Event::UnsignedInt { ebml_id, unsigned: be_value(content) as u64 })
        } else {
            Err(ReadContentError::UnsignedInteger)
        }
    } else if type_code == 'i' {
        if 1 <= content.len() <= 8 {
            Ok(
                Event::SignedInt {
                    ebml_id,
                    signed: twos_complement(be_value(content), content.len()) as i64,
                },
            )
        } else {
            Err(ReadContentError::Integer)
        }
    } else if type_code == 'f' {
        if content.len() == 4 {
            Ok(Event::Float { ebml_id, bits: promoted(be_value(content) as u32) as u64 })
        } else if content.len() == 8 {
            Ok(Event::Float { ebml_id, bits: be_value(content) as u64 })
        } else {
            Err(ReadContentError::Float)
        }
    } else if type_code == 's' {
        Ok(Event::AsciiString { ebml_id, ascii: content })
    } else if type_code == '8' {
        if valid_utf8(content) {
            Ok(Event::Utf8String { ebml_id, text: decode_utf8(content) })
        } else {
            Err(ReadContentError::Utf8)
        }
    } else if type_code == 'b' {
        Ok(Event::Binary { ebml_id, bytes: content })
    } else if type_code == 'd' {
        if content.len() >= 8 {
            Ok(
                Event::Date {
                    ebml_id,
                    nanos: twos_complement(be_value(content.subrange(0, 8)), 8) as i64,
                },
            )
        } else {
            Err(ReadContentError::Date)
        }
    } else if type_code == 'm' {
        Err(ReadContentError::Master)
    } else {
        Err(ReadContentError::Unknown)
    }
}

/// An open master element ends once a child of it is complete, if its size
/// is unknown, and else where its content ends.
pub open spec fn closes(frame: ElementPosition, total: usize) -> bool {
    frame.content_size < 0 || total >= frame.content_start + frame.content_size
}

/// The number of bytes from `start` to `total`, as far as a content size
/// can say it.
pub open spec fn extent(start: usize, total: usize) -> i64 {
    if total <= start {
        0
    } else if total - start > i64::MAX {
        i64::MAX
    } else {
        (total - start) as i64
    }
}

/// The position record of a master element as an event bears it when the
/// stream has reached `total`. An unknown size is not published: in its
/// place stands the size that the content has so far.
pub open spec fn published(frame: ElementPosition, total: usize) -> ElementPosition {
    if frame.content_size < 0 {
        ElementPosition { content_size: extent(frame.content_start, total), ..frame }
    } else {
        frame
    }
}

/// The event that announces a master element.
pub open spec fn start_event(frame: ElementPosition, total: usize) -> Emitted {
    (
        Event::MasterStart { ebml_id: frame.ebml_id, unknown_size: frame.content_size == -1 },
        published(frame, total),
    )
}

/// The event that closes a master element.
pub open spec fn end_event(frame: ElementPosition, total: usize) -> Emitted {
    (Event::MasterEnd { ebml_id: frame.ebml_id }, published(frame, total))
}

/// The open elements that stay open when the stream has reached `total`:
/// frames are closed from the innermost outwards as long as they end there.
pub open spec fn still_open(stack: Seq<ElementPosition>, total: usize) -> Seq<ElementPosition>
    decreases stack.len(),
{
    if stack.len() > 0 && closes(stack.last(), total) {
        still_open(stack.drop_last(), total)
    } else {
        stack
    }
}

/// The end events of the elements that close when the stream has reached
/// `total`, innermost first.
pub open spec fn closing_events(stack: Seq<ElementPosition>, total: usize) -> Seq<Emitted>
    decreases stack.len(),
{
    if stack.len() > 0 && closes(stack.last(), total) {
        seq![end_event(stack.last(), total)] + closing_events(stack.drop_last(), total)
    } else {
        Seq::empty()
    }
}

/// The step in the phase `Tag`: an identifier is read and looked up, and a
/// frame for its element is pushed.
pub open spec fn step_tag(dict: Map<EbmlId, Schema>, s: DecoderState) -> Step {
    match read_vint_spec(s.pending, 0) {
        Err(e) => Step::Fail(DecodeError::ReadVint(e)),
        Ok(None) => Step::NeedMore,
        Ok(Some(tag)) => {
            let ebml_id = tag_id(s.pending.subrange(0, tag.length as int));
            if dict.contains_key(ebml_id) {
                let frame = ElementPosition {
                    ebml_id,
                    level: dict[ebml_id].level,
                    type_code: dict[ebml_id].type_code,
                    tag_start: s.total,
                    size_start: (s.total + tag.length) as usize,
                    content_start: 0,
                    content_size: 0,
                };
                Step::Advance(
                    DecoderState {
                        phase: State::Size,
                        stack: s.stack.push(frame),
                        ..s.consumed(tag.length as int)
                    },
                    Seq::empty(),
                )
            } else {
                Step::Fail(DecodeError::UnknownEbmlId(ebml_id))
            }
        },
    }
}

/// The step in the phase `Size`: a size is read and written into the frame
/// of the element being read.
pub open spec fn step_size(s: DecoderState) -> Step {
    if s.stack.len() == 0 {
        Step::NeedMore
    } else {
        match read_vint_spec(s.pending, 0) {
            Err(e) => Step::Fail(DecodeError::ReadVint(e)),
            Ok(None) => Step::NeedMore,
            Ok(Some(size)) => {
                let frame = ElementPosition {
                    content_start: (s.total + size.length) as usize,
                    content_size: announced_size(size),
                    ..s.stack.last()
                };
                Step::Advance(
                    DecoderState {
                        phase: State::Content,
                        stack: s.stack.drop_last().push(frame),
                        ..s.consumed(size.length as int)
                    },
                    Seq::empty(),
                )
            },
        }
    }
}

/// The step in the phase `Content`. A master element is announced; an empty
/// one is closed at once. A leaf is decoded once its content is complete.
/// After a leaf or an empty master element, the elements that end there are
/// closed.
pub open spec fn step_content(s: DecoderState) -> Step {
    if s.stack.len() == 0 {
        Step::NeedMore
    } else {
        let frame = s.stack.last();
        let parents = s.stack.drop_last();
        if frame.type_code == 'm' {
            if frame.content_size == 0 {
                Step::Advance(
                    DecoderState {
                        phase: State::Tag,
                        stack: still_open(parents, s.total),
                        ..s
                    },
                    seq![start_event(frame, s.total), end_event(frame, s.total)] + closing_events(
                        parents,
                        s.total,
                    ),
                )
            } else {
                Step::Advance(
                    DecoderState { phase: State::Tag, ..s },
                    seq![start_event(frame, s.total)],
                )
            }
        } else if frame.content_size < 0 {
            Step::Fail(DecodeError::UnknwonSizeNotAllowedInChildElement(frame))
        } else if s.pending.len() < frame.content_size {
            Step::NeedMore
        } else {
            match leaf_event(
                frame.type_code,
                frame.ebml_id,
                s.pending.subrange(0, frame.content_size as int),
            ) {
                Err(e) => Step::Fail(DecodeError::ReadContent(e)),
                Ok(leaf) => {
                    let after = s.consumed(frame.content_size as int);
                    Step::Advance(
                        DecoderState {
                            phase: State::Tag,
                            stack: still_open(parents, after.total),
                            ..after
                        },
                        seq![(leaf, frame)] + closing_events(parents, after.total),
                    )
                },
            }
        }
    }
}

/// One step of the parser.
pub open spec fn step(dict: Map<EbmlId, Schema>, s: DecoderState) -> Step {
    match s.phase {
        State::Tag => step_tag(dict, s),
        State::Size => step_size(s),
        State::Content => step_content(s),
    }
}

/// The phase `Content` ranks above the others: a step out of it may consume
/// nothing.
pub open spec fn phase_rank(phase: State) -> nat {
    if phase == State::Content {
        1
    } else {
        0
    }
}

/// Every step consumes a byte, or leaves the phase `Content` without
/// consuming any.
pub proof fn lemma_step_progress(dict: Map<EbmlId, Schema>, s: DecoderState)
    ensures
        step(dict, s) matches Step::Advance(next, _) ==> {
            &&& next.pending.len() <= s.pending.len()
            &&& next.pending == s.pending.subrange(
                s.pending.len() - next.pending.len(),
                s.pending.len() as int,
            )
            &&& next.total == (s.total + (s.pending.len() - next.pending.len())) as usize
            &&& (next.pending.len() < s.pending.len() || (s.phase == State::Content && next.phase
                == State::Tag))
        },
{
    lemma_read_vint_facts(s.pending, 0);
    if let Step::Advance(next, _) = step(dict, s) {
        if s.phase == State::Content {
            assert(s.pending.subrange(0, s.pending.len() as int) =~= s.pending);
        }
    }
}

/// The parser run from `s` until it needs more bytes or fails: where it
/// stops, what it has emitted, and the error if it failed.
pub open spec fn run(dict: Map<EbmlId, Schema>, s: DecoderState) -> Outcome
    decreases s.pending.len(), phase_rank(s.phase),
    via run_decreases
{
    match step(dict, s) {
        Step::NeedMore => Outcome { state: s, events: Seq::empty(), error: None },
        Step::Fail(e) => Outcome { state: s, events: Seq::empty(), error: Some(e) },
        Step::Advance(next, emitted) => {
            let rest = run(dict, next);
            Outcome { state: rest.state, events: emitted + rest.events, error: rest.error }
        },
    }
}

#[via_fn]
proof fn run_decreases(dict: Map<EbmlId, Schema>, s: DecoderState) {
    lemma_step_progress(dict, s);
}

impl DecoderState {
    /// A frame that stays on the stack while its children are read: a master
    /// element that is not empty and whose content has begun.
    pub open spec fn is_open_master(frame: ElementPosition, total: usize) -> bool {
        &&& frame.type_code == 'm'
        &&& frame.content_size != 0
        &&& frame.content_size >= -1
        &&& frame.content_start <= total
    }

    /// What holds of every state that a decoder reaches. The count of bytes
    /// received fits the machine. An element is being read in the phases
    /// `Size` and `Content`: its tag starts inside every open master element
    /// and before the place where the stream stands, and in `Content` its
    /// content starts at that place. Every other frame is an open master
    /// element, so that no leaf stays on the stack, and each starts its
    /// content after the one around it. While a tag is expected, the
    /// innermost open element has not ended if its size is known.
    pub open spec fn well_formed(self) -> bool {
        &&& self.received() <= usize::MAX
        &&& self.phase != State::Tag ==> self.stack.len() > 0 && self.stack.last().tag_start
            < self.total
        &&& self.phase == State::Content ==> self.stack.last().content_size >= -1
            && self.stack.last().content_start == self.total
        &&& forall|i: int|
            0 <= i < self.open_masters().len() ==> Self::is_open_master(
                #[trigger] self.stack[i],
                self.total,
            )
        &&& self.phase != State::Tag ==> forall|i: int|
            0 <= i < self.open_masters().len() ==> (#[trigger] self.stack[i]).content_start
                <= self.stack.last().tag_start
        &&& forall|i: int, j: int|
            0 <= i < j < self.open_masters().len() ==> (#[trigger] self.stack[i]).content_start < (
            #[trigger] self.stack[j]).content_start
        &&& self.phase == State::Tag && self.stack.len() > 0 && self.stack.last().content_size
            >= 0 ==> self.total < self.stack.last().content_start
            + self.stack.last().content_size
    }
}

/// The frames that stay open are the outermost ones, and the innermost of
/// them does not end where the stream stands.
pub proof fn lemma_still_open_prefix(stack: Seq<ElementPosition>, total: usize)
    ensures
        still_open(stack, total).len() <= stack.len(),
        still_open(stack, total) == stack.subrange(0, still_open(stack, total).len() as int),
        closing_events(stack, total).len() == stack.len() - still_open(stack, total).len(),
        still_open(stack, total).len() > 0 ==> !closes(still_open(stack, total).last(), total),
    decreases stack.len(),
{
    if stack.len() > 0 && closes(stack.last(), total) {
        lemma_still_open_prefix(stack.drop_last(), total);
        let kept = still_open(stack, total).len() as int;
        assert(stack.drop_last().subrange(0, kept) =~= stack.subrange(0, kept));
    } else {
        assert(stack.subrange(0, stack.len() as int) =~= stack);
    }
}

proof fn lemma_tag_preserves_well_formed(dict: Map<EbmlId, Schema>, s: DecoderState)
    requires
        s.well_formed(),
        s.phase == State::Tag,
    ensures
        step(dict, s) matches Step::Advance(next, _) ==> next.well_formed() && next.received()
            == s.received(),
{
    lemma_read_vint_facts(s.pending, 0);
    if let Step::Advance(next, _) = step_tag(dict, s) {
        assert(next.stack.drop_last() =~= s.stack);
        assert(next.open_masters() == s.stack);
        assert(s.open_masters() == s.stack);
        assert forall|i: int| 0 <= i < s.stack.len() implies #[trigger] next.stack[i]
            == s.stack[i] by {}
    }
}

proof fn lemma_size_preserves_well_formed(dict: Map<EbmlId, Schema>, s: DecoderState)
    requires
        s.well_formed(),
        s.phase == State::Size,
    ensures
        step(dict, s) matches Step::Advance(next, _) ==> next.well_formed() && next.received()
            == s.received(),
{
    lemma_read_vint_facts(s.pending, 0);
    if let Step::Advance(next, _) = step_size(s) {
        assert(next.stack.drop_last() =~= s.stack.drop_last());
        assert(next.open_masters() == s.open_masters());
        assert forall|i: int| 0 <= i < s.open_masters().len() implies #[trigger] next.stack[i]
            == s.stack[i] by {}
    }
}

proof fn lemma_content_preserves_well_formed(dict: Map<EbmlId, Schema>, s: DecoderState)
    requires
        s.well_formed(),
        s.phase == State::Content,
    ensures
        step(dict, s) matches Step::Advance(next, _) ==> next.well_formed() && next.received()
            == s.received(),
{
    if let Step::Advance(next, _) = step_content(s) {
        let frame = s.stack.last();
        let parents = s.stack.drop_last();
        assert(s.open_masters() == parents);
        assert(next.open_masters() == next.stack);
        if frame.type_code == 'm' && frame.content_size != 0 {
            assert(next.stack == s.stack);
        } else {
            lemma_still_open_prefix(parents, next.total);
            assert forall|i: int| 0 <= i < next.stack.len() implies #[trigger] next.stack[i]
                == s.stack[i] by {
                assert(next.stack[i] == parents[i]);
            }
        }
    }
}

/// A step leads from a well-formed state to a well-formed state.
pub proof fn lemma_step_preserves_well_formed(dict: Map<EbmlId, Schema>, s: DecoderState)
    requires
        s.well_formed(),
    ensures
        step(dict, s) matches Step::Advance(next, _) ==> next.well_formed() && next.received()
            == s.received(),
{
    match s.phase {
        State::Tag => lemma_tag_preserves_well_formed(dict, s),
        State::Size => lemma_size_preserves_well_formed(dict, s),
        State::Content => lemma_content_preserves_well_formed(dict, s),
    }
}

/// A state that was well-formed stays so when a chunk arrives that the
/// count of bytes received has room for.
pub proof fn lemma_fed_well_formed(s: DecoderState, chunk: Seq<u8>)
    requires
        s.well_formed(),
        s.received() + chunk.len() <= usize::MAX,
    ensures
        s.fed(chunk).well_formed(),
        s.fed(chunk).received() == s.received() + chunk.len(),
{
}

/// Running the parser leads from a well-formed state to a well-formed
/// state, and loses no byte.
pub proof fn lemma_run_preserves_well_formed(dict: Map<EbmlId, Schema>, s: DecoderState)
    requires
        s.well_formed(),
    ensures
        run(dict, s).state.well_formed(),
        run(dict, s).state.received() == s.received(),
    decreases s.pending.len(), phase_rank(s.phase),
{
    lemma_step_progress(dict, s);
    lemma_step_preserves_well_formed(dict, s);
    if let Step::Advance(next, _) = step(dict, s) {
        lemma_run_preserves_well_formed(dict, next);
    }
}

/// Where the parser stops, the next step needs more bytes, or fails with
/// the error that the run reports.
pub proof fn lemma_run_stops(dict: Map<EbmlId, Schema>, s: DecoderState)
    ensures
        match run(dict, s).error {
            None => step(dict, run(dict, s).state) is NeedMore,
            Some(e) => step(dict, run(dict, s).state) == Step::Fail(e),
        },
    decreases s.pending.len(), phase_rank(s.phase),
{
    lemma_step_progress(dict, s);
    if let Step::Advance(next, _) = step(dict, s) {
        lemma_run_stops(dict, next);
    }
}

/// Once the parser has stopped for want of bytes, an empty chunk changes
/// nothing: the run from there emits no event, gives no error and stays
/// where it is.
pub proof fn lemma_run_idempotent(dict: Map<EbmlId, Schema>, s: DecoderState)
    requires
        run(dict, s).error is None,
    ensures
        run(dict, run(dict, s).state.fed(Seq::empty())) == (Outcome {
            state: run(dict, s).state,
            events: Seq::empty(),
            error: None,
        }),
{
    lemma_run_stops(dict, s);
    let stopped = run(dict, s).state;
    assert(stopped.pending + Seq::<u8>::empty() =~= stopped.pending);
    assert(stopped.fed(Seq::empty()) == stopped);
}

/// A step that was taken, or that failed, is taken or fails alike once more
/// bytes have arrived.
pub proof fn lemma_step_extend(dict: Map<EbmlId, Schema>, s: DecoderState, more: Seq<u8>)
    ensures
        match step(dict, s) {
            Step::NeedMore => true,
            Step::Fail(e) => step(dict, s.fed(more)) == Step::Fail(e),
            Step::Advance(next, emitted) => step(dict, s.fed(more)) == Step::Advance(
                next.fed(more),
                emitted,
            ),
        },
{
    lemma_read_vint_facts(s.pending, 0);
    let t = s.fed(more);
    match s.phase {
        State::Tag => {
            if read_vint_spec(s.pending, 0) != Ok::<Option<Vint>, UnrepresentableLengthError>(
                None,
            ) {
                lemma_read_vint_extend(s.pending, more);
                if let Ok(Some(tag)) = read_vint_spec(s.pending, 0) {
                    let n = tag.length as int;
                    assert(t.pending.subrange(0, n) =~= s.pending.subrange(0, n));
                    assert(t.consumed(n).pending =~= s.consumed(n).pending + more);
                }
            }
        },
        State::Size => {
            if s.stack.len() > 0 && read_vint_spec(s.pending, 0) != Ok::<
                Option<Vint>,
                UnrepresentableLengthError,
            >(None) {
                lemma_read_vint_extend(s.pending, more);
                if let Ok(Some(size)) = read_vint_spec(s.pending, 0) {
                    let n = size.length as int;
                    assert(t.consumed(n).pending =~= s.consumed(n).pending + more);
                }
            }
        },
        State::Content => {
            if s.stack.len() > 0 {
                let frame = s.stack.last();
                if frame.type_code != 'm' && frame.content_size >= 0 && s.pending.len()
                    >= frame.content_size {
                    let n = frame.content_size as int;
                    assert(t.pending.subrange(0, n) =~= s.pending.subrange(0, n));
                    assert(t.consumed(n).pending =~= s.consumed(n).pending + more);
                }
            }
        },
    }
}

/// The outcome of two runs in a row: the events of both, and the state and
/// the error of the second.
pub open spec fn followed_by(first: Outcome, second: Outcome) -> Outcome {
    Outcome { state: second.state, events: first.events + second.events, error: second.error }
}

/// To run the parser on all the bytes at once is to run it on the bytes
/// that are there, and then again once the others have arrived.
pub proof fn lemma_run_extend(dict: Map<EbmlId, Schema>, s: DecoderState, more: Seq<u8>)
    ensures
        run(dict, s.fed(more)) == followed_by(
            run(dict, s),
            run(dict, run(dict, s).state.fed(more)),
        ),
        run(dict, s).error is Some ==> run(dict, run(dict, s).state.fed(more)) == (Outcome {
            state: run(dict, s).state.fed(more),
            events: Seq::empty(),
            error: run(dict, s).error,
        }),
    decreases s.pending.len(), phase_rank(s.phase),
{
    lemma_step_progress(dict, s);
    lemma_step_extend(dict, s, more);
    match step(dict, s) {
        Step::NeedMore => {
            let again = run(dict, s.fed(more));
            assert(Seq::<Emitted>::empty() + again.events =~= again.events);
        },
        Step::Fail(e) => {
            assert(Seq::<Emitted>::empty() + Seq::<Emitted>::empty() =~= Seq::<Emitted>::empty());
        },
        Step::Advance(next, emitted) => {
            lemma_run_extend(dict, next, more);
            let first = run(dict, next);
            let second = run(dict, first.state.fed(more));
            assert(emitted + (first.events + second.events) =~= (emitted + first.events)
                + second.events);
        },
    }
}

/// Feeding a stream in two chunks gives what feeding it in one gives: the
/// same events in the same order, the same final state, the same error.
pub proof fn lemma_chunk_split(
    dict: Map<EbmlId, Schema>,
    s: DecoderState,
    first: Seq<u8>,
    second: Seq<u8>,
)
    ensures
        run(dict, s.fed(first + second)) == followed_by(
            run(dict, s.fed(first)),
            run(dict, run(dict, s.fed(first)).state.fed(second)),
        ),
{
    assert(s.pending + (first + second) =~= (s.pending + first) + second);
    assert(s.fed(first + second) == s.fed(first).fed(second));
    lemma_run_extend(dict, s.fed(first), second);
}

/// The chunks of a stream, one after the other.
pub open spec fn joined(chunks: Seq<Seq<u8>>) -> Seq<u8>
    decreases chunks.len(),
{
    if chunks.len() == 0 {
        Seq::empty()
    } else {
        joined(chunks.drop_last()) + chunks.last()
    }
}

/// The outcome of feeding the chunks one at a time, each to the state that
/// the one before has left.
pub open spec fn run_chunks(dict: Map<EbmlId, Schema>, s: DecoderState, chunks: Seq<Seq<u8>>)
    -> Outcome
    decreases chunks.len(),
{
    if chunks.len() == 0 {
        Outcome { state: s, events: Seq::empty(), error: None }
    } else {
        let before = run_chunks(dict, s, chunks.drop_last());
        followed_by(before, run(dict, before.state.fed(chunks.last())))
    }
}

/// However a stream is cut into chunks, feeding them one at a time gives
/// what feeding the whole stream at once gives.
pub proof fn lemma_chunk_split_invariance(
    dict: Map<EbmlId, Schema>,
    s: DecoderState,
    chunks: Seq<Seq<u8>>,
)
    requires
        chunks.len() > 0,
    ensures
        run_chunks(dict, s, chunks) == run(dict, s.fed(joined(chunks))),
    decreases chunks.len(),
{
    let head = chunks.drop_last();
    if head.len() == 0 {
        let only = run(dict, s.fed(chunks.last()));
        assert(joined(chunks) =~= chunks.last()) by {
            reveal_with_fuel(joined, 2);
        }
        assert(Seq::<Emitted>::empty() + only.events =~= only.events);
    } else {
        lemma_chunk_split_invariance(dict, s, head);
        lemma_chunk_split(dict, s, joined(head), chunks.last());
    }
}

/// No event of a cascade bears a negative content size.
pub proof fn lemma_closing_positions(stack: Seq<ElementPosition>, total: usize)
    ensures
        forall|i: int|
            0 <= i < closing_events(stack, total).len() ==> (#[trigger] closing_events(
                stack,
                total,
            )[i]).1.content_size >= 0,
    decreases stack.len(),
{
    if stack.len() > 0 && closes(stack.last(), total) {
        lemma_closing_positions(stack.drop_last(), total);
        let rest = closing_events(stack.drop_last(), total);
        let all = closing_events(stack, total);
        assert forall|i: int| 0 <= i < all.len() implies (#[trigger] all[i]).1.content_size
            >= 0 by {
            if i > 0 {
                assert(all[i] == rest[i - 1]);
            }
        }
    }
}

/// No event of a step bears a negative content size: an unknown size is
/// not published.
pub proof fn lemma_step_positions(dict: Map<EbmlId, Schema>, s: DecoderState)
    ensures
        step(dict, s) matches Step::Advance(_, emitted) ==> forall|i: int|
            0 <= i < emitted.len() ==> (#[trigger] emitted[i]).1.content_size >= 0,
{
    if let Step::Advance(next, emitted) = step(dict, s) {
        let frame = s.stack.last();
        if s.phase == State::Content && !(frame.type_code == 'm' && frame.content_size != 0) {
            let closing = closing_events(s.stack.drop_last(), next.total);
            lemma_closing_positions(s.stack.drop_last(), next.total);
            assert forall|i: int| 0 <= i < emitted.len() implies (
            #[trigger] emitted[i]).1.content_size >= 0 by {
                let own = emitted.len() - closing.len();
                if i >= own {
                    assert(emitted[i] == closing[i - own]);
                }
            }
        }
    }
}

/// No event of a run bears a negative content size.
pub proof fn lemma_run_positions(dict: Map<EbmlId, Schema>, s: DecoderState)
    ensures
        forall|i: int|
            0 <= i < run(dict, s).events.len() ==> (#[trigger] run(
                dict,
                s,
            ).events[i]).1.content_size >= 0,
    decreases s.pending.len(), phase_rank(s.phase),
{
    lemma_step_progress(dict, s);
    lemma_step_positions(dict, s);
    if let Step::Advance(next, emitted) = step(dict, s) {
        lemma_run_positions(dict, next);
        let rest = run(dict, next).events;
        let all = run(dict, s).events;
        assert forall|i: int| 0 <= i < all.len() implies (#[trigger] all[i]).1.content_size
            >= 0 by {
            if i >= emitted.len() {
                assert(all[i] == rest[i - emitted.len()]);
            } else {
                assert(all[i] == emitted[i]);
            }
        }
    }
}

/// The identifiers of the frames of a stack, outermost first.
pub open spec fn frame_ids(stack: Seq<ElementPosition>) -> Seq<EbmlId> {
    Seq::new(stack.len(), |i: int| stack[i].ebml_id)
}

/// The identifiers of the master elements that are open after `events`,
/// where `open` were open before: a start opens its element, an end closes
/// the innermost open element and must bear its identifier. `None` where an
/// end finds no open element, or one of another identifier.
pub open spec fn nested(open: Seq<EbmlId>, events: Seq<Emitted>) -> Option<Seq<EbmlId>>
    decreases events.len(),
{
    if events.len() == 0 {
        Some(open)
    } else {
        match nested(open, events.drop_last()) {
            None => None,
            Some(inner) => match events.last().0 {
                Event::MasterStart { ebml_id, .. } => Some(inner.push(ebml_id)),
                Event::MasterEnd { ebml_id } => if inner.len() > 0 && inner.last() == ebml_id {
                    Some(inner.drop_last())
                } else {
                    None
                },
                _ => Some(inner),
            },
        }
    }
}

/// The nesting of two runs of events is the nesting of the second from
/// where the first has led.
pub proof fn lemma_nested_concat(open: Seq<EbmlId>, first: Seq<Emitted>, second: Seq<Emitted>)
    ensures
        nested(open, first + second) == match nested(open, first) {
            None => None,
            Some(inner) => nested(inner, second),
        },
    decreases second.len(),
{
    if second.len() == 0 {
        assert(first + second =~= first);
    } else {
        assert((first + second).drop_last() =~= first + second.drop_last());
        lemma_nested_concat(open, first, second.drop_last());
    }
}

/// The end events of a cascade close the frames that the cascade removes,
/// innermost first.
pub proof fn lemma_closing_nested(stack: Seq<ElementPosition>, total: usize)
    ensures
        nested(frame_ids(stack), closing_events(stack, total)) == Some(
            frame_ids(still_open(stack, total)),
        ),
    decreases stack.len(),
{
    if stack.len() > 0 && closes(stack.last(), total) {
        let first = seq![end_event(stack.last(), total)];
        let rest = closing_events(stack.drop_last(), total);
        lemma_closing_nested(stack.drop_last(), total);
        lemma_nested_concat(frame_ids(stack), first, rest);
        assert(first.drop_last() =~= Seq::<Emitted>::empty());
        assert(frame_ids(stack).drop_last() =~= frame_ids(stack.drop_last()));
        assert(nested(frame_ids(stack), first) == Some(frame_ids(stack.drop_last()))) by {
            reveal_with_fuel(nested, 2);
        }
    }
}

/// The events of one step are well nested: they lead from the master
/// elements that were open before the step to those that are open after it.
pub proof fn lemma_step_well_nested(dict: Map<EbmlId, Schema>, s: DecoderState)
    ensures
        step(dict, s) matches Step::Advance(next, emitted) ==> nested(
            frame_ids(s.open_masters()),
            emitted,
        ) == Some(frame_ids(next.open_masters())),
{
    if let Step::Advance(next, emitted) = step(dict, s) {
        match s.phase {
            State::Tag => {
                assert(next.stack.drop_last() =~= s.stack);
            },
            State::Size => {
                assert(next.stack.drop_last() =~= s.stack.drop_last());
            },
            State::Content => {
                let frame = s.stack.last();
                let parents = s.stack.drop_last();
                let open = frame_ids(parents);
                let started = seq![start_event(frame, s.total)];
                assert(started.drop_last() =~= Seq::<Emitted>::empty());
                assert(nested(open, started) == Some(open.push(frame.ebml_id))) by {
                    reveal_with_fuel(nested, 2);
                }
                if frame.type_code == 'm' {
                    if frame.content_size == 0 {
                        let both = seq![start_event(frame, s.total), end_event(frame, s.total)];
                        assert(both.drop_last() =~= started);
                        assert(open.push(frame.ebml_id).drop_last() =~= open);
                        assert(nested(open, both) == Some(open));
                        lemma_nested_concat(open, both, closing_events(parents, next.total));
                        lemma_closing_nested(parents, next.total);
                    } else {
                        assert(open.push(frame.ebml_id) =~= frame_ids(s.stack));
                        assert(s.stack =~= parents.push(frame));
                    }
                } else {
                    let leaf = seq![emitted[0]];
                    assert(leaf.drop_last() =~= Seq::<Emitted>::empty());
                    assert(nested(open, leaf) == Some(open)) by {
                        reveal_with_fuel(nested, 2);
                    }
                    lemma_nested_concat(open, leaf, closing_events(parents, next.total));
                    lemma_closing_nested(parents, next.total);
                }
            },
        }
    }
}

/// The events of a run are well nested: every end event closes the
/// innermost open master element and bears its identifier, and the master
/// elements left open are those on the stack.
pub proof fn lemma_run_well_nested(dict: Map<EbmlId, Schema>, s: DecoderState)
    ensures
        nested(frame_ids(s.open_masters()), run(dict, s).events) == Some(
            frame_ids(run(dict, s).state.open_masters()),
        ),
    decreases s.pending.len(), phase_rank(s.phase),
{
    lemma_step_progress(dict, s);
    lemma_step_well_nested(dict, s);
    if let Step::Advance(next, emitted) = step(dict, s) {
        lemma_run_well_nested(dict, next);
        lemma_nested_concat(frame_ids(s.open_masters()), emitted, run(dict, next).events);
    }
}

} // verus!
