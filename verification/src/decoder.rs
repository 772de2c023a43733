//! The streaming decoder: a pull parser with three phases, tag, size and
//! content, that takes bytes in chunks of any size and emits events. What
//! it does is stated over the state machine of `machine`.

use crate::bytes::{lemma_be_value_bound, lemma_pow2_values, read_int, read_uint, utf8_to_string};
use crate::ebml::{
    BinaryElement, ChildElement, DateElement, EbmlId, ElementDetail, ElementPosition, Event,
    FloatElement, IntegerElement, MasterElement, MasterEndElement, MasterStartElement, Schema,
    StringElement, UnsignedIntegerElement, Utf8Element,
};
use crate::float::promote;
use crate::machine::{
    closing_events, end_event, frame_ids, leaf_event, lemma_fed_well_formed,
    lemma_run_preserves_well_formed, lemma_run_stops, lemma_run_well_nested,
    lemma_step_preserves_well_formed, lemma_step_progress, nested, phase_rank, published, run,
    start_event, step, still_open, DecoderState, Emitted, Step,
};
use crate::schema::{Schema as _, SchemaDict};
use crate::vint::{
    lemma_read_vint_facts, lemma_read_vint_suffix, read_vint, UnrepresentableLengthError,
};
use vstd::arithmetic::power2::lemma_pow2_strictly_increases;
use vstd::bits::lemma_u64_shl_is_mul;
use vstd::prelude::*;
use vstd::slice::{slice_subrange, slice_to_vec};

verus! {

/// Which kind of leaf could not be decoded from its content.
#[derive(Debug, Copy, Clone, PartialEq, Eq, Structural, PartialOrd, Ord, Hash)]
pub enum ReadContentError {
    Date,
    Utf8,
    UnsignedInteger,
    Integer,
    Float,
    Binary,
    String,
    Master,
    Unknown,
}

/// The stream cannot be decoded.
#[derive(Debug, Copy, Clone, PartialEq, Eq, Structural)]
pub enum DecodeError {
    /// An identifier or a size starts with a byte of zero.
    ReadVint(UnrepresentableLengthError),
    /// A leaf announces an unknown size, which only a master element may.
    UnknwonSizeNotAllowedInChildElement(ElementPosition),
    /// The content of a leaf does not fit its type.
    ReadContent(ReadContentError),
    /// The dictionary lacks an identifier.
    UnknownEbmlId(EbmlId),
}

/// The phase of the parser: what it expects next.
#[derive(Debug, Copy, Clone, PartialEq, Eq, Structural, PartialOrd, Ord, Hash)]
pub enum State {
    Tag,
    Size,
    Content,
}

/// Decodes the content of a leaf under its type code.
pub fn read_child_element(ebml_id: EbmlId, type_code: char, content: &[u8]) -> (r: Result<
    ChildElement,
    ReadContentError,
>)
    ensures
        match r {
            Ok(child) => leaf_event(type_code, ebml_id, content@) == Ok::<_, ReadContentError>(
                child@,
            ),
            Err(e) => leaf_event(type_code, ebml_id, content@) == Err::<Event, _>(e),
        },
{
    let content_size = content.len();
    proof {
        assert(content@.subrange(0, content_size as int) =~= content@);
        lemma_be_value_bound(content@);
        lemma_pow2_values();
    }
    if type_code == 'u' {
        if content_size < 1 || content_size > 8 {
            return Err(ReadContentError::UnsignedInteger);
        }
        let value = read_uint(content, content_size);
        Ok(ChildElement::UnsignedIntegerElement(UnsignedIntegerElement { ebml_id, value }))
    } else if type_code == 'i' {
        if content_size < 1 || content_size > 8 {
            return Err(ReadContentError::Integer);
        }
        let value = read_int(content, content_size);
        Ok(ChildElement::IntegerElement(IntegerElement { ebml_id, value }))
    } else if type_code == 'f' {
        if content_size == 4 {
            let narrow = read_uint(content, 4);
            let value = promote(narrow as u32);
            Ok(ChildElement::FloatElement(FloatElement { ebml_id, value }))
        } else if content_size == 8 {
            let value = read_uint(content, 8);
            Ok(ChildElement::FloatElement(FloatElement { ebml_id, value }))
        } else {
            Err(ReadContentError::Float)
        }
    } else if type_code == 's' {
        let value = slice_to_vec(content);
        Ok(ChildElement::StringElement(StringElement { ebml_id, value }))
    } else if type_code == '8' {
        match utf8_to_string(slice_to_vec(content)) {
            Some(value) => Ok(ChildElement::Utf8Element(Utf8Element { ebml_id, value })),
            None => Err(ReadContentError::Utf8),
        }
    } else if type_code == 'b' {
        let value = slice_to_vec(content);
        Ok(ChildElement::BinaryElement(BinaryElement { ebml_id, value }))
    } else if type_code == 'd' {
        if content_size < 8 {
            return Err(ReadContentError::Date);
        }
        let value = read_int(content, 8);
        Ok(ChildElement::DateElement(DateElement { ebml_id, value }))
    } else if type_code == 'm' {
        Err(ReadContentError::Master)
    } else {
        Err(ReadContentError::Unknown)
    }
}

/// The position record of a master element as an event bears it.
fn publish(frame: ElementPosition, total: usize) -> (position: ElementPosition)
    ensures
        position == published(frame, total),
{
    if frame.content_size >= 0 {
        return frame;
    }
    let content_size: i64 = if total <= frame.content_start {
        0
    } else if (total - frame.content_start) as u64 > 0x7fff_ffff_ffff_ffffu64 {
        0x7fff_ffff_ffff_ffffi64
    } else {
        (total - frame.content_start) as i64
    };
    ElementPosition { content_size, ..frame }
}

/// A streaming decoder over the dictionary `D`.
pub struct Decoder<'a, D: SchemaDict> {
    schema: &'a D,
    state: State,
    buffer: Vec<u8>,
    cursor: usize,
    total: usize,
    stack: Vec<ElementPosition>,
    queue: Vec<ElementDetail>,
}

impl<'a, D: SchemaDict> View for Decoder<'a, D> {
    type V = DecoderState;

    closed spec fn view(&self) -> DecoderState {
        DecoderState {
            phase: self.state,
            pending: self.buffer@.subrange(self.cursor as int, self.buffer@.len() as int),
            total: self.total,
            stack: self.stack@,
        }
    }
}

impl<'a, D: SchemaDict> Decoder<'a, D> {
    /// The dictionary that the decoder looks identifiers up in.
    pub closed spec fn dict(&self) -> Map<EbmlId, Schema> {
        self.schema.entries()
    }

    /// What holds while a call of `decode` is under way.
    spec fn inv(&self) -> bool {
        &&& self.cursor <= self.buffer@.len()
        &&& self@.well_formed()
    }

    /// What holds of a decoder between two calls.
    pub closed spec fn wf(&self) -> bool {
        &&& self.inv()
        &&& self.queue@.len() == 0
    }

    /// A decoder is well-formed in the sense of its model.
    pub proof fn lemma_wf(&self)
        requires
            self.wf(),
        ensures
            self@.well_formed(),
    {
    }

    /// A decoder at the start of a stream.
    pub fn new(schema: &'a D) -> (decoder: Self)
        ensures
            decoder.wf(),
            decoder@ == DecoderState::initial(),
            decoder.dict() == schema.entries(),
    {
        let decoder = Self {
            schema,
            state: State::Tag,
            buffer: Vec::new(),
            cursor: 0,
            total: 0,
            stack: Vec::new(),
            queue: Vec::new(),
        };
        assert(decoder@.pending =~= Seq::<u8>::empty());
        assert(decoder@.stack =~= Seq::<ElementPosition>::empty());
        decoder
    }

    /// The number of bytes consumed from the stream.
    pub fn position(&self) -> (total: usize)
        ensures
            total == self@.total,
    {
        self.total
    }

    /// The number of bytes received and not yet consumed.
    pub fn buffered(&self) -> (pending: usize)
        requires
            self.wf(),
        ensures
            pending == self@.pending.len(),
    {
        self.buffer.len() - self.cursor
    }

    /// Takes the next chunk of the stream, runs the parser as far as the
    /// bytes received allow, and returns the events that this has produced.
    /// After an error the decoder stands before the step that failed, and
    /// every further call fails alike.
    pub fn decode(&mut self, chunk: Vec<u8>) -> (r: Result<Vec<ElementDetail>, DecodeError>)
        requires
            old(self).wf(),
            old(self)@.received() + chunk@.len() <= usize::MAX,
        ensures
            final(self).wf(),
            final(self).dict() == old(self).dict(),
            final(self)@ == run(old(self).dict(), old(self)@.fed(chunk@)).state,
            final(self)@.received() == old(self)@.received() + chunk@.len(),
            match r {
                Ok(events) => run(old(self).dict(), old(self)@.fed(chunk@)).error is None
                    && events.deep_view() == run(old(self).dict(), old(self)@.fed(chunk@)).events,
                Err(e) => run(old(self).dict(), old(self)@.fed(chunk@)).error == Some(e),
            },
            r is Ok ==> step(final(self).dict(), final(self)@) is NeedMore,
            r matches Ok(events) ==> nested(
                frame_ids(old(self)@.open_masters()),
                events.deep_view(),
            ) == Some(frame_ids(final(self)@.open_masters())),
    {
        proof {
            lemma_run_well_nested(self.dict(), old(self)@.fed(chunk@));
            lemma_fed_well_formed(old(self)@, chunk@);
            lemma_run_preserves_well_formed(self.dict(), old(self)@.fed(chunk@));
            lemma_run_stops(self.dict(), old(self)@.fed(chunk@));
        }
        match self.read_chunk(chunk) {
            Ok(_) => {
                let mut result: Vec<ElementDetail> = Vec::new();
                core::mem::swap(&mut self.queue, &mut result);
                Ok(result)
            },
            Err(e) => {
                self.queue.clear();
                Err(e)
            },
        }
    }

    fn read_chunk(&mut self, chunk: Vec<u8>) -> (r: Result<(), DecodeError>)
        requires
            old(self).wf(),
            old(self)@.received() + chunk@.len() <= usize::MAX,
        ensures
            final(self).inv(),
            final(self).dict() == old(self).dict(),
            final(self)@ == run(old(self).dict(), old(self)@.fed(chunk@)).state,
            final(self).queue.deep_view() == run(
                old(self).dict(),
                old(self)@.fed(chunk@),
            ).events,
            match r {
                Ok(_) => run(old(self).dict(), old(self)@.fed(chunk@)).error is None,
                Err(e) => run(old(self).dict(), old(self)@.fed(chunk@)).error == Some(e),
            },
    {
        let ghost arrived = chunk@;
        let ghost dict = self.dict();
        let mut incoming = chunk;
        self.buffer.append(&mut incoming);
        proof {
            lemma_fed_well_formed(old(self)@, arrived);
            assert(self@.pending =~= old(self)@.pending + arrived);
            assert(self.queue.deep_view() =~= Seq::<Emitted>::empty());
        }
        let ghost target = run(dict, self@);
        proof {
            assert(self.queue.deep_view() + run(dict, self@).events =~= target.events);
        }
        loop
            invariant
                self.inv(),
                self.dict() == dict,
                dict == old(self).dict(),
                target == run(old(self).dict(), old(self)@.fed(chunk@)),
                target.state == run(dict, self@).state,
                target.error == run(dict, self@).error,
                target.events == self.queue.deep_view() + run(dict, self@).events,
            ensures
                self.inv(),
                self.dict() == dict,
                dict == old(self).dict(),
                target == run(old(self).dict(), old(self)@.fed(chunk@)),
                target.state == self@,
                target.error is None,
                target.events == self.queue.deep_view(),
            decreases self@.pending.len(), phase_rank(self@.phase),
        {
            let ghost before = self@;
            let ghost emitted_before = self.queue.deep_view();
            proof {
                lemma_step_progress(dict, before);
            }
            let progressed = match self.state {
                State::Tag => self.read_tag(),
                State::Size => self.read_size(),
                State::Content => self.read_content(),
            };
            match progressed {
                Err(e) => {
                    proof {
                        assert(emitted_before + Seq::<Emitted>::empty() =~= emitted_before);
                    }
                    return Err(e);
                },
                Ok(false) => {
                    proof {
                        assert(emitted_before + Seq::<Emitted>::empty() =~= emitted_before);
                    }
                    break ;
                },
                Ok(true) => {
                    proof {
                        let emitted = step(dict, before)->Advance_1;
                        let rest = run(dict, self@).events;
                        assert(emitted_before + (emitted + rest) =~= (emitted_before + emitted)
                            + rest);
                    }
                },
            }
        }
        Ok(())
    }

    /// Reads an identifier.
    fn read_tag(&mut self) -> (r: Result<bool, DecodeError>)
        requires
            old(self).inv(),
            old(self).state == State::Tag,
        ensures
            final(self).inv(),
            final(self).dict() == old(self).dict(),
            match step(old(self).dict(), old(self)@) {
                Step::NeedMore => r == Ok::<_, DecodeError>(false) && final(self)@ == old(self)@
                    && final(self).queue@ == old(self).queue@,
                Step::Fail(e) => r == Err::<bool, _>(e) && final(self)@ == old(self)@
                    && final(self).queue@ == old(self).queue@,
                Step::Advance(next, emitted) => r == Ok::<_, DecodeError>(true) && final(self)@
                    == next && final(self).queue@ == old(self).queue@,
            },
    {
        proof {
            lemma_read_vint_suffix(self.buffer@, self.cursor as int);
            lemma_read_vint_facts(self.buffer@, self.cursor as int);
            lemma_step_preserves_well_formed(self.dict(), self@);
        }
        let tag = match read_vint(self.buffer.as_slice(), self.cursor) {
            Err(e) => {
                return Err(DecodeError::ReadVint(e));
            },
            Ok(None) => {
                return Ok(false);
            },
            Ok(Some(tag)) => tag,
        };
        let tag_size = tag.length as usize;
        let filled = self.buffer.len();
        proof {
            lemma_pow2_values();
            lemma_pow2_strictly_increases(7 * tag.length as nat, 63);
            lemma_u64_shl_is_mul(1u64, (7 * tag.length) as u64);
            assert(self@.pending.subrange(0, tag_size as int) =~= self.buffer@.subrange(
                self.cursor as int,
                self.cursor + tag_size,
            ));
        }
        let marker: u64 = 1u64 << (7 * tag.length as u64);
        let ebml_id = EbmlId((tag.value as u64 + marker) as i64);
        let (type_code, level) = match self.schema.get(ebml_id) {
            Some(item) => (item.type_code(), item.level()),
            None => {
                return Err(DecodeError::UnknownEbmlId(ebml_id));
            },
        };
        let frame = ElementPosition {
            ebml_id,
            level,
            type_code,
            tag_start: self.total,
            size_start: self.total + tag_size,
            content_start: 0,
            content_size: 0,
        };
        self.stack.push(frame);
        self.cursor = self.cursor + tag_size;
        self.total = self.total + tag_size;
        self.state = State::Size;
        proof {
            assert(self@.pending =~= old(self)@.consumed(tag_size as int).pending);
        }
        Ok(true)
    }

    /// Reads the size of the element whose identifier was read.
    fn read_size(&mut self) -> (r: Result<bool, DecodeError>)
        requires
            old(self).inv(),
            old(self).state == State::Size,
        ensures
            final(self).inv(),
            final(self).dict() == old(self).dict(),
            match step(old(self).dict(), old(self)@) {
                Step::NeedMore => r == Ok::<_, DecodeError>(false) && final(self)@ == old(self)@
                    && final(self).queue@ == old(self).queue@,
                Step::Fail(e) => r == Err::<bool, _>(e) && final(self)@ == old(self)@
                    && final(self).queue@ == old(self).queue@,
                Step::Advance(next, emitted) => r == Ok::<_, DecodeError>(true) && final(self)@
                    == next && final(self).queue@ == old(self).queue@,
            },
    {
        proof {
            lemma_read_vint_suffix(self.buffer@, self.cursor as int);
            lemma_read_vint_facts(self.buffer@, self.cursor as int);
            lemma_step_preserves_well_formed(self.dict(), self@);
        }
        let size = match read_vint(self.buffer.as_slice(), self.cursor) {
            Err(e) => {
                return Err(DecodeError::ReadVint(e));
            },
            Ok(None) => {
                return Ok(false);
            },
            Ok(Some(size)) => size,
        };
        let size_length = size.length as usize;
        let filled = self.buffer.len();
        proof {
            lemma_pow2_values();
            lemma_pow2_strictly_increases(7 * size.length as nat, 63);
            lemma_u64_shl_is_mul(1u64, (7 * size.length) as u64);
        }
        let reserved: u64 = (1u64 << (7 * size.length as u64)) - 1;
        let content_size: i64 = if size.value as u64 == reserved {
            -1
        } else {
            size.value
        };
        let mut frame = self.stack[self.stack.len() - 1];
        frame.content_start = self.total + size_length;
        frame.content_size = content_size;
        let _ = self.stack.pop();
        self.stack.push(frame);
        self.cursor = self.cursor + size_length;
        self.total = self.total + size_length;
        self.state = State::Content;
        proof {
            assert(self@.pending =~= old(self)@.consumed(size_length as int).pending);
        }
        Ok(true)
    }

    /// Closes the open elements that end where the stream stands.
    fn close_finished(&mut self)
        requires
            old(self).cursor <= old(self).buffer@.len(),
        ensures
            final(self).stack@ == still_open(old(self).stack@, old(self).total),
            final(self).queue.deep_view() == old(self).queue.deep_view() + closing_events(
                old(self).stack@,
                old(self).total,
            ),
            final(self).schema == old(self).schema,
            final(self).state == old(self).state,
            final(self).buffer == old(self).buffer,
            final(self).cursor == old(self).cursor,
            final(self).total == old(self).total,
    {
        proof {
            assert(self.queue.deep_view() + closing_events(self.stack@, self.total)
                =~= old(self).queue.deep_view() + closing_events(
                old(self).stack@,
                old(self).total,
            ));
        }
        while self.stack.len() > 0
            invariant
                self.schema == old(self).schema,
                self.state == old(self).state,
                self.buffer == old(self).buffer,
                self.cursor == old(self).cursor,
                self.total == old(self).total,
                still_open(self.stack@, self.total) == still_open(
                    old(self).stack@,
                    old(self).total,
                ),
                self.queue.deep_view() + closing_events(self.stack@, self.total) == old(
                    self,
                ).queue.deep_view() + closing_events(old(self).stack@, old(self).total),
            ensures
                self.schema == old(self).schema,
                self.state == old(self).state,
                self.buffer == old(self).buffer,
                self.cursor == old(self).cursor,
                self.total == old(self).total,
                self.stack@ == still_open(old(self).stack@, old(self).total),
                self.queue.deep_view() == old(self).queue.deep_view() + closing_events(
                    old(self).stack@,
                    old(self).total,
                ),
            decreases self.stack@.len(),
        {
            let parent = self.stack[self.stack.len() - 1];
            if parent.content_size >= 0 && (self.total as u128) < parent.content_start as u128
                + parent.content_size as u128 {
                proof {
                    assert(self.queue.deep_view() + Seq::<Emitted>::empty()
                        =~= self.queue.deep_view());
                }
                break ;
            }
            let ghost emitted_before = self.queue.deep_view();
            let ghost rest = closing_events(self.stack@.drop_last(), self.total);
            self.queue.push(
                ElementDetail::MasterElement(
                    (
                        MasterElement::MasterEndElement(
                            MasterEndElement { ebml_id: parent.ebml_id },
                        ),
                        publish(parent, self.total),
                    ),
                ),
            );
            let _ = self.stack.pop();
            proof {
                let closed = end_event(parent, self.total);
                assert(self.queue.deep_view() =~= emitted_before.push(closed));
                assert(emitted_before + (seq![closed] + rest) =~= emitted_before.push(closed)
                    + rest);
            }
        }
        proof {
            if self.stack@.len() == 0 {
                assert(self.queue.deep_view() + Seq::<Emitted>::empty()
                    =~= self.queue.deep_view());
            }
        }
    }

    /// Announces a master element, or decodes a leaf once its content is
    /// complete.
    fn read_content(&mut self) -> (r: Result<bool, DecodeError>)
        requires
            old(self).inv(),
            old(self).state == State::Content,
        ensures
            final(self).inv(),
            final(self).dict() == old(self).dict(),
            match step(old(self).dict(), old(self)@) {
                Step::NeedMore => r == Ok::<_, DecodeError>(false) && final(self)@ == old(self)@
                    && final(self).queue@ == old(self).queue@,
                Step::Fail(e) => r == Err::<bool, _>(e) && final(self)@ == old(self)@
                    && final(self).queue@ == old(self).queue@,
                Step::Advance(next, emitted) => r == Ok::<_, DecodeError>(true) && final(self)@
                    == next && final(self).queue.deep_view() == old(self).queue.deep_view()
                    + emitted,
            },
    {
        proof {
            lemma_step_preserves_well_formed(self.dict(), self@);
        }
        let ghost emitted_before = self.queue.deep_view();
        let frame = self.stack[self.stack.len() - 1];
        if frame.type_code == 'm' {
            self.queue.push(
                ElementDetail::MasterElement(
                    (
                        MasterElement::MasterStartElement(
                            MasterStartElement {
                                ebml_id: frame.ebml_id,
                                unknown_size: frame.content_size == -1,
                            },
                        ),
                        publish(frame, self.total),
                    ),
                ),
            );
            self.state = State::Tag;
            proof {
                assert(self.queue.deep_view() =~= emitted_before + seq![
                    start_event(frame, self.total),
                ]);
            }
            if frame.content_size == 0 {
                self.queue.push(
                    ElementDetail::MasterElement(
                        (
                            MasterElement::MasterEndElement(
                                MasterEndElement { ebml_id: frame.ebml_id },
                            ),
                            publish(frame, self.total),
                        ),
                    ),
                );
                let _ = self.stack.pop();
                proof {
                    assert(self.queue.deep_view() =~= emitted_before + seq![
                        start_event(frame, self.total),
                        end_event(frame, self.total),
                    ]);
                }
                self.close_finished();
                proof {
                    let closing = closing_events(old(self).stack@.drop_last(), self.total);
                    let both = seq![start_event(frame, self.total), end_event(frame, self.total)];
                    assert((emitted_before + both) + closing =~= emitted_before + (both
                        + closing));
                }
            }
            return Ok(true);
        }
        if frame.content_size < 0 {
            return Err(DecodeError::UnknwonSizeNotAllowedInChildElement(frame));
        }
        let available = self.buffer.len() - self.cursor;
        if (available as u64) < frame.content_size as u64 {
            return Ok(false);
        }
        let content_size = frame.content_size as usize;
        let content = slice_subrange(
            self.buffer.as_slice(),
            self.cursor,
            self.cursor + content_size,
        );
        proof {
            assert(content@ =~= self@.pending.subrange(0, content_size as int));
        }
        let child = match read_child_element(frame.ebml_id, frame.type_code, content) {
            Ok(child) => child,
            Err(e) => {
                return Err(DecodeError::ReadContent(e));
            },
        };
        let ghost leaf = child@;
        self.queue.push(ElementDetail::ChildElement((child, frame)));
        let rest = self.buffer.split_off(self.cursor + content_size);
        self.buffer = rest;
        self.total = self.total + content_size;
        self.state = State::Tag;
        self.cursor = 0;
        let _ = self.stack.pop();
        proof {
            assert(self.queue.deep_view() =~= emitted_before + seq![(leaf, frame)]);
            assert(self@.pending =~= old(self)@.consumed(content_size as int).pending);
        }
        self.close_finished();
        proof {
            let closing = closing_events(old(self).stack@.drop_last(), self.total);
            assert((emitted_before + seq![(leaf, frame)]) + closing =~= emitted_before + (seq![
                (leaf, frame),
            ] + closing));
        }
        Ok(true)
    }
}

} // verus!
