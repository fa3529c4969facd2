use crate::base::encoding::SharedEncoding;
use crate::memory::arena::{is_charged, Arena};
use crate::memory::limiter::{counted, MemoryLimitExceededError, SharedMemoryLimiter};
use crate::parser::parser::{Parser, ParserDirective, ParserView};
use crate::rewritable_units::token_capture_flags::TokenCaptureFlags;
use crate::rewriter::errors::RewritingError;
use vstd::prelude::*;
use vstd::slice::slice_subrange;

verus! {

/// Construction parameters for a [`TransformStream`].
pub struct TransformStreamSettings<C, O> {
    /// Receives tag decisions and captured tokens.
    pub transform_controller: C,
    /// The kinds of token that the controller wants from the start.
    pub initial_capture_flags: TokenCaptureFlags,
    /// Receives the (possibly rewritten) output.
    pub output_sink: O,
    /// Initial size of the buffer that holds input carried across chunks.
    pub preallocated_parsing_buffer_size: usize,
    /// Input encoding.
    pub encoding: SharedEncoding,
    /// Fail on constructs whose parsing depends on what the tokenizer cannot know.
    pub strict: bool,
}

/// Stands between the parser and the controller, and writes to the output.
pub struct Dispatcher<C, O> {
    pub transform_controller: C,
    pub output_sink: O,
    pub encoding: SharedEncoding,
}

/// Which stage of the rewrite a content handler suspended, if any.
#[derive(Debug, Clone, Copy, PartialEq, Eq, Structural)]
pub enum SuspendedPhase {
    /// Not suspended.
    NotSuspended,
    /// The parse of a chunk was suspended.
    Write,
    /// The final parse was suspended.
    EndParse,
    /// The final parse was completed but a handler for the end of the document was suspended.
    Finish,
}

/// What a stream waits for.
#[derive(Debug, Clone, Copy, PartialEq, Eq, Structural)]
pub enum Awaited {
    /// The next chunk of input, the end of the input, or to be resumed.
    Input,
    /// How the parse of the chunk that was announced went.
    Parse,
    /// How the final parse went.
    FinalParse,
    /// How finishing the document went.
    Finish,
    /// How the resumption went.
    Resumption,
}

/// What is to be done after the final parse.
#[derive(Debug, Clone, Copy, PartialEq, Eq, Structural)]
pub enum EndStep {
    /// The rewrite is suspended.
    Suspended,
    /// The document is to be finished with what is left of the input.
    Finish,
}

/// What is to be done to resume a rewrite.
#[derive(Debug, Clone, Copy, PartialEq, Eq, Structural)]
pub enum ResumeStep {
    /// Nothing: the rewrite is not suspended.
    Nothing,
    /// The suspended dispatch is to be completed, and then the parse resumed over what is left of
    /// the input.
    Dispatch { last: bool },
    /// The end of the document is to be completed.
    Finish,
}

/// What is to be done after a resumed parse.
#[derive(Debug, Clone, Copy, PartialEq, Eq, Structural)]
pub enum ResumedStep {
    /// The rewrite is suspended again.
    Suspended,
    /// The rewrite goes on with the next chunk.
    Done,
    /// The document is to be finished with what is left of the input.
    Finish,
}

/// The streaming HTML tokenizer. Input that cannot be tokenized yet (a tag split across chunks) is
/// buffered until the next chunk.
///
/// A chunk of input is announced by [`Self::write`]. Then [`Self::chunk`] is parsed, and how much of
/// that was consumed is handed to [`Self::write_parsed`]. The end of the input is announced by
/// [`Self::end`]. Then [`Self::remaining`] is parsed as the last bytes, and how much of them was
/// consumed is handed to [`Self::end_parsed`]. How finishing the document went is handed to
/// [`Self::finished`]. Where a parse fails, [`Self::parse_failed`] is told. Nothing new can be
/// announced before that.
pub struct TransformStream<C, O, B> {
    parser: Parser<Dispatcher<C, O>, B>,
    buffer: Arena,
    has_buffered_data: bool,
    suspended: SuspendedPhase,
    awaited: Awaited,
    /// The chunk that was announced.
    announced: Ghost<Seq<u8>>,
}

/// What a stream holds besides its parser.
pub struct StreamView {
    /// The input that was not consumed yet.
    pub pending: Seq<u8>,
    /// Whether there is any.
    pub is_buffering: bool,
    pub phase: SuspendedPhase,
    pub awaited: Awaited,
    /// The chunk that was announced and not parsed yet.
    pub announced: Seq<u8>,
}

/// What is left of a chunk.
pub open spec fn left_of(chunk: Seq<u8>, consumed: nat) -> Seq<u8> {
    if consumed < chunk.len() {
        chunk.skip(consumed as int)
    } else {
        Seq::empty()
    }
}

impl StreamView {
    /// What is parsed when new input comes: what is left of the input before, and the new input.
    pub open spec fn chunk(self, data: Seq<u8>) -> Seq<u8> {
        if self.is_buffering {
            self.pending
        } else {
            data
        }
    }

    /// With what is left of a chunk, and nothing announced.
    pub open spec fn with_left(
        self,
        left: Seq<u8>,
        phase: SuspendedPhase,
        awaited: Awaited,
    ) -> Self {
        StreamView {
            pending: left,
            is_buffering: left.len() > 0,
            phase,
            awaited,
            announced: Seq::empty(),
        }
    }

    /// After a chunk was announced: what is left of the input before, and the new input.
    pub open spec fn after_write(self, data: Seq<u8>) -> Self {
        StreamView {
            pending: if self.is_buffering {
                self.pending + data
            } else {
                self.pending
            },
            awaited: Awaited::Parse,
            announced: self.pending + data,
            ..self
        }
    }

    /// After the chunk that was announced was parsed.
    pub open spec fn after_write_parsed(self, consumed: nat, is_suspended: bool) -> Self {
        self.with_left(
            left_of(self.announced, consumed),
            if is_suspended {
                SuspendedPhase::Write
            } else {
                SuspendedPhase::NotSuspended
            },
            Awaited::Input,
        )
    }

    /// After what was left of the input was parsed as the last bytes. Where that was not suspended,
    /// all of it is needed to finish the document.
    pub open spec fn after_end_parsed(self, consumed: nat, is_suspended: bool) -> Self {
        if is_suspended {
            self.with_left(
                left_of(self.pending, consumed),
                SuspendedPhase::EndParse,
                Awaited::Input,
            )
        } else {
            StreamView { awaited: Awaited::Finish, ..self }
        }
    }

    /// After what was left of the input was parsed when the rewrite was resumed.
    pub open spec fn after_resume_parsed(self, consumed: nat, is_suspended: bool) -> Self {
        self.with_left(
            left_of(self.pending, consumed),
            if is_suspended {
                self.phase
            } else {
                SuspendedPhase::NotSuspended
            },
            if !is_suspended && self.phase == SuspendedPhase::EndParse {
                Awaited::Finish
            } else {
                Awaited::Input
            },
        )
    }

    /// With nothing announced any longer.
    pub open spec fn settled(self, phase: SuspendedPhase) -> Self {
        StreamView { phase, awaited: Awaited::Input, announced: Seq::empty(), ..self }
    }
}

impl<C, O, B> View for TransformStream<C, O, B> {
    type V = StreamView;

    closed spec fn view(&self) -> StreamView {
        StreamView {
            pending: if self.has_buffered_data {
                self.buffer@
            } else {
                Seq::empty()
            },
            is_buffering: self.has_buffered_data,
            phase: self.suspended,
            awaited: self.awaited,
            announced: self.announced@,
        }
    }
}

impl<C, O, B> TransformStream<C, O, B> {
    /// The parser.
    pub closed spec fn spec_parser(self) -> Parser<Dispatcher<C, O>, B> {
        self.parser
    }

    /// For how many bytes of input the buffer has memory in any case.
    pub closed spec fn spec_held(self) -> nat {
        self.buffer.spec_held()
    }

    /// Whether this may be the capacity of the buffer, as far as its memory tells.
    pub closed spec fn may_have(self, capacity: nat) -> bool {
        self.buffer.may_have(capacity)
    }

    /// Creates a stream; nothing is parsed until [`write`](Self::write).
    pub fn new(settings: TransformStreamSettings<C, O>, memory_limiter: &mut SharedMemoryLimiter) -> (stream:
        Self)
        ensures
            stream@ == (StreamView {
                pending: Seq::empty(),
                is_buffering: false,
                phase: SuspendedPhase::NotSuspended,
                awaited: Awaited::Input,
                announced: Seq::empty(),
            }),
            stream.spec_parser()@ == (ParserView::<B> {
                strict: settings.strict,
                directive: if settings.initial_capture_flags.spec_bits() == 0 {
                    ParserDirective::WherePossibleScanForTagsOnly
                } else {
                    ParserDirective::Lex
                },
                consumed: 0,
                suspension: None,
            }),
            stream.spec_parser().spec_output_sink() == (Dispatcher {
                transform_controller: settings.transform_controller,
                output_sink: settings.output_sink,
                encoding: settings.encoding,
            }),
            stream.spec_held() == 0,
            final(memory_limiter).spec_max() == old(memory_limiter).spec_max(),
            final(memory_limiter).spec_current_usage() == counted(
                old(memory_limiter).spec_current_usage()
                    + settings.preallocated_parsing_buffer_size as nat,
            ),
    {
        let directive = if settings.initial_capture_flags.is_empty() {
            ParserDirective::WherePossibleScanForTagsOnly
        } else {
            ParserDirective::Lex
        };
        let dispatcher = Dispatcher {
            transform_controller: settings.transform_controller,
            output_sink: settings.output_sink,
            encoding: settings.encoding,
        };
        let buffer = Arena::new(memory_limiter, settings.preallocated_parsing_buffer_size);
        let parser = Parser::new(dispatcher, directive, settings.strict);
        TransformStream {
            parser,
            buffer,
            has_buffered_data: false,
            suspended: SuspendedPhase::NotSuspended,
            awaited: Awaited::Input,
            announced: Ghost(Seq::empty()),
        }
    }

    /// What the stream waits for.
    pub fn awaited(&self) -> (awaited: Awaited)
        ensures
            awaited == self@.awaited,
    {
        self.awaited
    }

    /// The transform controller this stream was created with.
    pub fn controller(&mut self) -> (controller: &mut C)
        ensures
            *controller == old(self).spec_parser().spec_output_sink().transform_controller,
            final(self).spec_parser().spec_output_sink() == (Dispatcher {
                transform_controller: *final(controller),
                output_sink: old(self).spec_parser().spec_output_sink().output_sink,
                encoding: old(self).spec_parser().spec_output_sink().encoding,
            }),
            final(self).spec_parser()@ == old(self).spec_parser()@,
            final(self)@ == old(self)@,
            final(self).spec_held() == old(self).spec_held(),
    {
        &mut self.parser.get_dispatcher().transform_controller
    }

    /// The transform controller, for reaching the parked token of a suspension.
    pub fn controller_mut(&mut self) -> (controller: &mut C)
        ensures
            *controller == old(self).spec_parser().spec_output_sink().transform_controller,
            final(self).spec_parser().spec_output_sink() == (Dispatcher {
                transform_controller: *final(controller),
                output_sink: old(self).spec_parser().spec_output_sink().output_sink,
                encoding: old(self).spec_parser().spec_output_sink().encoding,
            }),
            final(self).spec_parser()@ == old(self).spec_parser()@,
            final(self)@ == old(self)@,
            final(self).spec_held() == old(self).spec_held(),
    {
        self.controller()
    }

    /// The parser.
    pub fn parser(&mut self) -> (parser: &mut Parser<Dispatcher<C, O>, B>)
        ensures
            *parser == old(self).spec_parser(),
            final(self).spec_parser() == *final(parser),
            final(self)@ == old(self)@,
            final(self).spec_held() == old(self).spec_held(),
    {
        &mut self.parser
    }

    /// Announces the next chunk of input. Where input is buffered, the new input goes behind it, as
    /// far as the memory limit allows.
    pub fn write(&mut self, memory_limiter: &mut SharedMemoryLimiter, data: &[u8]) -> (res: Result<
        (),
        RewritingError,
    >)
        requires
            old(self)@.phase == SuspendedPhase::NotSuspended,
            old(self)@.awaited == Awaited::Input,
        ensures
            final(self).spec_parser() == old(self).spec_parser(),
            res matches Err(error) ==> error is MemoryLimitExceeded && final(self)@ == old(self)@,
            res is Ok ==> final(self)@ == old(self)@.after_write(data@) && final(self)@.chunk(data@)
                == final(self)@.announced,
            !old(self)@.is_buffering ==> {
                &&& res is Ok
                &&& final(self).spec_held() == old(self).spec_held()
                &&& *final(memory_limiter) == *old(memory_limiter)
            },
            old(self)@.is_buffering ==> {
                &&& final(self).spec_held() == final(self)@.pending.len()
                &&& exists|capacity: nat|
                    old(self).may_have(capacity) && old(self).spec_held() <= capacity
                        && #[trigger] is_charged(
                        capacity,
                        old(self)@.pending,
                        data@.len(),
                        *old(memory_limiter),
                        *final(memory_limiter),
                        memory_result(res),
                    )
            },
            old(self)@.is_buffering && old(self)@.pending.len() + data@.len()
                <= old(self).spec_held() ==> {
                &&& res is Ok
                &&& final(memory_limiter).spec_current_usage()
                    == old(memory_limiter).spec_current_usage()
            },
    {
        let ghost chunk = self@.pending + data@;
        if self.has_buffered_data {
            let appended = self.buffer.append(memory_limiter, data);
            let ghost outcome = appended;
            let res = match appended {
                Ok(_) => Ok(()),
                Err(error) => Err(RewritingError::MemoryLimitExceeded(error)),
            };
            proof {
                if outcome is Ok {
                    assert(outcome->Ok_0 == ());
                }
                assert(memory_result(res) == outcome);
                let capacity: nat = choose|capacity: nat|
                    old(self).may_have(capacity) && old(self).spec_held() <= capacity
                        && #[trigger] is_charged(
                        capacity,
                        old(self)@.pending,
                        data@.len(),
                        *old(memory_limiter),
                        *memory_limiter,
                        outcome,
                    );
                assert(is_charged(
                    capacity,
                    old(self)@.pending,
                    data@.len(),
                    *old(memory_limiter),
                    *memory_limiter,
                    memory_result(res),
                ));
            }
            if res.is_ok() {
                self.awaited = Awaited::Parse;
                self.announced = Ghost(chunk);
            }
            res
        } else {
            assert(chunk =~= data@);
            self.awaited = Awaited::Parse;
            self.announced = Ghost(chunk);
            Ok(())
        }
    }

    /// What is to be parsed of the input, once `data` has been announced.
    pub fn chunk<'a>(&'a self, data: &'a [u8]) -> (chunk: &'a [u8])
        ensures
            chunk@ == self@.chunk(data@),
    {
        if self.has_buffered_data {
            self.buffer.bytes()
        } else {
            data
        }
    }

    /// Takes note of how much of the chunk the parse consumed. The rest is kept for the next chunk,
    /// as far as the memory limit allows, or for when the rewrite is resumed.
    pub fn write_parsed(
        &mut self,
        memory_limiter: &mut SharedMemoryLimiter,
        data: &[u8],
        consumed_byte_count: usize,
    ) -> (res: Result<(), RewritingError>)
        requires
            old(self)@.phase == SuspendedPhase::NotSuspended,
            old(self)@.awaited == Awaited::Parse,
            old(self)@.chunk(data@) == old(self)@.announced,
        ensures
            final(self).spec_parser() == old(self).spec_parser(),
            ({
                let left = left_of(old(self)@.announced, consumed_byte_count as nat);
                let is_suspended = old(self).spec_parser()@.suspension is Some;
                let must_allocate = left.len() > 0 && !old(self)@.is_buffering;
                match res {
                    Err(RewritingError::MemoryLimitExceeded(_)) => must_allocate && final(self)@
                        == old(self)@.settled(SuspendedPhase::NotSuspended),
                    Err(error) => is_suspended && error is Suspended && final(self)@
                        == old(self)@.after_write_parsed(consumed_byte_count as nat, true),
                    Ok(_) => !is_suspended && final(self)@ == old(self)@.after_write_parsed(
                        consumed_byte_count as nat,
                        false,
                    ),
                }
            }),
            ({
                let left = left_of(old(self)@.announced, consumed_byte_count as nat);
                if left.len() > 0 && !old(self)@.is_buffering {
                    &&& final(self).spec_held() == final(self)@.pending.len()
                    &&& exists|capacity: nat|
                        old(self).may_have(capacity) && old(self).spec_held() <= capacity
                            && #[trigger] is_charged(
                            capacity,
                            Seq::empty(),
                            left.len(),
                            *old(memory_limiter),
                            *final(memory_limiter),
                            memory_result(res),
                        )
                    &&& left.len() <= old(self).spec_held() ==> {
                        &&& memory_result(res) is Ok
                        &&& final(memory_limiter).spec_current_usage()
                            == old(memory_limiter).spec_current_usage()
                    }
                } else {
                    &&& final(self).spec_held() == old(self).spec_held()
                    &&& *final(memory_limiter) == *old(memory_limiter)
                }
            }),
            final(self)@.phase != SuspendedPhase::NotSuspended <==> res matches Err(
                RewritingError::Suspended,
            ),
    {
        let total: usize = self.chunk(data).len();
        self.awaited = Awaited::Input;
        self.announced = Ghost(Seq::empty());
        if consumed_byte_count < total {
            if self.has_buffered_data {
                self.buffer.shift(consumed_byte_count);
            } else {
                let left = slice_subrange(data, consumed_byte_count, data.len());
                assert(left@ =~= left_of(data@, consumed_byte_count as nat));
                let kept = self.buffer.init_with(memory_limiter, left);
                match kept {
                    Ok(_) => {
                        assert(kept->Ok_0 == ());
                        self.has_buffered_data = true;
                    },
                    Err(error) => {
                        return Err(RewritingError::MemoryLimitExceeded(error));
                    },
                }
            }
        } else {
            self.has_buffered_data = false;
        }
        if self.parser.is_suspended() {
            self.suspended = SuspendedPhase::Write;
            return Err(RewritingError::Suspended);
        }
        Ok(())
    }

    /// Takes note of why the parse of a chunk, or the final parse, failed. The input is kept as it
    /// is. A parse that was suspended did not fail.
    pub fn parse_failed(&mut self, error: RewritingError) -> (out: RewritingError)
        requires
            old(self)@.phase == SuspendedPhase::NotSuspended,
            old(self)@.awaited == Awaited::Parse || old(self)@.awaited == Awaited::FinalParse,
            !(error is Suspended),
        ensures
            out == error,
            final(self).spec_parser() == old(self).spec_parser(),
            final(self).spec_held() == old(self).spec_held(),
            final(self)@ == old(self)@.settled(SuspendedPhase::NotSuspended),
            final(self)@.phase != SuspendedPhase::NotSuspended <==> out is Suspended,
    {
        self.awaited = Awaited::Input;
        self.announced = Ghost(Seq::empty());
        error
    }

    /// Announces the end of the input.
    pub fn end(&mut self)
        requires
            old(self)@.phase == SuspendedPhase::NotSuspended,
            old(self)@.awaited == Awaited::Input,
        ensures
            final(self).spec_parser() == old(self).spec_parser(),
            final(self).spec_held() == old(self).spec_held(),
            final(self)@ == (StreamView { awaited: Awaited::FinalParse, ..old(self)@ }),
    {
        self.awaited = Awaited::FinalParse;
    }

    /// What is left of the input.
    pub fn remaining(&self) -> (chunk: &[u8])
        ensures
            chunk@ == self@.pending,
    {
        if self.has_buffered_data {
            self.buffer.bytes()
        } else {
            let nothing: &[u8] = &[];
            assert(nothing@ =~= Seq::<u8>::empty());
            nothing
        }
    }

    /// Keeps what the parse left of the input.
    fn keep_left(&mut self, consumed_byte_count: usize)
        ensures
            final(self).spec_parser() == old(self).spec_parser(),
            final(self)@ == old(self)@.with_left(
                left_of(old(self)@.pending, consumed_byte_count as nat),
                old(self)@.phase,
                Awaited::Input,
            ),
            final(self).spec_held() == old(self).spec_held(),
    {
        self.awaited = Awaited::Input;
        self.announced = Ghost(Seq::empty());
        let total: usize = self.remaining().len();
        if consumed_byte_count < total {
            self.buffer.shift(consumed_byte_count);
        } else {
            self.has_buffered_data = false;
        }
    }

    /// Takes note of how much of the rest of the input the final parse consumed.
    pub fn end_parsed(&mut self, consumed_byte_count: usize) -> (step: EndStep)
        requires
            old(self)@.phase == SuspendedPhase::NotSuspended,
            old(self)@.awaited == Awaited::FinalParse,
        ensures
            final(self).spec_parser() == old(self).spec_parser(),
            final(self)@ == old(self)@.after_end_parsed(
                consumed_byte_count as nat,
                old(self).spec_parser()@.suspension is Some,
            ),
            step == (if old(self).spec_parser()@.suspension is Some {
                EndStep::Suspended
            } else {
                EndStep::Finish
            }),
            final(self).spec_held() == old(self).spec_held(),
            final(self)@.phase != SuspendedPhase::NotSuspended <==> step == EndStep::Suspended,
    {
        if self.parser.is_suspended() {
            self.keep_left(consumed_byte_count);
            self.suspended = SuspendedPhase::EndParse;
            EndStep::Suspended
        } else {
            self.awaited = Awaited::Finish;
            EndStep::Finish
        }
    }

    /// Takes note of how finishing the document went.
    pub fn finished(&mut self, res: Result<(), RewritingError>) -> (out: Result<(), RewritingError>)
        requires
            old(self)@.phase == SuspendedPhase::NotSuspended,
            old(self)@.awaited == Awaited::Finish,
        ensures
            out == res,
            final(self).spec_held() == old(self).spec_held(),
            final(self)@.phase != SuspendedPhase::NotSuspended <==> out matches Err(
                RewritingError::Suspended,
            ),
            final(self).spec_parser() == old(self).spec_parser(),
            final(self)@ == old(self)@.settled(
                if res matches Err(RewritingError::Suspended) {
                    SuspendedPhase::Finish
                } else {
                    SuspendedPhase::NotSuspended
                },
            ),
    {
        self.awaited = Awaited::Input;
        self.announced = Ghost(Seq::empty());
        if let Err(RewritingError::Suspended) = &res {
            self.suspended = SuspendedPhase::Finish;
        }
        res
    }

    /// `true` if a content handler suspended the rewrite.
    pub fn is_suspended(&self) -> (suspended: bool)
        ensures
            suspended == (self@.phase != SuspendedPhase::NotSuspended),
    {
        !matches!(self.suspended, SuspendedPhase::NotSuspended)
    }

    /// Begins to go on with a rewrite that a content handler suspended: what is to be done for that.
    pub fn resume(&mut self) -> (step: ResumeStep)
        requires
            old(self)@.awaited == Awaited::Input,
        ensures
            final(self).spec_parser() == old(self).spec_parser(),
            final(self).spec_held() == old(self).spec_held(),
            final(self)@ == (if old(self)@.phase == SuspendedPhase::NotSuspended {
                old(self)@
            } else {
                StreamView { awaited: Awaited::Resumption, ..old(self)@ }
            }),
            step == (match old(self)@.phase {
                SuspendedPhase::NotSuspended => ResumeStep::Nothing,
                SuspendedPhase::Write => ResumeStep::Dispatch { last: false },
                SuspendedPhase::EndParse => ResumeStep::Dispatch { last: true },
                SuspendedPhase::Finish => ResumeStep::Finish,
            }),
    {
        match self.suspended {
            SuspendedPhase::NotSuspended => ResumeStep::Nothing,
            SuspendedPhase::Write => {
                self.awaited = Awaited::Resumption;
                ResumeStep::Dispatch { last: false }
            },
            SuspendedPhase::EndParse => {
                self.awaited = Awaited::Resumption;
                ResumeStep::Dispatch { last: true }
            },
            SuspendedPhase::Finish => {
                self.awaited = Awaited::Resumption;
                ResumeStep::Finish
            },
        }
    }

    /// Takes note of how much of the rest of the input the resumed parse consumed.
    pub fn resume_parsed(&mut self, consumed_byte_count: usize) -> (step: ResumedStep)
        requires
            old(self)@.phase == SuspendedPhase::Write || old(self)@.phase
                == SuspendedPhase::EndParse,
            old(self)@.awaited == Awaited::Resumption,
        ensures
            final(self).spec_parser() == old(self).spec_parser(),
            final(self)@ == old(self)@.after_resume_parsed(
                consumed_byte_count as nat,
                old(self).spec_parser()@.suspension is Some,
            ),
            step == (if old(self).spec_parser()@.suspension is Some {
                ResumedStep::Suspended
            } else if old(self)@.phase == SuspendedPhase::EndParse {
                ResumedStep::Finish
            } else {
                ResumedStep::Done
            }),
            final(self).spec_held() == old(self).spec_held(),
            final(self)@.phase != SuspendedPhase::NotSuspended <==> step == ResumedStep::Suspended,
    {
        let last = matches!(self.suspended, SuspendedPhase::EndParse);
        self.keep_left(consumed_byte_count);
        if self.parser.is_suspended() {
            return ResumedStep::Suspended;
        }
        self.suspended = SuspendedPhase::NotSuspended;
        if last {
            self.awaited = Awaited::Finish;
            ResumedStep::Finish
        } else {
            ResumedStep::Done
        }
    }

    /// Takes note of why the suspended dispatch, or the resumed parse, did not come to its end. Only
    /// where that is another suspension the rewrite stays suspended.
    pub fn resume_failed(&mut self, error: RewritingError) -> (out: RewritingError)
        requires
            old(self)@.phase == SuspendedPhase::Write || old(self)@.phase
                == SuspendedPhase::EndParse,
            old(self)@.awaited == Awaited::Resumption,
        ensures
            out == error,
            final(self).spec_parser() == old(self).spec_parser(),
            final(self).spec_held() == old(self).spec_held(),
            final(self)@ == old(self)@.settled(
                if error is Suspended {
                    old(self)@.phase
                } else {
                    SuspendedPhase::NotSuspended
                },
            ),
            final(self)@.phase != SuspendedPhase::NotSuspended <==> out is Suspended,
    {
        self.awaited = Awaited::Input;
        self.announced = Ghost(Seq::empty());
        if !matches!(&error, RewritingError::Suspended) {
            self.suspended = SuspendedPhase::NotSuspended;
        }
        error
    }

    /// Takes note of how completing the end of the document went.
    pub fn finish_resumed(&mut self, res: Result<(), RewritingError>) -> (out: Result<
        (),
        RewritingError,
    >)
        requires
            old(self)@.phase == SuspendedPhase::Finish,
            old(self)@.awaited == Awaited::Resumption,
        ensures
            out == res,
            final(self).spec_held() == old(self).spec_held(),
            final(self)@.phase != SuspendedPhase::NotSuspended <==> out matches Err(
                RewritingError::Suspended,
            ),
            final(self).spec_parser() == old(self).spec_parser(),
            final(self)@ == old(self)@.settled(
                if res matches Err(RewritingError::Suspended) {
                    SuspendedPhase::Finish
                } else {
                    SuspendedPhase::NotSuspended
                },
            ),
    {
        self.awaited = Awaited::Input;
        self.announced = Ghost(Seq::empty());
        if !matches!(&res, Err(RewritingError::Suspended)) {
            self.suspended = SuspendedPhase::NotSuspended;
        }
        res
    }
}

/// How the attempt to allocate went, given how the write went.
pub open spec fn memory_result(res: Result<(), RewritingError>) -> Result<
    (),
    MemoryLimitExceededError,
> {
    match res {
        Err(RewritingError::MemoryLimitExceeded(error)) => Err(error),
        _ => Ok(()),
    }
}

} // verus!
