use super::transform_stream::{
    left_of, Awaited, EndStep, ResumeStep, ResumedStep, StreamView, SuspendedPhase,
    TransformStream,
};
use crate::memory::limiter::SharedMemoryLimiter;
use crate::parser::parser::{after_all, consumed_by, ActionError, ParserView};
use crate::rewriter::errors::RewritingError;
use vstd::prelude::*;

verus! {

/// A parse: the input that came before it, and how much the parse consumed. Where a rewrite is
/// resumed, no input comes.
pub struct Parse {
    pub data: Seq<u8>,
    pub consumed: nat,
}

/// The input that is left after some parses, each of what was left before and what came.
pub open spec fn left_after(pending: Seq<u8>, parses: Seq<Parse>) -> Seq<u8>
    decreases parses.len(),
{
    if parses.len() == 0 {
        pending
    } else {
        left_of(
            left_after(pending, parses.drop_last()) + parses.last().data,
            parses.last().consumed,
        )
    }
}

/// What some parses consumed, one after the other.
pub open spec fn consumed_in(pending: Seq<u8>, parses: Seq<Parse>) -> Seq<u8>
    decreases parses.len(),
{
    if parses.len() == 0 {
        Seq::empty()
    } else {
        consumed_in(pending, parses.drop_last()) + (left_after(pending, parses.drop_last())
            + parses.last().data).take(parses.last().consumed as int)
    }
}

/// The input that came before some parses.
pub open spec fn input_of(parses: Seq<Parse>) -> Seq<u8>
    decreases parses.len(),
{
    if parses.len() == 0 {
        Seq::empty()
    } else {
        input_of(parses.drop_last()) + parses.last().data
    }
}

/// Whether no parse consumed more than it was given.
pub open spec fn is_possible(pending: Seq<u8>, parses: Seq<Parse>) -> bool
    decreases parses.len(),
{
    parses.len() > 0 ==> {
        &&& is_possible(pending, parses.drop_last())
        &&& parses.last().consumed <= (left_after(pending, parses.drop_last())
            + parses.last().data).len()
    }
}

/// The input is consumed in order, and no byte of it is lost or seen twice, however it is cut into
/// chunks and however often the rewrite is suspended: what was consumed, and then what is left, is
/// what came.
pub proof fn law_no_byte_is_lost(pending: Seq<u8>, parses: Seq<Parse>)
    requires
        is_possible(pending, parses),
    ensures
        consumed_in(pending, parses) + left_after(pending, parses) == pending + input_of(parses),
    decreases parses.len(),
{
    if parses.len() == 0 {
        assert(consumed_in(pending, parses) + left_after(pending, parses) =~= pending + input_of(
            parses,
        ));
    } else {
        let earlier = parses.drop_last();
        let parse = parses.last();
        law_no_byte_is_lost(pending, earlier);
        let chunk = left_after(pending, earlier) + parse.data;
        assert(chunk.take(parse.consumed as int) + left_of(chunk, parse.consumed) =~= chunk);
        assert(consumed_in(pending, parses) + left_after(pending, parses) =~= consumed_in(
            pending,
            earlier,
        ) + chunk);
        assert(consumed_in(pending, earlier) + chunk =~= (consumed_in(pending, earlier)
            + left_after(pending, earlier)) + parse.data);
        assert(pending + input_of(parses) =~= (pending + input_of(earlier)) + parse.data);
    }
}

/// How many bytes some parses consumed.
pub open spec fn position_after(parses: Seq<Parse>) -> nat
    decreases parses.len(),
{
    if parses.len() == 0 {
        0
    } else {
        position_after(parses.drop_last()) + parses.last().consumed
    }
}

proof fn lemma_position_is_what_was_consumed(pending: Seq<u8>, parses: Seq<Parse>)
    requires
        is_possible(pending, parses),
    ensures
        consumed_in(pending, parses).len() == position_after(parses),
    decreases parses.len(),
{
    if parses.len() > 0 {
        lemma_position_is_what_was_consumed(pending, parses.drop_last());
    }
}

/// Positions are places in the document: when some parses have consumed so many bytes, byte `i` of
/// what is parsed next is byte `i` behind those of the document. And what the next parse consumes
/// moves the position by just that, within what it was given.
pub proof fn law_positions_are_places_in_the_document(parses: Seq<Parse>, next: Parse)
    requires
        is_possible(Seq::empty(), parses.push(next)),
    ensures
        ({
            let chunk = left_after(Seq::empty(), parses) + next.data;
            let document = input_of(parses.push(next));
            &&& document.len() == position_after(parses) + chunk.len()
            &&& forall|i: int|
                0 <= i < chunk.len() ==> #[trigger] document[position_after(parses) + i] == chunk[i]
            &&& position_after(parses.push(next)) == position_after(parses) + next.consumed
            &&& position_after(parses.push(next)) <= document.len()
        }),
{
    let all = parses.push(next);
    let nothing = Seq::<u8>::empty();
    assert(all.drop_last() =~= parses);
    lemma_position_is_what_was_consumed(nothing, parses);
    law_no_byte_is_lost(nothing, parses);
    let chunk = left_after(nothing, parses) + next.data;
    assert(nothing + input_of(parses) =~= input_of(parses));
    assert(input_of(all) =~= consumed_in(nothing, parses) + chunk);
}

/// A parser that started at the start of the document is at the position of the parses: it counts
/// what is parsed next from there.
pub proof fn law_parser_is_at_the_position<B>(
    parser: ParserView<B>,
    reasons: Seq<ActionError<B>>,
    parses: Seq<Parse>,
)
    requires
        parser.consumed == 0,
        reasons.len() == parses.len(),
        forall|i: int|
            0 <= i < parses.len() ==> consumed_by(reasons[i]) == (#[trigger] parses[i]).consumed,
    ensures
        after_all(parser, reasons).consumed == position_after(parses),
    decreases parses.len(),
{
    if parses.len() > 0 {
        let earlier = parses.drop_last();
        let earlier_reasons = reasons.drop_last();
        assert forall|i: int| 0 <= i < earlier.len() implies consumed_by(earlier_reasons[i]) == (
        #[trigger] earlier[i]).consumed by {
            assert(parses[i] == earlier[i]);
        }
        law_parser_is_at_the_position(parser, earlier_reasons, earlier);
        assert(consumed_by(reasons.last()) == parses[parses.len() - 1].consumed);
    }
}

/// Whether a parse may lead a stream from one state to another: that of a chunk which was announced
/// in the first state, or a resumed one, for which no input comes. How a parse went is taken note of
/// before anything else is announced.
pub open spec fn is_parse(before: StreamView, parse: Parse, after: StreamView) -> bool {
    &&& before.awaited == Awaited::Input
    &&& exists|is_suspended: bool|
        {
            ||| before.phase == SuspendedPhase::NotSuspended && after
                == #[trigger] before.after_write(parse.data).after_write_parsed(
                parse.consumed,
                is_suspended,
            )
            ||| {
                &&& before.phase == SuspendedPhase::Write || before.phase
                    == SuspendedPhase::EndParse
                &&& parse.data == Seq::<u8>::empty()
                &&& after == (StreamView {
                    awaited: Awaited::Resumption,
                    ..before
                }).after_resume_parsed(parse.consumed, is_suspended)
            }
        }
}

/// A parse leaves of the input what it did not consume.
proof fn lemma_parse_leaves_the_rest(before: StreamView, parse: Parse, after: StreamView)
    requires
        is_parse(before, parse, after),
    ensures
        after.pending == left_of(before.pending + parse.data, parse.consumed),
{
    assert(parse.data.len() == 0 ==> before.pending + parse.data =~= before.pending);
}

/// However a stream is driven through chunks, suspensions and resumptions, it parses the input in
/// order and keeps exactly what was not consumed: no byte of the input is lost or seen twice.
pub proof fn law_stream_keeps_every_byte(states: Seq<StreamView>, parses: Seq<Parse>)
    requires
        states.len() == parses.len() + 1,
        forall|i: int|
            #![trigger parses[i]]
            0 <= i < parses.len() ==> is_parse(states[i], parses[i], states[i + 1]),
        is_possible(states[0].pending, parses),
    ensures
        states.last().pending == left_after(states[0].pending, parses),
        consumed_in(states[0].pending, parses) + states.last().pending == states[0].pending
            + input_of(parses),
{
    lemma_stream_is_at_the_rest(states, parses);
    law_no_byte_is_lost(states[0].pending, parses);
}

proof fn lemma_stream_is_at_the_rest(states: Seq<StreamView>, parses: Seq<Parse>)
    requires
        states.len() == parses.len() + 1,
        forall|i: int|
            #![trigger parses[i]]
            0 <= i < parses.len() ==> is_parse(states[i], parses[i], states[i + 1]),
    ensures
        states.last().pending == left_after(states[0].pending, parses),
    decreases parses.len(),
{
    if parses.len() > 0 {
        let earlier = parses.drop_last();
        let earlier_states = states.drop_last();
        let n = parses.len() - 1;
        assert forall|i: int| #![trigger earlier[i]] 0 <= i < earlier.len() implies is_parse(
            earlier_states[i],
            earlier[i],
            earlier_states[i + 1],
        ) by {
            assert(is_parse(states[i], parses[i], states[i + 1]));
        }
        lemma_stream_is_at_the_rest(earlier_states, earlier);
        assert(is_parse(states[n], parses[n], states[n + 1]));
        lemma_parse_leaves_the_rest(states[n], parses[n], states[n + 1]);
    }
}

/// How a call that drives a stream ends: with more to be done before the caller is answered, or with
/// the answer.
pub enum Reply {
    Pending,
    Answered(Result<(), RewritingError>),
}

/// Whether an answer tells the caller that the rewrite is suspended.
pub open spec fn tells_suspension(res: Result<(), RewritingError>) -> bool {
    res matches Err(RewritingError::Suspended)
}

/// Where a finished or resumed document leaves a stream.
pub open spec fn finish_phase(res: Result<(), RewritingError>) -> SuspendedPhase {
    if tells_suspension(res) {
        SuspendedPhase::Finish
    } else {
        SuspendedPhase::NotSuspended
    }
}

/// Whether a call while no step is awaited may lead a stream from one state to another with some
/// reply: a chunk, the end of the input, or the resumption is announced, the chunk is refused for
/// want of memory, or there is nothing to resume.
pub open spec fn is_announcement(before: StreamView, reply: Reply, after: StreamView) -> bool {
    &&& before.awaited == Awaited::Input
    &&& {
        ||| {
            &&& before.phase == SuspendedPhase::NotSuspended
            &&& reply is Pending
            &&& exists|data: Seq<u8>| after == #[trigger] before.after_write(data)
        }
        ||| {
            &&& before.phase == SuspendedPhase::NotSuspended
            &&& reply matches Reply::Answered(res) && res matches Err(error)
                && error is MemoryLimitExceeded
            &&& after == before
        }
        ||| {
            &&& before.phase == SuspendedPhase::NotSuspended
            &&& reply is Pending
            &&& after == (StreamView { awaited: Awaited::FinalParse, ..before })
        }
        ||| {
            &&& before.phase == SuspendedPhase::NotSuspended
            &&& reply matches Reply::Answered(res) && res is Ok
            &&& after == before
        }
        ||| {
            &&& before.phase != SuspendedPhase::NotSuspended
            &&& reply is Pending
            &&& after == (StreamView { awaited: Awaited::Resumption, ..before })
        }
    }
}

/// Whether a call that takes note of how a parse of new input went may lead a stream from one state
/// to another with some reply.
pub open spec fn is_parse_noted(before: StreamView, reply: Reply, after: StreamView) -> bool {
    &&& before.phase == SuspendedPhase::NotSuspended
    &&& {
        ||| {
            &&& before.awaited == Awaited::Parse
            &&& exists|consumed: nat, is_suspended: bool|
                {
                    &&& after == #[trigger] before.after_write_parsed(consumed, is_suspended)
                    &&& reply == Reply::Answered(
                        if is_suspended {
                            Err::<(), RewritingError>(RewritingError::Suspended)
                        } else {
                            Ok(())
                        },
                    )
                }
        }
        ||| {
            &&& before.awaited == Awaited::Parse || before.awaited == Awaited::FinalParse
            &&& reply matches Reply::Answered(res) && res is Err && !tells_suspension(res)
            &&& after == before.settled(SuspendedPhase::NotSuspended)
        }
        ||| {
            &&& before.awaited == Awaited::FinalParse
            &&& exists|consumed: nat, is_suspended: bool|
                {
                    &&& after == #[trigger] before.after_end_parsed(consumed, is_suspended)
                    &&& reply == (if is_suspended {
                        Reply::Answered(Err::<(), RewritingError>(RewritingError::Suspended))
                    } else {
                        Reply::Pending
                    })
                }
        }
    }
}

/// Whether a call that takes note of how a resumption, or finishing the document, went may lead a
/// stream from one state to another with some reply.
pub open spec fn is_rest_noted(before: StreamView, reply: Reply, after: StreamView) -> bool {
    ||| {
        &&& before.awaited == Awaited::Finish
        &&& before.phase == SuspendedPhase::NotSuspended
        &&& reply matches Reply::Answered(res) && after == before.settled(finish_phase(res))
    }
    ||| {
        &&& before.awaited == Awaited::Resumption
        &&& before.phase == SuspendedPhase::Finish
        &&& reply matches Reply::Answered(res) && after == before.settled(finish_phase(res))
    }
    ||| {
        &&& before.awaited == Awaited::Resumption
        &&& before.phase == SuspendedPhase::Write || before.phase == SuspendedPhase::EndParse
        &&& reply matches Reply::Answered(res) && res is Err && after == before.settled(
            if tells_suspension(res) {
                before.phase
            } else {
                SuspendedPhase::NotSuspended
            },
        )
    }
    ||| {
        &&& before.awaited == Awaited::Resumption
        &&& before.phase == SuspendedPhase::Write || before.phase == SuspendedPhase::EndParse
        &&& exists|consumed: nat, is_suspended: bool|
            {
                &&& after == #[trigger] before.after_resume_parsed(consumed, is_suspended)
                &&& reply == (if is_suspended {
                    Reply::Answered(Err::<(), RewritingError>(RewritingError::Suspended))
                } else if before.phase == SuspendedPhase::EndParse {
                    Reply::Pending
                } else {
                    Reply::Answered(Ok(()))
                })
            }
    }
}

/// Whether some call that drives a stream may lead it from one state to another with some reply.
pub open spec fn is_driven(before: StreamView, reply: Reply, after: StreamView) -> bool {
    ||| is_announcement(before, reply, after)
    ||| is_parse_noted(before, reply, after)
    ||| is_rest_noted(before, reply, after)
}

/// However a stream is driven, it is suspended just when the last answer was that it is.
pub proof fn law_suspended_just_when_told(states: Seq<StreamView>, replies: Seq<Reply>)
    requires
        states.len() == replies.len() + 1,
        states[0].awaited == Awaited::Input,
        states[0].phase == SuspendedPhase::NotSuspended,
        forall|i: int|
            #![trigger replies[i]]
            0 <= i < replies.len() ==> is_driven(states[i], replies[i], states[i + 1]),
    ensures
        forall|i: int|
            #![trigger replies[i]]
            0 <= i < replies.len() ==> (replies[i] matches Reply::Answered(res) ==> {
                &&& states[i + 1].awaited == Awaited::Input
                &&& states[i + 1].phase != SuspendedPhase::NotSuspended <==> tells_suspension(res)
            }),
{
    assert forall|i: int|
        #![trigger replies[i]]
        0 <= i < replies.len() implies (replies[i] matches Reply::Answered(res) ==> {
        &&& states[i + 1].awaited == Awaited::Input
        &&& states[i + 1].phase != SuspendedPhase::NotSuspended <==> tells_suspension(res)
    }) by {
        assert(is_driven(states[i], replies[i], states[i + 1]));
    }
}

/// Whether a stream holds just the rest of some input: what is behind the bytes that were consumed, or
/// nothing where all were.
pub open spec fn holds_rest(stream: StreamView, input: Seq<u8>, consumed: nat) -> bool {
    &&& stream.pending.len() == (if consumed < input.len() {
        input.len() - consumed
    } else {
        0
    })
    &&& forall|i: int|
        0 <= i < stream.pending.len() ==> #[trigger] stream.pending[i] == input[consumed + i]
    &&& stream.is_buffering <==> stream.pending.len() > 0
}

/// What is parsed of a chunk is all that was left of the input before, and then the new input.
pub proof fn law_chunk_is_the_rest_and_the_new_input(before: StreamView, data: Seq<u8>)
    requires
        before.is_buffering <==> before.pending.len() > 0,
    ensures
        ({
            let announced = before.after_write(data);
            let chunk = announced.chunk(data);
            &&& chunk.len() == before.pending.len() + data.len()
            &&& forall|i: int|
                0 <= i < chunk.len() ==> #[trigger] chunk[i] == (if i < before.pending.len() {
                    before.pending[i]
                } else {
                    data[i - before.pending.len()]
                })
            &&& announced.announced == chunk
            &&& announced.awaited == Awaited::Parse
            &&& announced.phase == before.phase
        }),
{
    let announced = before.after_write(data);
    assert(announced.chunk(data) =~= before.pending + data);
}

/// After the parse of a chunk the stream holds what the parse left, waits for more input, and is
/// suspended in the middle of a write exactly if the parse was.
pub proof fn law_write_leaves_the_rest(
    before: StreamView,
    data: Seq<u8>,
    consumed: nat,
    is_suspended: bool,
)
    ensures
        ({
            let after = before.after_write(data).after_write_parsed(consumed, is_suspended);
            &&& holds_rest(after, before.pending + data, consumed)
            &&& after.awaited == Awaited::Input
            &&& after.announced == Seq::<u8>::empty()
            &&& after.phase == (if is_suspended {
                SuspendedPhase::Write
            } else {
                SuspendedPhase::NotSuspended
            })
        }),
{
}

/// After the final parse the document is to be finished, with all of the rest of the input. Where the
/// parse was suspended, the stream holds what it left and is suspended at the end of the input.
pub proof fn law_end_leaves_the_rest(before: StreamView, consumed: nat, is_suspended: bool)
    ensures
        ({
            let after = before.after_end_parsed(consumed, is_suspended);
            if is_suspended {
                &&& holds_rest(after, before.pending, consumed)
                &&& after.awaited == Awaited::Input
                &&& after.phase == SuspendedPhase::EndParse
            } else {
                &&& after.pending == before.pending
                &&& after.is_buffering == before.is_buffering
                &&& after.awaited == Awaited::Finish
                &&& after.phase == before.phase
            }
        }),
{
}

/// After a resumed parse the stream holds what it left. Suspended again, it is in the stage that it
/// was in; otherwise it is not suspended, and after the final parse the document is to be finished.
pub proof fn law_resumed_parse_leaves_the_rest(
    before: StreamView,
    consumed: nat,
    is_suspended: bool,
)
    ensures
        ({
            let after = before.after_resume_parsed(consumed, is_suspended);
            &&& holds_rest(after, before.pending, consumed)
            &&& after.phase == (if is_suspended {
                before.phase
            } else {
                SuspendedPhase::NotSuspended
            })
            &&& after.awaited == Awaited::Finish <==> !is_suspended && before.phase
                == SuspendedPhase::EndParse
            &&& after.awaited == Awaited::Finish || after.awaited == Awaited::Input
            &&& after.announced == Seq::<u8>::empty()
        }),
{
}

/// Where a step fails, the input stays as it is, and nothing is awaited but input.
pub proof fn law_settled_stream_keeps_its_input(before: StreamView, phase: SuspendedPhase)
    ensures
        before.settled(phase).pending == before.pending,
        before.settled(phase).is_buffering == before.is_buffering,
        before.settled(phase).phase == phase,
        before.settled(phase).awaited == Awaited::Input,
        before.settled(phase).announced == Seq::<u8>::empty(),
{
}

/// A stream is suspended exactly if it is in some stage of a suspension, and what is to be done to
/// resume it goes by the stage: after a suspended write the rest of the chunk is parsed, after a
/// suspended end the last of the input, and at the end of the document that is completed.
pub proof fn law_resumption_goes_by_the_stage<C, O, B>(step: ResumeStep)
    ensures
        forall|stream: &mut TransformStream<C, O, B>|
            #[trigger] call_ensures(TransformStream::<C, O, B>::resume, (stream,), step) ==> {
                let before = stream@;
                let after = (*final(stream))@;
                &&& step == ResumeStep::Nothing <==> before.phase == SuspendedPhase::NotSuspended
                &&& step == (ResumeStep::Dispatch { last: false }) <==> before.phase
                    == SuspendedPhase::Write
                &&& step == (ResumeStep::Dispatch { last: true }) <==> before.phase
                    == SuspendedPhase::EndParse
                &&& step == ResumeStep::Finish <==> before.phase == SuspendedPhase::Finish
                &&& after.pending == before.pending
                &&& after.phase == before.phase
                &&& step != ResumeStep::Nothing ==> after.awaited == Awaited::Resumption
            },
        forall|stream: TransformStream<C, O, B>, suspended: bool|
            #[trigger] call_ensures(TransformStream::<C, O, B>::is_suspended, (&stream,), suspended)
                ==> suspended == (stream@.phase != SuspendedPhase::NotSuspended),
{
}

/// How finishing the document went is what the caller is told, and the document can be resumed
/// exactly if that is a suspension.
pub proof fn law_finishing_is_told<C, O, B>(
    res: Result<(), RewritingError>,
    out: Result<(), RewritingError>,
)
    ensures
        forall|stream: &mut TransformStream<C, O, B>|
            #[trigger] call_ensures(TransformStream::<C, O, B>::finished, (stream, res), out) ==> {
                let after = (*final(stream))@;
                &&& out == res
                &&& after.phase == SuspendedPhase::Finish <==> (res matches Err(
                    RewritingError::Suspended,
                ))
                &&& after.phase == SuspendedPhase::Finish || after.phase
                    == SuspendedPhase::NotSuspended
                &&& after.awaited == Awaited::Input
            },
        forall|stream: &mut TransformStream<C, O, B>|
            #[trigger] call_ensures(
                TransformStream::<C, O, B>::finish_resumed,
                (stream, res),
                out,
            ) ==> {
                let after = (*final(stream))@;
                &&& out == res
                &&& after.phase == SuspendedPhase::Finish <==> (res matches Err(
                    RewritingError::Suspended,
                ))
                &&& after.phase == SuspendedPhase::Finish || after.phase
                    == SuspendedPhase::NotSuspended
                &&& after.awaited == Awaited::Input
            },
{
}

/// A failure is what the caller is told. A resumption that fails otherwise than by a suspension is over,
/// and one that is suspended stays in its stage.
pub proof fn law_failures_are_told<C, O, B>(error: RewritingError, out: RewritingError)
    ensures
        forall|stream: &mut TransformStream<C, O, B>|
            #[trigger] call_ensures(
                TransformStream::<C, O, B>::resume_failed,
                (stream, error),
                out,
            ) ==> {
                let before = stream@;
                let after = (*final(stream))@;
                &&& out == error
                &&& after.phase == (if error == RewritingError::Suspended {
                    before.phase
                } else {
                    SuspendedPhase::NotSuspended
                })
                &&& after.pending == before.pending
                &&& after.awaited == Awaited::Input
            },
        forall|stream: &mut TransformStream<C, O, B>|
            #[trigger] call_ensures(
                TransformStream::<C, O, B>::parse_failed,
                (stream, error),
                out,
            ) ==> {
                let before = stream@;
                let after = (*final(stream))@;
                &&& out == error
                &&& after.phase == SuspendedPhase::NotSuspended
                &&& after.pending == before.pending
                &&& after.awaited == Awaited::Input
            },
{
}

/// A write announces all that is left of the input, and then the new input; it is refused only for want
/// of memory, and changes nothing then. After the parse of what was announced the stream holds what
/// the parse left, and the caller is told of a suspension exactly if the parser is suspended, unless
/// there is no memory for the rest.
pub proof fn law_write_and_its_parse<C, O, B>(
    data: &[u8],
    consumed: usize,
    res: Result<(), RewritingError>,
)
    ensures
        forall|stream: &mut TransformStream<C, O, B>, limiter: &mut SharedMemoryLimiter|
            #[trigger] call_ensures(
                TransformStream::<C, O, B>::write,
                (stream, limiter, data),
                res,
            ) ==> {
                let before = stream@;
                let after = (*final(stream))@;
                &&& res is Ok ==> after.announced == before.pending + data@ && after.chunk(data@)
                    == before.pending + data@ && after.awaited == Awaited::Parse && after.phase
                    == before.phase
                &&& res matches Err(error) ==> error is MemoryLimitExceeded && after == before
                &&& !before.is_buffering ==> res is Ok
            },
        forall|stream: &mut TransformStream<C, O, B>, limiter: &mut SharedMemoryLimiter|
            #[trigger] call_ensures(
                TransformStream::<C, O, B>::write_parsed,
                (stream, limiter, data, consumed),
                res,
            ) ==> {
                let before = stream@;
                let after = (*final(stream))@;
                let is_suspended = stream.spec_parser()@.suspension is Some;
                match res {
                    Ok(_) => holds_rest(after, before.announced, consumed as nat) && !is_suspended
                        && after.phase == SuspendedPhase::NotSuspended,
                    Err(RewritingError::Suspended) => holds_rest(
                        after,
                        before.announced,
                        consumed as nat,
                    ) && is_suspended && after.phase == SuspendedPhase::Write,
                    Err(RewritingError::MemoryLimitExceeded(_)) => consumed < before.announced.len()
                        && !before.is_buffering && after.phase == SuspendedPhase::NotSuspended,
                    Err(_) => false,
                }
            },
{
    assert forall|stream: &mut TransformStream<C, O, B>, limiter: &mut SharedMemoryLimiter|
        #[trigger] call_ensures(
            TransformStream::<C, O, B>::write,
            (stream, limiter, data),
            res,
        ) && res is Ok implies (*final(stream))@.announced == stream@.pending + data@ by {
        assert((*final(stream))@ == stream@.after_write(data@));
    }
}

/// After the final parse, and after a resumed one, the stream is suspended exactly if the parser is, and
/// then holds what the parse left. What is to be done next goes by that, and by whether the input has
/// ended.
pub proof fn law_parses_are_taken_note_of<C, O, B>(
    consumed: usize,
    end: EndStep,
    resumed: ResumedStep,
)
    ensures
        forall|stream: &mut TransformStream<C, O, B>|
            #[trigger] call_ensures(
                TransformStream::<C, O, B>::end_parsed,
                (stream, consumed),
                end,
            ) && stream@.phase == SuspendedPhase::NotSuspended ==> {
                let before = stream@;
                let after = (*final(stream))@;
                let is_suspended = stream.spec_parser()@.suspension is Some;
                &&& end == EndStep::Suspended <==> is_suspended
                &&& is_suspended ==> holds_rest(after, before.pending, consumed as nat)
                    && after.phase == SuspendedPhase::EndParse
                &&& !is_suspended ==> after.pending == before.pending && after.awaited
                    == Awaited::Finish && after.phase == SuspendedPhase::NotSuspended
            },
        forall|stream: &mut TransformStream<C, O, B>|
            #[trigger] call_ensures(
                TransformStream::<C, O, B>::resume_parsed,
                (stream, consumed),
                resumed,
            ) ==> {
                let before = stream@;
                let after = (*final(stream))@;
                let is_suspended = stream.spec_parser()@.suspension is Some;
                &&& holds_rest(after, before.pending, consumed as nat)
                &&& resumed == ResumedStep::Suspended <==> is_suspended
                &&& resumed == ResumedStep::Finish <==> !is_suspended && before.phase
                    == SuspendedPhase::EndParse
                &&& after.phase == (if is_suspended {
                    before.phase
                } else {
                    SuspendedPhase::NotSuspended
                })
            },
{
}

} // verus!
