use super::dispatcher_laws::{law_suspension_parks_the_token, taken_out};
use super::dispatcher_model::{handed_back, mapped, parked, DescriptorView, DispatcherView, Outcome};
use super::handler_vec::{first_active, is_run, is_tail_run};
use super::handlers::{HandlerError, HandlerResult, Interruption};
use super::run_laws::{
    could_go_on, could_go_on_once, law_resumed_run_is_one_run, law_resumed_tail_run_is_one_run,
};
use super::units::{Element, HandlerTypes, StartTag, SuspendedToken, Token};
use vstd::prelude::*;

verus! {

proof fn lemma_resumed_text<H: HandlerTypes>(
    before: DispatcherView<H>,
    chunk: H::TextChunk,
    stopped: DispatcherView<H>,
    unit_stopped: H::TextChunk,
    stop: usize,
    unit_resumed: H::TextChunk,
    after: DispatcherView<H>,
    res: Outcome<H::TextChunk, H>,
)
    requires
        before.suspended is None,
        before.is_text_outcome(
            chunk,
            0,
            stopped,
            Err::<H::TextChunk, Interruption<H::TextChunk, H::Failure>>(Interruption::Suspended),
        ),
        stopped.suspended == Some(
            SuspendedToken::<H>::TextChunk { chunk: Box::new(unit_stopped), next_handler_idx: stop },
        ),
        could_go_on::<H::TextChunk, H::Failure, H::TextHandler>(
            unit_stopped,
            unit_resumed,
            HandlerError::Suspension,
        ),
        taken_out(stopped).is_text_outcome(unit_resumed, stop as nat, after, res),
    ensures
        before.is_text_outcome(chunk, 0, after, res),
{
    let taken = taken_out(stopped);
    let (first, next, run) = choose|
        first: H::TextChunk,
        next: usize,
        run: HandlerResult<H::Failure>,
    |
        {
            &&& #[trigger] is_run(
                false,
                before.text,
                0,
                chunk,
                stopped.text,
                first,
                next as nat,
                run,
            )
            &&& Err::<H::TextChunk, Interruption<H::TextChunk, H::Failure>>(Interruption::Suspended)
                == handed_back(run, first)
            &&& stopped == (DispatcherView {
                text: stopped.text,
                suspended: parked(
                    run,
                    SuspendedToken::TextChunk { chunk: Box::new(first), next_handler_idx: next },
                    before.suspended,
                ),
                ..before
            })
        };
    let (second, last, rest) = choose|
        second: H::TextChunk,
        last: usize,
        rest: HandlerResult<H::Failure>,
    |
        {
            &&& #[trigger] is_run(
                false,
                taken.text,
                stop as nat,
                unit_resumed,
                after.text,
                second,
                last as nat,
                rest,
            )
            &&& res == handed_back(rest, second)
            &&& after == (DispatcherView {
                text: after.text,
                suspended: parked(
                    rest,
                    SuspendedToken::TextChunk { chunk: Box::new(second), next_handler_idx: last },
                    taken.suspended,
                ),
                ..taken
            })
        };
    law_resumed_run_is_one_run(
        false,
        before.text,
        0,
        chunk,
        stopped.text,
        unit_stopped,
        stop as nat,
        HandlerError::Suspension,
        unit_resumed,
        after.text,
        second,
        last as nat,
        rest,
    );
}

proof fn lemma_resumed_comment<H: HandlerTypes>(
    before: DispatcherView<H>,
    comment: H::Comment,
    stopped: DispatcherView<H>,
    unit_stopped: H::Comment,
    stop: usize,
    unit_resumed: H::Comment,
    after: DispatcherView<H>,
    res: Outcome<H::Comment, H>,
)
    requires
        before.suspended is None,
        before.is_comment_outcome(
            comment,
            0,
            stopped,
            Err::<H::Comment, Interruption<H::Comment, H::Failure>>(Interruption::Suspended),
        ),
        stopped.suspended == Some(
            SuspendedToken::<H>::Comment { comment: Box::new(unit_stopped), next_handler_idx: stop },
        ),
        could_go_on::<H::Comment, H::Failure, H::CommentHandler>(
            unit_stopped,
            unit_resumed,
            HandlerError::Suspension,
        ),
        taken_out(stopped).is_comment_outcome(unit_resumed, stop as nat, after, res),
    ensures
        before.is_comment_outcome(comment, 0, after, res),
{
    let taken = taken_out(stopped);
    let (first, next, run) = choose|
        first: H::Comment,
        next: usize,
        run: HandlerResult<H::Failure>,
    |
        {
            &&& #[trigger] is_run(
                false,
                before.comment,
                0,
                comment,
                stopped.comment,
                first,
                next as nat,
                run,
            )
            &&& Err::<H::Comment, Interruption<H::Comment, H::Failure>>(Interruption::Suspended)
                == handed_back(run, first)
            &&& stopped == (DispatcherView {
                comment: stopped.comment,
                suspended: parked(
                    run,
                    SuspendedToken::Comment { comment: Box::new(first), next_handler_idx: next },
                    before.suspended,
                ),
                ..before
            })
        };
    let (second, last, rest) = choose|
        second: H::Comment,
        last: usize,
        rest: HandlerResult<H::Failure>,
    |
        {
            &&& #[trigger] is_run(
                false,
                taken.comment,
                stop as nat,
                unit_resumed,
                after.comment,
                second,
                last as nat,
                rest,
            )
            &&& res == handed_back(rest, second)
            &&& after == (DispatcherView {
                comment: after.comment,
                suspended: parked(
                    rest,
                    SuspendedToken::Comment { comment: Box::new(second), next_handler_idx: last },
                    taken.suspended,
                ),
                ..taken
            })
        };
    law_resumed_run_is_one_run(
        false,
        before.comment,
        0,
        comment,
        stopped.comment,
        unit_stopped,
        stop as nat,
        HandlerError::Suspension,
        unit_resumed,
        after.comment,
        second,
        last as nat,
        rest,
    );
}

proof fn lemma_resumed_doctype<H: HandlerTypes>(
    before: DispatcherView<H>,
    doctype: H::Doctype,
    stopped: DispatcherView<H>,
    unit_stopped: H::Doctype,
    stop: usize,
    unit_resumed: H::Doctype,
    after: DispatcherView<H>,
    res: Outcome<H::Doctype, H>,
)
    requires
        before.suspended is None,
        before.is_doctype_outcome(
            doctype,
            0,
            stopped,
            Err::<H::Doctype, Interruption<H::Doctype, H::Failure>>(Interruption::Suspended),
        ),
        stopped.suspended == Some(
            SuspendedToken::<H>::Doctype { doctype: Box::new(unit_stopped), next_handler_idx: stop },
        ),
        could_go_on::<H::Doctype, H::Failure, H::DoctypeHandler>(
            unit_stopped,
            unit_resumed,
            HandlerError::Suspension,
        ),
        taken_out(stopped).is_doctype_outcome(unit_resumed, stop as nat, after, res),
    ensures
        before.is_doctype_outcome(doctype, 0, after, res),
{
    let taken = taken_out(stopped);
    let (first, next, run) = choose|
        first: H::Doctype,
        next: usize,
        run: HandlerResult<H::Failure>,
    |
        {
            &&& #[trigger] is_run(
                false,
                before.doctype,
                0,
                doctype,
                stopped.doctype,
                first,
                next as nat,
                run,
            )
            &&& Err::<H::Doctype, Interruption<H::Doctype, H::Failure>>(Interruption::Suspended)
                == handed_back(run, first)
            &&& stopped == (DispatcherView {
                doctype: stopped.doctype,
                suspended: parked(
                    run,
                    SuspendedToken::Doctype { doctype: Box::new(first), next_handler_idx: next },
                    before.suspended,
                ),
                ..before
            })
        };
    let (second, last, rest) = choose|
        second: H::Doctype,
        last: usize,
        rest: HandlerResult<H::Failure>,
    |
        {
            &&& #[trigger] is_run(
                false,
                taken.doctype,
                stop as nat,
                unit_resumed,
                after.doctype,
                second,
                last as nat,
                rest,
            )
            &&& res == handed_back(rest, second)
            &&& after == (DispatcherView {
                doctype: after.doctype,
                suspended: parked(
                    rest,
                    SuspendedToken::Doctype { doctype: Box::new(second), next_handler_idx: last },
                    taken.suspended,
                ),
                ..taken
            })
        };
    law_resumed_run_is_one_run(
        false,
        before.doctype,
        0,
        doctype,
        stopped.doctype,
        unit_stopped,
        stop as nat,
        HandlerError::Suspension,
        unit_resumed,
        after.doctype,
        second,
        last as nat,
        rest,
    );
}

proof fn lemma_resumed_end_tag<H: HandlerTypes>(
    before: DispatcherView<H>,
    end_tag: H::EndTag,
    stopped: DispatcherView<H>,
    unit_stopped: H::EndTag,
    unit_resumed: H::EndTag,
    after: DispatcherView<H>,
    res: Outcome<H::EndTag, H>,
)
    requires
        before.suspended is None,
        before.is_end_tag_outcome(
            end_tag,
            stopped,
            Err::<H::EndTag, Interruption<H::EndTag, H::Failure>>(Interruption::Suspended),
        ),
        stopped.suspended == Some(SuspendedToken::<H>::EndTag(Box::new(unit_stopped))),
        could_go_on_once::<H::EndTag, H::Failure, H::EndTagHandler>(
            unit_stopped,
            unit_resumed,
            HandlerError::Suspension,
        ),
        taken_out(stopped).is_end_tag_outcome(unit_resumed, after, res),
    ensures
        before.is_end_tag_outcome(end_tag, after, res),
{
    let taken = taken_out(stopped);
    let (first, run) = choose|first: H::EndTag, run: HandlerResult<H::Failure>|
        {
            &&& #[trigger] is_tail_run(
                before.end_tag,
                first_active(before.end_tag) as int,
                end_tag,
                stopped.end_tag,
                first,
                run,
            )
            &&& Err::<H::EndTag, Interruption<H::EndTag, H::Failure>>(Interruption::Suspended)
                == handed_back(run, first)
            &&& stopped == (DispatcherView {
                end_tag: stopped.end_tag,
                suspended: parked(
                    run,
                    SuspendedToken::EndTag(Box::new(first)),
                    before.suspended,
                ),
                ..before
            })
        };
    let (second, rest) = choose|second: H::EndTag, rest: HandlerResult<H::Failure>|
        {
            &&& #[trigger] is_tail_run(
                taken.end_tag,
                first_active(taken.end_tag) as int,
                unit_resumed,
                after.end_tag,
                second,
                rest,
            )
            &&& res == handed_back(rest, second)
            &&& after == (DispatcherView {
                end_tag: after.end_tag,
                suspended: parked(
                    rest,
                    SuspendedToken::EndTag(Box::new(second)),
                    taken.suspended,
                ),
                ..taken
            })
        };
    law_resumed_tail_run_is_one_run(
        before.end_tag,
        end_tag,
        stopped.end_tag,
        unit_stopped,
        HandlerError::Suspension,
        unit_resumed,
        after.end_tag,
        second,
        rest,
    );
}

proof fn lemma_resumed_element<H: HandlerTypes>(
    before: DispatcherView<H>,
    element: Element<H::StartTag, H::EndTagHandler>,
    descriptor: Option<DescriptorView>,
    stopped: DispatcherView<H>,
    descriptor_stopped: Option<DescriptorView>,
    unit_stopped: Element<H::StartTag, H::EndTagHandler>,
    stop: usize,
    unit_resumed: Element<H::StartTag, H::EndTagHandler>,
    after: DispatcherView<H>,
    descriptor_after: Option<DescriptorView>,
    res: Outcome<StartTag<H::StartTag>, H>,
)
    requires
        before.suspended is None,
        before.is_element_outcome(
            element,
            0,
            descriptor,
            stopped,
            descriptor_stopped,
            Err::<
                StartTag<H::StartTag>,
                Interruption<StartTag<H::StartTag>, H::Failure>,
            >(Interruption::Suspended),
        ),
        stopped.suspended == Some(
            SuspendedToken::<H>::Element {
                element: Box::new(unit_stopped),
                next_handler_idx: stop,
            },
        ),
        could_go_on::<Element<H::StartTag, H::EndTagHandler>, H::Failure, H::ElementHandler>(
            unit_stopped,
            unit_resumed,
            HandlerError::Suspension,
        ),
        taken_out(stopped).is_element_outcome(
            unit_resumed,
            stop as nat,
            descriptor_stopped,
            after,
            descriptor_after,
            res,
        ),
    ensures
        before.is_element_outcome(element, 0, descriptor, after, descriptor_after, res),
{
    let taken = taken_out(stopped);
    let (first, next, run) = choose|
        first: Element<H::StartTag, H::EndTagHandler>,
        next: usize,
        run: HandlerResult<H::Failure>,
    |
        {
            &&& #[trigger] is_run(
                true,
                before.element,
                0,
                element,
                stopped.element,
                first,
                next as nat,
                run,
            )
            &&& Err::<
                StartTag<H::StartTag>,
                Interruption<StartTag<H::StartTag>, H::Failure>,
            >(Interruption::Suspended) == handed_back(run, first.start_tag)
            &&& run is Ok || (stopped == (DispatcherView {
                element: stopped.element,
                suspended: parked(
                    run,
                    SuspendedToken::Element { element: Box::new(first), next_handler_idx: next },
                    before.suspended,
                ),
                ..before
            }) && descriptor_stopped == descriptor)
        };
    let (second, last, rest) = choose|
        second: Element<H::StartTag, H::EndTagHandler>,
        last: usize,
        rest: HandlerResult<H::Failure>,
    |
        {
            let ran = DispatcherView {
                element: after.element,
                suspended: parked(
                    rest,
                    SuspendedToken::Element { element: Box::new(second), next_handler_idx: last },
                    taken.suspended,
                ),
                ..taken
            };
            &&& #[trigger] is_run(
                true,
                taken.element,
                stop as nat,
                unit_resumed,
                after.element,
                second,
                last as nat,
                rest,
            )
            &&& res == handed_back(rest, second.start_tag)
            &&& if rest is Ok {
                &&& after == ran.with_element_result(
                    second.should_remove_content,
                    second.end_tag_handler,
                    descriptor_stopped is Some,
                )
                &&& descriptor_after == match descriptor_stopped {
                    Some(d) => Some(
                        taken.descriptor_after(
                            second.should_remove_content,
                            second.end_tag_handler,
                            d,
                        ),
                    ),
                    None => None,
                }
            } else {
                after == ran && descriptor_after == descriptor_stopped
            }
        };
    law_resumed_run_is_one_run(
        true,
        before.element,
        0,
        element,
        stopped.element,
        unit_stopped,
        stop as nat,
        HandlerError::Suspension,
        unit_resumed,
        after.element,
        second,
        last as nat,
        rest,
    );
}

/// Whether the handler that asked for suspension on a parked token could as well have made of it what
/// it is resumed with, and gone on.
pub open spec fn parked_could_go_on<H: HandlerTypes>(
    stopped: SuspendedToken<H>,
    resumed: SuspendedToken<H>,
) -> bool {
    match (stopped, resumed) {
        (
            SuspendedToken::Element { element: left, next_handler_idx: stop },
            SuspendedToken::Element { element: right, next_handler_idx: start },
        ) => stop == start && could_go_on::<
            Element<H::StartTag, H::EndTagHandler>,
            H::Failure,
            H::ElementHandler,
        >(*left, *right, HandlerError::Suspension),
        (SuspendedToken::EndTag(left), SuspendedToken::EndTag(right)) => could_go_on_once::<
            H::EndTag,
            H::Failure,
            H::EndTagHandler,
        >(*left, *right, HandlerError::Suspension),
        (
            SuspendedToken::TextChunk { chunk: left, next_handler_idx: stop },
            SuspendedToken::TextChunk { chunk: right, next_handler_idx: start },
        ) => stop == start && could_go_on::<H::TextChunk, H::Failure, H::TextHandler>(
            *left,
            *right,
            HandlerError::Suspension,
        ),
        (
            SuspendedToken::Comment { comment: left, next_handler_idx: stop },
            SuspendedToken::Comment { comment: right, next_handler_idx: start },
        ) => stop == start && could_go_on::<H::Comment, H::Failure, H::CommentHandler>(
            *left,
            *right,
            HandlerError::Suspension,
        ),
        (
            SuspendedToken::Doctype { doctype: left, next_handler_idx: stop },
            SuspendedToken::Doctype { doctype: right, next_handler_idx: start },
        ) => stop == start && could_go_on::<H::Doctype, H::Failure, H::DoctypeHandler>(
            *left,
            *right,
            HandlerError::Suspension,
        ),
        _ => false,
    }
}

/// A token that a handler was suspended on and that is resumed, with whatever was made of it in
/// between, fares as a token on which no handler was suspended: the one on which that handler made
/// the change itself and went on. So do the dispatcher and the descriptor of the element.
pub proof fn law_resumed_token_is_an_uninterrupted_one<H: HandlerTypes>(
    before: DispatcherView<H>,
    token: Token<H>,
    descriptor: Option<DescriptorView>,
    stopped: DispatcherView<H>,
    descriptor_stopped: Option<DescriptorView>,
    resumed: SuspendedToken<H>,
    after: DispatcherView<H>,
    descriptor_after: Option<DescriptorView>,
    res: Outcome<Token<H>, H>,
)
    requires
        before.suspended is None,
        before.is_token_outcome(
            token,
            descriptor,
            stopped,
            descriptor_stopped,
            Err::<Token<H>, Interruption<Token<H>, H::Failure>>(Interruption::Suspended),
        ),
        stopped.suspended is Some,
        parked_could_go_on(stopped.suspended->0, resumed),
        taken_out(stopped).is_resumed_outcome(
            resumed,
            descriptor_stopped,
            after,
            descriptor_after,
            res,
        ),
    ensures
        before.is_token_outcome(token, descriptor, after, descriptor_after, res),
{
    let taken = taken_out(stopped);
    law_suspension_parks_the_token(
        before,
        token,
        descriptor,
        stopped,
        descriptor_stopped,
        Err::<Token<H>, Interruption<Token<H>, H::Failure>>(Interruption::Suspended),
    );
    match (token, stopped.suspended->0, resumed) {
        (
            Token::TextChunk(chunk),
            SuspendedToken::TextChunk { chunk: left, next_handler_idx: stop },
            SuspendedToken::TextChunk { chunk: right, .. },
        ) => {
            let r = choose|r: Outcome<H::TextChunk, H>| #[trigger]
                taken.is_text_outcome(*right, stop as nat, after, r) && res == mapped(
                    r,
                    |unit: H::TextChunk| Token::<H>::TextChunk(unit),
                );
            lemma_resumed_text(before, chunk, stopped, *left, stop, *right, after, r);
        },
        (
            Token::Comment(comment),
            SuspendedToken::Comment { comment: left, next_handler_idx: stop },
            SuspendedToken::Comment { comment: right, .. },
        ) => {
            let r = choose|r: Outcome<H::Comment, H>| #[trigger]
                taken.is_comment_outcome(*right, stop as nat, after, r) && res == mapped(
                    r,
                    |unit: H::Comment| Token::<H>::Comment(unit),
                );
            lemma_resumed_comment(before, comment, stopped, *left, stop, *right, after, r);
        },
        (
            Token::Doctype(doctype),
            SuspendedToken::Doctype { doctype: left, next_handler_idx: stop },
            SuspendedToken::Doctype { doctype: right, .. },
        ) => {
            let r = choose|r: Outcome<H::Doctype, H>| #[trigger]
                taken.is_doctype_outcome(*right, stop as nat, after, r) && res == mapped(
                    r,
                    |unit: H::Doctype| Token::<H>::Doctype(unit),
                );
            lemma_resumed_doctype(before, doctype, stopped, *left, stop, *right, after, r);
        },
        (
            Token::EndTag(end_tag),
            SuspendedToken::EndTag(left),
            SuspendedToken::EndTag(right),
        ) => {
            let r = choose|r: Outcome<H::EndTag, H>| #[trigger]
                taken.is_end_tag_outcome(*right, after, r) && res == mapped(
                    r,
                    |unit: H::EndTag| Token::<H>::EndTag(unit),
                );
            lemma_resumed_end_tag(before, end_tag, stopped, *left, *right, after, r);
        },
        (
            Token::StartTag(start_tag),
            SuspendedToken::Element { element: left, next_handler_idx: stop },
            SuspendedToken::Element { element: right, .. },
        ) => {
            let r = choose|r: Outcome<StartTag<H::StartTag>, H>| #[trigger]
                taken.is_element_outcome(
                    *right,
                    stop as nat,
                    descriptor_stopped,
                    after,
                    descriptor_after,
                    r,
                ) && res == mapped(r, |unit: StartTag<H::StartTag>| Token::<H>::StartTag(unit));
            lemma_resumed_element(
                before,
                before.element_of(start_tag),
                descriptor,
                stopped,
                descriptor_stopped,
                *left,
                stop,
                *right,
                after,
                descriptor_after,
                r,
            );
        },
        _ => {},
    }
}

/// The end of the document that a handler was suspended on and that is resumed, with whatever was made
/// of it in between, fares as one on which no handler was suspended: the one on which that handler
/// made the change itself and went on. So does the dispatcher.
pub proof fn law_resumed_document_end_is_an_uninterrupted_one<H: HandlerTypes>(
    before: DispatcherView<H>,
    document_end: H::DocumentEnd,
    stopped: DispatcherView<H>,
    unit_stopped: H::DocumentEnd,
    unit_resumed: H::DocumentEnd,
    after: DispatcherView<H>,
    res: Outcome<H::DocumentEnd, H>,
)
    requires
        before.suspended is None,
        before.is_end_outcome(
            document_end,
            stopped,
            Err::<H::DocumentEnd, Interruption<H::DocumentEnd, H::Failure>>(
                Interruption::Suspended,
            ),
        ),
        stopped.suspended == Some(SuspendedToken::<H>::DocumentEnd(Box::new(unit_stopped))),
        could_go_on_once::<H::DocumentEnd, H::Failure, H::EndHandler>(
            unit_stopped,
            unit_resumed,
            HandlerError::Suspension,
        ),
        taken_out(stopped).is_end_outcome(unit_resumed, after, res),
    ensures
        before.is_end_outcome(document_end, after, res),
{
    let taken = taken_out(stopped);
    let (first, run) = choose|first: H::DocumentEnd, run: HandlerResult<H::Failure>|
        {
            &&& #[trigger] is_tail_run(
                before.end,
                first_active(before.end) as int,
                document_end,
                stopped.end,
                first,
                run,
            )
            &&& Err::<H::DocumentEnd, Interruption<H::DocumentEnd, H::Failure>>(
                Interruption::Suspended,
            ) == handed_back(run, first)
            &&& stopped == (DispatcherView {
                end: stopped.end,
                suspended: parked(
                    run,
                    SuspendedToken::DocumentEnd(Box::new(first)),
                    before.suspended,
                ),
                ..before
            })
        };
    let (second, rest) = choose|second: H::DocumentEnd, rest: HandlerResult<H::Failure>|
        {
            &&& #[trigger] is_tail_run(
                taken.end,
                first_active(taken.end) as int,
                unit_resumed,
                after.end,
                second,
                rest,
            )
            &&& res == handed_back(rest, second)
            &&& after == (DispatcherView {
                end: after.end,
                suspended: parked(
                    rest,
                    SuspendedToken::DocumentEnd(Box::new(second)),
                    taken.suspended,
                ),
                ..taken
            })
        };
    law_resumed_tail_run_is_one_run(
        before.end,
        document_end,
        stopped.end,
        unit_stopped,
        HandlerError::Suspension,
        unit_resumed,
        after.end,
        second,
        rest,
    );
}

/// Where a handler was suspended on a token: the dispatcher and the descriptor of the element then,
/// and what the parked token was when it was resumed.
#[verifier::reject_recursive_types(H)]
pub struct Pause<H: HandlerTypes> {
    pub state: DispatcherView<H>,
    pub descriptor: Option<DescriptorView>,
    pub resumed: SuspendedToken<H>,
}

/// What may come of a token on which handlers were suspended and which was resumed each time, with
/// what the handler could have made of it. Without a pause that is what comes of running its
/// handlers.
pub open spec fn is_paused_outcome<H: HandlerTypes>(
    before: DispatcherView<H>,
    token: Token<H>,
    descriptor: Option<DescriptorView>,
    pauses: Seq<Pause<H>>,
    after: DispatcherView<H>,
    descriptor_after: Option<DescriptorView>,
    res: Outcome<Token<H>, H>,
) -> bool
    decreases pauses.len(),
{
    if pauses.len() == 0 {
        before.is_token_outcome(token, descriptor, after, descriptor_after, res)
    } else {
        let pause = pauses.last();
        &&& is_paused_outcome(
            before,
            token,
            descriptor,
            pauses.drop_last(),
            pause.state,
            pause.descriptor,
            Err::<Token<H>, Interruption<Token<H>, H::Failure>>(Interruption::Suspended),
        )
        &&& pause.state.suspended is Some
        &&& parked_could_go_on(pause.state.suspended->0, pause.resumed)
        &&& taken_out(pause.state).is_resumed_outcome(
            pause.resumed,
            pause.descriptor,
            after,
            descriptor_after,
            res,
        )
    }
}

/// However often handlers are suspended on a token, it fares as a token on which none was: so do the
/// dispatcher and the descriptor of the element.
pub proof fn law_paused_token_is_an_uninterrupted_one<H: HandlerTypes>(
    before: DispatcherView<H>,
    token: Token<H>,
    descriptor: Option<DescriptorView>,
    pauses: Seq<Pause<H>>,
    after: DispatcherView<H>,
    descriptor_after: Option<DescriptorView>,
    res: Outcome<Token<H>, H>,
)
    requires
        before.suspended is None,
        is_paused_outcome(before, token, descriptor, pauses, after, descriptor_after, res),
    ensures
        before.is_token_outcome(token, descriptor, after, descriptor_after, res),
        is_paused_outcome(before, token, descriptor, Seq::empty(), after, descriptor_after, res),
    decreases pauses.len(),
{
    if pauses.len() > 0 {
        let pause = pauses.last();
        law_paused_token_is_an_uninterrupted_one(
            before,
            token,
            descriptor,
            pauses.drop_last(),
            pause.state,
            pause.descriptor,
            Err::<Token<H>, Interruption<Token<H>, H::Failure>>(Interruption::Suspended),
        );
        law_resumed_token_is_an_uninterrupted_one(
            before,
            token,
            descriptor,
            pause.state,
            pause.descriptor,
            pause.resumed,
            after,
            descriptor_after,
            res,
        );
    }
}

} // verus!
