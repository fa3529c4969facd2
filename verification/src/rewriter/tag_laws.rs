use super::dispatcher_model::{handed_back, mapped, parked, DescriptorView, DispatcherView, Outcome};
use super::handler_vec::{
    first_active, is_run, is_tail_run, lemma_first_of_run, some_active, HandlerVecItem,
};
use super::handlers::{Handler, HandlerError, HandlerResult, Interruption, OnceHandler};
use super::matching_laws::{has_added, law_element_result_is_taken_note_of};
use super::run_laws::{
    active_from_back, law_run_touches_what_it_passed, law_tail_run_leaves_the_front,
    lemma_first_active_is_first, lemma_tail_run_runs, shows_runs,
};
use super::token_laws::{
    active_between, law_run_calls_active_handlers_in_order, law_run_is_stopped_by_its_last_handler,
    law_run_without_active_handlers, left_by, notes_runs,
};
use super::units::{Element, HandlerTypes, StartTag, SuspendedToken, Token};
use vstd::prelude::*;

verus! {

/// Whether the first active handler of a list, if there is one, was called on a unit.
pub open spec fn first_is_given<U, F, H: Handler<U, F>>(
    items: Seq<HandlerVecItem<H>>,
    unit: U,
) -> bool {
    forall|at: int|
        #![trigger items[at]]
        0 <= at < items.len() && items[at].user_count > 0 && (forall|i: int|
            0 <= i < at ==> (#[trigger] items[i]).user_count == 0) ==> exists|
            handler: H,
            unit_after: U,
            res: HandlerResult<F>,
        |
            #[trigger] H::handled(items[at].handler, unit, handler, unit_after, res)
}

/// A run gives its unit, as it is, to the first active handler.
pub proof fn law_first_active_handler_is_given_the_unit<U, F, H: Handler<U, F>>(
    deactivates: bool,
    before: Seq<HandlerVecItem<H>>,
    unit_before: U,
    after: Seq<HandlerVecItem<H>>,
    unit_after: U,
    next: nat,
    res: HandlerResult<F>,
)
    requires
        is_run(deactivates, before, 0, unit_before, after, unit_after, next, res),
    ensures
        first_is_given::<U, F, H>(before, unit_before),
{
    assert forall|at: int|
        #![trigger before[at]]
        0 <= at < before.len() && before[at].user_count > 0 && (forall|i: int|
            0 <= i < at ==> (#[trigger] before[i]).user_count == 0) implies exists|
        handler: H,
        unit: U,
        r: HandlerResult<F>,
    |
        #[trigger] H::handled(before[at].handler, unit_before, handler, unit, r) by {
        lemma_run_skips_to(
            deactivates,
            before,
            0,
            at,
            unit_before,
            after,
            unit_after,
            next,
            res,
        );
        let (handler, unit, r) = lemma_first_of_run(
            deactivates,
            before,
            at as nat,
            unit_before,
            after,
            unit_after,
            next,
            res,
        );
        assert(H::handled(before[at].handler, unit_before, handler, unit, r));
    }
}

proof fn lemma_run_skips_to<U, F, H: Handler<U, F>>(
    deactivates: bool,
    before: Seq<HandlerVecItem<H>>,
    start: int,
    at: int,
    unit_before: U,
    after: Seq<HandlerVecItem<H>>,
    unit_after: U,
    next: nat,
    res: HandlerResult<F>,
)
    requires
        0 <= start <= at < before.len(),
        is_run(deactivates, before, start as nat, unit_before, after, unit_after, next, res),
        forall|i: int| start <= i < at ==> (#[trigger] before[i]).user_count == 0,
    ensures
        is_run(deactivates, before, at as nat, unit_before, after, unit_after, next, res),
    decreases at - start,
{
    if start < at {
        assert(before[start].user_count == 0);
        lemma_run_skips_to(
            deactivates,
            before,
            start + 1,
            at,
            unit_before,
            after,
            unit_after,
            next,
            res,
        );
    }
}

/// What becomes of a start tag, told by the element that its first handler sees, what the handlers
/// left of it, and how many of them were passed.
pub struct ElementRun<T, E> {
    pub seen: Element<T, E>,
    pub left: Element<T, E>,
    pub passed: nat,
}

/// The handlers of a start tag run in order, each active one once, up to the one that stops the run,
/// if any, and those that were passed are not active any longer. The first one sees the start tag
/// with nothing asked of it yet, left out of the output if it was or stands in removed content, and
/// as an element that can have content if the latest match said so. What comes out is the start tag
/// as they left it, or else the element is parked as they left it. Only when all have run, and only
/// of an element that can have content and is kept, it is taken note of what they asked for.
pub proof fn law_start_tag_goes_through_its_handlers<H: HandlerTypes>(
    log: spec_fn(Element<H::StartTag, H::EndTagHandler>) -> Seq<H::ElementHandler>,
    before: DispatcherView<H>,
    start_tag: StartTag<H::StartTag>,
    descriptor: Option<DescriptorView>,
    after: DispatcherView<H>,
    descriptor_after: Option<DescriptorView>,
    res: Outcome<Token<H>, H>,
) -> (run: ElementRun<H::StartTag, H::EndTagHandler>)
    requires
        notes_runs::<Element<H::StartTag, H::EndTagHandler>, H::Failure, H::ElementHandler>(log),
        before.suspended is None,
        before.end_tag.len() < u32::MAX,
        before.is_token_outcome(
            Token::StartTag(start_tag),
            descriptor,
            after,
            descriptor_after,
            res,
        ),
    ensures
        run.seen.start_tag.content == start_tag.content,
        run.seen.start_tag.removed <==> start_tag.removed || before.removed_content > 0,
        run.seen.can_have_content == before.next_element_can_have_content,
        !run.seen.should_remove_content,
        run.seen.end_tag_handler is None,
        first_is_given::<Element<H::StartTag, H::EndTagHandler>, H::Failure, H::ElementHandler>(
            before.element,
            run.seen,
        ),
        !some_active(before.element) ==> run.left == run.seen && res is Ok,
        log(run.left) == log(run.seen) + active_between(before.element, 0, run.passed as int),
        match res {
            Ok(token) => token matches Token::StartTag(out) && out == run.left.start_tag
                && run.passed == before.element.len() && after.suspended is None,
            Err(Interruption::Failed { error, unit }) => unit matches Token::StartTag(out) && out
                == run.left.start_tag && after.suspended is None && 0 < run.passed
                <= before.element.len() && left_by(
                before.element[run.passed - 1],
                after.element[run.passed - 1],
                run.left,
                HandlerError::Failure(error),
            ),
            Err(Interruption::Suspended) => after.suspended matches Some(
                SuspendedToken::Element { element, next_handler_idx },
            ) && *element == run.left && next_handler_idx == run.passed && 0 < run.passed
                <= before.element.len() && left_by(
                before.element[run.passed - 1],
                after.element[run.passed - 1],
                run.left,
                HandlerError::<H::Failure>::Suspension,
            ),
        },
        after.element.len() == before.element.len(),
        forall|i: int|
            0 <= i < before.element.len() ==> if i < run.passed {
                (#[trigger] after.element[i]).user_count == 0
            } else {
                after.element[i] == before.element[i]
            },
        if res is Ok && before.next_element_can_have_content && descriptor is Some {
            &&& after.removed_content == before.removed_content + (
            if run.left.should_remove_content {
                1int
            } else {
                0
            })
            &&& has_added(before.end_tag, after.end_tag, run.left.end_tag_handler, 0)
            &&& descriptor_after matches Some(marked) && {
                &&& marked.remove_content == (descriptor->0.remove_content
                    || run.left.should_remove_content)
                &&& marked.end_tag_handler == (if run.left.end_tag_handler is Some {
                    Some(before.end_tag.len())
                } else {
                    descriptor->0.end_tag_handler
                })
                &&& marked.matched_content_handlers == descriptor->0.matched_content_handlers
            }
        } else {
            &&& after.removed_content == before.removed_content
            &&& after.end_tag == before.end_tag
            &&& descriptor_after == descriptor
        },
        after == (DispatcherView {
            element: after.element,
            end_tag: after.end_tag,
            removed_content: after.removed_content,
            suspended: after.suspended,
            ..before
        }),
{
    let seen = before.element_of(start_tag);
    let r = choose|r: Outcome<StartTag<H::StartTag>, H>| #[trigger]
        before.is_element_outcome(seen, 0, descriptor, after, descriptor_after, r) && res == mapped(
            r,
            |unit: StartTag<H::StartTag>| Token::<H>::StartTag(unit),
        );
    let (left, next, run) = choose|
        left: Element<H::StartTag, H::EndTagHandler>,
        next: usize,
        run: HandlerResult<H::Failure>,
    |
        {
            let ran = DispatcherView {
                element: after.element,
                suspended: parked(
                    run,
                    SuspendedToken::Element { element: Box::new(left), next_handler_idx: next },
                    before.suspended,
                ),
                ..before
            };
            &&& #[trigger] is_run(
                true,
                before.element,
                0,
                seen,
                after.element,
                left,
                next as nat,
                run,
            )
            &&& r == handed_back(run, left.start_tag)
            &&& if run is Ok {
                &&& after == ran.with_element_result(
                    left.should_remove_content,
                    left.end_tag_handler,
                    descriptor is Some,
                )
                &&& descriptor_after == match descriptor {
                    Some(d) => Some(
                        before.descriptor_after(
                            left.should_remove_content,
                            left.end_tag_handler,
                            d,
                        ),
                    ),
                    None => None,
                }
            } else {
                after == ran && descriptor_after == descriptor
            }
        };
    law_run_calls_active_handlers_in_order(
        log,
        true,
        before.element,
        0,
        seen,
        after.element,
        left,
        next as nat,
        run,
    );
    law_run_touches_what_it_passed(
        true,
        before.element,
        0,
        seen,
        after.element,
        left,
        next as nat,
        run,
    );
    law_first_active_handler_is_given_the_unit(
        true,
        before.element,
        seen,
        after.element,
        left,
        next as nat,
        run,
    );
    if !some_active(before.element) {
        assert forall|i: int| 0 <= i < before.element.len() implies (
        #[trigger] before.element[i]).user_count == 0 by {
            if before.element[i].user_count > 0 {
                assert(some_active(before.element));
            }
        }
        law_run_without_active_handlers(
            true,
            before.element,
            0,
            seen,
            after.element,
            left,
            next as nat,
            run,
        );
    }
    if let Err(error) = run {
        law_run_is_stopped_by_its_last_handler(
            true,
            before.element,
            0,
            seen,
            after.element,
            left,
            next as nat,
            error,
        );
    } else {
        assert(run is Ok);
        let ran = DispatcherView { element: after.element, ..before };
        if let Some(d) = descriptor {
            law_element_result_is_taken_note_of(
                ran,
                left.should_remove_content,
                left.end_tag_handler,
                d,
            );
            law_element_result_is_taken_note_of(
                before,
                left.should_remove_content,
                left.end_tag_handler,
                d,
            );
        }
    }
    ElementRun { seen, left, passed: next as nat }
}

/// Whether a handler that was taken from the back left this unit and this error.
pub open spec fn left_once_by<U, F, H: OnceHandler<U, F>>(
    item: HandlerVecItem<H>,
    unit: U,
    error: HandlerError<F>,
) -> bool {
    &&& item.user_count > 0
    &&& exists|given: U| #[trigger] item.handler.handled_once(given, unit, Err(error))
}

proof fn lemma_tail_run_is_stopped_by_its_last_handler<U, F, H: OnceHandler<U, F>>(
    before: Seq<HandlerVecItem<H>>,
    first: int,
    unit_before: U,
    after: Seq<HandlerVecItem<H>>,
    unit_after: U,
    error: HandlerError<F>,
)
    requires
        is_tail_run(
            before,
            first,
            unit_before,
            after,
            unit_after,
            Err::<(), HandlerError<F>>(error),
        ),
        0 <= first,
    ensures
        after.len() < before.len(),
        left_once_by(before[after.len() as int], unit_after, error),
    decreases before.len(),
{
    let res = Err::<(), HandlerError<F>>(error);
    let shorter = before.drop_last();
    if before.len() > first && before.len() > 0 {
        if before.last().user_count == 0 {
            lemma_tail_run_is_stopped_by_its_last_handler(
                shorter,
                first,
                unit_before,
                after,
                unit_after,
                error,
            );
            assert(shorter[after.len() as int] == before[after.len() as int]);
        } else {
            let (unit, r) = choose|unit: U, r: HandlerResult<F>|
                {
                    &&& #[trigger] before.last().handler.handled_once(unit_before, unit, r)
                    &&& match r {
                        Ok(_) => is_tail_run(shorter, first, unit, after, unit_after, res),
                        Err(_) => after == shorter && unit_after == unit && res == r,
                    }
                };
            if r is Ok {
                lemma_tail_run_is_stopped_by_its_last_handler(
                    shorter,
                    first,
                    unit,
                    after,
                    unit_after,
                    error,
                );
                assert(shorter[after.len() as int] == before[after.len() as int]);
            } else {
                assert(before[after.len() as int].handler.handled_once(
                    unit_before,
                    unit_after,
                    res,
                ));
            }
        }
    }
}

/// The handlers of an end tag run from the last to the first, each active one once, up to the one
/// that stops the run, if any, and what was passed is gone. When all have run, none is active. What
/// comes out, or else is parked, is what they left. Nothing else changes.
pub proof fn law_end_tag_goes_through_its_handlers<H: HandlerTypes>(
    log: spec_fn(H::EndTag) -> Seq<H::EndTagHandler>,
    before: DispatcherView<H>,
    end_tag: H::EndTag,
    descriptor: Option<DescriptorView>,
    after: DispatcherView<H>,
    descriptor_after: Option<DescriptorView>,
    res: Outcome<Token<H>, H>,
)
    requires
        shows_runs::<H::EndTag, H::Failure, H::EndTagHandler>(log),
        before.suspended is None,
        before.is_token_outcome(
            Token::EndTag(end_tag),
            descriptor,
            after,
            descriptor_after,
            res,
        ),
    ensures
        after.end_tag.len() <= before.end_tag.len(),
        after.end_tag == before.end_tag.take(after.end_tag.len() as int),
        ({
            let ran = active_from_back(before.end_tag, after.end_tag.len() as int);
            match res {
                Ok(token) => token matches Token::EndTag(out) && after.suspended is None && log(out)
                    == log(end_tag) + ran && !some_active(after.end_tag),
                Err(Interruption::Failed { error, unit }) => unit matches Token::EndTag(out)
                    && after.suspended is None && log(out) == log(end_tag) + ran
                    && after.end_tag.len() < before.end_tag.len() && left_once_by(
                    before.end_tag[after.end_tag.len() as int],
                    out,
                    HandlerError::Failure(error),
                ),
                Err(Interruption::Suspended) => after.suspended matches Some(
                    SuspendedToken::EndTag(out),
                ) && log(*out) == log(end_tag) + ran && after.end_tag.len()
                    < before.end_tag.len() && left_once_by(
                    before.end_tag[after.end_tag.len() as int],
                    *out,
                    HandlerError::<H::Failure>::Suspension,
                ),
            }
        }),
        after == (DispatcherView { end_tag: after.end_tag, suspended: after.suspended, ..before }),
        descriptor_after == descriptor,
{
    let r = choose|r: Outcome<H::EndTag, H>| #[trigger]
        before.is_end_tag_outcome(end_tag, after, r) && res == mapped(
            r,
            |unit: H::EndTag| Token::<H>::EndTag(unit),
        );
    let first = first_active(before.end_tag);
    let (unit, run) = choose|unit: H::EndTag, run: HandlerResult<H::Failure>|
        {
            &&& #[trigger] is_tail_run(
                before.end_tag,
                first as int,
                end_tag,
                after.end_tag,
                unit,
                run,
            )
            &&& r == handed_back(run, unit)
            &&& after == (DispatcherView {
                end_tag: after.end_tag,
                suspended: parked(run, SuspendedToken::EndTag(Box::new(unit)), before.suspended),
                ..before
            })
        };
    lemma_first_active_is_first(before.end_tag);
    law_tail_run_leaves_the_front(before.end_tag, end_tag, after.end_tag, unit, run);
    lemma_tail_run_runs(log, before.end_tag, first, end_tag, after.end_tag, unit, run);
    if let Err(error) = run {
        lemma_tail_run_is_stopped_by_its_last_handler(
            before.end_tag,
            first as int,
            end_tag,
            after.end_tag,
            unit,
            error,
        );
    }
}

/// The handlers for the end of the document run from the last to the first, each active one once, up
/// to the one that stops the run, if any, and what was passed is gone. When all have run, none is
/// active. What comes out, or else is parked, is what they left. Nothing else changes.
pub proof fn law_document_end_goes_through_its_handlers<H: HandlerTypes>(
    log: spec_fn(H::DocumentEnd) -> Seq<H::EndHandler>,
    before: DispatcherView<H>,
    document_end: H::DocumentEnd,
    after: DispatcherView<H>,
    res: Outcome<H::DocumentEnd, H>,
)
    requires
        shows_runs::<H::DocumentEnd, H::Failure, H::EndHandler>(log),
        before.suspended is None,
        before.is_end_outcome(document_end, after, res),
    ensures
        after.end.len() <= before.end.len(),
        after.end == before.end.take(after.end.len() as int),
        ({
            let ran = active_from_back(before.end, after.end.len() as int);
            match res {
                Ok(out) => after.suspended is None && log(out) == log(document_end) + ran
                    && !some_active(after.end),
                Err(Interruption::Failed { error, unit }) => after.suspended is None && log(unit)
                    == log(document_end) + ran && after.end.len() < before.end.len()
                    && left_once_by(
                    before.end[after.end.len() as int],
                    unit,
                    HandlerError::Failure(error),
                ),
                Err(Interruption::Suspended) => after.suspended matches Some(
                    SuspendedToken::DocumentEnd(out),
                ) && log(*out) == log(document_end) + ran && after.end.len() < before.end.len()
                    && left_once_by(
                    before.end[after.end.len() as int],
                    *out,
                    HandlerError::<H::Failure>::Suspension,
                ),
            }
        }),
        after == (DispatcherView { end: after.end, suspended: after.suspended, ..before }),
{
    let first = first_active(before.end);
    let (unit, run) = choose|unit: H::DocumentEnd, run: HandlerResult<H::Failure>|
        {
            &&& #[trigger] is_tail_run(
                before.end,
                first as int,
                document_end,
                after.end,
                unit,
                run,
            )
            &&& res == handed_back(run, unit)
            &&& after == (DispatcherView {
                end: after.end,
                suspended: parked(
                    run,
                    SuspendedToken::DocumentEnd(Box::new(unit)),
                    before.suspended,
                ),
                ..before
            })
        };
    lemma_first_active_is_first(before.end);
    law_tail_run_leaves_the_front(before.end, document_end, after.end, unit, run);
    lemma_tail_run_runs(log, before.end, first, document_end, after.end, unit, run);
    if let Err(error) = run {
        lemma_tail_run_is_stopped_by_its_last_handler(
            before.end,
            first as int,
            document_end,
            after.end,
            unit,
            error,
        );
    }
}

proof fn lemma_none_is_active<X>(items: Seq<HandlerVecItem<X>>)
    requires
        !some_active(items),
    ensures
        forall|i: int| 0 <= i < items.len() ==> (#[trigger] items[i]).user_count == 0,
{
    assert forall|i: int| 0 <= i < items.len() implies (#[trigger] items[i]).user_count == 0 by {
        if items[i].user_count > 0 {
            assert(some_active(items));
        }
    }
}

/// A token that no active handler is for comes out as it went in, and the dispatcher stays as it is.
/// Only a start tag inside removed content is left out of the output.
pub proof fn law_token_without_handlers_stays_as_it_is<H: HandlerTypes>(
    before: DispatcherView<H>,
    token: Token<H>,
    descriptor: Option<DescriptorView>,
    after: DispatcherView<H>,
    descriptor_after: Option<DescriptorView>,
    res: Outcome<Token<H>, H>,
)
    requires
        before.suspended is None,
        match token {
            Token::TextChunk(_) => !some_active(before.text),
            Token::Comment(_) => !some_active(before.comment),
            Token::StartTag(_) => !some_active(before.element),
            Token::EndTag(_) => !some_active(before.end_tag),
            Token::Doctype(_) => !some_active(before.doctype),
        },
        before.is_token_outcome(token, descriptor, after, descriptor_after, res),
    ensures
        match token {
            Token::StartTag(start_tag) => res matches Ok(out) && out matches Token::StartTag(tag)
                && tag.content == start_tag.content && (tag.removed <==> start_tag.removed
                || before.removed_content > 0),
            _ => res == Ok::<Token<H>, Interruption<Token<H>, H::Failure>>(token),
        },
        after == before,
        descriptor_after == descriptor,
{
    match token {
        Token::TextChunk(chunk) => {
            let r = choose|r: Outcome<H::TextChunk, H>| #[trigger]
                before.is_text_outcome(chunk, 0, after, r) && res == mapped(
                    r,
                    |unit: H::TextChunk| Token::<H>::TextChunk(unit),
                );
            let (unit, next, run) = choose|
                unit: H::TextChunk,
                next: usize,
                run: HandlerResult<H::Failure>,
            |
                {
                    &&& #[trigger] is_run(
                        false,
                        before.text,
                        0,
                        chunk,
                        after.text,
                        unit,
                        next as nat,
                        run,
                    )
                    &&& r == handed_back(run, unit)
                    &&& after == (DispatcherView {
                        text: after.text,
                        suspended: parked(
                            run,
                            SuspendedToken::TextChunk {
                                chunk: Box::new(unit),
                                next_handler_idx: next,
                            },
                            before.suspended,
                        ),
                        ..before
                    })
                };
            lemma_none_is_active(before.text);
            law_run_without_active_handlers(
                false,
                before.text,
                0,
                chunk,
                after.text,
                unit,
                next as nat,
                run,
            );
        },
        Token::Comment(comment) => {
            let r = choose|r: Outcome<H::Comment, H>| #[trigger]
                before.is_comment_outcome(comment, 0, after, r) && res == mapped(
                    r,
                    |unit: H::Comment| Token::<H>::Comment(unit),
                );
            let (unit, next, run) = choose|
                unit: H::Comment,
                next: usize,
                run: HandlerResult<H::Failure>,
            |
                {
                    &&& #[trigger] is_run(
                        false,
                        before.comment,
                        0,
                        comment,
                        after.comment,
                        unit,
                        next as nat,
                        run,
                    )
                    &&& r == handed_back(run, unit)
                    &&& after == (DispatcherView {
                        comment: after.comment,
                        suspended: parked(
                            run,
                            SuspendedToken::Comment {
                                comment: Box::new(unit),
                                next_handler_idx: next,
                            },
                            before.suspended,
                        ),
                        ..before
                    })
                };
            lemma_none_is_active(before.comment);
            law_run_without_active_handlers(
                false,
                before.comment,
                0,
                comment,
                after.comment,
                unit,
                next as nat,
                run,
            );
        },
        Token::Doctype(doctype) => {
            let r = choose|r: Outcome<H::Doctype, H>| #[trigger]
                before.is_doctype_outcome(doctype, 0, after, r) && res == mapped(
                    r,
                    |unit: H::Doctype| Token::<H>::Doctype(unit),
                );
            let (unit, next, run) = choose|
                unit: H::Doctype,
                next: usize,
                run: HandlerResult<H::Failure>,
            |
                {
                    &&& #[trigger] is_run(
                        false,
                        before.doctype,
                        0,
                        doctype,
                        after.doctype,
                        unit,
                        next as nat,
                        run,
                    )
                    &&& r == handed_back(run, unit)
                    &&& after == (DispatcherView {
                        doctype: after.doctype,
                        suspended: parked(
                            run,
                            SuspendedToken::Doctype {
                                doctype: Box::new(unit),
                                next_handler_idx: next,
                            },
                            before.suspended,
                        ),
                        ..before
                    })
                };
            lemma_none_is_active(before.doctype);
            law_run_without_active_handlers(
                false,
                before.doctype,
                0,
                doctype,
                after.doctype,
                unit,
                next as nat,
                run,
            );
        },
        Token::EndTag(end_tag) => {
            let r = choose|r: Outcome<H::EndTag, H>| #[trigger]
                before.is_end_tag_outcome(end_tag, after, r) && res == mapped(
                    r,
                    |unit: H::EndTag| Token::<H>::EndTag(unit),
                );
            lemma_first_active_is_first(before.end_tag);
            lemma_none_is_active(before.end_tag);
        },
        Token::StartTag(start_tag) => {
            let seen = before.element_of(start_tag);
            let r = choose|r: Outcome<StartTag<H::StartTag>, H>| #[trigger]
                before.is_element_outcome(seen, 0, descriptor, after, descriptor_after, r) && res
                    == mapped(r, |unit: StartTag<H::StartTag>| Token::<H>::StartTag(unit));
            lemma_none_is_active(before.element);
            let (left, next, run) = choose|
                left: Element<H::StartTag, H::EndTagHandler>,
                next: usize,
                run: HandlerResult<H::Failure>,
            |
                {
                    let ran = DispatcherView {
                        element: after.element,
                        suspended: parked(
                            run,
                            SuspendedToken::Element {
                                element: Box::new(left),
                                next_handler_idx: next,
                            },
                            before.suspended,
                        ),
                        ..before
                    };
                    &&& #[trigger] is_run(
                        true,
                        before.element,
                        0,
                        seen,
                        after.element,
                        left,
                        next as nat,
                        run,
                    )
                    &&& r == handed_back(run, left.start_tag)
                    &&& run is Ok ==> {
                        &&& after == ran.with_element_result(
                            left.should_remove_content,
                            left.end_tag_handler,
                            descriptor is Some,
                        )
                        &&& descriptor_after == match descriptor {
                            Some(d) => Some(
                                before.descriptor_after(
                                    left.should_remove_content,
                                    left.end_tag_handler,
                                    d,
                                ),
                            ),
                            None => None,
                        }
                    }
                };
            law_run_without_active_handlers(
                true,
                before.element,
                0,
                seen,
                after.element,
                left,
                next as nat,
                run,
            );
        },
    }
}

} // verus!
