use super::dispatcher_model::{handed_back, mapped, parked, DescriptorView, DispatcherView, Outcome};
use super::handler_vec::{after_run, is_run, lemma_first_of_run, HandlerVecItem};
use super::handlers::{Handler, HandlerError, HandlerResult, Interruption};
use super::run_laws::law_run_touches_what_it_passed;
use super::units::{HandlerTypes, SuspendedToken, Token};
use vstd::prelude::*;

verus! {

/// Whether a unit shows which handlers ran on it, one after the other, and by what they were then.
pub open spec fn notes_runs<U, F, H: Handler<U, F>>(log: spec_fn(U) -> Seq<H>) -> bool {
    forall|before: H, unit: U, after: H, unit_after: U, res: HandlerResult<F>|
        #[trigger]
        H::handled(before, unit, after, unit_after, res) ==> log(unit_after) == log(unit).push(
            before,
        )
}

/// The handlers of the active items from one index up to another, in order.
pub open spec fn active_between<H>(items: Seq<HandlerVecItem<H>>, from: int, to: int) -> Seq<H>
    decreases to - from,
{
    if from >= to {
        Seq::empty()
    } else if items[from].user_count > 0 {
        seq![items[from].handler] + active_between(items, from + 1, to)
    } else {
        active_between(items, from + 1, to)
    }
}

proof fn lemma_active_between_ignores_the_front<H>(
    left: Seq<HandlerVecItem<H>>,
    right: Seq<HandlerVecItem<H>>,
    from: int,
    to: int,
)
    requires
        forall|i: int| from <= i < to ==> #[trigger] left[i] == right[i],
    ensures
        active_between(left, from, to) == active_between(right, from, to),
    decreases to - from,
{
    if from < to {
        assert(left[from] == right[from]);
        lemma_active_between_ignores_the_front(left, right, from + 1, to);
    }
}

/// A run calls each active handler from its start up to where it stopped, once and in order, and no
/// other.
pub proof fn law_run_calls_active_handlers_in_order<U, F, H: Handler<U, F>>(
    log: spec_fn(U) -> Seq<H>,
    deactivates: bool,
    before: Seq<HandlerVecItem<H>>,
    start: nat,
    unit_before: U,
    after: Seq<HandlerVecItem<H>>,
    unit_after: U,
    next: nat,
    res: HandlerResult<F>,
)
    requires
        notes_runs::<U, F, H>(log),
        is_run(deactivates, before, start, unit_before, after, unit_after, next, res),
    ensures
        log(unit_after) == log(unit_before) + active_between(before, start as int, next as int),
        res is Ok ==> next == before.len(),
    decreases before.len() - start,
{
    if start >= before.len() {
        assert(log(unit_before) + Seq::<H>::empty() =~= log(unit_before));
    } else if before[start as int].user_count == 0 {
        law_run_calls_active_handlers_in_order(
            log,
            deactivates,
            before,
            start + 1,
            unit_before,
            after,
            unit_after,
            next,
            res,
        );
        law_run_touches_what_it_passed(
            deactivates,
            before,
            start + 1,
            unit_before,
            after,
            unit_after,
            next,
            res,
        );
        if start >= next {
            assert(start + 1 >= next);
        }
    } else {
        let (handler, unit, r) = lemma_first_of_run(
            deactivates,
            before,
            start,
            unit_before,
            after,
            unit_after,
            next,
            res,
        );
        let first = before[start as int].handler;
        let changed = before.update(
            start as int,
            after_run(before[start as int], handler, deactivates),
        );
        if r is Ok {
            law_run_calls_active_handlers_in_order(
                log,
                deactivates,
                changed,
                start + 1,
                unit,
                after,
                unit_after,
                next,
                res,
            );
            law_run_touches_what_it_passed(
                deactivates,
                changed,
                start + 1,
                unit,
                after,
                unit_after,
                next,
                res,
            );
            lemma_run_ends_behind_its_start(
                deactivates,
                changed,
                start + 1,
                unit,
                after,
                unit_after,
                next,
                res,
            );
            lemma_active_between_ignores_the_front(
                changed,
                before,
                start as int + 1,
                next as int,
            );
            assert(log(unit_before).push(first) + active_between(
                before,
                start as int + 1,
                next as int,
            ) =~= log(unit_before) + (seq![first] + active_between(
                before,
                start as int + 1,
                next as int,
            )));
        } else {
            assert(active_between(before, start as int + 1, next as int)
                =~= Seq::<H>::empty());
            assert(log(unit_before).push(first) =~= log(unit_before) + (seq![first]
                + Seq::<H>::empty()));
        }
    }
}

proof fn lemma_run_ends_behind_its_start<U, F, H: Handler<U, F>>(
    deactivates: bool,
    before: Seq<HandlerVecItem<H>>,
    start: nat,
    unit_before: U,
    after: Seq<HandlerVecItem<H>>,
    unit_after: U,
    next: nat,
    res: HandlerResult<F>,
)
    requires
        is_run(deactivates, before, start, unit_before, after, unit_after, next, res),
        start <= before.len(),
    ensures
        start <= next <= before.len(),
{
    law_run_touches_what_it_passed(
        deactivates,
        before,
        start,
        unit_before,
        after,
        unit_after,
        next,
        res,
    );
}

/// A run over handlers of which none is active calls none: the unit comes out as it went in, the
/// handlers stay as they are, and nothing fails.
pub proof fn law_run_without_active_handlers<U, F, H: Handler<U, F>>(
    deactivates: bool,
    before: Seq<HandlerVecItem<H>>,
    start: nat,
    unit_before: U,
    after: Seq<HandlerVecItem<H>>,
    unit_after: U,
    next: nat,
    res: HandlerResult<F>,
)
    requires
        is_run(deactivates, before, start, unit_before, after, unit_after, next, res),
        forall|i: int| start <= i < before.len() ==> (#[trigger] before[i]).user_count == 0,
    ensures
        after == before,
        unit_after == unit_before,
        next == before.len(),
        res is Ok,
    decreases before.len() - start,
{
    if start < before.len() {
        assert(before[start as int].user_count == 0);
        law_run_without_active_handlers(
            deactivates,
            before,
            start + 1,
            unit_before,
            after,
            unit_after,
            next,
            res,
        );
    }
}

/// Whether the handler of an item, when it was called, left this unit and this error.
pub open spec fn left_by<U, F, H: Handler<U, F>>(
    before: HandlerVecItem<H>,
    after: HandlerVecItem<H>,
    unit: U,
    error: HandlerError<F>,
) -> bool {
    &&& before.user_count > 0
    &&& exists|given: U| #[trigger]
        H::handled(before.handler, given, after.handler, unit, Err(error))
}

/// A run that is stopped is stopped by the last handler that it called, with its error, and the unit
/// is as that handler left it.
pub proof fn law_run_is_stopped_by_its_last_handler<U, F, H: Handler<U, F>>(
    deactivates: bool,
    before: Seq<HandlerVecItem<H>>,
    start: nat,
    unit_before: U,
    after: Seq<HandlerVecItem<H>>,
    unit_after: U,
    next: nat,
    error: HandlerError<F>,
)
    requires
        is_run(
            deactivates,
            before,
            start,
            unit_before,
            after,
            unit_after,
            next,
            Err::<(), HandlerError<F>>(error),
        ),
    ensures
        start < next <= before.len(),
        left_by(before[next - 1], after[next - 1], unit_after, error),
    decreases before.len() - start,
{
    let res = Err::<(), HandlerError<F>>(error);
    if start < before.len() {
        if before[start as int].user_count == 0 {
            law_run_is_stopped_by_its_last_handler(
                deactivates,
                before,
                start + 1,
                unit_before,
                after,
                unit_after,
                next,
                error,
            );
        } else {
            let (handler, unit, r) = lemma_first_of_run(
                deactivates,
                before,
                start,
                unit_before,
                after,
                unit_after,
                next,
                res,
            );
            if r is Ok {
                law_run_is_stopped_by_its_last_handler(
                    deactivates,
                    before.update(
                        start as int,
                        after_run(before[start as int], handler, deactivates),
                    ),
                    start + 1,
                    unit,
                    after,
                    unit_after,
                    next,
                    error,
                );
            } else {
                let changed = before.update(
                    start as int,
                    after_run(before[start as int], handler, deactivates),
                );
                assert(after == changed);
                assert(after[next - 1].handler == handler);
                assert(H::handled(
                    before[next - 1].handler,
                    unit_before,
                    after[next - 1].handler,
                    unit_after,
                    res,
                ));
            }
        }
    }
}

/// The handlers of a text run on it in order, each active one once, up to the one that stops the run,
/// if any. What comes out, or else is parked, is what they left, and a parked text goes on behind
/// the handler that was suspended. Nothing but the handlers themselves changes.
pub proof fn law_text_goes_through_its_handlers<H: HandlerTypes>(
    log: spec_fn(H::TextChunk) -> Seq<H::TextHandler>,
    before: DispatcherView<H>,
    chunk: H::TextChunk,
    descriptor: Option<DescriptorView>,
    after: DispatcherView<H>,
    descriptor_after: Option<DescriptorView>,
    res: Outcome<Token<H>, H>,
)
    requires
        notes_runs::<H::TextChunk, H::Failure, H::TextHandler>(log),
        before.suspended is None,
        before.is_token_outcome(
            Token::TextChunk(chunk),
            descriptor,
            after,
            descriptor_after,
            res,
        ),
    ensures
        match res {
            Ok(token) => token matches Token::TextChunk(out) && after.suspended is None && log(out)
                == log(chunk) + active_between(before.text, 0, before.text.len() as int),
            Err(Interruption::Failed { error, unit }) => unit matches Token::TextChunk(out)
                && after.suspended is None && exists|next: int|
                {
                    &&& 0 < next <= before.text.len()
                    &&& left_by(
                        before.text[next - 1],
                        after.text[next - 1],
                        out,
                        HandlerError::Failure(error),
                    )
                    &&& log(out) == log(chunk) + #[trigger] active_between(before.text, 0, next)
                },
            Err(Interruption::Suspended) => after.suspended matches Some(
                SuspendedToken::TextChunk { chunk: out, next_handler_idx },
            ) && 0 < next_handler_idx <= before.text.len() && left_by(
                before.text[next_handler_idx - 1],
                after.text[next_handler_idx - 1],
                *out,
                HandlerError::<H::Failure>::Suspension,
            ) && log(*out) == log(chunk) + active_between(
                before.text,
                0,
                next_handler_idx as int,
            ),
        },
        after.text.len() == before.text.len(),
        forall|i: int|
            0 <= i < before.text.len() ==> (#[trigger] after.text[i]).user_count
                == before.text[i].user_count,
        after == (DispatcherView { text: after.text, suspended: after.suspended, ..before }),
        descriptor_after == descriptor,
{
    let r = choose|r: Outcome<H::TextChunk, H>| #[trigger]
        before.is_text_outcome(chunk, 0, after, r) && res == mapped(
            r,
            |unit: H::TextChunk| Token::<H>::TextChunk(unit),
        );
    let (unit, next, run) = choose|
        unit: H::TextChunk,
        next: usize,
        run: HandlerResult<H::Failure>,
    |
        {
            &&& #[trigger] is_run(
                false,
                before.text,
                0,
                chunk,
                after.text,
                unit,
                next as nat,
                run,
            )
            &&& r == handed_back(run, unit)
            &&& after == (DispatcherView {
                text: after.text,
                suspended: parked(
                    run,
                    SuspendedToken::TextChunk { chunk: Box::new(unit), next_handler_idx: next },
                    before.suspended,
                ),
                ..before
            })
        };
    law_run_calls_active_handlers_in_order(
        log,
        false,
        before.text,
        0,
        chunk,
        after.text,
        unit,
        next as nat,
        run,
    );
    law_run_touches_what_it_passed(
        false,
        before.text,
        0,
        chunk,
        after.text,
        unit,
        next as nat,
        run,
    );
    if let Err(error) = run {
        law_run_is_stopped_by_its_last_handler(
            false,
            before.text,
            0,
            chunk,
            after.text,
            unit,
            next as nat,
            error,
        );
        assert(active_between(before.text, 0, next as int) == active_between(
            before.text,
            0,
            next as int,
        ));
    }
}

/// The handlers of a comment run on it in order, each active one once, up to the one that stops the
/// run, if any. What comes out, or else is parked, is what they left, and a parked comment goes on
/// behind the handler that was suspended. Nothing but the handlers themselves changes.
pub proof fn law_comment_goes_through_its_handlers<H: HandlerTypes>(
    log: spec_fn(H::Comment) -> Seq<H::CommentHandler>,
    before: DispatcherView<H>,
    comment: H::Comment,
    descriptor: Option<DescriptorView>,
    after: DispatcherView<H>,
    descriptor_after: Option<DescriptorView>,
    res: Outcome<Token<H>, H>,
)
    requires
        notes_runs::<H::Comment, H::Failure, H::CommentHandler>(log),
        before.suspended is None,
        before.is_token_outcome(
            Token::Comment(comment),
            descriptor,
            after,
            descriptor_after,
            res,
        ),
    ensures
        match res {
            Ok(token) => token matches Token::Comment(out) && after.suspended is None && log(out)
                == log(comment) + active_between(before.comment, 0, before.comment.len() as int),
            Err(Interruption::Failed { error, unit }) => unit matches Token::Comment(out)
                && after.suspended is None && exists|next: int|
                {
                    &&& 0 < next <= before.comment.len()
                    &&& left_by(
                        before.comment[next - 1],
                        after.comment[next - 1],
                        out,
                        HandlerError::Failure(error),
                    )
                    &&& log(out) == log(comment) + #[trigger] active_between(before.comment, 0, next)
                },
            Err(Interruption::Suspended) => after.suspended matches Some(
                SuspendedToken::Comment { comment: out, next_handler_idx },
            ) && 0 < next_handler_idx <= before.comment.len() && left_by(
                before.comment[next_handler_idx - 1],
                after.comment[next_handler_idx - 1],
                *out,
                HandlerError::<H::Failure>::Suspension,
            ) && log(*out) == log(comment) + active_between(
                before.comment,
                0,
                next_handler_idx as int,
            ),
        },
        after.comment.len() == before.comment.len(),
        forall|i: int|
            0 <= i < before.comment.len() ==> (#[trigger] after.comment[i]).user_count
                == before.comment[i].user_count,
        after == (DispatcherView { comment: after.comment, suspended: after.suspended, ..before }),
        descriptor_after == descriptor,
{
    let r = choose|r: Outcome<H::Comment, H>| #[trigger]
        before.is_comment_outcome(comment, 0, after, r) && res == mapped(
            r,
            |unit: H::Comment| Token::<H>::Comment(unit),
        );
    let (unit, next, run) = choose|
        unit: H::Comment,
        next: usize,
        run: HandlerResult<H::Failure>,
    |
        {
            &&& #[trigger] is_run(
                false,
                before.comment,
                0,
                comment,
                after.comment,
                unit,
                next as nat,
                run,
            )
            &&& r == handed_back(run, unit)
            &&& after == (DispatcherView {
                comment: after.comment,
                suspended: parked(
                    run,
                    SuspendedToken::Comment { comment: Box::new(unit), next_handler_idx: next },
                    before.suspended,
                ),
                ..before
            })
        };
    law_run_calls_active_handlers_in_order(
        log,
        false,
        before.comment,
        0,
        comment,
        after.comment,
        unit,
        next as nat,
        run,
    );
    law_run_touches_what_it_passed(
        false,
        before.comment,
        0,
        comment,
        after.comment,
        unit,
        next as nat,
        run,
    );
    if let Err(error) = run {
        law_run_is_stopped_by_its_last_handler(
            false,
            before.comment,
            0,
            comment,
            after.comment,
            unit,
            next as nat,
            error,
        );
        assert(active_between(before.comment, 0, next as int) == active_between(
            before.comment,
            0,
            next as int,
        ));
    }
}

/// The handlers of a doctype run on it in order, each active one once, up to the one that stops the
/// run, if any. What comes out, or else is parked, is what they left, and a parked doctype goes on
/// behind the handler that was suspended. Nothing but the handlers themselves changes.
pub proof fn law_doctype_goes_through_its_handlers<H: HandlerTypes>(
    log: spec_fn(H::Doctype) -> Seq<H::DoctypeHandler>,
    before: DispatcherView<H>,
    doctype: H::Doctype,
    descriptor: Option<DescriptorView>,
    after: DispatcherView<H>,
    descriptor_after: Option<DescriptorView>,
    res: Outcome<Token<H>, H>,
)
    requires
        notes_runs::<H::Doctype, H::Failure, H::DoctypeHandler>(log),
        before.suspended is None,
        before.is_token_outcome(
            Token::Doctype(doctype),
            descriptor,
            after,
            descriptor_after,
            res,
        ),
    ensures
        match res {
            Ok(token) => token matches Token::Doctype(out) && after.suspended is None && log(out)
                == log(doctype) + active_between(before.doctype, 0, before.doctype.len() as int),
            Err(Interruption::Failed { error, unit }) => unit matches Token::Doctype(out)
                && after.suspended is None && exists|next: int|
                {
                    &&& 0 < next <= before.doctype.len()
                    &&& left_by(
                        before.doctype[next - 1],
                        after.doctype[next - 1],
                        out,
                        HandlerError::Failure(error),
                    )
                    &&& log(out) == log(doctype) + #[trigger] active_between(before.doctype, 0, next)
                },
            Err(Interruption::Suspended) => after.suspended matches Some(
                SuspendedToken::Doctype { doctype: out, next_handler_idx },
            ) && 0 < next_handler_idx <= before.doctype.len() && left_by(
                before.doctype[next_handler_idx - 1],
                after.doctype[next_handler_idx - 1],
                *out,
                HandlerError::<H::Failure>::Suspension,
            ) && log(*out) == log(doctype) + active_between(
                before.doctype,
                0,
                next_handler_idx as int,
            ),
        },
        after.doctype.len() == before.doctype.len(),
        forall|i: int|
            0 <= i < before.doctype.len() ==> (#[trigger] after.doctype[i]).user_count
                == before.doctype[i].user_count,
        after == (DispatcherView { doctype: after.doctype, suspended: after.suspended, ..before }),
        descriptor_after == descriptor,
{
    let r = choose|r: Outcome<H::Doctype, H>| #[trigger]
        before.is_doctype_outcome(doctype, 0, after, r) && res == mapped(
            r,
            |unit: H::Doctype| Token::<H>::Doctype(unit),
        );
    let (unit, next, run) = choose|
        unit: H::Doctype,
        next: usize,
        run: HandlerResult<H::Failure>,
    |
        {
            &&& #[trigger] is_run(
                false,
                before.doctype,
                0,
                doctype,
                after.doctype,
                unit,
                next as nat,
                run,
            )
            &&& r == handed_back(run, unit)
            &&& after == (DispatcherView {
                doctype: after.doctype,
                suspended: parked(
                    run,
                    SuspendedToken::Doctype { doctype: Box::new(unit), next_handler_idx: next },
                    before.suspended,
                ),
                ..before
            })
        };
    law_run_calls_active_handlers_in_order(
        log,
        false,
        before.doctype,
        0,
        doctype,
        after.doctype,
        unit,
        next as nat,
        run,
    );
    law_run_touches_what_it_passed(
        false,
        before.doctype,
        0,
        doctype,
        after.doctype,
        unit,
        next as nat,
        run,
    );
    if let Err(error) = run {
        law_run_is_stopped_by_its_last_handler(
            false,
            before.doctype,
            0,
            doctype,
            after.doctype,
            unit,
            next as nat,
            error,
        );
        assert(active_between(before.doctype, 0, next as int) == active_between(
            before.doctype,
            0,
            next as int,
        ));
    }
}

} // verus!
