use super::handler_vec::{
    after_run, first_active, is_run, is_tail_run, lemma_first_of_run, some_active, with_one_less,
    with_one_more, HandlerVecItem,
};
use super::handlers::{Handler, HandlerError, HandlerResult, OnceHandler};
use vstd::prelude::*;

verus! {

/// A run touches nothing before its start, nothing from where it stopped on, and no inactive
/// handler. Where runs deactivate, every handler that it passed is inactive afterwards; where they
/// do not, every handler is wanted as often as before. It stops early only behind an active handler.
pub proof fn law_run_touches_what_it_passed<U, F, H: Handler<U, F>>(
    deactivates: bool,
    before: Seq<HandlerVecItem<H>>,
    start: nat,
    unit_before: U,
    after: Seq<HandlerVecItem<H>>,
    unit_after: U,
    next: nat,
    res: HandlerResult<F>,
)
    requires
        is_run(deactivates, before, start, unit_before, after, unit_after, next, res),
    ensures
        after.len() == before.len(),
        next <= before.len(),
        res is Ok ==> next == before.len(),
        res is Err ==> start < next && before[next - 1].user_count > 0,
        forall|i: int|
            0 <= i < before.len() && (i < start || i >= next || before[i].user_count == 0)
                ==> #[trigger] after[i] == before[i],
        forall|i: int|
            start <= i < next ==> (#[trigger] after[i]).user_count == (if deactivates {
                0
            } else {
                before[i].user_count
            }),
    decreases before.len() - start,
{
    if start < before.len() {
        if before[start as int].user_count == 0 {
            law_run_touches_what_it_passed(
                deactivates,
                before,
                start + 1,
                unit_before,
                after,
                unit_after,
                next,
                res,
            );
        } else {
            let (handler, unit, r) = lemma_first_of_run(
                deactivates,
                before,
                start,
                unit_before,
                after,
                unit_after,
                next,
                res,
            );
            let changed = before.update(
                start as int,
                after_run(before[start as int], handler, deactivates),
            );
            if r is Ok {
                law_run_touches_what_it_passed(
                    deactivates,
                    changed,
                    start + 1,
                    unit,
                    after,
                    unit_after,
                    next,
                    res,
                );
            }
        }
    }
}

/// A run that was stopped by a handler and taken up again behind it passes every handler once: the
/// second part sees each handler that is left as the first part found it, and does not touch those
/// that the first part passed.
pub proof fn law_resumed_run_goes_on_behind<U, F, H: Handler<U, F>>(
    deactivates: bool,
    before: Seq<HandlerVecItem<H>>,
    start: nat,
    unit_before: U,
    between: Seq<HandlerVecItem<H>>,
    unit_stopped: U,
    stop: nat,
    error: HandlerError<F>,
    unit_resumed: U,
    after: Seq<HandlerVecItem<H>>,
    unit_after: U,
    next: nat,
    res: HandlerResult<F>,
)
    requires
        is_run(
            deactivates,
            before,
            start,
            unit_before,
            between,
            unit_stopped,
            stop,
            Err::<(), HandlerError<F>>(error),
        ),
        is_run(deactivates, between, stop, unit_resumed, after, unit_after, next, res),
    ensures
        start < stop <= next,
        forall|i: int| stop <= i < before.len() ==> #[trigger] between[i] == before[i],
        forall|i: int| 0 <= i < stop ==> #[trigger] after[i] == between[i],
{
    law_run_touches_what_it_passed(
        deactivates,
        before,
        start,
        unit_before,
        between,
        unit_stopped,
        stop,
        Err::<(), HandlerError<F>>(error),
    );
    law_run_touches_what_it_passed(
        deactivates,
        between,
        stop,
        unit_resumed,
        after,
        unit_after,
        next,
        res,
    );
}

/// Whether a handler that asked for suspension, and left `stopped` of the unit, could as well have
/// left `resumed` of it and gone on.
pub open spec fn could_go_on<U, F, H: Handler<U, F>>(
    stopped: U,
    resumed: U,
    error: HandlerError<F>,
) -> bool {
    forall|before: H, unit: U, after: H|
        #[trigger]
        H::handled(before, unit, after, stopped, Err(error)) ==> H::handled(
            before,
            unit,
            after,
            resumed,
            Ok(()),
        )
}

/// A run that was stopped by a handler, and taken up again behind it with the unit as it was changed
/// in between, is one run that was not stopped: the one in which the handler made the change itself
/// and went on.
pub proof fn law_resumed_run_is_one_run<U, F, H: Handler<U, F>>(
    deactivates: bool,
    before: Seq<HandlerVecItem<H>>,
    start: nat,
    unit_before: U,
    between: Seq<HandlerVecItem<H>>,
    unit_stopped: U,
    stop: nat,
    error: HandlerError<F>,
    unit_resumed: U,
    after: Seq<HandlerVecItem<H>>,
    unit_after: U,
    next: nat,
    res: HandlerResult<F>,
)
    requires
        is_run(
            deactivates,
            before,
            start,
            unit_before,
            between,
            unit_stopped,
            stop,
            Err::<(), HandlerError<F>>(error),
        ),
        could_go_on::<U, F, H>(unit_stopped, unit_resumed, error),
        is_run(deactivates, between, stop, unit_resumed, after, unit_after, next, res),
    ensures
        is_run(deactivates, before, start, unit_before, after, unit_after, next, res),
    decreases before.len() - start,
{
    let stopped = Err::<(), HandlerError<F>>(error);
    if start < before.len() {
        if before[start as int].user_count == 0 {
            law_resumed_run_is_one_run(
                deactivates,
                before,
                start + 1,
                unit_before,
                between,
                unit_stopped,
                stop,
                error,
                unit_resumed,
                after,
                unit_after,
                next,
                res,
            );
        } else {
            let (handler, unit, r) = lemma_first_of_run(
                deactivates,
                before,
                start,
                unit_before,
                between,
                unit_stopped,
                stop,
                stopped,
            );
            let changed = before.update(
                start as int,
                after_run(before[start as int], handler, deactivates),
            );
            if r is Ok {
                law_resumed_run_is_one_run(
                    deactivates,
                    changed,
                    start + 1,
                    unit,
                    between,
                    unit_stopped,
                    stop,
                    error,
                    unit_resumed,
                    after,
                    unit_after,
                    next,
                    res,
                );
                assert(r->Ok_0 == ());
                assert(H::handled(before[start as int].handler, unit_before, handler, unit, r));
            } else {
                assert(H::handled(
                    before[start as int].handler,
                    unit_before,
                    handler,
                    unit_stopped,
                    stopped,
                ));
                assert(H::handled(
                    before[start as int].handler,
                    unit_before,
                    handler,
                    unit_resumed,
                    Ok::<(), HandlerError<F>>(()),
                ));
            }
        }
    }
}

/// Whether a handler that runs once and asked for suspension, and left `stopped` of the unit, could
/// as well have left `resumed` of it and gone on.
pub open spec fn could_go_on_once<U, F, H: OnceHandler<U, F>>(
    stopped: U,
    resumed: U,
    error: HandlerError<F>,
) -> bool {
    forall|handler: H, unit: U|
        #[trigger]
        handler.handled_once(unit, stopped, Err(error)) ==> handler.handled_once(
            unit,
            resumed,
            Ok(()),
        )
}

proof fn lemma_resumed_tail_run<U, F, H: OnceHandler<U, F>>(
    before: Seq<HandlerVecItem<H>>,
    first: nat,
    unit_before: U,
    between: Seq<HandlerVecItem<H>>,
    unit_stopped: U,
    error: HandlerError<F>,
    unit_resumed: U,
    after: Seq<HandlerVecItem<H>>,
    unit_after: U,
    res: HandlerResult<F>,
)
    requires
        is_tail_run(
            before,
            first as int,
            unit_before,
            between,
            unit_stopped,
            Err::<(), HandlerError<F>>(error),
        ),
        could_go_on_once::<U, F, H>(unit_stopped, unit_resumed, error),
        is_tail_run(between, first as int, unit_resumed, after, unit_after, res),
    ensures
        is_tail_run(before, first as int, unit_before, after, unit_after, res),
    decreases before.len(),
{
    let stopped = Err::<(), HandlerError<F>>(error);
    let shorter = before.drop_last();
    if before.len() <= first || before.len() == 0 {
    } else if before.last().user_count == 0 {
        lemma_resumed_tail_run(
            shorter,
            first,
            unit_before,
            between,
            unit_stopped,
            error,
            unit_resumed,
            after,
            unit_after,
            res,
        );
    } else {
        let (unit, r) = choose|unit: U, r: HandlerResult<F>|
            {
                &&& #[trigger] before.last().handler.handled_once(unit_before, unit, r)
                &&& match r {
                    Ok(_) => is_tail_run(
                        before.drop_last(),
                        first as int,
                        unit,
                        between,
                        unit_stopped,
                        stopped,
                    ),
                    Err(_) => between == before.drop_last() && unit_stopped == unit && stopped == r,
                }
            };
        if r is Ok {
            lemma_resumed_tail_run(
                shorter,
                first,
                unit,
                between,
                unit_stopped,
                error,
                unit_resumed,
                after,
                unit_after,
                res,
            );
            assert(before.last().handler.handled_once(unit_before, unit, r));
        } else {
            assert(before.last().handler.handled_once(unit_before, unit_stopped, stopped));
            assert(before.last().handler.handled_once(
                unit_before,
                unit_resumed,
                Ok::<(), HandlerError<F>>(()),
            ));
        }
    }
}

/// A run from the back that was stopped by a handler, and taken up again with the unit as it was
/// changed in between, is one run that was not stopped.
pub proof fn law_resumed_tail_run_is_one_run<U, F, H: OnceHandler<U, F>>(
    before: Seq<HandlerVecItem<H>>,
    unit_before: U,
    between: Seq<HandlerVecItem<H>>,
    unit_stopped: U,
    error: HandlerError<F>,
    unit_resumed: U,
    after: Seq<HandlerVecItem<H>>,
    unit_after: U,
    res: HandlerResult<F>,
)
    requires
        is_tail_run(
            before,
            first_active(before) as int,
            unit_before,
            between,
            unit_stopped,
            Err::<(), HandlerError<F>>(error),
        ),
        could_go_on_once::<U, F, H>(unit_stopped, unit_resumed, error),
        is_tail_run(
            between,
            first_active(between) as int,
            unit_resumed,
            after,
            unit_after,
            res,
        ),
    ensures
        is_tail_run(before, first_active(before) as int, unit_before, after, unit_after, res),
{
    let first = first_active(before);
    lemma_first_active_is_first(before);
    lemma_tail_run(
        before,
        first,
        unit_before,
        between,
        unit_stopped,
        Err::<(), HandlerError<F>>(error),
    );
    lemma_first_active_of_prefix(before, between.len() as int);
    lemma_resumed_tail_run(
        before,
        first,
        unit_before,
        between,
        unit_stopped,
        error,
        unit_resumed,
        after,
        unit_after,
        res,
    );
}

/// Nothing before the first active item is active, and the first active item is.
pub proof fn lemma_first_active_is_first<H>(items: Seq<HandlerVecItem<H>>)
    ensures
        first_active(items) <= items.len(),
        forall|i: int| 0 <= i < first_active(items) ==> (#[trigger] items[i]).user_count == 0,
        first_active(items) < items.len() ==> items[first_active(items) as int].user_count > 0,
    decreases items.len(),
{
    if items.len() > 0 {
        let shorter = items.drop_last();
        lemma_first_active_is_first(shorter);
        assert forall|i: int| 0 <= i < first_active(items) implies (
        #[trigger] items[i]).user_count == 0 by {
            if i < shorter.len() {
                assert(shorter[i].user_count == 0);
            }
        }
    }
}

proof fn lemma_first_active_of_prefix<H>(items: Seq<HandlerVecItem<H>>, len: int)
    requires
        0 <= len <= items.len(),
    ensures
        first_active(items) <= items.len(),
        first_active(items.take(len)) == (if first_active(items) < len {
            first_active(items)
        } else {
            len as nat
        }),
    decreases items.len(),
{
    lemma_first_active_is_first(items);
    if len < items.len() {
        lemma_first_active_of_prefix(items.drop_last(), len);
        assert(items.drop_last().take(len) =~= items.take(len));
    } else {
        assert(items.take(len) =~= items);
    }
}

pub proof fn lemma_tail_run<U, F, H: OnceHandler<U, F>>(
    before: Seq<HandlerVecItem<H>>,
    first: nat,
    unit_before: U,
    after: Seq<HandlerVecItem<H>>,
    unit_after: U,
    res: HandlerResult<F>,
)
    requires
        is_tail_run(before, first as int, unit_before, after, unit_after, res),
        first <= before.len(),
    ensures
        first <= after.len() <= before.len(),
        after == before.take(after.len() as int),
        res is Ok ==> after.len() == first,
        res is Err ==> after.len() < before.len() && before[after.len() as int].user_count > 0,
    decreases before.len(),
{
    let shorter = before.drop_last();
    if before.len() <= first || before.len() == 0 {
        assert(before.take(before.len() as int) =~= before);
    } else if before.last().user_count == 0 {
        lemma_tail_run(shorter, first, unit_before, after, unit_after, res);
        assert(before.take(after.len() as int) =~= shorter.take(after.len() as int));
    } else {
        let (unit, r) = choose|unit: U, r: HandlerResult<F>|
            {
                &&& #[trigger] before.last().handler.handled_once(unit_before, unit, r)
                &&& match r {
                    Ok(_) => is_tail_run(
                        before.drop_last(),
                        first as int,
                        unit,
                        after,
                        unit_after,
                        res,
                    ),
                    Err(_) => after == before.drop_last() && unit_after == unit && res == r,
                }
            };
        if r is Ok {
            lemma_tail_run(shorter, first, unit, after, unit_after, res);
            assert(before.take(after.len() as int) =~= shorter.take(after.len() as int));
        } else {
            assert(before.take(before.len() - 1) =~= shorter);
        }
    }
}

/// A run that takes items from the back leaves the items in front as they are. When it comes to its
/// end, no active handler is left, and exactly the items before the first active one remain. When a
/// handler stops it, the handler is gone, and a run over what is left ends with the same items.
pub proof fn law_tail_run_leaves_the_front<U, F, H: OnceHandler<U, F>>(
    before: Seq<HandlerVecItem<H>>,
    unit_before: U,
    after: Seq<HandlerVecItem<H>>,
    unit_after: U,
    res: HandlerResult<F>,
)
    requires
        is_tail_run(before, first_active(before) as int, unit_before, after, unit_after, res),
    ensures
        after.len() <= before.len(),
        after == before.take(after.len() as int),
        res is Ok ==> after == before.take(first_active(before) as int) && !some_active(after),
        res is Err ==> after.len() < before.len() && before[after.len() as int].user_count > 0,
        after.take(first_active(after) as int) == before.take(first_active(before) as int),
{
    let first = first_active(before);
    lemma_first_active_is_first(before);
    lemma_tail_run(before, first, unit_before, after, unit_after, res);
    lemma_first_active_of_prefix(before, after.len() as int);
    assert(after.take(first_active(after) as int) =~= before.take(first as int));
    if res is Ok {
        assert forall|i: int| 0 <= i < after.len() implies (#[trigger] after[i]).user_count
            == 0 by {
            assert(before[i].user_count == 0);
        }
    }
}

/// The items after the one at `at` was raised some times.
pub open spec fn raised<H>(items: Seq<HandlerVecItem<H>>, at: nat, times: nat) -> Seq<
    HandlerVecItem<H>,
>
    decreases times,
{
    if times == 0 {
        items
    } else {
        with_one_more(raised(items, at, (times - 1) as nat), at)
    }
}

/// The items after the one at `at` was lowered some times.
pub open spec fn lowered<H>(items: Seq<HandlerVecItem<H>>, at: nat, times: nat) -> Seq<
    HandlerVecItem<H>,
>
    decreases times,
{
    if times == 0 {
        items
    } else {
        with_one_less(lowered(items, at, (times - 1) as nat), at)
    }
}

proof fn lemma_raised<H>(items: Seq<HandlerVecItem<H>>, at: nat, times: nat)
    requires
        at < items.len(),
        items[at as int].user_count + times <= u32::MAX,
    ensures
        raised(items, at, times) == items.update(
            at as int,
            HandlerVecItem {
                handler: items[at as int].handler,
                user_count: (items[at as int].user_count + times) as u32,
            },
        ),
    decreases times,
{
    if times == 0 {
        assert(raised(items, at, times) =~= items.update(at as int, items[at as int]));
    } else {
        lemma_raised(items, at, (times - 1) as nat);
        assert(raised(items, at, times) =~= items.update(
            at as int,
            HandlerVecItem {
                handler: items[at as int].handler,
                user_count: (items[at as int].user_count + times) as u32,
            },
        ));
    }
}

proof fn lemma_lowered<H>(items: Seq<HandlerVecItem<H>>, at: nat, times: nat)
    requires
        at < items.len(),
        times <= items[at as int].user_count,
    ensures
        lowered(items, at, times) == items.update(
            at as int,
            HandlerVecItem {
                handler: items[at as int].handler,
                user_count: (items[at as int].user_count - times) as u32,
            },
        ),
    decreases times,
{
    if times == 0 {
        assert(lowered(items, at, times) =~= items.update(at as int, items[at as int]));
    } else {
        lemma_lowered(items, at, (times - 1) as nat);
        assert(lowered(items, at, times) =~= items.update(
            at as int,
            HandlerVecItem {
                handler: items[at as int].handler,
                user_count: (items[at as int].user_count - times) as u32,
            },
        ));
    }
}

/// Lowering a handler as often as it was raised changes nothing. Lowered less often it is still
/// active, so a handler that was not active gets inactive again just when it was lowered as often as
/// it was raised. And no other handler is touched.
pub proof fn law_lowering_undoes_raising<H>(
    items: Seq<HandlerVecItem<H>>,
    at: nat,
    raises: nat,
    lowers: nat,
)
    requires
        at < items.len(),
        items[at as int].user_count + raises <= u32::MAX,
        lowers <= raises,
    ensures
        ({
            let after = lowered(raised(items, at, raises), at, lowers);
            &&& lowers == raises ==> after == items
            &&& after.len() == items.len()
            &&& lowers < raises ==> after[at as int].user_count > 0
            &&& after[at as int].user_count == items[at as int].user_count + raises - lowers
            &&& forall|i: int| 0 <= i < items.len() && i != at ==> #[trigger] after[i] == items[i]
        }),
{
    lemma_raised(items, at, raises);
    lemma_lowered(raised(items, at, raises), at, lowers);
    let after = lowered(raised(items, at, raises), at, lowers);
    if lowers == raises {
        assert(after =~= items);
    }
}

/// The handlers of the active items, from the last one down to index `down_to`.
pub open spec fn active_from_back<H>(items: Seq<HandlerVecItem<H>>, down_to: int) -> Seq<H>
    decreases items.len(),
{
    if items.len() <= down_to || items.len() == 0 {
        Seq::empty()
    } else if items.last().user_count > 0 {
        seq![items.last().handler] + active_from_back(items.drop_last(), down_to)
    } else {
        active_from_back(items.drop_last(), down_to)
    }
}

/// Whether a unit shows which handlers ran on it, one after the other.
pub open spec fn shows_runs<U, F, H: OnceHandler<U, F>>(log: spec_fn(U) -> Seq<H>) -> bool {
    forall|handler: H, before: U, after: U, res: HandlerResult<F>|
        #[trigger]
        handler.handled_once(before, after, res) ==> log(after) == log(before).push(handler)
}

pub proof fn lemma_active_in_parts<H>(items: Seq<HandlerVecItem<H>>, len: int, down_to: int)
    requires
        0 <= down_to <= len <= items.len(),
    ensures
        active_from_back(items, down_to) == active_from_back(items, len) + active_from_back(
            items.take(len),
            down_to,
        ),
    decreases items.len(),
{
    if items.len() == len {
        assert(items.take(len) =~= items);
        assert(Seq::<H>::empty() + active_from_back(items, down_to) =~= active_from_back(
            items,
            down_to,
        ));
    } else {
        let shorter = items.drop_last();
        lemma_active_in_parts(shorter, len, down_to);
        assert(shorter.take(len) =~= items.take(len));
        assert(active_from_back(items, down_to) =~= active_from_back(items, len)
            + active_from_back(items.take(len), down_to));
    }
}

pub proof fn lemma_tail_run_runs<U, F, H: OnceHandler<U, F>>(
    log: spec_fn(U) -> Seq<H>,
    before: Seq<HandlerVecItem<H>>,
    first: nat,
    unit_before: U,
    after: Seq<HandlerVecItem<H>>,
    unit_after: U,
    res: HandlerResult<F>,
)
    requires
        shows_runs::<U, F, H>(log),
        is_tail_run(before, first as int, unit_before, after, unit_after, res),
        first <= before.len(),
    ensures
        log(unit_after) == log(unit_before) + active_from_back(before, after.len() as int),
    decreases before.len(),
{
    let shorter = before.drop_last();
    lemma_tail_run(before, first, unit_before, after, unit_after, res);
    if before.len() <= first || before.len() == 0 {
        assert(log(unit_before) + Seq::<H>::empty() =~= log(unit_before));
    } else if before.last().user_count == 0 {
        lemma_tail_run_runs(log, shorter, first, unit_before, after, unit_after, res);
        lemma_tail_run(shorter, first, unit_before, after, unit_after, res);
    } else {
        let handler = before.last().handler;
        let (unit, r) = choose|unit: U, r: HandlerResult<F>|
            {
                &&& #[trigger] before.last().handler.handled_once(unit_before, unit, r)
                &&& match r {
                    Ok(_) => is_tail_run(
                        before.drop_last(),
                        first as int,
                        unit,
                        after,
                        unit_after,
                        res,
                    ),
                    Err(_) => after == before.drop_last() && unit_after == unit && res == r,
                }
            };
        if r is Ok {
            lemma_tail_run_runs(log, shorter, first, unit, after, unit_after, res);
            lemma_tail_run(shorter, first, unit, after, unit_after, res);
            assert(log(unit_before).push(handler) + active_from_back(shorter, after.len() as int)
                =~= log(unit_before) + (seq![handler] + active_from_back(
                shorter,
                after.len() as int,
            )));
        } else {
            assert(active_from_back(shorter, shorter.len() as int) =~= Seq::<H>::empty());
            assert(log(unit_before).push(handler) =~= log(unit_before) + (seq![handler]
                + Seq::<H>::empty()));
        }
    }
}

pub proof fn lemma_nothing_active_before_first<H>(items: Seq<HandlerVecItem<H>>)
    ensures
        !some_active(items) ==> active_from_back(items, 0) == Seq::<H>::empty(),
    decreases items.len(),
{
    if items.len() > 0 && !some_active(items) {
        let shorter = items.drop_last();
        assert(items[items.len() - 1].user_count == 0);
        assert(!some_active(shorter)) by {
            if some_active(shorter) {
                let i: int = choose|i: int|
                    0 <= i < shorter.len() && (#[trigger] shorter[i]).user_count > 0;
                assert(items[i].user_count > 0);
            }
        }
        lemma_nothing_active_before_first(shorter);
    }
}

} // verus!
