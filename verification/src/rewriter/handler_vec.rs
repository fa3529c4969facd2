use super::handlers::{Handler, HandlerResult, OnceHandler};
use vstd::prelude::*;

verus! {

/// The place of a handler in its list. It holds the index plus one, so that zero is free to stand
/// for no place at all.
#[derive(Clone, Copy, Debug, PartialEq, Eq, Hash)]
pub struct Locator {
    number: u32,
}

impl Locator {
    #[verifier::type_invariant]
    spec fn is_well_formed(self) -> bool {
        self.number > 0
    }

    /// The index that the locator stands for.
    pub closed spec fn spec_index(self) -> nat {
        (self.number - 1) as nat
    }

    /// The locator of the item at `index`, unless its number does not fit.
    pub fn new(index: usize) -> (locator: Option<Self>)
        ensures
            places(locator) == place_at(index as nat),
    {
        if index < 0xffff_ffff {
            Some(Locator { number: index as u32 + 1 })
        } else {
            None
        }
    }
}

/// The place that an optional locator stands for.
pub open spec fn places(locator: Option<Locator>) -> Option<nat> {
    match locator {
        Some(l) => Some(l.spec_index()),
        None => None,
    }
}

/// The place of the item at `index`, as far as a locator can tell.
pub open spec fn place_at(index: nat) -> Option<nat> {
    if index < u32::MAX {
        Some(index)
    } else {
        None
    }
}

/// The index that a locator stands for.
pub fn locator_to_idx(locator: Locator) -> (idx: usize)
    ensures
        idx == locator.spec_index(),
        idx < u32::MAX,
{
    proof {
        use_type_invariant(&locator);
    }
    (locator.number - 1) as usize
}

/// A handler and how many open elements, or the document itself, want it to run. It is active
/// while anybody does.
pub struct HandlerVecItem<H> {
    pub handler: H,
    pub user_count: u32,
}

/// A list of handlers, with how often they are wanted in all.
pub struct HandlerVec<H> {
    items: Vec<HandlerVecItem<H>>,
    user_count: u32,
}

/// How often the items are wanted in all.
pub open spec fn total_users<H>(items: Seq<HandlerVecItem<H>>) -> nat
    decreases items.len(),
{
    if items.len() == 0 {
        0
    } else {
        total_users(items.drop_last()) + items.last().user_count as nat
    }
}

/// Whether some item is active.
pub open spec fn some_active<H>(items: Seq<HandlerVecItem<H>>) -> bool {
    exists|i: int| 0 <= i < items.len() && (#[trigger] items[i]).user_count > 0
}

/// How often the items are wanted after one of them is exchanged. None is wanted more often than all
/// of them together.
pub proof fn lemma_total_after_update<H>(
    items: Seq<HandlerVecItem<H>>,
    at: int,
    item: HandlerVecItem<H>,
)
    requires
        0 <= at < items.len(),
    ensures
        total_users(items.update(at, item)) == total_users(items) - items[at].user_count
            + item.user_count,
        items[at].user_count <= total_users(items),
    decreases items.len(),
{
    if at < items.len() - 1 {
        lemma_total_after_update(items.drop_last(), at, item);
        assert(items.update(at, item).drop_last() =~= items.drop_last().update(at, item));
    } else {
        assert(items.update(at, item).drop_last() =~= items.drop_last());
    }
}

/// A list is wanted by somebody exactly if one of its items is.
proof fn lemma_total_is_positive<H>(items: Seq<HandlerVecItem<H>>)
    ensures
        total_users(items) > 0 <==> some_active(items),
    decreases items.len(),
{
    if items.len() > 0 {
        let shorter = items.drop_last();
        lemma_total_is_positive(shorter);
        if some_active(shorter) {
            let i: int = choose|i: int|
                0 <= i < shorter.len() && (#[trigger] shorter[i]).user_count > 0;
            assert(items[i].user_count > 0);
        }
        if items.last().user_count > 0 {
            assert(items[items.len() - 1].user_count > 0);
        }
        if some_active(items) && items.last().user_count == 0 {
            let i: int = choose|i: int| 0 <= i < items.len() && (#[trigger] items[i]).user_count > 0;
            assert(shorter[i].user_count > 0);
        }
    }
}

/// An item after its handler ran: the handler has changed, and where runs deactivate, nobody wants
/// it any longer.
pub open spec fn after_run<H>(item: HandlerVecItem<H>, handler: H, deactivates: bool) -> HandlerVecItem<
    H,
> {
    HandlerVecItem {
        handler,
        user_count: if deactivates {
            0
        } else {
            item.user_count
        },
    }
}

/// Whether `after`, `unit_after`, `next` and `res` may come of running the active items of
/// `before`, from index `start` on and in order, on one unit. The run stops at the first handler
/// that returns an error, with `next` behind it; otherwise `next` is behind the last item.
pub open spec fn is_run<U, F, H: Handler<U, F>>(
    deactivates: bool,
    before: Seq<HandlerVecItem<H>>,
    start: nat,
    unit_before: U,
    after: Seq<HandlerVecItem<H>>,
    unit_after: U,
    next: nat,
    res: HandlerResult<F>,
) -> bool
    decreases before.len() - start,
{
    if start >= before.len() {
        after == before && unit_after == unit_before && next == before.len() && res is Ok
    } else if before[start as int].user_count == 0 {
        is_run(deactivates, before, start + 1, unit_before, after, unit_after, next, res)
    } else {
        exists|handler: H, unit: U, r: HandlerResult<F>|
            {
                let changed = before.update(
                    start as int,
                    after_run(before[start as int], handler, deactivates),
                );
                &&& #[trigger] H::handled(
                    before[start as int].handler,
                    unit_before,
                    handler,
                    unit,
                    r,
                )
                &&& match r {
                    Ok(_) => is_run(
                        deactivates,
                        changed,
                        start + 1,
                        unit,
                        after,
                        unit_after,
                        next,
                        res,
                    ),
                    Err(_) => after == changed && unit_after == unit && next == start + 1 && res
                        == r,
                }
            }
    }
}

/// What the first handler of a run did: it changed to the first value, made the second of the unit,
/// and returned the third.
pub proof fn lemma_first_of_run<U, F, H: Handler<U, F>>(
    deactivates: bool,
    before: Seq<HandlerVecItem<H>>,
    start: nat,
    unit_before: U,
    after: Seq<HandlerVecItem<H>>,
    unit_after: U,
    next: nat,
    res: HandlerResult<F>,
) -> (first: (H, U, HandlerResult<F>))
    requires
        is_run(deactivates, before, start, unit_before, after, unit_after, next, res),
        start < before.len(),
        before[start as int].user_count > 0,
    ensures
        H::handled(before[start as int].handler, unit_before, first.0, first.1, first.2),
        ({
            let changed = before.update(
                start as int,
                after_run(before[start as int], first.0, deactivates),
            );
            match first.2 {
                Ok(_) => is_run(
                    deactivates,
                    changed,
                    start + 1,
                    first.1,
                    after,
                    unit_after,
                    next,
                    res,
                ),
                Err(_) => after == changed && unit_after == first.1 && next == start + 1 && res
                    == first.2,
            }
        }),
{
    choose|handler: H, unit: U, r: HandlerResult<F>|
        {
            let changed = before.update(
                start as int,
                after_run(before[start as int], handler, deactivates),
            );
            &&& #[trigger] H::handled(before[start as int].handler, unit_before, handler, unit, r)
            &&& match r {
                Ok(_) => is_run(
                    deactivates,
                    changed,
                    start + 1,
                    unit,
                    after,
                    unit_after,
                    next,
                    res,
                ),
                Err(_) => after == changed && unit_after == unit && next == start + 1 && res == r,
            }
        }
}

/// A run neither adds nor takes items.
pub proof fn lemma_run_keeps_len<U, F, H: Handler<U, F>>(
    deactivates: bool,
    before: Seq<HandlerVecItem<H>>,
    start: nat,
    unit_before: U,
    after: Seq<HandlerVecItem<H>>,
    unit_after: U,
    next: nat,
    res: HandlerResult<F>,
)
    requires
        is_run(deactivates, before, start, unit_before, after, unit_after, next, res),
    ensures
        after.len() == before.len(),
    decreases before.len() - start,
{
    if start < before.len() {
        if before[start as int].user_count == 0 {
            lemma_run_keeps_len(
                deactivates,
                before,
                start + 1,
                unit_before,
                after,
                unit_after,
                next,
                res,
            );
        } else {
            let (handler, unit, r) = lemma_first_of_run(
                deactivates,
                before,
                start,
                unit_before,
                after,
                unit_after,
                next,
                res,
            );
            if r is Ok {
                let changed = before.update(
                    start as int,
                    after_run(before[start as int], handler, deactivates),
                );
                lemma_run_keeps_len(
                    deactivates,
                    changed,
                    start + 1,
                    unit,
                    after,
                    unit_after,
                    next,
                    res,
                );
            }
        }
    }
}

/// Whether `after`, `unit_after` and `res` may come of taking the items from the back of `before`,
/// down to index `first`, and running the active ones on one unit. The run stops at the first
/// handler that returns an error; what was taken is gone either way.
pub open spec fn is_tail_run<U, F, H: OnceHandler<U, F>>(
    before: Seq<HandlerVecItem<H>>,
    first: int,
    unit_before: U,
    after: Seq<HandlerVecItem<H>>,
    unit_after: U,
    res: HandlerResult<F>,
) -> bool
    decreases before.len(),
{
    if before.len() <= first || before.len() == 0 {
        after == before && unit_after == unit_before && res is Ok
    } else if before.last().user_count == 0 {
        is_tail_run(before.drop_last(), first, unit_before, after, unit_after, res)
    } else {
        exists|unit: U, r: HandlerResult<F>|
            {
                &&& #[trigger] before.last().handler.handled_once(unit_before, unit, r)
                &&& match r {
                    Ok(_) => is_tail_run(before.drop_last(), first, unit, after, unit_after, res),
                    Err(_) => after == before.drop_last() && unit_after == unit && res == r,
                }
            }
    }
}

/// The index of the first active item, or the number of items where none is.
pub open spec fn first_active<H>(items: Seq<HandlerVecItem<H>>) -> nat
    decreases items.len(),
{
    if items.len() == 0 {
        0
    } else if first_active(items.drop_last()) < items.len() - 1 {
        first_active(items.drop_last())
    } else if items.last().user_count > 0 {
        (items.len() - 1) as nat
    } else {
        items.len()
    }
}

/// Nothing before the first active item is active.
proof fn lemma_first_active<H>(items: Seq<HandlerVecItem<H>>, at: int)
    requires
        0 <= at <= items.len(),
        forall|i: int| 0 <= i < at ==> (#[trigger] items[i]).user_count == 0,
        at < items.len() ==> items[at].user_count > 0,
    ensures
        first_active(items) == at,
    decreases items.len(),
{
    if items.len() > 0 {
        let shorter = items.drop_last();
        assert forall|i: int| 0 <= i < at && i < shorter.len() implies (
        #[trigger] shorter[i]).user_count == 0 by {
            assert(items[i].user_count == 0);
        }
        if at == items.len() {
            lemma_first_active(shorter, at - 1);
            assert(items[at - 1].user_count == 0);
        } else {
            lemma_first_active(shorter, at);
        }
    }
}

impl<H> View for HandlerVec<H> {
    type V = Seq<HandlerVecItem<H>>;

    closed spec fn view(&self) -> Seq<HandlerVecItem<H>> {
        self.items@
    }
}

impl<H> Default for HandlerVec<H> {
    fn default() -> (handlers: Self)
        ensures
            handlers@ == Seq::<HandlerVecItem<H>>::empty(),
            handlers.is_well_formed(),
    {
        HandlerVec { items: Vec::new(), user_count: 0 }
    }
}

impl<H> HandlerVec<H> {
    /// The count of the whole list is the sum of the counts of its items.
    pub closed spec fn is_well_formed(&self) -> bool {
        self.user_count == total_users(self.items@)
    }

    /// Appends a handler, and returns its locator.
    pub fn push(&mut self, handler: H, always_active: bool) -> (locator: Option<Locator>)
        requires
            old(self).is_well_formed(),
            always_active ==> total_users(old(self)@) < u32::MAX,
        ensures
            final(self).is_well_formed(),
            final(self)@ == old(self)@.push(
                HandlerVecItem {
                    handler,
                    user_count: if always_active {
                        1
                    } else {
                        0
                    },
                },
            ),
            places(locator) == place_at(old(self)@.len()),
    {
        let user_count: u32 = if always_active {
            1
        } else {
            0
        };
        let locator = Locator::new(self.items.len());
        self.user_count = self.user_count + user_count;
        self.items.push(HandlerVecItem { handler, user_count });
        assert(self.items@.drop_last() =~= old(self).items@);
        locator
    }

    /// Notes that one more wants the handler at `idx`. A locator of another list, that points
    /// behind the last item, changes nothing.
    pub fn inc_user_count(&mut self, idx: Locator)
        requires
            old(self).is_well_formed(),
            total_users(old(self)@) < u32::MAX,
        ensures
            final(self).is_well_formed(),
            final(self)@ == with_one_more(old(self)@, idx.spec_index()),
            idx.spec_index() < old(self)@.len() ==> {
                &&& old(self)@[idx.spec_index() as int].user_count < u32::MAX
                &&& is_wanted(final(self)@, idx.spec_index())
            },
    {
        let at: usize = locator_to_idx(idx);
        if at >= self.items.len() {
            return;
        }
        proof {
            lemma_total_after_update(
                self.items@,
                at as int,
                HandlerVecItem {
                    handler: self.items@[at as int].handler,
                    user_count: (self.items@[at as int].user_count + 1) as u32,
                },
            );
        }
        let count: u32 = self.items[at].user_count;
        self.items[at].user_count = count + 1;
        self.user_count = self.user_count + 1;
    }

    /// Notes that one less wants the handler at `idx`. A locator of another list, that points
    /// behind the last item, changes nothing.
    pub fn dec_user_count(&mut self, idx: Locator)
        requires
            old(self).is_well_formed(),
            is_wanted(old(self)@, idx.spec_index()),
        ensures
            final(self).is_well_formed(),
            final(self)@ == with_one_less(old(self)@, idx.spec_index()),
    {
        let at: usize = locator_to_idx(idx);
        if at >= self.items.len() {
            return;
        }
        proof {
            lemma_total_after_update(
                self.items@,
                at as int,
                HandlerVecItem {
                    handler: self.items@[at as int].handler,
                    user_count: (self.items@[at as int].user_count - 1) as u32,
                },
            );
        }
        let count: u32 = self.items[at].user_count;
        self.items[at].user_count = count - 1;
        self.user_count = self.user_count - 1;
    }

    /// Whether some handler is active.
    pub fn has_active(&self) -> (active: bool)
        requires
            self.is_well_formed(),
        ensures
            active == some_active(self@),
    {
        proof {
            lemma_total_is_positive(self.items@);
        }
        self.user_count > 0
    }

    /// Runs the active handlers from `start_idx` on. `*next_idx` is kept pointed past the handler
    /// being run, so that a run that was suspended can be resumed from the one that follows.
    pub fn for_each_active_from<U, F>(
        &mut self,
        start_idx: usize,
        next_idx: &mut usize,
        unit: &mut U,
    ) -> (res: HandlerResult<F>) where H: Handler<U, F>
        requires
            old(self).is_well_formed(),
        ensures
            final(self).is_well_formed(),
            is_run(
                false,
                old(self)@,
                start_idx as nat,
                *old(unit),
                final(self)@,
                *final(unit),
                *final(next_idx) as nat,
                res,
            ),
    {
        let mut i: usize = start_idx;
        while i < self.items.len()
            invariant
                self.is_well_formed(),
                start_idx <= i,
                forall|after: Seq<HandlerVecItem<H>>, unit_after: U, next: nat, res: HandlerResult<F>|
                    #[trigger] is_run(false, self@, i as nat, *unit, after, unit_after, next, res)
                        ==> is_run(
                        false,
                        old(self)@,
                        start_idx as nat,
                        *old(unit),
                        after,
                        unit_after,
                        next,
                        res,
                    ),
            decreases self.items.len() - i,
        {
            let ghost before = self@;
            let ghost unit_before = *unit;
            if self.items[i].user_count > 0 {
                *next_idx = i + 1;
                let res = self.items[i].handler.handle(unit);
                proof {
                    let handler = self.items@[i as int].handler;
                    let changed = after_run(before[i as int], handler, false);
                    lemma_total_after_update(before, i as int, changed);
                    assert(self.items@ =~= before.update(i as int, changed));
                    assert(H::handled(before[i as int].handler, unit_before, handler, *unit, res));
                }
                if res.is_err() {
                    assert(is_run(
                        false,
                        before,
                        i as nat,
                        unit_before,
                        self@,
                        *unit,
                        i as nat + 1,
                        res,
                    ));
                    return res;
                }
            }
            proof {
                assert forall|
                    after: Seq<HandlerVecItem<H>>,
                    unit_after: U,
                    next: nat,
                    res: HandlerResult<F>,
                | #[trigger]
                    is_run(false, self@, i as nat + 1, *unit, after, unit_after, next, res) implies is_run(
                    false,
                    before,
                    i as nat,
                    unit_before,
                    after,
                    unit_after,
                    next,
                    res,
                ) by {
                }
            }
            i = i + 1;
        }
        *next_idx = self.items.len();
        assert(is_run(false, self@, i as nat, *unit, self@, *unit, self@.len(), Ok(())));
        Ok(())
    }

    /// Runs the active handlers from `start_idx` on, and deactivates each. A handler is deactivated
    /// before its error is handed on, so that it does not run again when a suspended run is resumed
    /// from `*next_idx`.
    pub fn do_for_each_active_and_deactivate_from<U, F>(
        &mut self,
        start_idx: usize,
        next_idx: &mut usize,
        unit: &mut U,
    ) -> (res: HandlerResult<F>) where H: Handler<U, F>
        requires
            old(self).is_well_formed(),
        ensures
            final(self).is_well_formed(),
            is_run(
                true,
                old(self)@,
                start_idx as nat,
                *old(unit),
                final(self)@,
                *final(unit),
                *final(next_idx) as nat,
                res,
            ),
    {
        let mut i: usize = start_idx;
        while i < self.items.len()
            invariant
                self.is_well_formed(),
                start_idx <= i,
                forall|after: Seq<HandlerVecItem<H>>, unit_after: U, next: nat, res: HandlerResult<F>|
                    #[trigger] is_run(true, self@, i as nat, *unit, after, unit_after, next, res)
                        ==> is_run(
                        true,
                        old(self)@,
                        start_idx as nat,
                        *old(unit),
                        after,
                        unit_after,
                        next,
                        res,
                    ),
            decreases self.items.len() - i,
        {
            let ghost before = self@;
            let ghost unit_before = *unit;
            let count: u32 = self.items[i].user_count;
            if count > 0 {
                *next_idx = i + 1;
                let res = self.items[i].handler.handle(unit);
                self.items[i].user_count = 0;
                proof {
                    let handler = self.items@[i as int].handler;
                    let changed = after_run(before[i as int], handler, true);
                    lemma_total_after_update(before, i as int, changed);
                    assert(self.items@ =~= before.update(i as int, changed));
                    assert(H::handled(before[i as int].handler, unit_before, handler, *unit, res));
                }
                self.user_count = self.user_count - count;
                if res.is_err() {
                    assert(is_run(
                        true,
                        before,
                        i as nat,
                        unit_before,
                        self@,
                        *unit,
                        i as nat + 1,
                        res,
                    ));
                    return res;
                }
            }
            proof {
                assert forall|
                    after: Seq<HandlerVecItem<H>>,
                    unit_after: U,
                    next: nat,
                    res: HandlerResult<F>,
                | #[trigger]
                    is_run(true, self@, i as nat + 1, *unit, after, unit_after, next, res) implies is_run(
                    true,
                    before,
                    i as nat,
                    unit_before,
                    after,
                    unit_after,
                    next,
                    res,
                ) by {
                }
            }
            i = i + 1;
        }
        *next_idx = self.items.len();
        assert(is_run(true, self@, i as nat, *unit, self@, *unit, self@.len(), Ok(())));
        Ok(())
    }

    /// Takes every item from the first active one on, the last one first, and runs the active ones.
    /// The items are taken one at a time: where a handler is suspended, those that have not run yet
    /// stay in place for the resumed run. Items before the first active one belong to handlers that
    /// are still to be wanted, and keep their places.
    pub fn do_for_each_active_and_remove_tail<U, F>(&mut self, unit: &mut U) -> (res: HandlerResult<
        F,
    >) where H: OnceHandler<U, F>
        requires
            old(self).is_well_formed(),
        ensures
            final(self).is_well_formed(),
            is_tail_run(
                old(self)@,
                first_active(old(self)@) as int,
                *old(unit),
                final(self)@,
                *final(unit),
                res,
            ),
    {
        let mut first: usize = 0;
        while first < self.items.len() && self.items[first].user_count == 0
            invariant
                first <= self.items.len(),
                forall|i: int| 0 <= i < first ==> (#[trigger] self.items@[i]).user_count == 0,
            decreases self.items.len() - first,
        {
            first = first + 1;
        }
        proof {
            lemma_first_active(self.items@, first as int);
        }
        while self.items.len() > first
            invariant
                self.is_well_formed(),
                first as int == first_active(old(self)@),
                forall|after: Seq<HandlerVecItem<H>>, unit_after: U, res: HandlerResult<F>|
                    #[trigger] is_tail_run(self@, first as int, *unit, after, unit_after, res)
                        ==> is_tail_run(
                        old(self)@,
                        first as int,
                        *old(unit),
                        after,
                        unit_after,
                        res,
                    ),
            decreases self.items.len(),
        {
            let ghost before = self@;
            let ghost unit_before = *unit;
            let popped = self.items.pop();
            match popped {
                Some(item) => {
                    assert(self.items@ =~= before.drop_last());
                    if item.user_count > 0 {
                        self.user_count = self.user_count - item.user_count;
                        let res = item.handler.handle_once(unit);
                        assert(before.last().handler.handled_once(unit_before, *unit, res));
                        if res.is_err() {
                            assert(is_tail_run(
                                before,
                                first as int,
                                unit_before,
                                self@,
                                *unit,
                                res,
                            ));
                            return res;
                        }
                    }
                },
                None => {},
            }
            proof {
                assert forall|after: Seq<HandlerVecItem<H>>, unit_after: U, res: HandlerResult<F>|
                    #[trigger]
                    is_tail_run(self@, first as int, *unit, after, unit_after, res) implies is_tail_run(
                    before,
                    first as int,
                    unit_before,
                    after,
                    unit_after,
                    res,
                ) by {
                }
            }
        }
        assert(is_tail_run(self@, first as int, *unit, self@, *unit, Ok(())));
        Ok(())
    }
}

/// The items after one more wants the one at `at`.
pub open spec fn with_one_more<H>(items: Seq<HandlerVecItem<H>>, at: nat) -> Seq<HandlerVecItem<H>> {
    if at < items.len() {
        let item = items[at as int];
        items.update(
            at as int,
            HandlerVecItem { handler: item.handler, user_count: (item.user_count + 1) as u32 },
        )
    } else {
        items
    }
}

/// The items after one less wants the one at `at`.
pub open spec fn with_one_less<H>(items: Seq<HandlerVecItem<H>>, at: nat) -> Seq<HandlerVecItem<H>> {
    if at < items.len() {
        let item = items[at as int];
        items.update(
            at as int,
            HandlerVecItem { handler: item.handler, user_count: (item.user_count - 1) as u32 },
        )
    } else {
        items
    }
}

/// Whether the item at `at`, if there is one, is active.
pub open spec fn is_wanted<H>(items: Seq<HandlerVecItem<H>>, at: nat) -> bool {
    at < items.len() ==> items[at as int].user_count > 0
}

} // verus!
