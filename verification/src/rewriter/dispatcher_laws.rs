use super::dispatcher_model::{
    comment_places, handed_back, parked, text_places, with_handler, DescriptorView, DispatcherView,
    Outcome,
};
use super::handler_vec::{
    first_active, is_run, is_tail_run, lemma_total_after_update, some_active, total_users,
    HandlerVecItem,
};
use super::handlers::{HandlerResult, Interruption};
use super::handlers_dispatcher::wanted_bits;
use super::run_laws::{
    active_from_back, law_run_touches_what_it_passed, law_tail_run_leaves_the_front,
    lemma_active_in_parts, lemma_first_active_is_first, lemma_nothing_active_before_first,
    lemma_tail_run_runs, shows_runs,
};
use super::units::{Element, HandlerTypes, StartTag, SuspendedToken, Token};
use crate::rewritable_units::token_capture_flags::TokenCaptureFlags;
use crate::selectors_vm::dense_hash_set::MatchId;
use crate::selectors_vm::match_info::MatchInfo;
use vstd::prelude::*;

verus! {

/// A flag is set exactly if somebody wants tokens of its kind, and raw text is never asked for.
pub proof fn law_flags_are_the_wanted_kinds(
    flags: TokenCaptureFlags,
    doctypes: bool,
    comments: bool,
    text: bool,
    end_tags: bool,
    start_tags: bool,
)
    requires
        flags.spec_bits() == wanted_bits(doctypes, comments, text, end_tags, start_tags),
    ensures
        flags.spec_contains(TokenCaptureFlags::DOCTYPES) == doctypes,
        flags.spec_contains(TokenCaptureFlags::COMMENTS) == comments,
        flags.spec_contains(TokenCaptureFlags::TEXT) == text,
        flags.spec_contains(TokenCaptureFlags::NEXT_END_TAG) == end_tags,
        flags.spec_contains(TokenCaptureFlags::NEXT_START_TAG) == start_tags,
        !flags.spec_contains(TokenCaptureFlags::RAW_TEXT),
{
    let bits = flags.spec_bits();
    let d: u8 = if doctypes {
        0b0001_0000
    } else {
        0
    };
    let c: u8 = if comments {
        0b0000_0010
    } else {
        0
    };
    let t: u8 = if text {
        0b0000_0001
    } else {
        0
    };
    let e: u8 = if end_tags {
        0b0000_1000
    } else {
        0
    };
    let s: u8 = if start_tags {
        0b0000_0100
    } else {
        0
    };
    assert(bits & 0b0001_0000 == d && bits & 0b0000_0010 == c && bits & 0b0000_0001 == t && bits
        & 0b0000_1000 == e && bits & 0b0000_0100 == s && bits & 0b0010_0000 == 0) by (bit_vector)
        requires
            bits == d | c | t | e | s,
            d == 0b0001_0000 || d == 0,
            c == 0b0000_0010 || c == 0,
            t == 0b0000_0001 || t == 0,
            e == 0b0000_1000 || e == 0,
            s == 0b0000_0100 || s == 0,
    ;
}

/// The matches of an element, one after the other.
pub open spec fn started_all<H: HandlerTypes>(
    dispatcher: DispatcherView<H>,
    infos: Seq<MatchInfo>,
) -> DispatcherView<H>
    decreases infos.len(),
{
    if infos.len() == 0 {
        dispatcher
    } else {
        started_all(dispatcher, infos.drop_last()).started(infos.last())
    }
}

/// The match ids of some matches.
pub open spec fn match_ids(infos: Seq<MatchInfo>) -> Set<MatchId> {
    Set::new(|id: MatchId| exists|i: int| 0 <= i < infos.len() && (#[trigger] infos[i]).match_id == id)
}

/// The items after one more wants each one whose index is in `wanted`.
spec fn wanted_more_all<X>(items: Seq<HandlerVecItem<X>>, wanted: Set<nat>) -> Seq<
    HandlerVecItem<X>,
> {
    Seq::new(
        items.len(),
        |i: int|
            if wanted.contains(i as nat) {
                HandlerVecItem {
                    handler: items[i].handler,
                    user_count: (items[i].user_count + 1) as u32,
                }
            } else {
                items[i]
            },
    )
}

proof fn lemma_started_all<H: HandlerTypes>(
    dispatcher: DispatcherView<H>,
    infos: Seq<MatchInfo>,
)
    requires
        dispatcher.has_locators_in_order(),
        forall|i: int| 0 <= i < infos.len() ==> (#[trigger] infos[i]).with_content,
        forall|i: int, j: int|
            0 <= i < j < infos.len() ==> (#[trigger] infos[i]).match_id != (
            #[trigger] infos[j]).match_id,
    ensures
        ({
            let after = started_all(dispatcher, infos);
            &&& after.locators == dispatcher.locators
            &&& after.end_tag == dispatcher.end_tag
            &&& after.doctype == dispatcher.doctype
            &&& after.removed_content == dispatcher.removed_content
            &&& after.comment == wanted_more_all(
                dispatcher.comment,
                comment_places(dispatcher.locators, match_ids(infos)),
            )
            &&& after.text == wanted_more_all(
                dispatcher.text,
                text_places(dispatcher.locators, match_ids(infos)),
            )
        }),
    decreases infos.len(),
{
    let locators = dispatcher.locators;
    let ids = match_ids(infos);
    if infos.len() == 0 {
        assert(wanted_more_all(dispatcher.comment, comment_places(locators, ids))
            =~= dispatcher.comment);
        assert(wanted_more_all(dispatcher.text, text_places(locators, ids)) =~= dispatcher.text);
    } else {
        let earlier = infos.drop_last();
        let earlier_ids = match_ids(earlier);
        let info = infos.last();
        lemma_started_all(dispatcher, earlier);
        assert forall|id: MatchId|
            #![trigger ids.contains(id)]
            #![trigger earlier_ids.contains(id)]
            ids.contains(id) == (earlier_ids.contains(id) || id == info.match_id) by {
            if earlier_ids.contains(id) {
                let i: int = choose|i: int|
                    0 <= i < earlier.len() && (#[trigger] earlier[i]).match_id == id;
                assert(infos[i].match_id == id);
            }
            if ids.contains(id) && id != info.match_id {
                let i: int = choose|i: int|
                    0 <= i < infos.len() && (#[trigger] infos[i]).match_id == id;
                assert(earlier[i].match_id == id);
            }
            assert(infos[infos.len() - 1].match_id == info.match_id);
        }
        assert(!earlier_ids.contains(info.match_id)) by {
            if earlier_ids.contains(info.match_id) {
                let i: int = choose|i: int|
                    0 <= i < earlier.len() && (#[trigger] earlier[i]).match_id == info.match_id;
                assert(infos[i].match_id != infos[infos.len() - 1].match_id);
            }
        }
        assert(infos[infos.len() - 1].with_content);
        let id = info.match_id;
        if id < locators.len() {
            let places = locators[id as int];
            match places.comment {
                Some(place) => {
                    assert(comment_places(locators, ids) =~= comment_places(
                        locators,
                        earlier_ids,
                    ).insert(place)) by {
                        assert(ids.contains(id));
                    }
                    assert(!comment_places(locators, earlier_ids).contains(place));
                },
                None => {
                    assert(comment_places(locators, ids) =~= comment_places(
                        locators,
                        earlier_ids,
                    ));
                },
            }
            match places.text {
                Some(place) => {
                    assert(text_places(locators, ids) =~= text_places(
                        locators,
                        earlier_ids,
                    ).insert(place)) by {
                        assert(ids.contains(id));
                    }
                    assert(!text_places(locators, earlier_ids).contains(place));
                },
                None => {
                    assert(text_places(locators, ids) =~= text_places(locators, earlier_ids));
                },
            }
        } else {
            assert(comment_places(locators, ids) =~= comment_places(locators, earlier_ids));
            assert(text_places(locators, ids) =~= text_places(locators, earlier_ids));
        }
        let after = started_all(dispatcher, infos);
        assert(after.comment =~= wanted_more_all(
            dispatcher.comment,
            comment_places(locators, ids),
        ));
        assert(after.text =~= wanted_more_all(dispatcher.text, text_places(locators, ids)));
    }
}

/// The handlers for content that some matches activate could be wanted once more before.
proof fn lemma_started_places_have_room<H: HandlerTypes>(
    dispatcher: DispatcherView<H>,
    infos: Seq<MatchInfo>,
    place: nat,
)
    requires
        dispatcher.has_locators_in_order(),
        forall|i: int| 0 <= i < infos.len() ==> (#[trigger] infos[i]).with_content,
        forall|i: int, j: int|
            0 <= i < j < infos.len() ==> (#[trigger] infos[i]).match_id != (
            #[trigger] infos[j]).match_id,
        forall|i: int|
            0 <= i < infos.len() ==> started_all(dispatcher, infos.take(i)).has_room_for(
                #[trigger] infos[i],
            ),
    ensures
        comment_places(dispatcher.locators, match_ids(infos)).contains(place) ==> place
            < dispatcher.comment.len() && dispatcher.comment[place as int].user_count < u32::MAX,
        text_places(dispatcher.locators, match_ids(infos)).contains(place) ==> place
            < dispatcher.text.len() && dispatcher.text[place as int].user_count < u32::MAX,
{
    let locators = dispatcher.locators;
    let ids = match_ids(infos);
    if comment_places(locators, ids).contains(place) {
        let id: MatchId = choose|id: MatchId| #[trigger]
            ids.contains(id) && id < locators.len() && locators[id as int].comment == Some(place);
        let i: int = choose|i: int| 0 <= i < infos.len() && (#[trigger] infos[i]).match_id == id;
        let earlier = infos.take(i);
        lemma_started_all(dispatcher, earlier);
        assert(!comment_places(locators, match_ids(earlier)).contains(place)) by {
            lemma_earlier_ids_differ(infos, i);
        }
        let items = started_all(dispatcher, earlier).comment;
        assert(items[place as int] == dispatcher.comment[place as int]);
        lemma_total_after_update(items, place as int, items[place as int]);
    }
    if text_places(locators, ids).contains(place) {
        let id: MatchId = choose|id: MatchId| #[trigger]
            ids.contains(id) && id < locators.len() && locators[id as int].text == Some(place);
        let i: int = choose|i: int| 0 <= i < infos.len() && (#[trigger] infos[i]).match_id == id;
        let earlier = infos.take(i);
        lemma_started_all(dispatcher, earlier);
        assert(!text_places(locators, match_ids(earlier)).contains(place)) by {
            lemma_earlier_ids_differ(infos, i);
        }
        let items = started_all(dispatcher, earlier).text;
        assert(items[place as int] == dispatcher.text[place as int]);
        lemma_total_after_update(items, place as int, items[place as int]);
    }
}

proof fn lemma_earlier_ids_differ(infos: Seq<MatchInfo>, at: int)
    requires
        0 <= at < infos.len(),
        forall|i: int, j: int|
            0 <= i < j < infos.len() ==> (#[trigger] infos[i]).match_id != (
            #[trigger] infos[j]).match_id,
    ensures
        !match_ids(infos.take(at)).contains(infos[at].match_id),
{
    let earlier = infos.take(at);
    if match_ids(earlier).contains(infos[at].match_id) {
        let i: int = choose|i: int|
            0 <= i < earlier.len() && (#[trigger] earlier[i]).match_id == infos[at].match_id;
        assert(infos[i].match_id != infos[at].match_id);
    }
}

/// The end of an element undoes what its matches did: the handlers for content are wanted as often
/// as before the element, so the same of them are active, and the handlers of elements and doctypes
/// are not touched. A handler for its end tag is active then. It is in order to end the element,
/// whatever else is open.
pub proof fn law_stop_undoes_start<H: HandlerTypes>(
    dispatcher: DispatcherView<H>,
    infos: Seq<MatchInfo>,
    descriptor: DescriptorView,
)
    requires
        dispatcher.has_locators_in_order(),
        forall|i: int| 0 <= i < infos.len() ==> (#[trigger] infos[i]).with_content,
        forall|i: int, j: int|
            0 <= i < j < infos.len() ==> (#[trigger] infos[i]).match_id != (
            #[trigger] infos[j]).match_id,
        descriptor.matched_content_handlers == match_ids(infos),
        forall|i: int|
            0 <= i < infos.len() ==> started_all(dispatcher, infos.take(i)).has_room_for(
                #[trigger] infos[i],
            ),
    ensures
        started_all(dispatcher, infos).wants_content_of(descriptor),
        started_all(dispatcher, infos).stopped(descriptor).comment == dispatcher.comment,
        started_all(dispatcher, infos).stopped(descriptor).text == dispatcher.text,
        started_all(dispatcher, infos).stopped(descriptor).element == started_all(
            dispatcher,
            infos,
        ).element,
        started_all(dispatcher, infos).stopped(descriptor).doctype == dispatcher.doctype,
        match descriptor.end_tag_handler {
            Some(at) => at < dispatcher.end_tag.len() && total_users(dispatcher.end_tag) < u32::MAX
                ==> some_active(started_all(dispatcher, infos).stopped(descriptor).end_tag),
            None => started_all(dispatcher, infos).stopped(descriptor).end_tag
                == dispatcher.end_tag,
        },
{
    lemma_started_all(dispatcher, infos);
    let started = started_all(dispatcher, infos);
    let ids = match_ids(infos);
    assert forall|place: nat| #[trigger]
        comment_places(dispatcher.locators, ids).contains(place) implies place
        < dispatcher.comment.len() && dispatcher.comment[place as int].user_count < u32::MAX by {
        lemma_started_places_have_room(dispatcher, infos, place);
    }
    assert forall|place: nat| #[trigger]
        text_places(dispatcher.locators, ids).contains(place) implies place < dispatcher.text.len()
        && dispatcher.text[place as int].user_count < u32::MAX by {
        lemma_started_places_have_room(dispatcher, infos, place);
    }
    assert(started.stopped(descriptor).comment =~= dispatcher.comment);
    assert(started.stopped(descriptor).text =~= dispatcher.text);
    if let Some(at) = descriptor.end_tag_handler {
        if at < dispatcher.end_tag.len() && total_users(dispatcher.end_tag) < u32::MAX {
            let item = dispatcher.end_tag[at as int];
            lemma_total_after_update(dispatcher.end_tag, at as int, item);
            assert(started.stopped(descriptor).end_tag[at as int].user_count > 0);
        }
    }
}

/// What the handlers of an element asked for comes at its end: the handler for the end tag is
/// active then, and the content no longer counts as removed.
pub proof fn law_element_result_is_undone_at_its_end<H: HandlerTypes>(
    dispatcher: DispatcherView<H>,
    should_remove_content: bool,
    end_tag_handler: Option<H::EndTagHandler>,
    descriptor: DescriptorView,
)
    requires
        dispatcher.next_element_can_have_content,
        dispatcher.end_tag.len() < u32::MAX,
        descriptor.end_tag_handler is None,
        !descriptor.remove_content,
    ensures
        ({
            let marked = dispatcher.descriptor_after(
                should_remove_content,
                end_tag_handler,
                descriptor,
            );
            let during = dispatcher.with_element_result(
                should_remove_content,
                end_tag_handler,
                true,
            );
            let after = during.stopped(marked);
            &&& should_remove_content ==> during.removed_content > 0
            &&& after.removed_content == dispatcher.removed_content
            &&& after.end_tag == with_handler(dispatcher.end_tag, end_tag_handler, 1)
            &&& end_tag_handler is Some ==> some_active(after.end_tag)
        }),
{
    let marked = dispatcher.descriptor_after(should_remove_content, end_tag_handler, descriptor);
    let during = dispatcher.with_element_result(should_remove_content, end_tag_handler, true);
    let after = during.stopped(marked);
    match end_tag_handler {
        Some(handler) => {
            assert(after.end_tag =~= with_handler(dispatcher.end_tag, end_tag_handler, 1));
            assert(after.end_tag[dispatcher.end_tag.len() as int].user_count > 0);
        },
        None => {},
    }
}

/// Whether a parked token is of the same kind as a token.
pub open spec fn is_same_kind<H: HandlerTypes>(parked: SuspendedToken<H>, token: Token<H>) -> bool {
    match token {
        Token::StartTag(_) => parked is Element,
        Token::EndTag(_) => parked is EndTag,
        Token::TextChunk(_) => parked is TextChunk,
        Token::Comment(_) => parked is Comment,
        Token::Doctype(_) => parked is Doctype,
    }
}

/// Whether two tokens are of the same kind.
pub open spec fn is_token_of_same_kind<H: HandlerTypes>(left: Token<H>, right: Token<H>) -> bool {
    match left {
        Token::StartTag(_) => right is StartTag,
        Token::EndTag(_) => right is EndTag,
        Token::TextChunk(_) => right is TextChunk,
        Token::Comment(_) => right is Comment,
        Token::Doctype(_) => right is Doctype,
    }
}

/// A token is parked exactly if a handler asked for suspension; it is then of the kind that went
/// in, so it can be resumed as a token. Otherwise a token of the kind that went in comes out, or the
/// error of the handler that failed.
pub proof fn law_suspension_parks_the_token<H: HandlerTypes>(
    before: DispatcherView<H>,
    token: Token<H>,
    descriptor: Option<DescriptorView>,
    after: DispatcherView<H>,
    descriptor_after: Option<DescriptorView>,
    res: Outcome<Token<H>, H>,
)
    requires
        before.is_token_outcome(token, descriptor, after, descriptor_after, res),
        before.suspended is None,
    ensures
        after.suspended is Some <==> res matches Err(Interruption::Suspended),
        after.suspended matches Some(parked) ==> is_same_kind(parked, token),
        res matches Ok(out) ==> is_token_of_same_kind(out, token),
{
}

/// Resuming a parked token either completes it, so that it comes out as a token of its kind and
/// nothing is parked any longer, or parks it again.
pub proof fn law_resumed_token_is_completed_or_parked<H: HandlerTypes>(
    before: DispatcherView<H>,
    parked: SuspendedToken<H>,
    descriptor: Option<DescriptorView>,
    after: DispatcherView<H>,
    descriptor_after: Option<DescriptorView>,
    res: Outcome<Token<H>, H>,
)
    requires
        before.is_resumed_outcome(parked, descriptor, after, descriptor_after, res),
        before.suspended is None,
    ensures
        after.suspended is Some <==> res matches Err(Interruption::Suspended),
        res matches Ok(token) ==> is_same_kind(parked, token),
        after.suspended matches Some(again) ==> forall|token: Token<H>|
            is_same_kind(parked, token) == #[trigger] is_same_kind(again, token),
{
}

/// Once the handlers of an element have run, none of them runs again for another element unless it
/// is matched again.
pub proof fn law_element_handlers_run_once<H: HandlerTypes>(
    before: DispatcherView<H>,
    start_tag: StartTag<H::StartTag>,
    descriptor: Option<DescriptorView>,
    after: DispatcherView<H>,
    descriptor_after: Option<DescriptorView>,
    res: Outcome<StartTag<H::StartTag>, H>,
)
    requires
        before.is_element_outcome(
            before.element_of(start_tag),
            0,
            descriptor,
            after,
            descriptor_after,
            res,
        ),
        res is Ok,
    ensures
        after.element.len() == before.element.len(),
        !some_active(after.element),
{
    let (unit, next, run) = choose|
        unit: Element<H::StartTag, H::EndTagHandler>,
        next: usize,
        run: HandlerResult<H::Failure>,
    |
        #[trigger]
        is_run(
            true,
            before.element,
            0,
            before.element_of(start_tag),
            after.element,
            unit,
            next as nat,
            run,
        ) && res == handed_back(run, unit.start_tag);
    law_run_touches_what_it_passed(
        true,
        before.element,
        0,
        before.element_of(start_tag),
        after.element,
        unit,
        next as nat,
        run,
    );
}

/// The state in which the handlers for the end of the document go on: nothing is parked.
pub open spec fn taken_out<H: HandlerTypes>(dispatcher: DispatcherView<H>) -> DispatcherView<H> {
    DispatcherView { suspended: None, ..dispatcher }
}

/// Whether the states are those of a dispatcher before, between and after the calls that run the
/// handlers for the end of the document, of which each but the last was suspended. `units` are what
/// the calls were given: between two calls whoever holds the parked unit may change it, but not what
/// it shows of the handlers that ran.
pub open spec fn is_document_end<H: HandlerTypes>(
    log: spec_fn(H::DocumentEnd) -> Seq<H::EndHandler>,
    states: Seq<DispatcherView<H>>,
    units: Seq<H::DocumentEnd>,
    out: H::DocumentEnd,
) -> bool {
    &&& units.len() > 0
    &&& states.len() == units.len() + 1
    &&& states[0].suspended is None
    &&& forall|i: int|
        #![trigger units[i]]
        0 <= i < units.len() ==> taken_out(states[i]).is_end_outcome(
            units[i],
            states[i + 1],
            if i == units.len() - 1 {
                Ok::<H::DocumentEnd, Interruption<H::DocumentEnd, H::Failure>>(out)
            } else {
                Err(Interruption::Suspended)
            },
        )
    &&& forall|i: int|
        #![trigger units[i]]
        0 < i < units.len() ==> (states[i].suspended matches Some(
            SuspendedToken::DocumentEnd(parked),
        ) && log(units[i]) == log(*parked))
}

proof fn lemma_document_end_so_far<H: HandlerTypes>(
    log: spec_fn(H::DocumentEnd) -> Seq<H::EndHandler>,
    states: Seq<DispatcherView<H>>,
    units: Seq<H::DocumentEnd>,
    out: H::DocumentEnd,
    k: int,
)
    requires
        shows_runs::<H::DocumentEnd, H::Failure, H::EndHandler>(log),
        is_document_end(log, states, units, out),
        0 <= k < units.len(),
    ensures
        states[k].end.len() <= states[0].end.len(),
        states[k].end == states[0].end.take(states[k].end.len() as int),
        states[k].end.take(first_active(states[k].end) as int) == states[0].end.take(
            first_active(states[0].end) as int,
        ),
        log(units[k]) == log(units[0]) + active_from_back(
            states[0].end,
            states[k].end.len() as int,
        ),
    decreases k,
{
    let all = states[0].end;
    if k == 0 {
        assert(all.take(all.len() as int) =~= all);
        assert(active_from_back(all, all.len() as int) =~= Seq::<H::EndHandler>::empty());
        assert(log(units[0]) + Seq::<H::EndHandler>::empty() =~= log(units[0]));
    } else {
        lemma_document_end_so_far(log, states, units, out, k - 1);
        let base = taken_out(states[k - 1]);
        let given = units[k - 1];
        let next = states[k];
        let (unit, run) = choose|unit: H::DocumentEnd, run: HandlerResult<H::Failure>|
            {
                &&& #[trigger] is_tail_run(
                    base.end,
                    first_active(base.end) as int,
                    given,
                    next.end,
                    unit,
                    run,
                )
                &&& Err::<H::DocumentEnd, Interruption<H::DocumentEnd, H::Failure>>(
                    Interruption::Suspended,
                ) == handed_back(run, unit)
                &&& next == (DispatcherView {
                    end: next.end,
                    suspended: parked(
                        run,
                        SuspendedToken::DocumentEnd(Box::new(unit)),
                        base.suspended,
                    ),
                    ..base
                })
            };
        lemma_first_active_is_first(base.end);
        law_tail_run_leaves_the_front(base.end, given, next.end, unit, run);
        lemma_tail_run_runs(log, base.end, first_active(base.end), given, next.end, unit, run);
        assert(units[k] == units[k]);
        let before_len = base.end.len() as int;
        let after_len = next.end.len() as int;
        assert(base.end == all.take(before_len));
        assert(next.end =~= all.take(after_len));
        lemma_active_in_parts(all, before_len, after_len);
        assert(log(units[0]) + active_from_back(all, after_len) =~= (log(units[0])
            + active_from_back(all, before_len)) + active_from_back(base.end, after_len));
    }
}

/// Over any number of suspensions, each active handler for the end of the document runs exactly
/// once, in reverse order of registration, as if none had been suspended. In the end nothing is
/// parked, and no active handler is left.
pub proof fn law_document_end_handlers_run_once<H: HandlerTypes>(
    log: spec_fn(H::DocumentEnd) -> Seq<H::EndHandler>,
    states: Seq<DispatcherView<H>>,
    units: Seq<H::DocumentEnd>,
    out: H::DocumentEnd,
)
    requires
        shows_runs::<H::DocumentEnd, H::Failure, H::EndHandler>(log),
        is_document_end(log, states, units, out),
    ensures
        log(out) == log(units[0]) + active_from_back(states[0].end, 0),
        states.last().suspended is None,
        !some_active(states.last().end),
{
    let k = units.len() - 1;
    let all = states[0].end;
    lemma_document_end_so_far(log, states, units, out, k);
    let base = taken_out(states[k]);
    let given = units[k];
    let next = states[k + 1];
    let (unit, run) = choose|unit: H::DocumentEnd, run: HandlerResult<H::Failure>|
        {
            &&& #[trigger] is_tail_run(
                base.end,
                first_active(base.end) as int,
                given,
                next.end,
                unit,
                run,
            )
            &&& Ok::<H::DocumentEnd, Interruption<H::DocumentEnd, H::Failure>>(out) == handed_back(
                run,
                unit,
            )
            &&& next == (DispatcherView {
                end: next.end,
                suspended: parked(
                    run,
                    SuspendedToken::DocumentEnd(Box::new(unit)),
                    base.suspended,
                ),
                ..base
            })
        };
    lemma_first_active_is_first(base.end);
    law_tail_run_leaves_the_front(base.end, given, next.end, unit, run);
    lemma_tail_run_runs(log, base.end, first_active(base.end), given, next.end, unit, run);
    let before_len = base.end.len() as int;
    let after_len = next.end.len() as int;
    lemma_active_in_parts(all, before_len, after_len);
    lemma_active_in_parts(all, after_len, 0);
    lemma_nothing_active_before_first(all.take(after_len));
    assert(next.end =~= all.take(after_len));
    assert(log(units[0]) + active_from_back(all, 0) =~= (log(units[0]) + active_from_back(
        all,
        before_len,
    )) + active_from_back(base.end, after_len));
}

/// Where no handler for the end of the document is active, as after all of them have run, the end of
/// the document runs none: it comes out as it went in, and the dispatcher stays as it is.
pub proof fn law_document_end_without_handlers<H: HandlerTypes>(
    before: DispatcherView<H>,
    document_end: H::DocumentEnd,
    after: DispatcherView<H>,
    res: Outcome<H::DocumentEnd, H>,
)
    requires
        before.suspended is None,
        !some_active(before.end),
        before.is_end_outcome(document_end, after, res),
    ensures
        res == Ok::<H::DocumentEnd, Interruption<H::DocumentEnd, H::Failure>>(document_end),
        after == before,
{
    lemma_first_active_is_first(before.end);
}

} // verus!
