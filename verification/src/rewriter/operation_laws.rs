use super::dispatcher_laws::law_flags_are_the_wanted_kinds;
use super::dispatcher_model::Outcome;
use super::handler_vec::{locator_to_idx, places, some_active, HandlerVec, Locator};
use super::handlers::Interruption;
use super::handlers_dispatcher::{ContentHandlersDispatcher, ElementDescriptor};
use super::matching_laws::{
    differs_by, has_added, has_room_at, is_comment_place, is_place_of_added, is_text_place,
    law_document_handlers_are_active, law_end_lowers_the_handlers_of_its_matches,
    law_match_raises_the_handlers_of_its_selector, law_selector_leads_to_its_handlers,
};
use super::selector_handlers_locator::SelectorHandlersLocator;
use super::tag_laws::law_token_without_handlers_stays_as_it_is;
use super::units::{
    DocumentContentHandlers, Element, ElementContentHandlers, HandlerTypes, StartTag, Token,
};
use crate::rewritable_units::token_capture_flags::TokenCaptureFlags;
use crate::selectors_vm::dense_hash_set::MatchId;
use crate::selectors_vm::match_info::MatchInfo;
use vstd::prelude::*;

verus! {

/// A match of a selector that a dispatcher knows, whatever it has been through, decides whether the
/// next element can have content, and raises exactly the handlers of the selector that are to run:
/// the one for elements, and for an element with content those for its comments and text.
pub proof fn law_start_matching<H: HandlerTypes>(info: MatchInfo)
    ensures
        forall|dispatcher: &mut ContentHandlersDispatcher<H>|
            {
                let before = dispatcher@;
                let places = before.locators[info.match_id as int];
                &&& #[trigger] call_ensures(
                    ContentHandlersDispatcher::<H>::start_matching,
                    (dispatcher, &info),
                    (),
                )
                &&& info.match_id < before.locators.len()
                &&& has_room_at(before.element, places.element)
                &&& has_room_at(before.comment, places.comment)
                &&& has_room_at(before.text, places.text)
            } ==> {
                let before = dispatcher@;
                let after = (*final(dispatcher))@;
                let places = before.locators[info.match_id as int];
                let for_content: int = if info.with_content {
                    1
                } else {
                    0
                };
                &&& after.next_element_can_have_content == info.with_content
                &&& differs_by(before.element, after.element, places.element, 1)
                &&& differs_by(before.comment, after.comment, places.comment, for_content)
                &&& differs_by(before.text, after.text, places.text, for_content)
                &&& after.end_tag == before.end_tag
                &&& after.removed_content == before.removed_content
            },
{
    assert forall|dispatcher: &mut ContentHandlersDispatcher<H>|
        {
            let before = dispatcher@;
            let places = before.locators[info.match_id as int];
            &&& #[trigger] call_ensures(
                ContentHandlersDispatcher::<H>::start_matching,
                (dispatcher, &info),
                (),
            )
            &&& info.match_id < before.locators.len()
            &&& has_room_at(before.element, places.element)
            &&& has_room_at(before.comment, places.comment)
            &&& has_room_at(before.text, places.text)
        } implies ({
        let before = dispatcher@;
        let after = (*final(dispatcher))@;
        let places = before.locators[info.match_id as int];
        let for_content: int = if info.with_content {
            1
        } else {
            0
        };
        &&& after.next_element_can_have_content == info.with_content
        &&& differs_by(before.element, after.element, places.element, 1)
        &&& differs_by(before.comment, after.comment, places.comment, for_content)
        &&& differs_by(before.text, after.text, places.text, for_content)
        &&& after.end_tag == before.end_tag
        &&& after.removed_content == before.removed_content
    }) by {
        law_match_raises_the_handlers_of_its_selector(dispatcher@, info);
    }
}

/// The match id that comes back when the handlers of a selector are added is the one that leads to
/// them: the number of selectors before, as far as ids go.
pub proof fn law_add_selector_associated_handlers<H: HandlerTypes>(
    handlers: ElementContentHandlers<H>,
    id: MatchId,
)
    ensures
        forall|dispatcher: &mut ContentHandlersDispatcher<H>|
            #[trigger] call_ensures(
                ContentHandlersDispatcher::<H>::add_selector_associated_handlers,
                (dispatcher, handlers),
                id,
            ) && dispatcher@.locators.len() <= u32::MAX ==> {
                let before = dispatcher@;
                let after = (*final(dispatcher))@;
                &&& id == before.locators.len()
                &&& after.locators.len() == before.locators.len() + 1
                &&& has_added(before.element, after.element, handlers.element, 0)
                &&& has_added(before.comment, after.comment, handlers.comments, 0)
                &&& has_added(before.text, after.text, handlers.text, 0)
                &&& is_place_of_added(
                    before.element,
                    handlers.element,
                    after.locators[id as int].element,
                )
                &&& is_place_of_added(
                    before.comment,
                    handlers.comments,
                    after.locators[id as int].comment,
                )
                &&& is_place_of_added(before.text, handlers.text, after.locators[id as int].text)
            },
{
    assert forall|dispatcher: &mut ContentHandlersDispatcher<H>|
        #[trigger] call_ensures(
            ContentHandlersDispatcher::<H>::add_selector_associated_handlers,
            (dispatcher, handlers),
            id,
        ) && dispatcher@.locators.len() <= u32::MAX implies ({
        let before = dispatcher@;
        let after = (*final(dispatcher))@;
        &&& id == before.locators.len()
        &&& after.locators.len() == before.locators.len() + 1
        &&& has_added(before.element, after.element, handlers.element, 0)
        &&& has_added(before.comment, after.comment, handlers.comments, 0)
        &&& has_added(before.text, after.text, handlers.text, 0)
        &&& is_place_of_added(before.element, handlers.element, after.locators[id as int].element)
        &&& is_place_of_added(before.comment, handlers.comments, after.locators[id as int].comment)
        &&& is_place_of_added(before.text, handlers.text, after.locators[id as int].text)
    }) by {
        law_selector_leads_to_its_handlers(dispatcher@, handlers);
    }
}

/// Handlers for the whole document are added to those that are there, and wanted from then on.
pub proof fn law_add_document_content_handlers<H: HandlerTypes>(
    handlers: DocumentContentHandlers<H>,
)
    ensures
        forall|dispatcher: &mut ContentHandlersDispatcher<H>|
            #[trigger] call_ensures(
                ContentHandlersDispatcher::<H>::add_document_content_handlers,
                (dispatcher, handlers),
                (),
            ) ==> {
                let before = dispatcher@;
                let after = (*final(dispatcher))@;
                &&& has_added(before.doctype, after.doctype, handlers.doctype, 1)
                &&& has_added(before.comment, after.comment, handlers.comments, 1)
                &&& has_added(before.text, after.text, handlers.text, 1)
                &&& has_added(before.end, after.end, handlers.end, 1)
            },
{
    assert forall|dispatcher: &mut ContentHandlersDispatcher<H>|
        #[trigger] call_ensures(
            ContentHandlersDispatcher::<H>::add_document_content_handlers,
            (dispatcher, handlers),
            (),
        ) implies ({
        let before = dispatcher@;
        let after = (*final(dispatcher))@;
        &&& has_added(before.doctype, after.doctype, handlers.doctype, 1)
        &&& has_added(before.comment, after.comment, handlers.comments, 1)
        &&& has_added(before.text, after.text, handlers.text, 1)
        &&& has_added(before.end, after.end, handlers.end, 1)
    }) by {
        law_document_handlers_are_active(dispatcher@, handlers);
    }
}

/// The end of an element lowers the handlers of the selectors that matched it, raises the handler of
/// its end tag, and takes it off the elements with removed content if it was one.
pub proof fn law_stop_matching<H: HandlerTypes>(descriptor: ElementDescriptor)
    ensures
        forall|dispatcher: &mut ContentHandlersDispatcher<H>|
            {
                &&& #[trigger] call_ensures(
                    ContentHandlersDispatcher::<H>::stop_matching,
                    (dispatcher, descriptor),
                    (),
                )
                &&& dispatcher@.wants_content_of(descriptor@)
                &&& has_room_at(dispatcher@.end_tag, descriptor@.end_tag_handler)
                &&& descriptor.remove_content ==> dispatcher@.removed_content > 0
            } ==> {
                let before = dispatcher@;
                let after = (*final(dispatcher))@;
                let ids = descriptor@.matched_content_handlers;
                &&& after.removed_content + (if descriptor.remove_content {
                    1int
                } else {
                    0
                }) == before.removed_content
                &&& differs_by(before.end_tag, after.end_tag, descriptor@.end_tag_handler, 1)
                &&& forall|i: int|
                    0 <= i < before.text.len() ==> (#[trigger] after.text[i]).user_count + (
                    if is_text_place(before, ids, i) {
                        1int
                    } else {
                        0
                    }) == before.text[i].user_count
                &&& forall|i: int|
                    0 <= i < before.comment.len() ==> (#[trigger] after.comment[i]).user_count + (
                    if is_comment_place(before, ids, i) {
                        1int
                    } else {
                        0
                    }) == before.comment[i].user_count
                &&& after.element == before.element
            },
{
    assert forall|dispatcher: &mut ContentHandlersDispatcher<H>|
        {
            &&& #[trigger] call_ensures(
                ContentHandlersDispatcher::<H>::stop_matching,
                (dispatcher, descriptor),
                (),
            )
            &&& dispatcher@.wants_content_of(descriptor@)
            &&& has_room_at(dispatcher@.end_tag, descriptor@.end_tag_handler)
            &&& descriptor.remove_content ==> dispatcher@.removed_content > 0
        } implies ({
        let before = dispatcher@;
        let after = (*final(dispatcher))@;
        let ids = descriptor@.matched_content_handlers;
        &&& after.removed_content + (if descriptor.remove_content {
            1int
        } else {
            0
        }) == before.removed_content
        &&& differs_by(before.end_tag, after.end_tag, descriptor@.end_tag_handler, 1)
        &&& forall|i: int|
            0 <= i < before.text.len() ==> (#[trigger] after.text[i]).user_count + (
            if is_text_place(before, ids, i) {
                1int
            } else {
                0
            }) == before.text[i].user_count
        &&& forall|i: int|
            0 <= i < before.comment.len() ==> (#[trigger] after.comment[i]).user_count + (
            if is_comment_place(before, ids, i) {
                1int
            } else {
                0
            }) == before.comment[i].user_count
        &&& after.element == before.element
    }) by {
        law_end_lowers_the_handlers_of_its_matches(dispatcher@, descriptor@);
    }
}

/// A kind of token is asked for exactly if some handler for it is active, and raw text never is.
pub proof fn law_get_token_capture_flags<H: HandlerTypes>(
    dispatcher: ContentHandlersDispatcher<H>,
    flags: TokenCaptureFlags,
)
    requires
        call_ensures(
            ContentHandlersDispatcher::<H>::get_token_capture_flags,
            (&dispatcher,),
            flags,
        ),
    ensures
        flags.spec_contains(TokenCaptureFlags::DOCTYPES) == some_active(dispatcher@.doctype),
        flags.spec_contains(TokenCaptureFlags::COMMENTS) == some_active(dispatcher@.comment),
        flags.spec_contains(TokenCaptureFlags::TEXT) == some_active(dispatcher@.text),
        flags.spec_contains(TokenCaptureFlags::NEXT_END_TAG) == some_active(dispatcher@.end_tag),
        flags.spec_contains(TokenCaptureFlags::NEXT_START_TAG) == some_active(dispatcher@.element),
        !flags.spec_contains(TokenCaptureFlags::RAW_TEXT),
{
    law_flags_are_the_wanted_kinds(
        flags,
        some_active(dispatcher@.doctype),
        some_active(dispatcher@.comment),
        some_active(dispatcher@.text),
        some_active(dispatcher@.end_tag),
        some_active(dispatcher@.element),
    );
}

/// There is removed content exactly if it was removed of some element that is open.
pub proof fn law_has_matched_elements_with_removed_content<H: HandlerTypes>(
    dispatcher: ContentHandlersDispatcher<H>,
    has_any: bool,
)
    requires
        call_ensures(
            ContentHandlersDispatcher::<H>::has_matched_elements_with_removed_content,
            (&dispatcher,),
            has_any,
        ),
    ensures
        has_any <==> dispatcher@.removed_content > 0,
{
}

/// Raising a handler makes it wanted by one more, and no other. A list has an active handler exactly
/// if somebody wants one of its handlers.
pub proof fn law_inc_user_count<X>(idx: Locator)
    ensures
        forall|handlers: &mut HandlerVec<X>|
            #[trigger] call_ensures(HandlerVec::<X>::inc_user_count, (handlers, idx), ())
                && idx.spec_index() < handlers@.len() ==> differs_by(
                handlers@,
                (*final(handlers))@,
                Some(idx.spec_index()),
                1,
            ),
        forall|handlers: HandlerVec<X>, active: bool|
            #[trigger] call_ensures(HandlerVec::<X>::has_active, (&handlers,), active) ==> active
                == exists|i: int|
                0 <= i < handlers@.len() && (#[trigger] handlers@[i]).user_count > 0,
{
}

/// Lowering a handler that is wanted makes it wanted by one less, and no other.
pub proof fn law_dec_user_count<X>(idx: Locator)
    ensures
        forall|handlers: &mut HandlerVec<X>|
            #[trigger] call_ensures(HandlerVec::<X>::dec_user_count, (handlers, idx), ())
                && idx.spec_index() < handlers@.len()
                && handlers@[idx.spec_index() as int].user_count > 0 ==> differs_by(
                handlers@,
                (*final(handlers))@,
                Some(idx.spec_index()),
                -1,
            ),
{
}

/// A handler is added behind the others, wanted by one if it is to be always active and by nobody
/// otherwise, and its locator leads to it.
pub proof fn law_push<X>(handler: X, always_active: bool, locator: Option<Locator>)
    ensures
        forall|handlers: &mut HandlerVec<X>|
            #[trigger] call_ensures(
                HandlerVec::<X>::push,
                (handlers, handler, always_active),
                locator,
            ) ==> {
                &&& has_added(
                    handlers@,
                    (*final(handlers))@,
                    Some(handler),
                    if always_active {
                        1
                    } else {
                        0
                    },
                )
                &&& handlers@.len() < u32::MAX ==> (locator matches Some(idx) && idx.spec_index()
                    == handlers@.len())
            },
{
}

/// An element comes apart into what it holds.
pub proof fn law_into_owned_parts<T, E>(
    element: Element<T, E>,
    parts: (StartTag<T>, bool, Option<E>),
)
    requires
        call_ensures(Element::<T, E>::into_owned_parts, (element,), parts),
    ensures
        parts.0 == element.start_tag,
        parts.1 == element.should_remove_content,
        parts.2 == element.end_tag_handler,
{
}

/// Handling a token that no active handler is for gives it back as it is and changes nothing, but that
/// a start tag inside removed content is left out of the output.
pub proof fn law_handle_token_without_handlers<H: HandlerTypes>(
    token: Token<H>,
    res: Outcome<Token<H>, H>,
)
    ensures
        forall|dispatcher: &mut ContentHandlersDispatcher<H>|
            {
                &&& #[trigger] call_ensures(
                    ContentHandlersDispatcher::<H>::handle_token,
                    (dispatcher, token, None),
                    res,
                )
                &&& dispatcher@.suspended is None
                &&& !some_active(dispatcher@.text) && !some_active(dispatcher@.comment)
                    && !some_active(dispatcher@.element) && !some_active(dispatcher@.end_tag)
                    && !some_active(dispatcher@.doctype)
            } ==> {
                &&& (*final(dispatcher))@ == dispatcher@
                &&& match token {
                    Token::StartTag(start_tag) => res matches Ok(out) && out matches Token::StartTag(
                        tag,
                    ) && tag.content == start_tag.content && (tag.removed <==> start_tag.removed
                        || dispatcher@.removed_content > 0),
                    _ => res == Ok::<Token<H>, Interruption<Token<H>, H::Failure>>(token),
                }
            },
{
    assert forall|dispatcher: &mut ContentHandlersDispatcher<H>|
        {
            &&& #[trigger] call_ensures(
                ContentHandlersDispatcher::<H>::handle_token,
                (dispatcher, token, None),
                res,
            )
            &&& dispatcher@.suspended is None
            &&& !some_active(dispatcher@.text) && !some_active(dispatcher@.comment)
                && !some_active(dispatcher@.element) && !some_active(dispatcher@.end_tag)
                && !some_active(dispatcher@.doctype)
        } implies ({
        &&& (*final(dispatcher))@ == dispatcher@
        &&& match token {
            Token::StartTag(start_tag) => res matches Ok(out) && out matches Token::StartTag(tag)
                && tag.content == start_tag.content && (tag.removed <==> start_tag.removed
                || dispatcher@.removed_content > 0),
            _ => res == Ok::<Token<H>, Interruption<Token<H>, H::Failure>>(token),
        }
    }) by {
        law_token_without_handlers_stays_as_it_is(
            dispatcher@,
            token,
            None,
            (*final(dispatcher))@,
            None,
            res,
        );
    }
}

/// The locator of an index leads back to it, and there is one for every index below the largest number.
pub proof fn law_locators_lead_back(index: usize, locator: Option<Locator>, idx: usize)
    requires
        call_ensures(Locator::new, (index,), locator),
    ensures
        locator is Some <==> index < u32::MAX,
        locator matches Some(found) && call_ensures(locator_to_idx, (found,), idx) ==> idx == index,
{
}

/// The places of the handlers of a selector come back as they were given, each as the one that it is.
pub proof fn law_places_come_back(
    element: Option<Locator>,
    comment: Option<Locator>,
    text: Option<Locator>,
    held: SelectorHandlersLocator,
    back: Option<Locator>,
)
    requires
        call_ensures(SelectorHandlersLocator::new, (element, comment, text), held),
    ensures
        call_ensures(SelectorHandlersLocator::element_handler_idx, (&held,), back) ==> places(back)
            == places(element),
        call_ensures(SelectorHandlersLocator::comment_handler_idx, (&held,), back) ==> places(back)
            == places(comment),
        call_ensures(SelectorHandlersLocator::text_handler_idx, (&held,), back) ==> places(back)
            == places(text),
{
}

} // verus!
