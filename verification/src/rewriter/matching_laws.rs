use super::dispatcher_model::{comment_places, text_places, DescriptorView, DispatcherView};
use super::handler_vec::{some_active, HandlerVecItem};
use super::units::{
    DocumentContentHandlers, Element, ElementContentHandlers, HandlerTypes, StartTag,
};
use crate::selectors_vm::dense_hash_set::MatchId;
use crate::selectors_vm::match_info::MatchInfo;
use vstd::prelude::*;

verus! {

/// Whether the next element can have content depends on the latest match alone, whatever was matched
/// before: so says the dispatcher, and so sees it the first handler of the next start tag. A match
/// of a selector that is not known changes nothing.
pub proof fn law_latest_match_decides_on_content<H: HandlerTypes>(
    dispatcher: DispatcherView<H>,
    info: MatchInfo,
    start_tag: StartTag<H::StartTag>,
)
    ensures
        info.match_id < dispatcher.locators.len() ==> {
            &&& dispatcher.started(info).next_element_can_have_content == info.with_content
            &&& dispatcher.started(info).element_of(start_tag).can_have_content
                == info.with_content
        },
        info.match_id >= dispatcher.locators.len() ==> dispatcher.started(info) == dispatcher,
{
}

/// Before any handler has run, an element is its start tag and nothing has been asked of it: its
/// content stays, and nothing is to run on its end tag. The start tag is left out of the output
/// exactly if it was before, or stands inside an element whose content is.
pub proof fn law_element_starts_with_its_start_tag<H: HandlerTypes>(
    dispatcher: DispatcherView<H>,
    start_tag: StartTag<H::StartTag>,
)
    ensures
        ({
            let element = dispatcher.element_of(start_tag);
            &&& element.start_tag.content == start_tag.content
            &&& element.start_tag.removed <==> start_tag.removed || dispatcher.removed_content > 0
            &&& element.can_have_content == dispatcher.next_element_can_have_content
            &&& !element.should_remove_content
            &&& element.end_tag_handler is None
        }),
{
}

/// What is made of a start tag says what went in.
pub proof fn law_element_is_made_of_its_parts<T, E>(
    start_tag: StartTag<T>,
    can_have_content: bool,
    element: Element<T, E>,
)
    requires
        call_ensures(Element::<T, E>::new, (start_tag, can_have_content), element),
    ensures
        element.start_tag == start_tag,
        element.can_have_content == can_have_content,
        !element.should_remove_content,
        element.end_tag_handler is None,
{
}

/// Whether a list of handlers is as another one, but that the one at `at`, if there is one, is wanted
/// by so many more.
pub open spec fn differs_by<X>(
    before: Seq<HandlerVecItem<X>>,
    after: Seq<HandlerVecItem<X>>,
    at: Option<nat>,
    more: int,
) -> bool {
    &&& after.len() == before.len()
    &&& forall|i: int|
        #![trigger after[i]]
        0 <= i < before.len() ==> {
            &&& after[i].handler == before[i].handler
            &&& after[i].user_count == before[i].user_count + (if at == Some(i as nat) {
                more
            } else {
                0
            })
        }
}

/// Whether the handler at a place, if there is one, can be wanted by one more.
pub open spec fn has_room_at<X>(items: Seq<HandlerVecItem<X>>, at: Option<nat>) -> bool {
    at matches Some(place) ==> place < items.len() && items[place as int].user_count < u32::MAX
}

/// A match raises exactly the handlers of its selector, each by one: the one for elements in any
/// case, and those for comments and text exactly if the element may have content. No other handler
/// is touched, and no handler is exchanged.
pub proof fn law_match_raises_the_handlers_of_its_selector<H: HandlerTypes>(
    dispatcher: DispatcherView<H>,
    info: MatchInfo,
)
    requires
        info.match_id < dispatcher.locators.len(),
        ({
            let places = dispatcher.locators[info.match_id as int];
            &&& has_room_at(dispatcher.element, places.element)
            &&& has_room_at(dispatcher.comment, places.comment)
            &&& has_room_at(dispatcher.text, places.text)
        }),
    ensures
        ({
            let places = dispatcher.locators[info.match_id as int];
            let after = dispatcher.started(info);
            let for_content: int = if info.with_content {
                1
            } else {
                0
            };
            &&& differs_by(dispatcher.element, after.element, places.element, 1)
            &&& differs_by(dispatcher.comment, after.comment, places.comment, for_content)
            &&& differs_by(dispatcher.text, after.text, places.text, for_content)
            &&& after.doctype == dispatcher.doctype
            &&& after.end_tag == dispatcher.end_tag
            &&& after.end == dispatcher.end
            &&& after.locators == dispatcher.locators
            &&& after.removed_content == dispatcher.removed_content
            &&& after.suspended == dispatcher.suspended
        }),
{
}

/// Whether one of some selectors has its handler at a place.
pub open spec fn is_comment_place<H: HandlerTypes>(
    dispatcher: DispatcherView<H>,
    ids: Set<MatchId>,
    at: int,
) -> bool {
    exists|id: MatchId| #[trigger]
        ids.contains(id) && id < dispatcher.locators.len() && dispatcher.locators[id as int].comment
            == Some(at as nat)
}

/// Whether one of some selectors has its handler at a place.
pub open spec fn is_text_place<H: HandlerTypes>(
    dispatcher: DispatcherView<H>,
    ids: Set<MatchId>,
    at: int,
) -> bool {
    exists|id: MatchId| #[trigger]
        ids.contains(id) && id < dispatcher.locators.len() && dispatcher.locators[id as int].text
            == Some(at as nat)
}

/// The end of an element lowers exactly the handlers for content of the selectors that matched it,
/// each by one, and raises the handler for its end tag. It takes one off the elements with removed
/// content exactly if it was one of them. Everything else stays.
pub proof fn law_end_lowers_the_handlers_of_its_matches<H: HandlerTypes>(
    dispatcher: DispatcherView<H>,
    descriptor: DescriptorView,
)
    requires
        dispatcher.wants_content_of(descriptor),
        has_room_at(dispatcher.end_tag, descriptor.end_tag_handler),
        descriptor.remove_content ==> dispatcher.removed_content > 0,
    ensures
        ({
            let ids = descriptor.matched_content_handlers;
            let after = dispatcher.stopped(descriptor);
            &&& after.comment.len() == dispatcher.comment.len()
            &&& forall|i: int|
                #![trigger after.comment[i]]
                0 <= i < dispatcher.comment.len() ==> {
                    &&& after.comment[i].handler == dispatcher.comment[i].handler
                    &&& after.comment[i].user_count == dispatcher.comment[i].user_count - (
                    if is_comment_place(dispatcher, ids, i) {
                        1int
                    } else {
                        0
                    })
                }
            &&& after.text.len() == dispatcher.text.len()
            &&& forall|i: int|
                #![trigger after.text[i]]
                0 <= i < dispatcher.text.len() ==> {
                    &&& after.text[i].handler == dispatcher.text[i].handler
                    &&& after.text[i].user_count == dispatcher.text[i].user_count - (
                    if is_text_place(dispatcher, ids, i) {
                        1int
                    } else {
                        0
                    })
                }
            &&& differs_by(dispatcher.end_tag, after.end_tag, descriptor.end_tag_handler, 1)
            &&& after.removed_content == dispatcher.removed_content - (
            if descriptor.remove_content {
                1int
            } else {
                0
            })
            &&& after.element == dispatcher.element
            &&& after.doctype == dispatcher.doctype
            &&& after.end == dispatcher.end
            &&& after.locators == dispatcher.locators
            &&& after.next_element_can_have_content == dispatcher.next_element_can_have_content
            &&& after.suspended == dispatcher.suspended
        }),
{
    let ids = descriptor.matched_content_handlers;
    let after = dispatcher.stopped(descriptor);
    assert forall|i: int|
        #![trigger after.comment[i]]
        0 <= i < dispatcher.comment.len() implies after.comment[i].handler
        == dispatcher.comment[i].handler && after.comment[i].user_count
        == dispatcher.comment[i].user_count - (if is_comment_place(dispatcher, ids, i) {
        1int
    } else {
        0
    }) by {
        let places = comment_places(dispatcher.locators, ids);
        assert(places.contains(i as nat) == is_comment_place(dispatcher, ids, i));
    }
    assert forall|i: int|
        #![trigger after.text[i]]
        0 <= i < dispatcher.text.len() implies after.text[i].handler == dispatcher.text[i].handler
        && after.text[i].user_count == dispatcher.text[i].user_count - (if is_text_place(
        dispatcher,
        ids,
        i,
    ) {
        1int
    } else {
        0
    }) by {
        let places = text_places(dispatcher.locators, ids);
        assert(places.contains(i as nat) == is_text_place(dispatcher, ids, i));
    }
}

/// Whether a list of handlers has one more at its end, wanted so often, or is as it was where there
/// is none to be added.
pub open spec fn has_added<X>(
    before: Seq<HandlerVecItem<X>>,
    after: Seq<HandlerVecItem<X>>,
    handler: Option<X>,
    user_count: nat,
) -> bool {
    match handler {
        Some(added) => {
            &&& after.len() == before.len() + 1
            &&& forall|i: int| 0 <= i < before.len() ==> #[trigger] after[i] == before[i]
            &&& after[before.len() as int].handler == added
            &&& after[before.len() as int].user_count == user_count
        },
        None => after == before,
    }
}

/// Handlers for the whole document go behind those that are there, and are wanted from then on: the
/// kinds of token that they are for are. Nothing else changes.
pub proof fn law_document_handlers_are_active<H: HandlerTypes>(
    dispatcher: DispatcherView<H>,
    handlers: DocumentContentHandlers<H>,
)
    ensures
        ({
            let after = dispatcher.with_document_handlers(handlers);
            &&& has_added(dispatcher.doctype, after.doctype, handlers.doctype, 1)
            &&& has_added(dispatcher.comment, after.comment, handlers.comments, 1)
            &&& has_added(dispatcher.text, after.text, handlers.text, 1)
            &&& has_added(dispatcher.end, after.end, handlers.end, 1)
            &&& handlers.doctype is Some ==> some_active(after.doctype)
            &&& handlers.comments is Some ==> some_active(after.comment)
            &&& handlers.text is Some ==> some_active(after.text)
            &&& handlers.end is Some ==> some_active(after.end)
            &&& after.element == dispatcher.element
            &&& after.end_tag == dispatcher.end_tag
            &&& after.locators == dispatcher.locators
            &&& after.next_element_can_have_content == dispatcher.next_element_can_have_content
            &&& after.removed_content == dispatcher.removed_content
            &&& after.suspended == dispatcher.suspended
        }),
{
    let after = dispatcher.with_document_handlers(handlers);
    if handlers.doctype is Some {
        assert(after.doctype[dispatcher.doctype.len() as int].user_count > 0);
    }
    if handlers.comments is Some {
        assert(after.comment[dispatcher.comment.len() as int].user_count > 0);
    }
    if handlers.text is Some {
        assert(after.text[dispatcher.text.len() as int].user_count > 0);
    }
    if handlers.end is Some {
        assert(after.end[dispatcher.end.len() as int].user_count > 0);
    }
}

/// Whether a place is that of an added handler, as far as places go.
pub open spec fn is_place_of_added<X>(
    before: Seq<HandlerVecItem<X>>,
    handler: Option<X>,
    place: Option<nat>,
) -> bool {
    if handler is Some && before.len() < u32::MAX {
        place == Some(before.len())
    } else {
        place is None
    }
}

/// Handlers of a selector go behind those that are there, and nobody wants them yet. The selector is
/// known from then on, by the number of selectors before it, and leads to just these handlers. The
/// selectors before it lead where they led.
pub proof fn law_selector_leads_to_its_handlers<H: HandlerTypes>(
    dispatcher: DispatcherView<H>,
    handlers: ElementContentHandlers<H>,
)
    ensures
        ({
            let after = dispatcher.with_selector_handlers(handlers);
            let id = dispatcher.locators.len() as int;
            &&& has_added(dispatcher.element, after.element, handlers.element, 0)
            &&& has_added(dispatcher.comment, after.comment, handlers.comments, 0)
            &&& has_added(dispatcher.text, after.text, handlers.text, 0)
            &&& after.locators.len() == id + 1
            &&& forall|i: int|
                0 <= i < id ==> #[trigger] after.locators[i] == dispatcher.locators[i]
            &&& is_place_of_added(dispatcher.element, handlers.element, after.locators[id].element)
            &&& is_place_of_added(dispatcher.comment, handlers.comments, after.locators[id].comment)
            &&& is_place_of_added(dispatcher.text, handlers.text, after.locators[id].text)
            &&& after.doctype == dispatcher.doctype
            &&& after.end == dispatcher.end
            &&& after.end_tag == dispatcher.end_tag
            &&& after.next_element_can_have_content == dispatcher.next_element_can_have_content
            &&& after.removed_content == dispatcher.removed_content
            &&& after.suspended == dispatcher.suspended
        }),
{
}

/// A selector whose handlers were just added makes them active when it matches: the one for elements
/// in any case, those for its content exactly if the element may have any.
pub proof fn law_added_handlers_are_activated_by_a_match<H: HandlerTypes>(
    dispatcher: DispatcherView<H>,
    handlers: ElementContentHandlers<H>,
    info: MatchInfo,
)
    requires
        info.match_id == dispatcher.locators.len(),
        dispatcher.element.len() < u32::MAX,
        dispatcher.comment.len() < u32::MAX,
        dispatcher.text.len() < u32::MAX,
    ensures
        ({
            let after = dispatcher.with_selector_handlers(handlers).started(info);
            let for_content: nat = if info.with_content {
                1
            } else {
                0
            };
            &&& has_added(dispatcher.element, after.element, handlers.element, 1)
            &&& has_added(dispatcher.comment, after.comment, handlers.comments, for_content)
            &&& has_added(dispatcher.text, after.text, handlers.text, for_content)
        }),
{
}

/// What the handlers of an element asked for is taken note of exactly if the element can have content
/// and is kept: its content counts as removed if they asked for that, the handler for its end tag
/// goes behind the others and waits for the end of the element, and the descriptor says so.
/// Otherwise nothing changes.
pub proof fn law_element_result_is_taken_note_of<H: HandlerTypes>(
    dispatcher: DispatcherView<H>,
    should_remove_content: bool,
    end_tag_handler: Option<H::EndTagHandler>,
    descriptor: DescriptorView,
)
    requires
        dispatcher.end_tag.len() < u32::MAX,
    ensures
        ({
            let after = dispatcher.with_element_result(
                should_remove_content,
                end_tag_handler,
                true,
            );
            let marked = dispatcher.descriptor_after(
                should_remove_content,
                end_tag_handler,
                descriptor,
            );
            &&& dispatcher.with_element_result(should_remove_content, end_tag_handler, false)
                == dispatcher
            &&& !dispatcher.next_element_can_have_content ==> after == dispatcher && marked
                == descriptor
            &&& dispatcher.next_element_can_have_content ==> {
                &&& after.removed_content == dispatcher.removed_content + (
                if should_remove_content {
                    1int
                } else {
                    0
                })
                &&& has_added(dispatcher.end_tag, after.end_tag, end_tag_handler, 0)
                &&& marked.remove_content == (descriptor.remove_content || should_remove_content)
                &&& marked.end_tag_handler == (if end_tag_handler is Some {
                    Some(dispatcher.end_tag.len())
                } else {
                    descriptor.end_tag_handler
                })
                &&& marked.matched_content_handlers == descriptor.matched_content_handlers
            }
            &&& after.doctype == dispatcher.doctype
            &&& after.comment == dispatcher.comment
            &&& after.text == dispatcher.text
            &&& after.element == dispatcher.element
            &&& after.end == dispatcher.end
            &&& after.locators == dispatcher.locators
            &&& after.next_element_can_have_content == dispatcher.next_element_can_have_content
            &&& after.suspended == dispatcher.suspended
        }),
{
}

} // verus!
