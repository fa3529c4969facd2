use super::dispatcher_model::{
    comment_places, is_before, text_places, wanted_less, DescriptorView, DispatcherView, Outcome,
};
use super::handler_vec::{
    first_active, is_run, is_tail_run, is_wanted, lemma_run_keeps_len, places, some_active,
    total_users, with_one_less, HandlerVec, HandlerVecItem, Locator,
};
use super::selector_handlers_locator::{HandlerPlaces, SelectorHandlersLocator};
use super::units::{
    DocumentContentHandlers, Element, ElementContentHandlers, HandlerTypes, StartTag,
    SuspendedToken, Token,
};
use crate::rewritable_units::token_capture_flags::TokenCaptureFlags;
use crate::selectors_vm::dense_hash_set::{is_ascending, DenseHashSet, MatchId};
use crate::selectors_vm::match_info::MatchInfo;
use super::handlers::{HandlerError, HandlerResult, Interruption};
use vstd::prelude::*;

verus! {

/// What is kept of an open element.
pub struct ElementDescriptor {
    /// The selectors that matched, whose handlers for content are active inside the element.
    pub matched_content_handlers: DenseHashSet,
    /// The handler for the end tag.
    pub end_tag_handler_idx: Option<Locator>,
    /// Whether the content is left out of the output.
    pub remove_content: bool,
}

impl View for ElementDescriptor {
    type V = DescriptorView;

    open spec fn view(&self) -> DescriptorView {
        DescriptorView {
            matched_content_handlers: self.matched_content_handlers@,
            end_tag_handler: places(self.end_tag_handler_idx),
            remove_content: self.remove_content,
        }
    }
}

impl Default for ElementDescriptor {
    fn default() -> (descriptor: Self)
        ensures
            descriptor@ == (DescriptorView {
                matched_content_handlers: Set::empty(),
                end_tag_handler: None,
                remove_content: false,
            }),
    {
        ElementDescriptor {
            matched_content_handlers: DenseHashSet::new(),
            end_tag_handler_idx: None,
            remove_content: false,
        }
    }
}

/// The content handlers of a rewriter, with which of them are active at this point of the document.
pub struct ContentHandlersDispatcher<H: HandlerTypes> {
    doctype_handlers: HandlerVec<H::DoctypeHandler>,
    comment_handlers: HandlerVec<H::CommentHandler>,
    text_handlers: HandlerVec<H::TextHandler>,
    end_tag_handlers: HandlerVec<H::EndTagHandler>,
    element_handlers: HandlerVec<H::ElementHandler>,
    end_handlers: HandlerVec<H::EndHandler>,
    next_element_can_have_content: bool,
    matched_elements_with_removed_content: usize,
    /// Dense index by match id.
    locators: Vec<SelectorHandlersLocator>,
    /// The unit that a handler was suspended on, if any.
    suspended: Option<SuspendedToken<H>>,
}

/// The places that some locators hold.
pub open spec fn places_of(locators: Seq<SelectorHandlersLocator>) -> Seq<HandlerPlaces> {
    Seq::new(locators.len(), |i: int| locators[i]@)
}

impl<H: HandlerTypes> View for ContentHandlersDispatcher<H> {
    type V = DispatcherView<H>;

    closed spec fn view(&self) -> DispatcherView<H> {
        DispatcherView {
            doctype: self.doctype_handlers@,
            comment: self.comment_handlers@,
            text: self.text_handlers@,
            end_tag: self.end_tag_handlers@,
            element: self.element_handlers@,
            end: self.end_handlers@,
            next_element_can_have_content: self.next_element_can_have_content,
            removed_content: self.matched_elements_with_removed_content as nat,
            locators: places_of(self.locators@),
            suspended: self.suspended,
        }
    }
}

impl<H: HandlerTypes> Default for ContentHandlersDispatcher<H> {
    fn default() -> (dispatcher: Self)
        ensures
            dispatcher.is_well_formed(),
            dispatcher@ == DispatcherView::<H>::empty(),
    {
        let dispatcher = ContentHandlersDispatcher {
            doctype_handlers: HandlerVec::default(),
            comment_handlers: HandlerVec::default(),
            text_handlers: HandlerVec::default(),
            end_tag_handlers: HandlerVec::default(),
            element_handlers: HandlerVec::default(),
            end_handlers: HandlerVec::default(),
            next_element_can_have_content: false,
            matched_elements_with_removed_content: 0,
            locators: Vec::new(),
            suspended: None,
        };
        assert(places_of(dispatcher.locators@) =~= Seq::empty());
        dispatcher
    }
}

impl<H: HandlerTypes> ContentHandlersDispatcher<H> {
    /// The counts are right in each list of handlers, and the locators point into them, each at a
    /// handler of its own.
    pub closed spec fn is_well_formed(&self) -> bool {
        &&& self.doctype_handlers.is_well_formed()
        &&& self.comment_handlers.is_well_formed()
        &&& self.text_handlers.is_well_formed()
        &&& self.end_tag_handlers.is_well_formed()
        &&& self.element_handlers.is_well_formed()
        &&& self.end_handlers.is_well_formed()
        &&& self@.has_locators_in_order()
    }

    /// In a well-formed dispatcher the locators point at handlers, and no two at the same one.
    pub proof fn law_locators_are_in_order(&self)
        requires
            self.is_well_formed(),
        ensures
            self@.has_locators_in_order(),
    {
    }

    /// Adds handlers for the whole document. They are active from now on.
    pub fn add_document_content_handlers(&mut self, handlers: DocumentContentHandlers<H>)
        requires
            old(self).is_well_formed(),
            handlers.doctype is Some ==> total_users(old(self)@.doctype) < u32::MAX,
            handlers.comments is Some ==> total_users(old(self)@.comment) < u32::MAX,
            handlers.text is Some ==> total_users(old(self)@.text) < u32::MAX,
            handlers.end is Some ==> total_users(old(self)@.end) < u32::MAX,
        ensures
            final(self).is_well_formed(),
            final(self)@ == old(self)@.with_document_handlers(handlers),
    {
        if let Some(handler) = handlers.doctype {
            self.doctype_handlers.push(handler, true);
        }
        if let Some(handler) = handlers.comments {
            self.comment_handlers.push(handler, true);
        }
        if let Some(handler) = handlers.text {
            self.text_handlers.push(handler, true);
        }
        if let Some(handler) = handlers.end {
            self.end_handlers.push(handler, true);
        }
    }

    /// Adds handlers for the elements that a selector matches. They are active only while such an
    /// element is open. The match id is the number of selectors that were added before.
    pub fn add_selector_associated_handlers(&mut self, handlers: ElementContentHandlers<H>) -> (match_id:
        MatchId)
        requires
            old(self).is_well_formed(),
        ensures
            final(self).is_well_formed(),
            final(self)@ == old(self)@.with_selector_handlers(handlers),
            match_id == old(self)@.locators.len() as MatchId,
    {
        let match_id: MatchId = #[verifier::truncate]
        (self.locators.len() as MatchId);
        let element = match handlers.element {
            Some(handler) => self.element_handlers.push(handler, false),
            None => None,
        };
        let comment = match handlers.comments {
            Some(handler) => self.comment_handlers.push(handler, false),
            None => None,
        };
        let text = match handlers.text {
            Some(handler) => self.text_handlers.push(handler, false),
            None => None,
        };
        self.locators.push(SelectorHandlersLocator::new(element, comment, text));
        assert(self@.locators =~= old(self)@.with_selector_handlers(handlers).locators);
        match_id
    }

    /// Whether the content of some open element is left out of the output.
    pub fn has_matched_elements_with_removed_content(&self) -> (removed: bool)
        ensures
            removed == (self@.removed_content > 0),
    {
        self.matched_elements_with_removed_content > 0
    }
    /// Activates the handlers of a selector that matched an element.
    pub fn start_matching(&mut self, match_info: &MatchInfo)
        requires
            old(self).is_well_formed(),
            old(self)@.has_room_for(*match_info),
        ensures
            final(self).is_well_formed(),
            final(self)@ == old(self)@.started(*match_info),
    {
        let id: usize = match_info.match_id as usize;
        if id >= self.locators.len() {
            return;
        }
        let locator = self.locators[id];
        assert(locator@ == self@.locators[id as int]);
        if match_info.with_content {
            if let Some(idx) = locator.comment_handler_idx() {
                self.comment_handlers.inc_user_count(idx);
            }
            if let Some(idx) = locator.text_handler_idx() {
                self.text_handlers.inc_user_count(idx);
            }
        }
        if let Some(idx) = locator.element_handler_idx() {
            self.element_handlers.inc_user_count(idx);
        }
        self.next_element_can_have_content = match_info.with_content;
    }

    /// Deactivates the handlers for the content of an element that ends, and activates the handler
    /// for its end tag.
    pub fn stop_matching(&mut self, elem_desc: ElementDescriptor)
        requires
            old(self).is_well_formed(),
            old(self)@.wants_content_of(elem_desc@),
            elem_desc.end_tag_handler_idx is Some ==> total_users(old(self)@.end_tag) < u32::MAX,
            elem_desc.remove_content ==> old(self)@.removed_content > 0,
        ensures
            final(self).is_well_formed(),
            final(self)@ == old(self)@.stopped(elem_desc@),
    {
        let ghost before = self@;
        let ids = elem_desc.matched_content_handlers.ids();
        let mut i: usize = 0;
        proof {
            assert(ids@.take(0) =~= Seq::empty());
            assert(wanted_less(before.comment, comment_places(before.locators, ids@.take(0).to_set()))
                =~= before.comment);
            assert(wanted_less(before.text, text_places(before.locators, ids@.take(0).to_set()))
                =~= before.text);
        }
        while i < ids.len()
            invariant
                i <= ids.len(),
                self.is_well_formed(),
                is_ascending(ids@),
                ids@.to_set() == elem_desc@.matched_content_handlers,
                before.has_locators_in_order(),
                before.wants_content_of(elem_desc@),
                self@ == (DispatcherView {
                    comment: wanted_less(
                        before.comment,
                        comment_places(before.locators, ids@.take(i as int).to_set()),
                    ),
                    text: wanted_less(
                        before.text,
                        text_places(before.locators, ids@.take(i as int).to_set()),
                    ),
                    ..before
                }),
            decreases ids.len() - i,
        {
            let id: usize = ids[i] as usize;
            proof {
                lemma_places_of_one_more(before.locators, ids@, i as int);
                assert(ids@.to_set().contains(ids@[i as int]));
            }
            if id < self.locators.len() {
                let locator = self.locators[id];
                assert(locator@ == before.locators[id as int]);
                if let Some(idx) = locator.comment_handler_idx() {
                    let ghost place = idx.spec_index();
                    proof {
                        assert(comment_places(before.locators, ids@.to_set()).contains(place));
                        assert(is_wanted(before.comment, place));
                    }
                    self.comment_handlers.dec_user_count(idx);
                    proof {
                        lemma_one_less(
                            before.comment,
                            comment_places(before.locators, ids@.take(i as int).to_set()),
                            place,
                        );
                    }
                }
                if let Some(idx) = locator.text_handler_idx() {
                    let ghost place = idx.spec_index();
                    proof {
                        assert(text_places(before.locators, ids@.to_set()).contains(place));
                        assert(is_wanted(before.text, place));
                    }
                    self.text_handlers.dec_user_count(idx);
                    proof {
                        lemma_one_less(
                            before.text,
                            text_places(before.locators, ids@.take(i as int).to_set()),
                            place,
                        );
                    }
                }
            }
            i = i + 1;
        }
        assert(ids@.take(i as int) =~= ids@);
        if let Some(idx) = elem_desc.end_tag_handler_idx {
            self.end_tag_handlers.inc_user_count(idx);
        }
        if elem_desc.remove_content {
            self.matched_elements_with_removed_content =
            self.matched_elements_with_removed_content - 1;
        }
    }
    /// Marks the descriptor of an element with what its handlers decided. Without content there is
    /// nothing to mark.
    fn apply_element_result(
        &mut self,
        should_remove_content: bool,
        end_tag_handler: Option<H::EndTagHandler>,
        current_element_data: Option<&mut ElementDescriptor>,
    )
        requires
            old(self).is_well_formed(),
            old(self)@.removed_content < usize::MAX,
        ensures
            final(self).is_well_formed(),
            final(self)@ == old(self)@.with_element_result(
                should_remove_content,
                end_tag_handler,
                current_element_data is Some,
            ),
            current_element_data matches Some(d) ==> (*final(d))@ == old(self)@.descriptor_after(
                should_remove_content,
                end_tag_handler,
                (*d)@,
            ),
    {
        if self.next_element_can_have_content {
            if let Some(elem_desc) = current_element_data {
                if should_remove_content {
                    elem_desc.remove_content = true;
                    self.matched_elements_with_removed_content =
                    self.matched_elements_with_removed_content + 1;
                }
                if let Some(handler) = end_tag_handler {
                    elem_desc.end_tag_handler_idx = self.end_tag_handlers.push(handler, false);
                }
            }
        }
    }

    /// Runs the handlers of the element that a start tag opens.
    pub fn handle_start_tag(
        &mut self,
        start_tag: StartTag<H::StartTag>,
        current_element_data: Option<&mut ElementDescriptor>,
    ) -> (res: Outcome<StartTag<H::StartTag>, H>)
        requires
            old(self).is_well_formed(),
            old(self)@.removed_content < usize::MAX,
        ensures
            final(self).is_well_formed(),
            old(self)@.is_element_outcome(
                old(self)@.element_of(start_tag),
                0,
                match current_element_data {
                    Some(d) => Some((*d)@),
                    None => None,
                },
                final(self)@,
                match current_element_data {
                    Some(d) => Some((*final(d))@),
                    None => None,
                },
                res,
            ),
    {
        let mut element = self.element_of(start_tag);
        let (run, next_handler_idx) = self.run_element_handlers(&mut element, 0);
        match run {
            Ok(_) => Ok(self.complete_element(element, current_element_data)),
            Err(HandlerError::Suspension) => {
                self.suspended = Some(
                    SuspendedToken::Element { element: Box::new(element), next_handler_idx },
                );
                Err(Interruption::Suspended)
            },
            Err(HandlerError::Failure(error)) => Err(
                Interruption::Failed { error, unit: element.start_tag },
            ),
        }
    }

    /// The element that the handlers of a start tag see first. Inside an element with removed
    /// content the start tag is removed too.
    fn element_of(&self, mut start_tag: StartTag<H::StartTag>) -> (element: Element<
        H::StartTag,
        H::EndTagHandler,
    >)
        ensures
            element == self@.element_of(start_tag),
    {
        if self.matched_elements_with_removed_content > 0 {
            start_tag.remove();
        }
        Element::new(start_tag, self.next_element_can_have_content)
    }

    /// Runs the element handlers from `start_idx` on: how that went, and the index behind the last
    /// handler that ran.
    fn run_element_handlers(
        &mut self,
        element: &mut Element<H::StartTag, H::EndTagHandler>,
        start_idx: usize,
    ) -> (res: (HandlerResult<H::Failure>, usize))
        requires
            old(self).is_well_formed(),
        ensures
            final(self).is_well_formed(),
            final(self)@ == (DispatcherView { element: final(self)@.element, ..old(self)@ }),
            is_run(
                true,
                old(self)@.element,
                start_idx as nat,
                *old(element),
                final(self)@.element,
                *final(element),
                res.1 as nat,
                res.0,
            ),
    {
        let mut next_handler_idx: usize = start_idx;
        let run = self.element_handlers.do_for_each_active_and_deactivate_from(
            start_idx,
            &mut next_handler_idx,
            element,
        );
        proof {
            lemma_run_keeps_len(
                true,
                old(self)@.element,
                start_idx as nat,
                *old(element),
                self@.element,
                *element,
                next_handler_idx as nat,
                run,
            );
        }
        (run, next_handler_idx)
    }

    /// Does what the handlers of an element decided, and hands its start tag back.
    fn complete_element(
        &mut self,
        element: Element<H::StartTag, H::EndTagHandler>,
        current_element_data: Option<&mut ElementDescriptor>,
    ) -> (start_tag: StartTag<H::StartTag>)
        requires
            old(self).is_well_formed(),
            old(self)@.removed_content < usize::MAX,
        ensures
            start_tag == element.start_tag,
            final(self).is_well_formed(),
            final(self)@ == old(self)@.with_element_result(
                element.should_remove_content,
                element.end_tag_handler,
                current_element_data is Some,
            ),
            current_element_data matches Some(d) ==> (*final(d))@ == old(self)@.descriptor_after(
                element.should_remove_content,
                element.end_tag_handler,
                (*d)@,
            ),
    {
        let (start_tag, should_remove_content, end_tag_handler) = element.into_owned_parts();
        self.apply_element_result(should_remove_content, end_tag_handler, current_element_data);
        start_tag
    }

    /// Runs the text handlers from `start_idx` on: how that went, and the index behind the last
    /// handler that ran.
    fn run_text_handlers(&mut self, chunk: &mut H::TextChunk, start_idx: usize) -> (res: (
        HandlerResult<H::Failure>,
        usize,
    ))
        requires
            old(self).is_well_formed(),
        ensures
            final(self).is_well_formed(),
            final(self)@ == (DispatcherView { text: final(self)@.text, ..old(self)@ }),
            is_run(
                false,
                old(self)@.text,
                start_idx as nat,
                *old(chunk),
                final(self)@.text,
                *final(chunk),
                res.1 as nat,
                res.0,
            ),
    {
        let mut next_handler_idx: usize = start_idx;
        let run = self.text_handlers.for_each_active_from(
            start_idx,
            &mut next_handler_idx,
            chunk,
        );
        proof {
            lemma_run_keeps_len(
                false,
                old(self)@.text,
                start_idx as nat,
                *old(chunk),
                self@.text,
                *chunk,
                next_handler_idx as nat,
                run,
            );
        }
        (run, next_handler_idx)
    }

    /// Runs the comment handlers from `start_idx` on: how that went, and the index behind the last
    /// handler that ran.
    fn run_comment_handlers(&mut self, comment: &mut H::Comment, start_idx: usize) -> (res: (
        HandlerResult<H::Failure>,
        usize,
    ))
        requires
            old(self).is_well_formed(),
        ensures
            final(self).is_well_formed(),
            final(self)@ == (DispatcherView { comment: final(self)@.comment, ..old(self)@ }),
            is_run(
                false,
                old(self)@.comment,
                start_idx as nat,
                *old(comment),
                final(self)@.comment,
                *final(comment),
                res.1 as nat,
                res.0,
            ),
    {
        let mut next_handler_idx: usize = start_idx;
        let run = self.comment_handlers.for_each_active_from(
            start_idx,
            &mut next_handler_idx,
            comment,
        );
        proof {
            lemma_run_keeps_len(
                false,
                old(self)@.comment,
                start_idx as nat,
                *old(comment),
                self@.comment,
                *comment,
                next_handler_idx as nat,
                run,
            );
        }
        (run, next_handler_idx)
    }

    /// Runs the doctype handlers from `start_idx` on: how that went, and the index behind the last
    /// handler that ran.
    fn run_doctype_handlers(&mut self, doctype: &mut H::Doctype, start_idx: usize) -> (res: (
        HandlerResult<H::Failure>,
        usize,
    ))
        requires
            old(self).is_well_formed(),
        ensures
            final(self).is_well_formed(),
            final(self)@ == (DispatcherView { doctype: final(self)@.doctype, ..old(self)@ }),
            is_run(
                false,
                old(self)@.doctype,
                start_idx as nat,
                *old(doctype),
                final(self)@.doctype,
                *final(doctype),
                res.1 as nat,
                res.0,
            ),
    {
        let mut next_handler_idx: usize = start_idx;
        let run = self.doctype_handlers.for_each_active_from(
            start_idx,
            &mut next_handler_idx,
            doctype,
        );
        proof {
            lemma_run_keeps_len(
                false,
                old(self)@.doctype,
                start_idx as nat,
                *old(doctype),
                self@.doctype,
                *doctype,
                next_handler_idx as nat,
                run,
            );
        }
        (run, next_handler_idx)
    }

    /// Runs the element handlers that have not run yet for a parked element.
    fn resume_element(
        &mut self,
        mut element: Box<Element<H::StartTag, H::EndTagHandler>>,
        start_idx: usize,
        current_element_data: Option<&mut ElementDescriptor>,
    ) -> (res: Outcome<StartTag<H::StartTag>, H>)
        requires
            old(self).is_well_formed(),
            old(self)@.removed_content < usize::MAX,
        ensures
            final(self).is_well_formed(),
            old(self)@.is_element_outcome(
                *element,
                start_idx as nat,
                match current_element_data {
                    Some(d) => Some((*d)@),
                    None => None,
                },
                final(self)@,
                match current_element_data {
                    Some(d) => Some((*final(d))@),
                    None => None,
                },
                res,
            ),
    {
        let (run, next_handler_idx) = self.run_element_handlers(&mut *element, start_idx);
        match run {
            Ok(_) => Ok(self.complete_element(*element, current_element_data)),
            Err(HandlerError::Suspension) => {
                self.suspended = Some(SuspendedToken::Element { element, next_handler_idx });
                Err(Interruption::Suspended)
            },
            Err(HandlerError::Failure(error)) => Err(
                Interruption::Failed { error, unit: (*element).start_tag },
            ),
        }
    }

    /// Runs the end tag handlers.
    fn handle_end_tag(&mut self, mut end_tag: H::EndTag) -> (res: Outcome<H::EndTag, H>)
        requires
            old(self).is_well_formed(),
        ensures
            final(self).is_well_formed(),
            old(self)@.is_end_tag_outcome(end_tag, final(self)@, res),
    {
        let ghost before = end_tag;
        let run = self.end_tag_handlers.do_for_each_active_and_remove_tail(&mut end_tag);
        assert(is_tail_run(
            old(self)@.end_tag,
            first_active(old(self)@.end_tag) as int,
            before,
            self@.end_tag,
            end_tag,
            run,
        ));
        match run {
            Ok(_) => Ok(end_tag),
            Err(HandlerError::Suspension) => {
                self.suspended = Some(SuspendedToken::EndTag(Box::new(end_tag)));
                Err(Interruption::Suspended)
            },
            Err(HandlerError::Failure(error)) => Err(Interruption::Failed { error, unit: end_tag }),
        }
    }

    /// Runs the end tag handlers that have not run yet for a parked end tag.
    fn resume_end_tag(&mut self, mut end_tag: Box<H::EndTag>) -> (res: Outcome<H::EndTag, H>)
        requires
            old(self).is_well_formed(),
        ensures
            final(self).is_well_formed(),
            old(self)@.is_end_tag_outcome(*end_tag, final(self)@, res),
    {
        let ghost before = *end_tag;
        let run = self.end_tag_handlers.do_for_each_active_and_remove_tail(&mut *end_tag);
        assert(is_tail_run(
            old(self)@.end_tag,
            first_active(old(self)@.end_tag) as int,
            before,
            self@.end_tag,
            *end_tag,
            run,
        ));
        match run {
            Ok(_) => Ok(*end_tag),
            Err(HandlerError::Suspension) => {
                self.suspended = Some(SuspendedToken::EndTag(end_tag));
                Err(Interruption::Suspended)
            },
            Err(HandlerError::Failure(error)) => Err(Interruption::Failed { error, unit: *end_tag }),
        }
    }

    /// Runs the text handlers.
    fn handle_text(&mut self, mut chunk: H::TextChunk) -> (res: Outcome<H::TextChunk, H>)
        requires
            old(self).is_well_formed(),
        ensures
            final(self).is_well_formed(),
            old(self)@.is_text_outcome(chunk, 0, final(self)@, res),
    {
        let (run, next_handler_idx) = self.run_text_handlers(&mut chunk, 0);
        match run {
            Ok(_) => Ok(chunk),
            Err(HandlerError::Suspension) => {
                self.suspended = Some(
                    SuspendedToken::TextChunk { chunk: Box::new(chunk), next_handler_idx },
                );
                Err(Interruption::Suspended)
            },
            Err(HandlerError::Failure(error)) => Err(Interruption::Failed { error, unit: chunk }),
        }
    }

    /// Runs the text handlers that have not run yet for a parked unit.
    fn resume_text(&mut self, mut chunk: Box<H::TextChunk>, start_idx: usize) -> (res: Outcome<
        H::TextChunk,
        H,
    >)
        requires
            old(self).is_well_formed(),
        ensures
            final(self).is_well_formed(),
            old(self)@.is_text_outcome(*chunk, start_idx as nat, final(self)@, res),
    {
        let (run, next_handler_idx) = self.run_text_handlers(&mut *chunk, start_idx);
        match run {
            Ok(_) => Ok(*chunk),
            Err(HandlerError::Suspension) => {
                self.suspended = Some(SuspendedToken::TextChunk { chunk, next_handler_idx });
                Err(Interruption::Suspended)
            },
            Err(HandlerError::Failure(error)) => Err(Interruption::Failed { error, unit: *chunk }),
        }
    }

    /// Runs the comment handlers.
    fn handle_comment(&mut self, mut comment: H::Comment) -> (res: Outcome<H::Comment, H>)
        requires
            old(self).is_well_formed(),
        ensures
            final(self).is_well_formed(),
            old(self)@.is_comment_outcome(comment, 0, final(self)@, res),
    {
        let (run, next_handler_idx) = self.run_comment_handlers(&mut comment, 0);
        match run {
            Ok(_) => Ok(comment),
            Err(HandlerError::Suspension) => {
                self.suspended = Some(
                    SuspendedToken::Comment { comment: Box::new(comment), next_handler_idx },
                );
                Err(Interruption::Suspended)
            },
            Err(HandlerError::Failure(error)) => Err(Interruption::Failed { error, unit: comment }),
        }
    }

    /// Runs the comment handlers that have not run yet for a parked unit.
    fn resume_comment(&mut self, mut comment: Box<H::Comment>, start_idx: usize) -> (res: Outcome<
        H::Comment,
        H,
    >)
        requires
            old(self).is_well_formed(),
        ensures
            final(self).is_well_formed(),
            old(self)@.is_comment_outcome(*comment, start_idx as nat, final(self)@, res),
    {
        let (run, next_handler_idx) = self.run_comment_handlers(&mut *comment, start_idx);
        match run {
            Ok(_) => Ok(*comment),
            Err(HandlerError::Suspension) => {
                self.suspended = Some(SuspendedToken::Comment { comment, next_handler_idx });
                Err(Interruption::Suspended)
            },
            Err(HandlerError::Failure(error)) => Err(Interruption::Failed { error, unit: *comment }),
        }
    }

    /// Runs the doctype handlers.
    fn handle_doctype(&mut self, mut doctype: H::Doctype) -> (res: Outcome<H::Doctype, H>)
        requires
            old(self).is_well_formed(),
        ensures
            final(self).is_well_formed(),
            old(self)@.is_doctype_outcome(doctype, 0, final(self)@, res),
    {
        let (run, next_handler_idx) = self.run_doctype_handlers(&mut doctype, 0);
        match run {
            Ok(_) => Ok(doctype),
            Err(HandlerError::Suspension) => {
                self.suspended = Some(
                    SuspendedToken::Doctype { doctype: Box::new(doctype), next_handler_idx },
                );
                Err(Interruption::Suspended)
            },
            Err(HandlerError::Failure(error)) => Err(Interruption::Failed { error, unit: doctype }),
        }
    }

    /// Runs the doctype handlers that have not run yet for a parked unit.
    fn resume_doctype(&mut self, mut doctype: Box<H::Doctype>, start_idx: usize) -> (res: Outcome<
        H::Doctype,
        H,
    >)
        requires
            old(self).is_well_formed(),
        ensures
            final(self).is_well_formed(),
            old(self)@.is_doctype_outcome(*doctype, start_idx as nat, final(self)@, res),
    {
        let (run, next_handler_idx) = self.run_doctype_handlers(&mut *doctype, start_idx);
        match run {
            Ok(_) => Ok(*doctype),
            Err(HandlerError::Suspension) => {
                self.suspended = Some(SuspendedToken::Doctype { doctype, next_handler_idx });
                Err(Interruption::Suspended)
            },
            Err(HandlerError::Failure(error)) => Err(Interruption::Failed { error, unit: *doctype }),
        }
    }

    /// Runs the handlers of a token, and hands the token back as they left it. Where a handler asks
    /// for suspension the token is parked instead.
    pub fn handle_token(
        &mut self,
        token: Token<H>,
        current_element_data: Option<&mut ElementDescriptor>,
    ) -> (res: Outcome<Token<H>, H>)
        requires
            old(self).is_well_formed(),
            old(self)@.suspended is None,
            old(self)@.removed_content < usize::MAX,
        ensures
            final(self).is_well_formed(),
            old(self)@.is_token_outcome(
                token,
                match current_element_data {
                    Some(d) => Some((*d)@),
                    None => None,
                },
                final(self)@,
                match current_element_data {
                    Some(d) => Some((*final(d))@),
                    None => None,
                },
                res,
            ),
    {
        match token {
            Token::StartTag(start_tag) => match self.handle_start_tag(
                start_tag,
                current_element_data,
            ) {
                Ok(unit) => Ok(Token::StartTag(unit)),
                Err(Interruption::Suspended) => Err(Interruption::Suspended),
                Err(Interruption::Failed { error, unit }) => Err(
                    Interruption::Failed { error, unit: Token::StartTag(unit) },
                ),
            },
            Token::EndTag(end_tag) => match self.handle_end_tag(end_tag) {
                Ok(unit) => Ok(Token::EndTag(unit)),
                Err(Interruption::Suspended) => Err(Interruption::Suspended),
                Err(Interruption::Failed { error, unit }) => Err(
                    Interruption::Failed { error, unit: Token::EndTag(unit) },
                ),
            },
            Token::TextChunk(chunk) => match self.handle_text(chunk) {
                Ok(unit) => Ok(Token::TextChunk(unit)),
                Err(Interruption::Suspended) => Err(Interruption::Suspended),
                Err(Interruption::Failed { error, unit }) => Err(
                    Interruption::Failed { error, unit: Token::TextChunk(unit) },
                ),
            },
            Token::Comment(comment) => match self.handle_comment(comment) {
                Ok(unit) => Ok(Token::Comment(unit)),
                Err(Interruption::Suspended) => Err(Interruption::Suspended),
                Err(Interruption::Failed { error, unit }) => Err(
                    Interruption::Failed { error, unit: Token::Comment(unit) },
                ),
            },
            Token::Doctype(doctype) => match self.handle_doctype(doctype) {
                Ok(unit) => Ok(Token::Doctype(unit)),
                Err(Interruption::Suspended) => Err(Interruption::Suspended),
                Err(Interruption::Failed { error, unit }) => Err(
                    Interruption::Failed { error, unit: Token::Doctype(unit) },
                ),
            },
        }
    }

    /// Runs the handlers for the end of the document, and hands the unit back as they left it. Where
    /// a handler asks for suspension the unit is parked instead.
    pub fn handle_end(&mut self, mut document_end: H::DocumentEnd) -> (res: Outcome<H::DocumentEnd, H>)
        requires
            old(self).is_well_formed(),
        ensures
            final(self).is_well_formed(),
            old(self)@.is_end_outcome(document_end, final(self)@, res),
    {
        let ghost before = document_end;
        let run = self.end_handlers.do_for_each_active_and_remove_tail(&mut document_end);
        assert(is_tail_run(
            old(self)@.end,
            first_active(old(self)@.end) as int,
            before,
            self@.end,
            document_end,
            run,
        ));
        match run {
            Ok(_) => Ok(document_end),
            Err(HandlerError::Suspension) => {
                self.suspended = Some(SuspendedToken::DocumentEnd(Box::new(document_end)));
                Err(Interruption::Suspended)
            },
            Err(HandlerError::Failure(error)) => Err(
                Interruption::Failed { error, unit: document_end },
            ),
        }
    }

    /// The unit that a handler is suspended on, if any.
    pub fn suspended_token_mut(&mut self) -> (token: Option<&mut SuspendedToken<H>>)
        requires
            old(self).is_well_formed(),
        ensures
            final(self).is_well_formed(),
            token is Some <==> old(self)@.suspended is Some,
            token is None ==> final(self)@ == old(self)@,
            token matches Some(t) ==> old(self)@.suspended == Some(*t) && final(self)@ == (
            DispatcherView { suspended: Some(*final(t)), ..old(self)@ }),
    {
        self.suspended.as_mut()
    }

    /// Runs the handlers that have not run yet for the parked token, and hands the completed token
    /// back. If another handler asks for suspension, the token is parked again. The end of the
    /// document is resumed by [`Self::resume_suspended_document_end`].
    pub fn resume_suspended_token(
        &mut self,
        current_element_data: Option<&mut ElementDescriptor>,
    ) -> (res: Outcome<Token<H>, H>)
        requires
            old(self).is_well_formed(),
            old(self)@.suspended is Some,
            !(old(self)@.suspended matches Some(SuspendedToken::DocumentEnd(_))),
            old(self)@.removed_content < usize::MAX,
        ensures
            final(self).is_well_formed(),
            (DispatcherView { suspended: None, ..old(self)@ }).is_resumed_outcome(
                old(self)@.suspended->0,
                match current_element_data {
                    Some(d) => Some((*d)@),
                    None => None,
                },
                final(self)@,
                match current_element_data {
                    Some(d) => Some((*final(d))@),
                    None => None,
                },
                res,
            ),
    {
        let taken = self.suspended.take();
        assert(self@ == (DispatcherView { suspended: None, ..old(self)@ }));
        match taken.unwrap() {
            SuspendedToken::Element { element, next_handler_idx } => match self.resume_element(
                element,
                next_handler_idx,
                current_element_data,
            ) {
                Ok(unit) => Ok(Token::StartTag(unit)),
                Err(Interruption::Suspended) => Err(Interruption::Suspended),
                Err(Interruption::Failed { error, unit }) => Err(
                    Interruption::Failed { error, unit: Token::StartTag(unit) },
                ),
            },
            SuspendedToken::EndTag(end_tag) => match self.resume_end_tag(end_tag) {
                Ok(unit) => Ok(Token::EndTag(unit)),
                Err(Interruption::Suspended) => Err(Interruption::Suspended),
                Err(Interruption::Failed { error, unit }) => Err(
                    Interruption::Failed { error, unit: Token::EndTag(unit) },
                ),
            },
            SuspendedToken::TextChunk { chunk, next_handler_idx } => match self.resume_text(
                chunk,
                next_handler_idx,
            ) {
                Ok(unit) => Ok(Token::TextChunk(unit)),
                Err(Interruption::Suspended) => Err(Interruption::Suspended),
                Err(Interruption::Failed { error, unit }) => Err(
                    Interruption::Failed { error, unit: Token::TextChunk(unit) },
                ),
            },
            SuspendedToken::Comment { comment, next_handler_idx } => match self.resume_comment(
                comment,
                next_handler_idx,
            ) {
                Ok(unit) => Ok(Token::Comment(unit)),
                Err(Interruption::Suspended) => Err(Interruption::Suspended),
                Err(Interruption::Failed { error, unit }) => Err(
                    Interruption::Failed { error, unit: Token::Comment(unit) },
                ),
            },
            SuspendedToken::Doctype { doctype, next_handler_idx } => match self.resume_doctype(
                doctype,
                next_handler_idx,
            ) {
                Ok(unit) => Ok(Token::Doctype(unit)),
                Err(Interruption::Suspended) => Err(Interruption::Suspended),
                Err(Interruption::Failed { error, unit }) => Err(
                    Interruption::Failed { error, unit: Token::Doctype(unit) },
                ),
            },
            SuspendedToken::DocumentEnd(_) => vstd::pervasive::unreached(),
        }
    }

    /// Runs the handlers for the end of the document that have not run yet.
    pub fn resume_suspended_document_end(&mut self) -> (res: Outcome<H::DocumentEnd, H>)
        requires
            old(self).is_well_formed(),
            old(self)@.suspended matches Some(SuspendedToken::DocumentEnd(_)),
        ensures
            final(self).is_well_formed(),
            old(self)@.suspended matches Some(SuspendedToken::DocumentEnd(document_end)) && (
            DispatcherView { suspended: None, ..old(self)@ }).is_end_outcome(
                *document_end,
                final(self)@,
                res,
            ),
    {
        let taken = self.suspended.take();
        match taken {
            Some(SuspendedToken::DocumentEnd(mut document_end)) => {
                let ghost before = *document_end;
                let ghost taken_out = self@;
                assert(taken_out == (DispatcherView { suspended: None, ..old(self)@ }));
                let run = self.end_handlers.do_for_each_active_and_remove_tail(&mut *document_end);
                assert(is_tail_run(
                    taken_out.end,
                    first_active(taken_out.end) as int,
                    before,
                    self@.end,
                    *document_end,
                    run,
                ));
                match run {
                    Ok(_) => Ok(*document_end),
                    Err(HandlerError::Suspension) => {
                        self.suspended = Some(SuspendedToken::DocumentEnd(document_end));
                        Err(Interruption::Suspended)
                    },
                    Err(HandlerError::Failure(error)) => Err(
                        Interruption::Failed { error, unit: *document_end },
                    ),
                }
            },
            _ => vstd::pervasive::unreached(),
        }
    }

    /// The kinds of token that some active handler wants.
    pub fn get_token_capture_flags(&self) -> (flags: TokenCaptureFlags)
        requires
            self.is_well_formed(),
        ensures
            flags.spec_bits() == wanted_bits(
                some_active(self@.doctype),
                some_active(self@.comment),
                some_active(self@.text),
                some_active(self@.end_tag),
                some_active(self@.element),
            ),
    {
        proof {
            assert(forall|bits: u8| #[trigger] (bits | 0) == bits) by (bit_vector);
            assert(forall|bits: u8| #[trigger] (0 | bits) == bits) by (bit_vector);
        }
        let mut flags = TokenCaptureFlags::empty();
        if self.doctype_handlers.has_active() {
            flags.insert(TokenCaptureFlags::DOCTYPES);
        }
        if self.comment_handlers.has_active() {
            flags.insert(TokenCaptureFlags::COMMENTS);
        }
        if self.text_handlers.has_active() {
            flags.insert(TokenCaptureFlags::TEXT);
        }
        if self.end_tag_handlers.has_active() {
            flags.insert(TokenCaptureFlags::NEXT_END_TAG);
        }
        if self.element_handlers.has_active() {
            flags.insert(TokenCaptureFlags::NEXT_START_TAG);
        }
        flags
    }
}

/// The locators of a dispatcher that is well formed point into its handlers, each at one of its own.
pub proof fn lemma_locators_are_in_order<H: HandlerTypes>(dispatcher: ContentHandlersDispatcher<H>)
    requires
        dispatcher.is_well_formed(),
    ensures
        dispatcher@.has_locators_in_order(),
{
}

/// The bits that say which kinds of token are wanted.
pub open spec fn wanted_bits(
    doctypes: bool,
    comments: bool,
    text: bool,
    end_tags: bool,
    start_tags: bool,
) -> u8 {
    let doctype_bits: u8 = if doctypes {
        TokenCaptureFlags::DOCTYPES
    } else {
        0
    };
    let comment_bits: u8 = if comments {
        TokenCaptureFlags::COMMENTS
    } else {
        0
    };
    let text_bits: u8 = if text {
        TokenCaptureFlags::TEXT
    } else {
        0
    };
    let end_tag_bits: u8 = if end_tags {
        TokenCaptureFlags::NEXT_END_TAG
    } else {
        0
    };
    let start_tag_bits: u8 = if start_tags {
        TokenCaptureFlags::NEXT_START_TAG
    } else {
        0
    };
    doctype_bits | comment_bits | text_bits | end_tag_bits | start_tag_bits
}

/// The places of selectors are those of all but the last, and those of the last.
proof fn lemma_places_of_one_more(locators: Seq<HandlerPlaces>, ids: Seq<MatchId>, at: int)
    requires
        0 <= at < ids.len(),
        is_ascending(ids),
        forall|i: int, j: int|
            #![trigger locators[i], locators[j]]
            0 <= i < j < locators.len() ==> is_before(locators[i].comment, locators[j].comment)
                && is_before(locators[i].text, locators[j].text),
    ensures
        ({
            let before = ids.take(at).to_set();
            let after = ids.take(at + 1).to_set();
            let id = ids[at];
            if id < locators.len() {
                &&& comment_places(locators, after) == (match locators[id as int].comment {
                    Some(place) => comment_places(locators, before).insert(place),
                    None => comment_places(locators, before),
                })
                &&& text_places(locators, after) == (match locators[id as int].text {
                    Some(place) => text_places(locators, before).insert(place),
                    None => text_places(locators, before),
                })
                &&& locators[id as int].comment matches Some(place) ==> !comment_places(
                    locators,
                    before,
                ).contains(place)
                &&& locators[id as int].text matches Some(place) ==> !text_places(
                    locators,
                    before,
                ).contains(place)
            } else {
                &&& comment_places(locators, after) == comment_places(locators, before)
                &&& text_places(locators, after) == text_places(locators, before)
            }
        }),
{
    let shorter = ids.take(at);
    let longer = ids.take(at + 1);
    let before = shorter.to_set();
    let after = longer.to_set();
    let id = ids[at];
    assert forall|x: MatchId| after.contains(x) == (before.contains(x) || x == id) by {
        if after.contains(x) {
            let k: int = choose|k: int| 0 <= k < longer.len() && longer[k] == x;
            if k < at {
                assert(shorter[k] == x);
            }
        }
        if before.contains(x) {
            let k: int = choose|k: int| 0 <= k < shorter.len() && shorter[k] == x;
            assert(longer[k] == x);
        }
        assert(longer[at] == id);
    }
    assert forall|x: MatchId| before.contains(x) implies x < id by {
        let k: int = choose|k: int| 0 <= k < shorter.len() && shorter[k] == x;
        assert(ids[k] == x);
    }
    if id < locators.len() {
        let places = locators[id as int];
        match places.comment {
            Some(place) => {
                assert(comment_places(locators, after) =~= comment_places(locators, before).insert(
                    place,
                )) by {
                    assert(after.contains(id));
                }
            },
            None => {
                assert(comment_places(locators, after) =~= comment_places(locators, before));
            },
        }
        match places.text {
            Some(place) => {
                assert(text_places(locators, after) =~= text_places(locators, before).insert(
                    place,
                )) by {
                    assert(after.contains(id));
                }
            },
            None => {
                assert(text_places(locators, after) =~= text_places(locators, before));
            },
        }
    } else {
        assert(comment_places(locators, after) =~= comment_places(locators, before));
        assert(text_places(locators, after) =~= text_places(locators, before));
    }
}

/// One more item is released.
proof fn lemma_one_less<X>(items: Seq<HandlerVecItem<X>>, released: Set<nat>, place: nat)
    requires
        !released.contains(place),
    ensures
        with_one_less(wanted_less(items, released), place) == wanted_less(
            items,
            released.insert(place),
        ),
{
    assert(with_one_less(wanted_less(items, released), place) =~= wanted_less(
        items,
        released.insert(place),
    ));
}

} // verus!
