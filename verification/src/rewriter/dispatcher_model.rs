use super::handler_vec::{
    first_active, is_run, is_tail_run, is_wanted, place_at, total_users, with_one_more,
    HandlerVecItem,
};
use super::handlers::{HandlerError, HandlerResult, Interruption};
use super::selector_handlers_locator::HandlerPlaces;
use super::units::{
    DocumentContentHandlers, Element, ElementContentHandlers, HandlerTypes, StartTag,
    SuspendedToken, Token,
};
use crate::selectors_vm::dense_hash_set::MatchId;
use crate::selectors_vm::match_info::MatchInfo;
use vstd::prelude::*;

verus! {

/// A unit as its handlers left it, or why they did not come to their end.
pub type Outcome<T, H> = Result<T, Interruption<T, <H as HandlerTypes>::Failure>>;

/// What a dispatcher holds.
#[verifier::reject_recursive_types(H)]
pub struct DispatcherView<H: HandlerTypes> {
    pub doctype: Seq<HandlerVecItem<H::DoctypeHandler>>,
    pub comment: Seq<HandlerVecItem<H::CommentHandler>>,
    pub text: Seq<HandlerVecItem<H::TextHandler>>,
    pub end_tag: Seq<HandlerVecItem<H::EndTagHandler>>,
    pub element: Seq<HandlerVecItem<H::ElementHandler>>,
    pub end: Seq<HandlerVecItem<H::EndHandler>>,
    pub next_element_can_have_content: bool,
    pub removed_content: nat,
    pub locators: Seq<HandlerPlaces>,
    pub suspended: Option<SuspendedToken<H>>,
}

/// The part of an element descriptor that handlers change.
pub struct DescriptorView {
    pub matched_content_handlers: Set<MatchId>,
    pub end_tag_handler: Option<nat>,
    pub remove_content: bool,
}

/// The items with a handler behind them, if there is one.
pub open spec fn with_handler<X>(
    items: Seq<HandlerVecItem<X>>,
    handler: Option<X>,
    user_count: u32,
) -> Seq<HandlerVecItem<X>> {
    match handler {
        Some(handler) => items.push(HandlerVecItem { handler, user_count }),
        None => items,
    }
}

/// The place of the next handler, if there is one.
pub open spec fn next_place<X>(items: Seq<HandlerVecItem<X>>, handler: Option<X>) -> Option<nat> {
    match handler {
        Some(_) => place_at(items.len()),
        None => None,
    }
}

/// The items after one more wants the one at `place`, if there is one.
pub open spec fn wanted_more<X>(items: Seq<HandlerVecItem<X>>, place: Option<nat>) -> Seq<
    HandlerVecItem<X>,
> {
    match place {
        Some(at) => with_one_more(items, at),
        None => items,
    }
}

/// The items after one less wants each one whose index is in `released`.
pub open spec fn wanted_less<X>(items: Seq<HandlerVecItem<X>>, released: Set<nat>) -> Seq<
    HandlerVecItem<X>,
> {
    Seq::new(
        items.len(),
        |i: int|
            if released.contains(i as nat) {
                HandlerVecItem {
                    handler: items[i].handler,
                    user_count: (items[i].user_count - 1) as u32,
                }
            } else {
                items[i]
            },
    )
}

/// The places of the comment handlers of some selectors.
pub open spec fn comment_places(locators: Seq<HandlerPlaces>, ids: Set<MatchId>) -> Set<nat> {
    Set::new(
        |place: nat|
            exists|id: MatchId| #[trigger]
                ids.contains(id) && id < locators.len() && locators[id as int].comment == Some(
                    place,
                ),
    )
}

/// The places of the text handlers of some selectors.
pub open spec fn text_places(locators: Seq<HandlerPlaces>, ids: Set<MatchId>) -> Set<nat> {
    Set::new(
        |place: nat|
            exists|id: MatchId| #[trigger]
                ids.contains(id) && id < locators.len() && locators[id as int].text == Some(place),
    )
}

/// Whether a place is that of an item, if there is a place.
pub open spec fn is_in_range(place: Option<nat>, len: nat) -> bool {
    place matches Some(at) ==> at < len
}

/// Whether one place is before another, if there are both.
pub open spec fn is_before(left: Option<nat>, right: Option<nat>) -> bool {
    left matches Some(l) ==> (right matches Some(r) ==> l < r)
}

/// What is parked after a run: the unit, where the run was suspended.
pub open spec fn parked<H: HandlerTypes>(
    res: HandlerResult<H::Failure>,
    unit: SuspendedToken<H>,
    otherwise: Option<SuspendedToken<H>>,
) -> Option<SuspendedToken<H>> {
    if res matches Err(HandlerError::Suspension) {
        Some(unit)
    } else {
        otherwise
    }
}

/// What becomes of a unit after a run: it is handed back, unless it is parked.
pub open spec fn handed_back<T, F>(res: HandlerResult<F>, unit: T) -> Result<T, Interruption<T, F>> {
    match res {
        Ok(_) => Ok(unit),
        Err(HandlerError::Suspension) => Err(Interruption::Suspended),
        Err(HandlerError::Failure(error)) => Err(Interruption::Failed { error, unit }),
    }
}

impl<H: HandlerTypes> DispatcherView<H> {
    /// No handlers, and nothing matched.
    pub open spec fn empty() -> Self {
        DispatcherView {
            doctype: Seq::empty(),
            comment: Seq::empty(),
            text: Seq::empty(),
            end_tag: Seq::empty(),
            element: Seq::empty(),
            end: Seq::empty(),
            next_element_can_have_content: false,
            removed_content: 0,
            locators: Seq::empty(),
            suspended: None,
        }
    }

    /// Every locator points at a handler, and no two selectors share one.
    pub open spec fn has_locators_in_order(self) -> bool {
        &&& forall|i: int|
            #![trigger self.locators[i]]
            0 <= i < self.locators.len() ==> is_in_range(
                self.locators[i].element,
                self.element.len(),
            ) && is_in_range(self.locators[i].comment, self.comment.len()) && is_in_range(
                self.locators[i].text,
                self.text.len(),
            )
        &&& forall|i: int, j: int|
            #![trigger self.locators[i], self.locators[j]]
            0 <= i < j < self.locators.len() ==> is_before(
                self.locators[i].element,
                self.locators[j].element,
            ) && is_before(self.locators[i].comment, self.locators[j].comment) && is_before(
                self.locators[i].text,
                self.locators[j].text,
            )
    }

    /// With handlers for the whole document, which are active from then on.
    pub open spec fn with_document_handlers(self, handlers: DocumentContentHandlers<H>) -> Self {
        DispatcherView {
            doctype: with_handler(self.doctype, handlers.doctype, 1),
            comment: with_handler(self.comment, handlers.comments, 1),
            text: with_handler(self.text, handlers.text, 1),
            end: with_handler(self.end, handlers.end, 1),
            ..self
        }
    }

    /// With handlers for the elements that a selector matches, which are not active yet.
    pub open spec fn with_selector_handlers(self, handlers: ElementContentHandlers<H>) -> Self {
        DispatcherView {
            element: with_handler(self.element, handlers.element, 0),
            comment: with_handler(self.comment, handlers.comments, 0),
            text: with_handler(self.text, handlers.text, 0),
            locators: self.locators.push(
                HandlerPlaces {
                    element: next_place(self.element, handlers.element),
                    comment: next_place(self.comment, handlers.comments),
                    text: next_place(self.text, handlers.text),
                },
            ),
            ..self
        }
    }

    /// After a selector matched an element: its element handler is wanted once more, and where the
    /// element may have content, so are its handlers for that.
    pub open spec fn started(self, info: MatchInfo) -> Self {
        if info.match_id < self.locators.len() {
            let places = self.locators[info.match_id as int];
            DispatcherView {
                comment: if info.with_content {
                    wanted_more(self.comment, places.comment)
                } else {
                    self.comment
                },
                text: if info.with_content {
                    wanted_more(self.text, places.text)
                } else {
                    self.text
                },
                element: wanted_more(self.element, places.element),
                next_element_can_have_content: info.with_content,
                ..self
            }
        } else {
            self
        }
    }

    /// Whether the counts of the handlers that a match activates can go up.
    pub open spec fn has_room_for(self, info: MatchInfo) -> bool {
        info.match_id < self.locators.len() ==> {
            let places = self.locators[info.match_id as int];
            &&& places.element is Some ==> total_users(self.element) < u32::MAX
            &&& info.with_content && places.comment is Some ==> total_users(self.comment)
                < u32::MAX
            &&& info.with_content && places.text is Some ==> total_users(self.text) < u32::MAX
        }
    }

    /// Whether the handlers for the content of an element are active.
    pub open spec fn wants_content_of(self, descriptor: DescriptorView) -> bool {
        let ids = descriptor.matched_content_handlers;
        &&& forall|place: nat| #[trigger]
            comment_places(self.locators, ids).contains(place) ==> is_wanted(self.comment, place)
        &&& forall|place: nat| #[trigger]
            text_places(self.locators, ids).contains(place) ==> is_wanted(self.text, place)
    }

    /// After an element ended: its handlers for content are wanted once less, its end tag handler
    /// is wanted, and its content no longer counts as removed.
    pub open spec fn stopped(self, descriptor: DescriptorView) -> Self {
        let ids = descriptor.matched_content_handlers;
        DispatcherView {
            comment: wanted_less(self.comment, comment_places(self.locators, ids)),
            text: wanted_less(self.text, text_places(self.locators, ids)),
            end_tag: wanted_more(self.end_tag, descriptor.end_tag_handler),
            removed_content: if descriptor.remove_content {
                (self.removed_content - 1) as nat
            } else {
                self.removed_content
            },
            ..self
        }
    }

    /// After the handlers of an element decided what becomes of its content and its end tag.
    pub open spec fn with_element_result(
        self,
        should_remove_content: bool,
        end_tag_handler: Option<H::EndTagHandler>,
        has_descriptor: bool,
    ) -> Self {
        if self.next_element_can_have_content && has_descriptor {
            DispatcherView {
                removed_content: if should_remove_content {
                    self.removed_content + 1
                } else {
                    self.removed_content
                },
                end_tag: with_handler(self.end_tag, end_tag_handler, 0),
                ..self
            }
        } else {
            self
        }
    }

    /// What the descriptor of the element says after that.
    pub open spec fn descriptor_after(
        self,
        should_remove_content: bool,
        end_tag_handler: Option<H::EndTagHandler>,
        descriptor: DescriptorView,
    ) -> DescriptorView {
        if self.next_element_can_have_content {
            DescriptorView {
                remove_content: descriptor.remove_content || should_remove_content,
                end_tag_handler: if end_tag_handler is Some {
                    next_place(self.end_tag, end_tag_handler)
                } else {
                    descriptor.end_tag_handler
                },
                ..descriptor
            }
        } else {
            descriptor
        }
    }

    /// What may come of running the element handlers from index `start` on.
    pub open spec fn is_element_outcome(
        self,
        element: Element<H::StartTag, H::EndTagHandler>,
        start: nat,
        descriptor: Option<DescriptorView>,
        after: Self,
        descriptor_after: Option<DescriptorView>,
        res: Outcome<StartTag<H::StartTag>, H>,
    ) -> bool {
        exists|unit: Element<H::StartTag, H::EndTagHandler>, next: usize, run: HandlerResult<H::Failure>|
            {
                let ran = DispatcherView {
                    element: after.element,
                    suspended: parked(
                        run,
                        SuspendedToken::Element { element: Box::new(unit), next_handler_idx: next },
                        self.suspended,
                    ),
                    ..self
                };
                &&& #[trigger] is_run(
                    true,
                    self.element,
                    start,
                    element,
                    after.element,
                    unit,
                    next as nat,
                    run,
                )
                &&& res == handed_back(run, unit.start_tag)
                &&& if run is Ok {
                    &&& after == ran.with_element_result(
                        unit.should_remove_content,
                        unit.end_tag_handler,
                        descriptor is Some,
                    )
                    &&& descriptor_after == match descriptor {
                        Some(d) => Some(
                            self.descriptor_after(
                                unit.should_remove_content,
                                unit.end_tag_handler,
                                d,
                            ),
                        ),
                        None => None,
                    }
                } else {
                    after == ran && descriptor_after == descriptor
                }
            }
    }

    /// What may come of running the end tag handlers.
    pub open spec fn is_end_tag_outcome(
        self,
        end_tag: H::EndTag,
        after: Self,
        res: Outcome<H::EndTag, H>,
    ) -> bool {
        exists|unit: H::EndTag, run: HandlerResult<H::Failure>|
            {
                &&& #[trigger] is_tail_run(
                    self.end_tag,
                    first_active(self.end_tag) as int,
                    end_tag,
                    after.end_tag,
                    unit,
                    run,
                )
                &&& res == handed_back(run, unit)
                &&& after == (DispatcherView {
                    end_tag: after.end_tag,
                    suspended: parked(run, SuspendedToken::EndTag(Box::new(unit)), self.suspended),
                    ..self
                })
            }
    }

    /// What may come of running the text handlers from index `start` on.
    pub open spec fn is_text_outcome(
        self,
        chunk: H::TextChunk,
        start: nat,
        after: Self,
        res: Outcome<H::TextChunk, H>,
    ) -> bool {
        exists|unit: H::TextChunk, next: usize, run: HandlerResult<H::Failure>|
            {
                &&& #[trigger] is_run(
                    false,
                    self.text,
                    start,
                    chunk,
                    after.text,
                    unit,
                    next as nat,
                    run,
                )
                &&& res == handed_back(run, unit)
                &&& after == (DispatcherView {
                    text: after.text,
                    suspended: parked(
                        run,
                        SuspendedToken::TextChunk { chunk: Box::new(unit), next_handler_idx: next },
                        self.suspended,
                    ),
                    ..self
                })
            }
    }

    /// What may come of running the comment handlers from index `start` on.
    pub open spec fn is_comment_outcome(
        self,
        comment: H::Comment,
        start: nat,
        after: Self,
        res: Outcome<H::Comment, H>,
    ) -> bool {
        exists|unit: H::Comment, next: usize, run: HandlerResult<H::Failure>|
            {
                &&& #[trigger] is_run(
                    false,
                    self.comment,
                    start,
                    comment,
                    after.comment,
                    unit,
                    next as nat,
                    run,
                )
                &&& res == handed_back(run, unit)
                &&& after == (DispatcherView {
                    comment: after.comment,
                    suspended: parked(
                        run,
                        SuspendedToken::Comment { comment: Box::new(unit), next_handler_idx: next },
                        self.suspended,
                    ),
                    ..self
                })
            }
    }

    /// What may come of running the doctype handlers from index `start` on.
    pub open spec fn is_doctype_outcome(
        self,
        doctype: H::Doctype,
        start: nat,
        after: Self,
        res: Outcome<H::Doctype, H>,
    ) -> bool {
        exists|unit: H::Doctype, next: usize, run: HandlerResult<H::Failure>|
            {
                &&& #[trigger] is_run(
                    false,
                    self.doctype,
                    start,
                    doctype,
                    after.doctype,
                    unit,
                    next as nat,
                    run,
                )
                &&& res == handed_back(run, unit)
                &&& after == (DispatcherView {
                    doctype: after.doctype,
                    suspended: parked(
                        run,
                        SuspendedToken::Doctype { doctype: Box::new(unit), next_handler_idx: next },
                        self.suspended,
                    ),
                    ..self
                })
            }
    }

    /// What may come of running the document end handlers.
    pub open spec fn is_end_outcome(
        self,
        document_end: H::DocumentEnd,
        after: Self,
        res: Outcome<H::DocumentEnd, H>,
    ) -> bool {
        exists|unit: H::DocumentEnd, run: HandlerResult<H::Failure>|
            {
                &&& #[trigger] is_tail_run(
                    self.end,
                    first_active(self.end) as int,
                    document_end,
                    after.end,
                    unit,
                    run,
                )
                &&& res == handed_back(run, unit)
                &&& after == (DispatcherView {
                    end: after.end,
                    suspended: parked(run, SuspendedToken::DocumentEnd(Box::new(unit)), self.suspended),
                    ..self
                })
            }
    }

    /// The element that the handlers of a start tag see first. Inside an element with removed
    /// content the start tag is removed too.
    pub open spec fn element_of(self, start_tag: StartTag<H::StartTag>) -> Element<
        H::StartTag,
        H::EndTagHandler,
    > {
        Element::spec_new(
            StartTag {
                content: start_tag.content,
                removed: start_tag.removed || self.removed_content > 0,
            },
            self.next_element_can_have_content,
        )
    }

    /// What may come of running the handlers of a token.
    pub open spec fn is_token_outcome(
        self,
        token: Token<H>,
        descriptor: Option<DescriptorView>,
        after: Self,
        descriptor_after: Option<DescriptorView>,
        res: Outcome<Token<H>, H>,
    ) -> bool {
        &&& token is StartTag || descriptor_after == descriptor
        &&& match token {
            Token::StartTag(start_tag) => {
                exists|r: Outcome<StartTag<H::StartTag>, H>| #[trigger]
                    self.is_element_outcome(
                        self.element_of(start_tag),
                        0,
                        descriptor,
                        after,
                        descriptor_after,
                        r,
                    ) && res == mapped(r, |unit: StartTag<H::StartTag>| Token::<H>::StartTag(unit))
            },
            Token::EndTag(end_tag) => {
                exists|r: Outcome<H::EndTag, H>| #[trigger]
                    self.is_end_tag_outcome(end_tag, after, r) && res == mapped(
                        r,
                        |unit: H::EndTag| Token::<H>::EndTag(unit),
                    )
            },
            Token::TextChunk(chunk) => {
                exists|r: Outcome<H::TextChunk, H>| #[trigger]
                    self.is_text_outcome(chunk, 0, after, r) && res == mapped(
                        r,
                        |unit: H::TextChunk| Token::<H>::TextChunk(unit),
                    )
            },
            Token::Comment(comment) => {
                exists|r: Outcome<H::Comment, H>| #[trigger]
                    self.is_comment_outcome(comment, 0, after, r) && res == mapped(
                        r,
                        |unit: H::Comment| Token::<H>::Comment(unit),
                    )
            },
            Token::Doctype(doctype) => {
                exists|r: Outcome<H::Doctype, H>| #[trigger]
                    self.is_doctype_outcome(doctype, 0, after, r) && res == mapped(
                        r,
                        |unit: H::Doctype| Token::<H>::Doctype(unit),
                    )
            },
        }
    }

    /// What may come of running the handlers that have not run yet for a token that was parked.
    pub open spec fn is_resumed_outcome(
        self,
        parked: SuspendedToken<H>,
        descriptor: Option<DescriptorView>,
        after: Self,
        descriptor_after: Option<DescriptorView>,
        res: Outcome<Token<H>, H>,
    ) -> bool {
        &&& parked is Element || descriptor_after == descriptor
        &&& match parked {
            SuspendedToken::Element { element, next_handler_idx } => {
                exists|r: Outcome<StartTag<H::StartTag>, H>| #[trigger]
                    self.is_element_outcome(
                        *element,
                        next_handler_idx as nat,
                        descriptor,
                        after,
                        descriptor_after,
                        r,
                    ) && res == mapped(r, |unit: StartTag<H::StartTag>| Token::<H>::StartTag(unit))
            },
            SuspendedToken::EndTag(end_tag) => {
                exists|r: Outcome<H::EndTag, H>| #[trigger]
                    self.is_end_tag_outcome(*end_tag, after, r) && res == mapped(
                        r,
                        |unit: H::EndTag| Token::<H>::EndTag(unit),
                    )
            },
            SuspendedToken::TextChunk { chunk, next_handler_idx } => {
                exists|r: Outcome<H::TextChunk, H>| #[trigger]
                    self.is_text_outcome(*chunk, next_handler_idx as nat, after, r) && res == mapped(
                        r,
                        |unit: H::TextChunk| Token::<H>::TextChunk(unit),
                    )
            },
            SuspendedToken::Comment { comment, next_handler_idx } => {
                exists|r: Outcome<H::Comment, H>| #[trigger]
                    self.is_comment_outcome(*comment, next_handler_idx as nat, after, r) && res
                        == mapped(r, |unit: H::Comment| Token::<H>::Comment(unit))
            },
            SuspendedToken::Doctype { doctype, next_handler_idx } => {
                exists|r: Outcome<H::Doctype, H>| #[trigger]
                    self.is_doctype_outcome(*doctype, next_handler_idx as nat, after, r) && res
                        == mapped(r, |unit: H::Doctype| Token::<H>::Doctype(unit))
            },
            SuspendedToken::DocumentEnd(_) => false,
        }
    }
}

/// An outcome with its unit wrapped.
pub open spec fn mapped<T, U, F>(
    res: Result<T, Interruption<T, F>>,
    wrap: spec_fn(T) -> U,
) -> Result<U, Interruption<U, F>> {
    match res {
        Ok(unit) => Ok(wrap(unit)),
        Err(Interruption::Suspended) => Err(Interruption::Suspended),
        Err(Interruption::Failed { error, unit }) => Err(
            Interruption::Failed { error, unit: wrap(unit) },
        ),
    }
}

} // verus!
