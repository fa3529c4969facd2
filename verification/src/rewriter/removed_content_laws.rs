use super::dispatcher_laws::taken_out;
use super::dispatcher_model::{mapped, parked, DescriptorView, DispatcherView, Outcome};
use super::handlers::Interruption;
use super::units::{
    DocumentContentHandlers, Element, ElementContentHandlers, HandlerTypes, StartTag,
    SuspendedToken, Token,
};
use crate::selectors_vm::dense_hash_set::MatchId;
use crate::selectors_vm::match_info::MatchInfo;
use vstd::prelude::*;

verus! {

/// A dispatcher with the descriptors of the open elements, the outermost first.
#[verifier::reject_recursive_types(H)]
pub struct OpenElements<H: HandlerTypes> {
    pub dispatcher: DispatcherView<H>,
    pub stack: Seq<DescriptorView>,
    /// Whether the handlers of the element that was opened last have not come to their end yet.
    pub is_opening: bool,
}

/// How many of some open elements have their content removed.
pub open spec fn removed_among(stack: Seq<DescriptorView>) -> nat
    decreases stack.len(),
{
    if stack.len() == 0 {
        0
    } else {
        removed_among(stack.drop_last()) + (if stack.last().remove_content {
            1nat
        } else {
            0nat
        })
    }
}

/// Whether the content of some open element is removed.
pub open spec fn is_some_removed(stack: Seq<DescriptorView>) -> bool {
    exists|i: int| 0 <= i < stack.len() && (#[trigger] stack[i]).remove_content
}

/// The descriptor of an element whose handlers have not run yet.
pub open spec fn new_descriptor(ids: Set<MatchId>) -> DescriptorView {
    DescriptorView { matched_content_handlers: ids, end_tag_handler: None, remove_content: false }
}

impl<H: HandlerTypes> OpenElements<H> {
    /// No element is open, and no handler is there.
    pub open spec fn none() -> Self {
        OpenElements {
            dispatcher: DispatcherView::empty(),
            stack: Seq::empty(),
            is_opening: false,
        }
    }

    /// Whether handlers were added, a selector matched, or whoever holds the parked unit changed it.
    pub open spec fn is_prepared(self, after: Self) -> bool {
        &&& after.stack == self.stack
        &&& after.is_opening == self.is_opening
        &&& {
            ||| exists|handlers: DocumentContentHandlers<H>|
                after.dispatcher == #[trigger] self.dispatcher.with_document_handlers(handlers)
            ||| exists|handlers: ElementContentHandlers<H>|
                after.dispatcher == #[trigger] self.dispatcher.with_selector_handlers(handlers)
            ||| exists|info: MatchInfo| after.dispatcher == #[trigger] self.dispatcher.started(info)
            ||| after.dispatcher == (DispatcherView {
                suspended: after.dispatcher.suspended,
                ..self.dispatcher
            })
        }
    }

    /// Whether a token was handled that opens no element with a descriptor.
    pub open spec fn is_handled(self, after: Self) -> bool {
        &&& after.stack == self.stack
        &&& !after.is_opening
        &&& self.dispatcher.suspended is None
        &&& exists|
            token: Token<H>,
            descriptor: Option<DescriptorView>,
            descriptor_after: Option<DescriptorView>,
            res: Outcome<Token<H>, H>,
        |
            (descriptor is None || !(token is StartTag))
                && #[trigger] self.dispatcher.is_token_outcome(
                token,
                descriptor,
                after.dispatcher,
                descriptor_after,
                res,
            )
    }

    /// Whether a start tag was handled that opens an element with a descriptor.
    pub open spec fn is_opened(self, after: Self) -> bool {
        &&& self.dispatcher.suspended is None
        &&& exists|
            start_tag: StartTag<H::StartTag>,
            ids: Set<MatchId>,
            descriptor: DescriptorView,
            res: Outcome<StartTag<H::StartTag>, H>,
        |
            {
                &&& #[trigger] self.dispatcher.is_element_outcome(
                    self.dispatcher.element_of(start_tag),
                    0,
                    Some(new_descriptor(ids)),
                    after.dispatcher,
                    Some(descriptor),
                    res,
                )
                &&& after.stack == self.stack.push(descriptor)
                &&& after.is_opening == (res matches Err(Interruption::Suspended))
            }
    }

    /// Whether the parked token was resumed, for an element with its descriptor.
    pub open spec fn is_resumed(self, after: Self) -> bool {
        exists|
            parked: SuspendedToken<H>,
            descriptor: Option<DescriptorView>,
            descriptor_after: Option<DescriptorView>,
            res: Outcome<Token<H>, H>,
        |
            {
                &&& #[trigger] taken_out(self.dispatcher).is_resumed_outcome(
                    parked,
                    descriptor,
                    after.dispatcher,
                    descriptor_after,
                    res,
                )
                &&& if self.is_opening {
                    &&& parked is Element
                    &&& descriptor == Some(self.stack.last())
                    &&& descriptor_after matches Some(d) && after.stack == self.stack.update(
                        self.stack.len() - 1,
                        d,
                    )
                    &&& after.is_opening == (res matches Err(Interruption::Suspended))
                } else {
                    &&& descriptor is None || !(parked is Element)
                    &&& after.stack == self.stack
                    &&& !after.is_opening
                }
            }
    }

    /// Whether the end of the document was handled, or resumed.
    pub open spec fn is_ended(self, after: Self) -> bool {
        &&& after.stack == self.stack
        &&& after.is_opening == self.is_opening
        &&& exists|document_end: H::DocumentEnd, res: Outcome<H::DocumentEnd, H>|
            {
                ||| #[trigger] self.dispatcher.is_end_outcome(document_end, after.dispatcher, res)
                ||| taken_out(self.dispatcher).is_end_outcome(document_end, after.dispatcher, res)
            }
    }

    /// Whether the element that was opened last was closed.
    pub open spec fn is_closed(self, after: Self) -> bool {
        &&& self.stack.len() > 0
        &&& !self.is_opening
        &&& after == (OpenElements {
            dispatcher: self.dispatcher.stopped(self.stack.last()),
            stack: self.stack.drop_last(),
            is_opening: false,
        })
    }

    /// Whether one of the operations of a dispatcher may lead from one state to the other.
    pub open spec fn is_step(self, after: Self) -> bool {
        ||| self.is_prepared(after)
        ||| self.is_handled(after)
        ||| self.is_opened(after)
        ||| self.is_resumed(after)
        ||| self.is_ended(after)
        ||| self.is_closed(after)
    }

    /// Whether the dispatcher counts the open elements whose content is removed.
    pub open spec fn is_counted(self) -> bool {
        &&& self.dispatcher.removed_content == removed_among(self.stack)
        &&& self.is_opening ==> self.stack.len() > 0 && !self.stack.last().remove_content
    }
}

proof fn lemma_removed_among_is_positive(stack: Seq<DescriptorView>)
    ensures
        removed_among(stack) > 0 <==> is_some_removed(stack),
    decreases stack.len(),
{
    if stack.len() > 0 {
        let shorter = stack.drop_last();
        lemma_removed_among_is_positive(shorter);
        if is_some_removed(shorter) {
            let i: int = choose|i: int|
                0 <= i < shorter.len() && (#[trigger] shorter[i]).remove_content;
            assert(stack[i].remove_content);
        }
        if is_some_removed(stack) && !stack.last().remove_content {
            let i: int = choose|i: int| 0 <= i < stack.len() && (#[trigger] stack[i]).remove_content;
            assert(shorter[i].remove_content);
        }
        if stack.last().remove_content {
            assert(stack[stack.len() - 1].remove_content);
        }
    }
}

/// Of the handlers of an element exactly one is counted: if the content of the element is removed.
proof fn lemma_element_is_counted<H: HandlerTypes>(
    before: DispatcherView<H>,
    element: Element<H::StartTag, H::EndTagHandler>,
    start: nat,
    descriptor: Option<DescriptorView>,
    after: DispatcherView<H>,
    descriptor_after: Option<DescriptorView>,
    res: Outcome<StartTag<H::StartTag>, H>,
)
    requires
        before.is_element_outcome(element, start, descriptor, after, descriptor_after, res),
    ensures
        descriptor is None ==> after.removed_content == before.removed_content,
        descriptor matches Some(d) ==> !d.remove_content ==> (descriptor_after matches Some(d_after)
            && after.removed_content == before.removed_content + (if d_after.remove_content {
            1nat
        } else {
            0nat
        }) && (res is Err ==> d_after == d)),
{
}

proof fn lemma_other_tokens_are_not_counted<H: HandlerTypes>(
    before: DispatcherView<H>,
    parked: SuspendedToken<H>,
    descriptor: Option<DescriptorView>,
    after: DispatcherView<H>,
    descriptor_after: Option<DescriptorView>,
    res: Outcome<Token<H>, H>,
)
    requires
        before.is_resumed_outcome(parked, descriptor, after, descriptor_after, res),
        descriptor is None || !(parked is Element),
    ensures
        after.removed_content == before.removed_content,
{
    if let SuspendedToken::Element { element, next_handler_idx } = parked {
        let r = choose|r: Outcome<StartTag<H::StartTag>, H>| #[trigger]
            before.is_element_outcome(
                *element,
                next_handler_idx as nat,
                descriptor,
                after,
                descriptor_after,
                r,
            ) && res == mapped(r, |unit: StartTag<H::StartTag>| Token::<H>::StartTag(unit));
        lemma_element_is_counted(
            before,
            *element,
            next_handler_idx as nat,
            descriptor,
            after,
            descriptor_after,
            r,
        );
    }
}

proof fn lemma_step_is_counted<H: HandlerTypes>(before: OpenElements<H>, after: OpenElements<H>)
    requires
        before.is_counted(),
        before.is_step(after),
    ensures
        after.is_counted(),
{
    if before.is_prepared(after) {
    } else if before.is_handled(after) {
        let (token, descriptor, descriptor_after, res) = choose|
            token: Token<H>,
            descriptor: Option<DescriptorView>,
            descriptor_after: Option<DescriptorView>,
            res: Outcome<Token<H>, H>,
        |
            (descriptor is None || !(token is StartTag))
                && #[trigger] before.dispatcher.is_token_outcome(
                token,
                descriptor,
                after.dispatcher,
                descriptor_after,
                res,
            );
        if let Token::StartTag(start_tag) = token {
            let r = choose|r: Outcome<StartTag<H::StartTag>, H>| #[trigger]
                before.dispatcher.is_element_outcome(
                    before.dispatcher.element_of(start_tag),
                    0,
                    descriptor,
                    after.dispatcher,
                    descriptor_after,
                    r,
                ) && res == mapped(r, |unit: StartTag<H::StartTag>| Token::<H>::StartTag(unit));
            lemma_element_is_counted(
                before.dispatcher,
                before.dispatcher.element_of(start_tag),
                0,
                descriptor,
                after.dispatcher,
                descriptor_after,
                r,
            );
        }
    } else if before.is_opened(after) {
        let (start_tag, ids, descriptor, res) = choose|
            start_tag: StartTag<H::StartTag>,
            ids: Set<MatchId>,
            descriptor: DescriptorView,
            res: Outcome<StartTag<H::StartTag>, H>,
        |
            {
                &&& #[trigger] before.dispatcher.is_element_outcome(
                    before.dispatcher.element_of(start_tag),
                    0,
                    Some(new_descriptor(ids)),
                    after.dispatcher,
                    Some(descriptor),
                    res,
                )
                &&& after.stack == before.stack.push(descriptor)
                &&& after.is_opening == (res matches Err(Interruption::Suspended))
            };
        lemma_element_is_counted(
            before.dispatcher,
            before.dispatcher.element_of(start_tag),
            0,
            Some(new_descriptor(ids)),
            after.dispatcher,
            Some(descriptor),
            res,
        );
        assert(after.stack.drop_last() =~= before.stack);
    } else if before.is_resumed(after) {
        let base = taken_out(before.dispatcher);
        let (parked, descriptor, descriptor_after, res) = choose|
            parked: SuspendedToken<H>,
            descriptor: Option<DescriptorView>,
            descriptor_after: Option<DescriptorView>,
            res: Outcome<Token<H>, H>,
        |
            {
                &&& #[trigger] base.is_resumed_outcome(
                    parked,
                    descriptor,
                    after.dispatcher,
                    descriptor_after,
                    res,
                )
                &&& if before.is_opening {
                    &&& parked is Element
                    &&& descriptor == Some(before.stack.last())
                    &&& descriptor_after matches Some(d) && after.stack == before.stack.update(
                        before.stack.len() - 1,
                        d,
                    )
                    &&& after.is_opening == (res matches Err(Interruption::Suspended))
                } else {
                    &&& descriptor is None || !(parked is Element)
                    &&& after.stack == before.stack
                    &&& !after.is_opening
                }
            };
        if before.is_opening {
            if let SuspendedToken::Element { element, next_handler_idx } = parked {
                let r = choose|r: Outcome<StartTag<H::StartTag>, H>| #[trigger]
                    base.is_element_outcome(
                        *element,
                        next_handler_idx as nat,
                        descriptor,
                        after.dispatcher,
                        descriptor_after,
                        r,
                    ) && res == mapped(r, |unit: StartTag<H::StartTag>| Token::<H>::StartTag(unit));
                lemma_element_is_counted(
                    base,
                    *element,
                    next_handler_idx as nat,
                    descriptor,
                    after.dispatcher,
                    descriptor_after,
                    r,
                );
                assert(after.stack.drop_last() =~= before.stack.drop_last());
            }
        } else {
            lemma_other_tokens_are_not_counted(
                base,
                parked,
                descriptor,
                after.dispatcher,
                descriptor_after,
                res,
            );
        }
    }
}

/// Whatever is done with a dispatcher, from the start on: handlers added, selectors matched, tokens
/// handled, suspended and resumed, elements opened and closed. It counts exactly the open elements
/// whose content is removed, so content is left out of the output exactly inside of those. And it is
/// in order to close an element then: the count does not go below zero.
pub proof fn law_removed_content_is_counted<H: HandlerTypes>(states: Seq<OpenElements<H>>)
    requires
        states.len() > 0,
        states[0] == OpenElements::<H>::none(),
        forall|i: int|
            #![trigger states[i]]
            0 <= i < states.len() - 1 ==> states[i].is_step(states[i + 1]),
    ensures
        states.last().dispatcher.removed_content == removed_among(states.last().stack),
        states.last().dispatcher.removed_content > 0 <==> is_some_removed(states.last().stack),
        states.last().is_counted(),
    decreases states.len(),
{
    if states.len() > 1 {
        let earlier = states.drop_last();
        let n = states.len() - 2;
        assert forall|i: int|
            #![trigger earlier[i]]
            0 <= i < earlier.len() - 1 implies earlier[i].is_step(earlier[i + 1]) by {
            assert(states[i].is_step(states[i + 1]));
        }
        law_removed_content_is_counted(earlier);
        assert(earlier.last() == states[n]);
        lemma_step_is_counted(states[n], states[n + 1]);
    }
    lemma_removed_among_is_positive(states.last().stack);
}

} // verus!
