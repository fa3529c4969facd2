use super::handlers::{Handler, OnceHandler};
use vstd::prelude::*;

verus! {

/// A start tag, with what its handlers may rewrite, and whether it is left out of the output.
#[derive(Debug, PartialEq, Eq)]
pub struct StartTag<T> {
    pub content: T,
    pub removed: bool,
}

impl<T> StartTag<T> {
    /// A start tag that is kept.
    pub fn new(content: T) -> (start_tag: Self)
        ensures
            start_tag == (StartTag { content, removed: false }),
    {
        StartTag { content, removed: false }
    }

    /// Leaves the start tag out of the output.
    pub fn remove(&mut self)
        ensures
            *final(self) == (StartTag { content: old(self).content, removed: true }),
    {
        self.removed = true;
    }
}

/// An element as its handlers see it: its start tag, and what is to happen to what follows.
#[derive(Debug, PartialEq, Eq)]
pub struct Element<T, E> {
    pub start_tag: StartTag<T>,
    /// Whether the element may have content and an end tag.
    pub can_have_content: bool,
    /// Whether the content of the element is left out of the output.
    pub should_remove_content: bool,
    /// What is to run on the end tag of the element.
    pub end_tag_handler: Option<E>,
}

impl<T, E> Element<T, E> {
    /// The element with this start tag before any of its handlers has run.
    pub open spec fn spec_new(start_tag: StartTag<T>, can_have_content: bool) -> Self {
        Element { start_tag, can_have_content, should_remove_content: false, end_tag_handler: None }
    }

    /// The element with this start tag before any of its handlers has run.
    pub fn new(start_tag: StartTag<T>, can_have_content: bool) -> (element: Self)
        ensures
            element == Self::spec_new(start_tag, can_have_content),
    {
        Element { start_tag, can_have_content, should_remove_content: false, end_tag_handler: None }
    }

    /// The start tag, whether the content is left out, and what is to run on the end tag.
    pub fn into_owned_parts(self) -> (parts: (StartTag<T>, bool, Option<E>))
        ensures
            parts == (self.start_tag, self.should_remove_content, self.end_tag_handler),
    {
        (self.start_tag, self.should_remove_content, self.end_tag_handler)
    }
}

/// The types of the rewritable units, and of the handlers that run on them.
pub trait HandlerTypes: Sized {
    /// Why a handler may fail.
    type Failure;

    type StartTag;

    type EndTag;

    type TextChunk;

    type Comment;

    type Doctype;

    type DocumentEnd;

    type DoctypeHandler: Handler<Self::Doctype, Self::Failure>;

    type CommentHandler: Handler<Self::Comment, Self::Failure>;

    type TextHandler: Handler<Self::TextChunk, Self::Failure>;

    type ElementHandler: Handler<Element<Self::StartTag, Self::EndTagHandler>, Self::Failure>;

    type EndTagHandler: OnceHandler<Self::EndTag, Self::Failure>;

    type EndHandler: OnceHandler<Self::DocumentEnd, Self::Failure>;
}

/// A token of the document.
pub enum Token<H: HandlerTypes> {
    TextChunk(H::TextChunk),
    Comment(H::Comment),
    StartTag(StartTag<H::StartTag>),
    EndTag(H::EndTag),
    Doctype(H::Doctype),
}

/// A rewritable unit that a handler was suspended on. It is boxed, and stays in its box until it is
/// completed, so that its address is stable across any number of suspensions.
pub enum SuspendedToken<H: HandlerTypes> {
    Element {
        element: Box<Element<H::StartTag, H::EndTagHandler>>,
        /// Index of the first element handler not yet run for this token.
        next_handler_idx: usize,
    },
    EndTag(Box<H::EndTag>),
    TextChunk { chunk: Box<H::TextChunk>, next_handler_idx: usize },
    Comment { comment: Box<H::Comment>, next_handler_idx: usize },
    Doctype { doctype: Box<H::Doctype>, next_handler_idx: usize },
    DocumentEnd(Box<H::DocumentEnd>),
}

/// The handlers for the whole document.
pub struct DocumentContentHandlers<H: HandlerTypes> {
    pub doctype: Option<H::DoctypeHandler>,
    pub comments: Option<H::CommentHandler>,
    pub text: Option<H::TextHandler>,
    pub end: Option<H::EndHandler>,
}

/// The handlers for the elements that a selector matches, and for their content.
pub struct ElementContentHandlers<H: HandlerTypes> {
    pub element: Option<H::ElementHandler>,
    pub comments: Option<H::CommentHandler>,
    pub text: Option<H::TextHandler>,
}

} // verus!
