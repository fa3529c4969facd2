use crate::memory::limiter::MemoryLimitExceededError;
use vstd::prelude::*;

verus! {

/// The meaning of a tag depends on what a tokenizer cannot know.
#[derive(Debug, PartialEq, Eq)]
pub struct ParsingAmbiguityError {
    /// The name of the tag.
    pub on_tag_name: String,
}

/// Why a rewrite stopped.
#[derive(Debug, PartialEq, Eq)]
pub enum RewritingError {
    /// The memory limit was reached.
    MemoryLimitExceeded(MemoryLimitExceededError),
    /// The document cannot be parsed without knowledge of its tree.
    ParsingAmbiguity(ParsingAmbiguityError),
    /// A content handler, or the rewriter itself, failed, for the reason given.
    ContentHandlerError(String),
    /// A content handler asked for suspension. The rewrite goes on when it is resumed.
    Suspended,
}

} // verus!
