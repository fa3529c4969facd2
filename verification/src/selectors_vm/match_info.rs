use super::dense_hash_set::MatchId;
use vstd::prelude::*;

verus! {

/// A selector that matches an element.
#[derive(Debug, Clone, Copy, PartialEq, Eq)]
pub struct MatchInfo {
    pub match_id: MatchId,
    /// Whether the element may have content.
    pub with_content: bool,
}

} // verus!
