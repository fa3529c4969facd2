use super::handler_vec::{locator_to_idx, places, Locator};
use vstd::prelude::*;

verus! {

/// Where the handlers of a selector are. Each place is held as its index plus one, with zero for no
/// handler, so that the three take no more room than three numbers.
#[derive(Debug, Clone, Copy, PartialEq, Eq, Hash)]
pub struct SelectorHandlersLocator {
    element_number: u32,
    comment_number: u32,
    text_number: u32,
}

/// The places that a [`SelectorHandlersLocator`] holds.
pub struct HandlerPlaces {
    pub element: Option<nat>,
    pub comment: Option<nat>,
    pub text: Option<nat>,
}

spec fn place_of_number(number: u32) -> Option<nat> {
    if number == 0 {
        None
    } else {
        Some((number - 1) as nat)
    }
}

fn number_of(locator: Option<Locator>) -> (number: u32)
    ensures
        place_of_number(number) == places(locator),
{
    match locator {
        Some(l) => locator_to_idx(l) as u32 + 1,
        None => 0,
    }
}

fn locator_of(number: u32) -> (locator: Option<Locator>)
    ensures
        places(locator) == place_of_number(number),
{
    if number == 0 {
        None
    } else {
        Locator::new((number - 1) as usize)
    }
}

impl View for SelectorHandlersLocator {
    type V = HandlerPlaces;

    closed spec fn view(&self) -> HandlerPlaces {
        HandlerPlaces {
            element: place_of_number(self.element_number),
            comment: place_of_number(self.comment_number),
            text: place_of_number(self.text_number),
        }
    }
}

impl Default for SelectorHandlersLocator {
    fn default() -> (locator: Self)
        ensures
            locator@ == (HandlerPlaces { element: None, comment: None, text: None }),
    {
        SelectorHandlersLocator { element_number: 0, comment_number: 0, text_number: 0 }
    }
}

impl SelectorHandlersLocator {
    /// Holds the given places.
    pub fn new(element: Option<Locator>, comment: Option<Locator>, text: Option<Locator>) -> (locator:
        Self)
        ensures
            locator@ == (HandlerPlaces {
                element: places(element),
                comment: places(comment),
                text: places(text),
            }),
    {
        SelectorHandlersLocator {
            element_number: number_of(element),
            comment_number: number_of(comment),
            text_number: number_of(text),
        }
    }

    /// Where the element handler is.
    pub fn element_handler_idx(&self) -> (locator: Option<Locator>)
        ensures
            places(locator) == self@.element,
    {
        locator_of(self.element_number)
    }

    /// Where the comment handler is.
    pub fn comment_handler_idx(&self) -> (locator: Option<Locator>)
        ensures
            places(locator) == self@.comment,
    {
        locator_of(self.comment_number)
    }

    /// Where the text handler is.
    pub fn text_handler_idx(&self) -> (locator: Option<Locator>)
        ensures
            places(locator) == self@.text,
    {
        locator_of(self.text_number)
    }
}

} // verus!
