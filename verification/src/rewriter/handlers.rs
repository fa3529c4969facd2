use vstd::prelude::*;

verus! {

/// Why a handler stopped the run that it was part of.
#[derive(Debug, PartialEq, Eq)]
pub enum HandlerError<F> {
    /// The handler asks to be suspended: the unit is parked until it is resumed.
    Suspension,
    /// The handler failed, for a reason of its own.
    Failure(F),
}

/// Why the handlers of a unit did not come to their end.
#[derive(Debug, PartialEq, Eq)]
pub enum Interruption<T, F> {
    /// A handler asked for suspension. The unit is parked.
    Suspended,
    /// A handler failed. The unit is handed back as the handlers left it.
    Failed { error: F, unit: T },
}

/// What a handler returns.
pub type HandlerResult<F> = Result<(), HandlerError<F>>;

impl<F> HandlerError<F> {
    /// Whether this is a request for suspension rather than a failure.
    pub fn is_suspension_request(&self) -> (suspends: bool)
        ensures
            suspends == (self is Suspension),
    {
        matches!(self, HandlerError::Suspension)
    }
}

/// A handler that runs any number of times, on units of type `U`.
pub trait Handler<U, F>: Sized {
    /// What one call may do: to the handler itself, to the unit, and what it may return. A handler
    /// that does not say otherwise may do anything.
    open spec fn handled(
        before: Self,
        unit_before: U,
        after: Self,
        unit_after: U,
        res: HandlerResult<F>,
    ) -> bool {
        true
    }

    /// Runs the handler on `unit`.
    fn handle(&mut self, unit: &mut U) -> (res: HandlerResult<F>)
        ensures
            Self::handled(*old(self), *old(unit), *final(self), *final(unit), res),
    ;
}

/// A handler that runs once, on a unit of type `U`.
pub trait OnceHandler<U, F>: Sized {
    /// What the call may do: to the unit, and what it may return. A handler that does not say
    /// otherwise may do anything.
    open spec fn handled_once(self, unit_before: U, unit_after: U, res: HandlerResult<F>) -> bool {
        true
    }

    /// Runs the handler on `unit`.
    fn handle_once(self, unit: &mut U) -> (res: HandlerResult<F>)
        ensures
            self.handled_once(*old(unit), *final(unit), res),
    ;
}

} // verus!
