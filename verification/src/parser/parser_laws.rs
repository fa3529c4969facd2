use super::parser::{
    action_after, consumed_by, ActionError, Parser, ParserAction, ParserDirective, ParserView,
};
use crate::rewriter::errors::RewritingError;
use vstd::prelude::*;

verus! {

/// The machine that is asked to go on is the one that parses the next input, and it goes on from the
/// bookmark of the machine that stopped. Where no machine is asked to go on, the same one parses the
/// next input.
pub proof fn law_machine_that_goes_on_parses_the_next_input<B>(
    parser: ParserView<B>,
    reason: ActionError<B>,
)
    ensures
        match action_after(reason) {
            ParserAction::Continue(directive, bookmark) => {
                &&& parser.after(reason).directive == directive
                &&& reason == ActionError::ParserDirectiveChangeRequired(directive, bookmark)
            },
            _ => parser.after(reason).directive == parser.directive,
        },
        reason is ParserDirectiveChangeRequired <==> action_after(reason) is Continue,
        !(action_after(reason) is Run),
{
}

/// A parse moves the position by what it returns, and one that fails, or goes on, by nothing. It
/// leaves a bookmark exactly if it was suspended, and then the one of the machine that stopped.
pub proof fn law_position_moves_by_what_is_returned<B>(
    parser: ParserView<B>,
    reason: ActionError<B>,
)
    ensures
        match action_after(reason) {
            ParserAction::Return(Ok(count)) => {
                &&& parser.after(reason).consumed == parser.consumed + count
                &&& consumed_by(reason) == count
            },
            _ => parser.after(reason).consumed == parser.consumed && consumed_by(reason) == 0,
        },
        parser.after(reason).suspension == (match reason {
            ActionError::Suspended { bookmark, .. } => Some(bookmark),
            _ => parser.suspension,
        }),
        parser.after(reason).strict == parser.strict,
{
}

/// What a machine consumed, or why it failed, is what the parse returns.
pub proof fn law_reasons_are_returned<B>(reason: ActionError<B>)
    ensures
        reason matches ActionError::EndOfInput { consumed_byte_count } ==> action_after(reason)
            == ParserAction::<B>::Return(Ok(consumed_byte_count)),
        reason matches ActionError::Suspended { consumed_byte_count, .. } ==> action_after(reason)
            == ParserAction::<B>::Return(Ok(consumed_byte_count)),
        reason matches ActionError::RewritingError(error) ==> action_after(reason)
            == ParserAction::<B>::Return(Err(error)),
        reason matches ActionError::Internal(message) ==> action_after(reason)
            == ParserAction::<B>::Return(Err(RewritingError::ContentHandlerError(message))),
{
}

/// The next input is parsed from its start, by the machine that the parser is set to.
pub proof fn law_next_input_is_parsed_by_the_current_machine<S, B>(
    parser: Parser<S, B>,
    action: ParserAction<B>,
)
    requires
        call_ensures(Parser::<S, B>::parse, (&parser,), action),
    ensures
        action matches ParserAction::Run(directive) && directive == parser@.directive,
{
}

/// Changing from one machine to another and back leaves a parser as it was.
pub proof fn law_changing_back_undoes_a_change<B>(
    parser: ParserView<B>,
    other: ParserDirective,
    there: B,
    back: B,
)
    ensures
        parser.after(ActionError::ParserDirectiveChangeRequired(other, there)).after(
            ActionError::ParserDirectiveChangeRequired(parser.directive, back),
        ) == parser,
{
}

/// When a machine stops, the parser is set to the machine that is asked to go on, if one is. It moves
/// on by what the parse returns, and keeps the bookmark of a machine that was suspended.
pub proof fn law_handle_parse_result<S, B>(reason: ActionError<B>, action: ParserAction<B>)
    ensures
        forall|parser: &mut Parser<S, B>|
            #[trigger] call_ensures(
                Parser::<S, B>::handle_parse_result,
                (parser, reason),
                action,
            ) ==> {
                let before = parser@;
                let after = (*final(parser))@;
                &&& match action {
                    ParserAction::Continue(directive, bookmark) => after.directive == directive
                        && after.consumed == before.consumed && reason
                        == ActionError::ParserDirectiveChangeRequired(directive, bookmark),
                    ParserAction::Return(Ok(count)) => after.directive == before.directive
                        && after.consumed == before.consumed + count,
                    ParserAction::Return(Err(_)) => after == before,
                    ParserAction::Run(_) => false,
                }
                &&& reason matches ActionError::Suspended { bookmark, .. } ==> after.suspension
                    == Some(bookmark)
                &&& !(reason is Suspended) ==> after.suspension == before.suspension
            },
{
}

/// A suspended parse goes on from its bookmark, by the machine that is given or else the current one,
/// and that machine parses the next input too. The position stays.
pub proof fn law_resume<S, B>(directive: Option<ParserDirective>, action: ParserAction<B>)
    ensures
        forall|parser: &mut Parser<S, B>|
            #[trigger] call_ensures(Parser::<S, B>::resume, (parser, directive), action)
                && parser@.suspension is Some ==> {
                let before = parser@;
                let after = (*final(parser))@;
                &&& action matches ParserAction::Continue(machine, bookmark) && machine
                    == after.directive && Some(bookmark) == before.suspension
                &&& after.directive == (match directive {
                    Some(given) => given,
                    None => before.directive,
                })
                &&& after.suspension is None
                &&& after.consumed == before.consumed
            },
{
}

} // verus!
