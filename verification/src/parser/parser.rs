use crate::rewriter::errors::RewritingError;
use vstd::prelude::*;

verus! {

/// Which state machine parses the input. The tag scanner can force the parser to switch to the
/// lexer if it fails to get feedback from the tree builder; it is up to the output sink to switch
/// the parser back.
#[derive(Debug, Clone, Copy, PartialEq, Eq, Structural)]
pub enum ParserDirective {
    /// The tag scanner, which only looks for tags.
    WherePossibleScanForTagsOnly,
    /// The lexer, which makes a lexeme of everything.
    Lex,
}

/// Why a state machine stopped. `B` is the bookmark from which a machine can go on.
#[derive(Debug, PartialEq, Eq)]
pub enum ActionError<B> {
    /// The input came to its end, after so many bytes were consumed.
    EndOfInput { consumed_byte_count: usize },
    /// A content handler asked for suspension, after so many bytes were consumed.
    Suspended { consumed_byte_count: usize, bookmark: B },
    /// The other state machine has to go on from the bookmark.
    ParserDirectiveChangeRequired(ParserDirective, B),
    /// The rewrite failed.
    RewritingError(RewritingError),
    /// The parser itself failed.
    Internal(String),
}

/// What is to be done next in a parse.
#[derive(Debug, PartialEq, Eq)]
pub enum ParserAction<B> {
    /// Run the machine from the start of the input.
    Run(ParserDirective),
    /// Run the machine from the bookmark on.
    Continue(ParserDirective, B),
    /// The parse is over: how many bytes it consumed, or why it failed.
    Return(Result<usize, RewritingError>),
}

/// Drives two state machines over the input, chunk by chunk.
///
/// A parse begins with [`Self::parse`], or with [`Self::resume`] after a suspension. The machine
/// that is asked for is run, and why it stopped is handed to [`Self::handle_parse_result`], until
/// the parse is over.
pub struct Parser<S, B> {
    output_sink: S,
    strict: bool,
    current_directive: ParserDirective,
    /// Number of bytes from the start of the document until the start of the current input.
    previously_consumed_byte_count: usize,
    /// From where a parse that a content handler suspended goes on.
    suspension: Option<B>,
}

/// What a parser holds besides its output sink.
pub struct ParserView<B> {
    pub strict: bool,
    pub directive: ParserDirective,
    pub consumed: nat,
    pub suspension: Option<B>,
}

impl<S, B> View for Parser<S, B> {
    type V = ParserView<B>;

    closed spec fn view(&self) -> ParserView<B> {
        ParserView {
            strict: self.strict,
            directive: self.current_directive,
            consumed: self.previously_consumed_byte_count as nat,
            suspension: self.suspension,
        }
    }
}

impl<B> ParserView<B> {
    /// After a machine stopped.
    pub open spec fn after(self, reason: ActionError<B>) -> Self {
        match reason {
            ActionError::EndOfInput { consumed_byte_count } => ParserView {
                consumed: self.consumed + consumed_byte_count as nat,
                ..self
            },
            ActionError::Suspended { consumed_byte_count, bookmark } => ParserView {
                consumed: self.consumed + consumed_byte_count as nat,
                suspension: Some(bookmark),
                ..self
            },
            ActionError::ParserDirectiveChangeRequired(directive, _) => ParserView {
                directive,
                ..self
            },
            ActionError::RewritingError(_) => self,
            ActionError::Internal(_) => self,
        }
    }
}

/// How many bytes a machine consumed in a parse that is over then.
pub open spec fn consumed_by<B>(reason: ActionError<B>) -> nat {
    match reason {
        ActionError::EndOfInput { consumed_byte_count } => consumed_byte_count as nat,
        ActionError::Suspended { consumed_byte_count, .. } => consumed_byte_count as nat,
        _ => 0,
    }
}

/// What is to be done after a machine stopped.
pub open spec fn action_after<B>(reason: ActionError<B>) -> ParserAction<B> {
    match reason {
        ActionError::EndOfInput { consumed_byte_count } => ParserAction::Return(
            Ok(consumed_byte_count),
        ),
        ActionError::Suspended { consumed_byte_count, .. } => ParserAction::Return(
            Ok(consumed_byte_count),
        ),
        ActionError::ParserDirectiveChangeRequired(directive, bookmark) => ParserAction::Continue(
            directive,
            bookmark,
        ),
        ActionError::RewritingError(error) => ParserAction::Return(Err(error)),
        ActionError::Internal(message) => ParserAction::Return(
            Err(RewritingError::ContentHandlerError(message)),
        ),
    }
}

impl<S, B> Parser<S, B> {
    /// What receives the output of the machines.
    pub closed spec fn spec_output_sink(self) -> S {
        self.output_sink
    }

    /// A parser at the start of a document.
    #[must_use]
    pub fn new(output_sink: S, initial_directive: ParserDirective, strict: bool) -> (parser: Self)
        ensures
            parser.spec_output_sink() == output_sink,
            parser@ == (ParserView::<B> {
                strict,
                directive: initial_directive,
                consumed: 0,
                suspension: None,
            }),
    {
        Parser {
            output_sink,
            strict,
            current_directive: initial_directive,
            previously_consumed_byte_count: 0,
            suspension: None,
        }
    }

    /// Begins to parse the next input.
    pub fn parse(&self) -> (action: ParserAction<B>)
        requires
            self@.suspension is None,
        ensures
            action == ParserAction::<B>::Run(self@.directive),
    {
        ParserAction::Run(self.current_directive)
    }

    /// `true` if the last parse was suspended by a content handler. The number of bytes it reported
    /// as consumed is final; the rest of the input must be buffered and parsed when the parse is
    /// resumed.
    pub fn is_suspended(&self) -> (suspended: bool)
        ensures
            suspended == (self@.suspension is Some),
    {
        self.suspension.is_some()
    }

    /// Goes on with a suspended parse over the rest of its input. `directive`, when given, is the
    /// one that the suspended handler never got to return.
    pub fn resume(&mut self, directive: Option<ParserDirective>) -> (action: ParserAction<B>)
        requires
            old(self)@.suspension is Some,
        ensures
            final(self).spec_output_sink() == old(self).spec_output_sink(),
            final(self)@ == (ParserView {
                directive: match directive {
                    Some(directive) => directive,
                    None => old(self)@.directive,
                },
                suspension: None,
                ..old(self)@
            }),
            action == ParserAction::Continue(final(self)@.directive, old(self)@.suspension->0),
    {
        if let Some(directive) = directive {
            self.current_directive = directive;
        }
        let bookmark = self.suspension.take().unwrap();
        ParserAction::Continue(self.current_directive, bookmark)
    }

    /// Takes note of why a machine stopped.
    pub fn handle_parse_result(&mut self, reason: ActionError<B>) -> (action: ParserAction<B>)
        requires
            old(self)@.consumed + consumed_by(reason) <= usize::MAX,
        ensures
            final(self).spec_output_sink() == old(self).spec_output_sink(),
            final(self)@ == old(self)@.after(reason),
            action == action_after(reason),
    {
        match reason {
            ActionError::EndOfInput { consumed_byte_count } => {
                self.previously_consumed_byte_count =
                self.previously_consumed_byte_count + consumed_byte_count;
                ParserAction::Return(Ok(consumed_byte_count))
            },
            ActionError::Suspended { consumed_byte_count, bookmark } => {
                self.previously_consumed_byte_count =
                self.previously_consumed_byte_count + consumed_byte_count;
                self.suspension = Some(bookmark);
                ParserAction::Return(Ok(consumed_byte_count))
            },
            ActionError::ParserDirectiveChangeRequired(directive, bookmark) => {
                self.current_directive = directive;
                ParserAction::Continue(directive, bookmark)
            },
            ActionError::RewritingError(error) => ParserAction::Return(Err(error)),
            ActionError::Internal(message) => ParserAction::Return(
                Err(RewritingError::ContentHandlerError(message)),
            ),
        }
    }

    /// What receives the output of the machines.
    pub fn get_dispatcher(&mut self) -> (sink: &mut S)
        ensures
            *sink == old(self).spec_output_sink(),
            final(self).spec_output_sink() == *final(sink),
            final(self)@ == old(self)@,
    {
        &mut self.output_sink
    }

    /// Number of bytes from the start of the document until the start of the current input.
    pub fn previously_consumed_byte_count(&self) -> (count: usize)
        ensures
            count == self@.consumed,
    {
        self.previously_consumed_byte_count
    }

    /// Whether the machines fail on input whose parsing depends on what they cannot know.
    pub fn is_strict(&self) -> (strict: bool)
        ensures
            strict == self@.strict,
    {
        self.strict
    }
}

/// The reasons for which the machines stopped in one parse, one after the other.
pub open spec fn after_all<B>(parser: ParserView<B>, reasons: Seq<ActionError<B>>) -> ParserView<B>
    decreases reasons.len(),
{
    if reasons.len() == 0 {
        parser
    } else {
        after_all(parser, reasons.drop_last()).after(reasons.last())
    }
}

/// How many bytes were consumed for some reasons.
pub open spec fn consumed_by_all<B>(reasons: Seq<ActionError<B>>) -> nat
    decreases reasons.len(),
{
    if reasons.len() == 0 {
        0
    } else {
        consumed_by_all(reasons.drop_last()) + consumed_by(reasons.last())
    }
}

/// The position in the document is the sum of what was reported as consumed: no byte is counted
/// twice or left out, however often the machines change or are suspended.
pub proof fn law_consumed_bytes_add_up<B>(parser: ParserView<B>, reasons: Seq<ActionError<B>>)
    ensures
        after_all(parser, reasons).consumed == parser.consumed + consumed_by_all(reasons),
    decreases reasons.len(),
{
    if reasons.len() > 0 {
        law_consumed_bytes_add_up(parser, reasons.drop_last());
    }
}

/// A parse is suspended exactly if a machine stopped for a suspension, and it goes on from the
/// bookmark of that machine.
pub proof fn law_suspension_keeps_the_bookmark<B>(parser: ParserView<B>, reason: ActionError<B>)
    requires
        parser.suspension is None,
    ensures
        parser.after(reason).suspension is Some <==> reason is Suspended,
        reason matches ActionError::Suspended { bookmark, .. } ==> parser.after(reason).suspension
            == Some(bookmark),
        parser.after(reason).suspension is Some ==> action_after(reason) == ParserAction::<B>::Return(
            Ok(consumed_by(reason) as usize),
        ),
{
}

} // verus!
