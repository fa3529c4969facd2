use super::expansion::{compound_expansion, has_too_many_alternatives, MAX_ALTERNATIVES};
use super::selector::{Combinator, ComplexSelector, Component, NthType, Selector};
use vstd::prelude::*;

verus! {

/// Why a selector is refused.
#[derive(Debug, Clone, Copy, PartialEq, Eq, Structural)]
pub enum SelectorError {
    /// Unexpected token.
    UnexpectedToken,
    /// Unexpected end.
    UnexpectedEnd,
    /// The name of an attribute is missing.
    MissingAttributeName,
    /// There is nothing to match.
    EmptySelector,
    /// A combinator with nothing behind it.
    DanglingCombinator,
    /// Unexpected token inside of an attribute selector.
    UnexpectedTokenInAttribute,
    /// A pseudo-class or pseudo-element that cannot be matched while the document streams by.
    UnsupportedPseudoClassOrElement,
    /// A selector that names a namespace.
    NamespacedSelector,
    /// The name of a class is no name.
    InvalidClassName,
    /// A combinator that cannot be matched while the document streams by.
    UnsupportedCombinator(char),
    /// Anything else that is no part of the syntax, or too much of it.
    UnsupportedSyntax,
}

/// What a CSS parser has to say of a text that is no selector.
#[derive(Debug, Clone, Copy, PartialEq, Eq, Structural)]
pub enum SyntaxError {
    UnexpectedToken,
    EndOfInput,
    /// What is wrong with a rule, or with the nesting of blocks.
    InvalidRule,
    NoQualifiedNameInAttributeSelector,
    EmptySelector,
    DanglingCombinator,
    UnexpectedTokenInAttributeSelector,
    ExpectedBarInAttr,
    BadValueInAttr,
    InvalidQualNameInAttr,
    ExpectedNamespace,
    ExplicitNamespaceUnexpectedToken,
    ClassNeedsIdent,
    /// A pseudo-class or pseudo-element that is not known, or stands where none may stand.
    Pseudo,
    InvalidState,
}

impl SelectorError {
    /// Why a selector is refused whose text has a syntax error.
    pub open spec fn spec_of_syntax(error: SyntaxError) -> Self {
        match error {
            SyntaxError::UnexpectedToken
            | SyntaxError::ExplicitNamespaceUnexpectedToken => SelectorError::UnexpectedToken,
            SyntaxError::EndOfInput => SelectorError::UnexpectedEnd,
            SyntaxError::NoQualifiedNameInAttributeSelector => SelectorError::MissingAttributeName,
            SyntaxError::EmptySelector => SelectorError::EmptySelector,
            SyntaxError::DanglingCombinator => SelectorError::DanglingCombinator,
            SyntaxError::UnexpectedTokenInAttributeSelector
            | SyntaxError::ExpectedBarInAttr
            | SyntaxError::BadValueInAttr
            | SyntaxError::InvalidQualNameInAttr => SelectorError::UnexpectedTokenInAttribute,
            SyntaxError::ExpectedNamespace => SelectorError::NamespacedSelector,
            SyntaxError::ClassNeedsIdent => SelectorError::InvalidClassName,
            SyntaxError::Pseudo => SelectorError::UnsupportedPseudoClassOrElement,
            SyntaxError::InvalidRule | SyntaxError::InvalidState => SelectorError::UnsupportedSyntax,
        }
    }

    /// Why a selector is refused whose text has a syntax error.
    #[must_use]
    pub fn of_syntax(error: SyntaxError) -> (refusal: Self)
        ensures
            refusal == Self::spec_of_syntax(error),
    {
        match error {
            SyntaxError::UnexpectedToken
            | SyntaxError::ExplicitNamespaceUnexpectedToken => SelectorError::UnexpectedToken,
            SyntaxError::EndOfInput => SelectorError::UnexpectedEnd,
            SyntaxError::NoQualifiedNameInAttributeSelector => SelectorError::MissingAttributeName,
            SyntaxError::EmptySelector => SelectorError::EmptySelector,
            SyntaxError::DanglingCombinator => SelectorError::DanglingCombinator,
            SyntaxError::UnexpectedTokenInAttributeSelector
            | SyntaxError::ExpectedBarInAttr
            | SyntaxError::BadValueInAttr
            | SyntaxError::InvalidQualNameInAttr => SelectorError::UnexpectedTokenInAttribute,
            SyntaxError::ExpectedNamespace => SelectorError::NamespacedSelector,
            SyntaxError::ClassNeedsIdent => SelectorError::InvalidClassName,
            SyntaxError::Pseudo => SelectorError::UnsupportedPseudoClassOrElement,
            SyntaxError::InvalidRule | SyntaxError::InvalidState => SelectorError::UnsupportedSyntax,
        }
    }
}

/// The first of two errors, if there are any.
pub open spec fn first_error(first: Option<SelectorError>, second: Option<SelectorError>) -> Option<
    SelectorError,
> {
    match first {
        Some(_) => first,
        None => second,
    }
}

/// What is wrong with a component. `in_negation` is set where it stands in a `:not()`, which takes
/// no combinators.
pub open spec fn component_error(component: Component, in_negation: bool) -> Option<SelectorError>
    decreases component,
{
    match component {
        Component::Combinator(combinator) => if in_negation {
            Some(SelectorError::UnsupportedPseudoClassOrElement)
        } else {
            match combinator {
                Combinator::Child | Combinator::Descendant => None,
                Combinator::NextSibling => Some(SelectorError::UnsupportedCombinator('+')),
                Combinator::LaterSibling => Some(SelectorError::UnsupportedCombinator('~')),
                _ => Some(SelectorError::UnsupportedSyntax),
            }
        },
        Component::AttributeOther { has_namespace, .. } => if has_namespace {
            Some(SelectorError::NamespacedSelector)
        } else {
            None
        },
        Component::Nth { ty, .. } => if ty == NthType::Child || ty == NthType::OfType {
            None
        } else {
            Some(SelectorError::UnsupportedPseudoClassOrElement)
        },
        Component::Negation(selectors) => list_error(selectors@, true),
        Component::Unsupported => Some(SelectorError::UnsupportedPseudoClassOrElement),
        _ => None,
    }
}

/// What is wrong with the first component that anything is wrong with.
pub open spec fn components_error(components: Seq<Component>, in_negation: bool) -> Option<
    SelectorError,
>
    decreases components,
{
    if components.len() == 0 {
        None
    } else {
        first_error(
            components_error(components.drop_last(), in_negation),
            component_error(components.last(), in_negation),
        )
    }
}

/// What is wrong with the first selector of a list that anything is wrong with.
pub open spec fn list_error(selectors: Seq<ComplexSelector>, in_negation: bool) -> Option<
    SelectorError,
>
    decreases selectors,
{
    if selectors.len() == 0 {
        None
    } else {
        first_error(
            list_error(selectors.drop_last(), in_negation),
            components_error(selectors.last().components@, in_negation),
        )
    }
}

/// Whether some selector of a list expands to more alternatives than it may.
pub open spec fn expands_too_far(selectors: Seq<ComplexSelector>) -> bool {
    exists|i: int|
        0 <= i < selectors.len() && compound_expansion::<usize>(
            (#[trigger] selectors[i]).components@,
            false,
        ) > MAX_ALTERNATIVES
}

fn find_component_error(component: &Component, in_negation: bool) -> (error: Option<SelectorError>)
    ensures
        error == component_error(*component, in_negation),
    decreases component,
{
    match component {
        Component::Combinator(combinator) => if in_negation {
            Some(SelectorError::UnsupportedPseudoClassOrElement)
        } else {
            match combinator {
                Combinator::Child | Combinator::Descendant => None,
                Combinator::NextSibling => Some(SelectorError::UnsupportedCombinator('+')),
                Combinator::LaterSibling => Some(SelectorError::UnsupportedCombinator('~')),
                _ => Some(SelectorError::UnsupportedSyntax),
            }
        },
        Component::AttributeOther { has_namespace, .. } => if *has_namespace {
            Some(SelectorError::NamespacedSelector)
        } else {
            None
        },
        Component::Nth { ty, .. } => match ty {
            NthType::Child | NthType::OfType => None,
            _ => Some(SelectorError::UnsupportedPseudoClassOrElement),
        },
        Component::Negation(selectors) => {
            assert(decreases_to!(component => selectors));
            assert(decreases_to!(selectors => selectors@));
            find_list_error(selectors, true)
        },
        Component::Unsupported => Some(SelectorError::UnsupportedPseudoClassOrElement),
        _ => None,
    }
}

fn find_components_error(components: &Vec<Component>, in_negation: bool) -> (error: Option<
    SelectorError,
>)
    ensures
        error == components_error(components@, in_negation),
    decreases components@,
{
    let mut i: usize = 0;
    let mut error: Option<SelectorError> = None;
    assert(components_error(components@.take(0), in_negation) is None);
    while i < components.len() && error.is_none()
        invariant
            i <= components@.len(),
            error == components_error(components@.take(i as int), in_negation),
        decreases components@.len() - i,
    {
        proof {
            let upto = components@.take(i + 1);
            assert(upto.drop_last() =~= components@.take(i as int));
            assert(upto.last() == components@[i as int]);
            assert(decreases_to!(components@ => components@[i as int]));
        }
        error = find_component_error(&components[i], in_negation);
        i = i + 1;
    }
    proof {
        if error is Some {
            lemma_first_component_error_stays(components@, in_negation, i as int);
        } else {
            assert(components@.take(i as int) =~= components@);
        }
    }
    error
}

fn find_list_error(selectors: &Vec<ComplexSelector>, in_negation: bool) -> (error: Option<
    SelectorError,
>)
    ensures
        error == list_error(selectors@, in_negation),
    decreases selectors@,
{
    let mut i: usize = 0;
    let mut error: Option<SelectorError> = None;
    assert(list_error(selectors@.take(0), in_negation) is None);
    while i < selectors.len() && error.is_none()
        invariant
            i <= selectors@.len(),
            error == list_error(selectors@.take(i as int), in_negation),
        decreases selectors@.len() - i,
    {
        proof {
            let upto = selectors@.take(i + 1);
            assert(upto.drop_last() =~= selectors@.take(i as int));
            assert(upto.last() == selectors@[i as int]);
            assert(decreases_to!(selectors@ => selectors@[i as int]));
            assert(decreases_to!(selectors@[i as int] => selectors@[i as int].components));
            assert(decreases_to!(selectors@[i as int].components => selectors@[i as int].components@));
        }
        error = find_components_error(&selectors[i].components, in_negation);
        i = i + 1;
    }
    proof {
        if error is Some {
            lemma_first_list_error_stays(selectors@, in_negation, i as int);
        } else {
            assert(selectors@.take(i as int) =~= selectors@);
        }
    }
    error
}

/// What is wrong at the start of a selector stays the first thing that is wrong with it.
proof fn lemma_first_component_error_stays(
    components: Seq<Component>,
    in_negation: bool,
    len: int,
)
    requires
        0 <= len <= components.len(),
        components_error(components.take(len), in_negation) is Some,
    ensures
        components_error(components, in_negation) == components_error(
            components.take(len),
            in_negation,
        ),
    decreases components.len(),
{
    if len == components.len() {
        assert(components.take(len) =~= components);
    } else {
        assert(components.drop_last().take(len) =~= components.take(len));
        lemma_first_component_error_stays(components.drop_last(), in_negation, len);
    }
}

proof fn lemma_first_list_error_stays(
    selectors: Seq<ComplexSelector>,
    in_negation: bool,
    len: int,
)
    requires
        0 <= len <= selectors.len(),
        list_error(selectors.take(len), in_negation) is Some,
    ensures
        list_error(selectors, in_negation) == list_error(selectors.take(len), in_negation),
    decreases selectors.len(),
{
    if len == selectors.len() {
        assert(selectors.take(len) =~= selectors);
    } else {
        assert(selectors.drop_last().take(len) =~= selectors.take(len));
        lemma_first_list_error_stays(selectors.drop_last(), in_negation, len);
    }
}

impl Selector {
    /// Takes the selector if all of it can be matched while the document streams by, and if it does
    /// not expand to too many alternatives.
    pub fn validate(&self) -> (res: Result<(), SelectorError>)
        ensures
            res is Ok <==> list_error(self.0@, false) is None && !expands_too_far(self.0@),
            res matches Err(error) ==> error == (match list_error(self.0@, false) {
                Some(error) => error,
                None => SelectorError::UnsupportedSyntax,
            }),
    {
        match find_list_error(&self.0, false) {
            Some(error) => Err(error),
            None => if has_too_many_alternatives(self) {
                Err(SelectorError::UnsupportedSyntax)
            } else {
                Ok(())
            },
        }
    }
}

/// Inside of a `:not()` of a selector that is taken there is no combinator: every selector of its
/// list is a single compound selector.
pub proof fn law_negated_selectors_are_compound(
    selectors: Seq<ComplexSelector>,
    at: int,
    place: int,
)
    requires
        list_error(selectors, true) is None,
        0 <= at < selectors.len(),
        0 <= place < selectors[at].components@.len(),
    ensures
        !(selectors[at].components@[place] is Combinator),
    decreases selectors.len(),
{
    if at < selectors.len() - 1 {
        law_negated_selectors_are_compound(selectors.drop_last(), at, place);
    } else {
        lemma_no_component_is_wrong(selectors[at].components@, true, place);
    }
}

proof fn lemma_no_component_is_wrong(components: Seq<Component>, in_negation: bool, place: int)
    requires
        components_error(components, in_negation) is None,
        0 <= place < components.len(),
    ensures
        component_error(components[place], in_negation) is None,
    decreases components.len(),
{
    if place < components.len() - 1 {
        lemma_no_component_is_wrong(components.drop_last(), in_negation, place);
    }
}

} // verus!
