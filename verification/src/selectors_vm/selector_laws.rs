use super::expansion_laws::{predicate_matches, Meets};
use super::expr::{
    condition_of, AttributeComparisonExpr, Condition, OnAttributesExpr, OnTagNameExpr,
    PredicateView,
};
use super::nth_child::{is_an_plus_b, reach, NthChild};
use super::selector::{
    until_combinator, AttrOperation, Combinator, ComplexSelector, Component, NthType, Selector,
};
use super::selector_error::{
    component_error, components_error, list_error, SelectorError, SyntaxError,
};
use vstd::prelude::*;

verus! {

/// A component that is no combinator is taken inside of a `:not()` exactly if it is taken outside,
/// and refused for the same reason. A combinator is never taken inside.
pub proof fn law_negation_takes_what_is_taken_outside(component: Component)
    ensures
        !(component is Combinator) ==> component_error(component, true) == component_error(
            component,
            false,
        ),
        component is Combinator ==> component_error(component, true) == Some(
            SelectorError::UnsupportedPseudoClassOrElement,
        ),
{
}

/// A simple selector is taken exactly if some element can match it: what would become a condition
/// that no element meets is refused. Only the `|` prefix is taken though nothing can meet it.
pub proof fn law_what_is_taken_can_be_met(component: Component, in_negation: bool)
    requires
        !(component is Combinator),
        !(component is Negation),
        !(component is ExplicitNoNamespace),
    ensures
        component_error(component, in_negation) is None <==> condition_of(component)
            != Condition::OnTagName(OnTagNameExpr::<Seq<char>>::Unmatchable),
{
}

/// The `|` prefix is taken, and no element meets it.
pub proof fn law_no_namespace_prefix_is_taken(in_negation: bool)
    ensures
        component_error(Component::ExplicitNoNamespace, in_negation) is None,
        condition_of(Component::ExplicitNoNamespace) == Condition::OnTagName(
            OnTagNameExpr::<Seq<char>>::Unmatchable,
        ),
{
}

/// Between compound selectors exactly the child and the descendant combinator are taken. A sibling
/// combinator is refused by its own sign, and any other as syntax that is not supported.
pub proof fn law_combinators_that_are_taken(combinator: Combinator)
    ensures
        ({
            let error = component_error(Component::Combinator(combinator), false);
            &&& error is None <==> combinator == Combinator::Child || combinator
                == Combinator::Descendant
            &&& error == Some(SelectorError::UnsupportedCombinator('+')) <==> combinator
                == Combinator::NextSibling
            &&& error == Some(SelectorError::UnsupportedCombinator('~')) <==> combinator
                == Combinator::LaterSibling
            &&& error == Some(SelectorError::UnsupportedSyntax) <==> combinator
                == Combinator::PseudoElement || combinator == Combinator::SlotAssignment
                || combinator == Combinator::Part
        }),
{
}

/// A simple selector is refused for its namespace exactly if it is an attribute selector with one,
/// and otherwise as a pseudo-class that cannot be matched.
pub proof fn law_reasons_for_refusing_a_simple_selector(component: Component, in_negation: bool)
    requires
        !(component is Combinator),
        !(component is Negation),
    ensures
        component_error(component, in_negation) == Some(SelectorError::NamespacedSelector) <==> (
        component matches Component::AttributeOther { has_namespace, .. } && has_namespace),
        component_error(component, in_negation) is None || component_error(component, in_negation)
            == Some(SelectorError::NamespacedSelector) || component_error(component, in_negation)
            == Some(SelectorError::UnsupportedPseudoClassOrElement),
{
}

/// Whether a component is the first of some that anything is wrong with.
pub open spec fn is_first_wrong(components: Seq<Component>, in_negation: bool, at: int) -> bool {
    &&& 0 <= at < components.len()
    &&& component_error(components[at], in_negation) is Some
    &&& forall|i: int| 0 <= i < at ==> component_error(#[trigger] components[i], in_negation) is None
}

/// A selector is taken exactly if each of its components is, and refused for the first that is not.
pub proof fn law_selector_is_refused_for_its_first_error(
    components: Seq<Component>,
    in_negation: bool,
)
    ensures
        components_error(components, in_negation) is None <==> forall|i: int|
            0 <= i < components.len() ==> component_error(
                #[trigger] components[i],
                in_negation,
            ) is None,
        forall|at: int| #[trigger]
            is_first_wrong(components, in_negation, at) ==> components_error(
                components,
                in_negation,
            ) == component_error(components[at], in_negation),
    decreases components.len(),
{
    if components.len() > 0 {
        let shorter = components.drop_last();
        law_selector_is_refused_for_its_first_error(shorter, in_negation);
        let last = components.len() - 1;
        if components_error(shorter, in_negation) is None {
            assert forall|i: int| 0 <= i < last implies component_error(
                #[trigger] components[i],
                in_negation,
            ) is None by {
                assert(shorter[i] == components[i]);
            }
        } else {
            let i: int = choose|i: int|
                0 <= i < shorter.len() && component_error(
                    #[trigger] shorter[i],
                    in_negation,
                ) is Some;
            assert(components[i] == shorter[i]);
        }
        assert(components[last] == components.last());
        assert forall|at: int| #[trigger]
            is_first_wrong(components, in_negation, at) implies components_error(
            components,
            in_negation,
        ) == component_error(components[at], in_negation) by {
            if at < last {
                assert forall|i: int| 0 <= i < at implies component_error(
                    #[trigger] shorter[i],
                    in_negation,
                ) is None by {
                    assert(shorter[i] == components[i]);
                }
                assert(shorter[at] == components[at]);
                assert(is_first_wrong(shorter, in_negation, at));
            } else {
                assert forall|i: int| 0 <= i < shorter.len() implies component_error(
                    #[trigger] shorter[i],
                    in_negation,
                ) is None by {
                    assert(shorter[i] == components[i]);
                }
            }
        }
    }
}

/// Whether a selector is the first of a list that anything is wrong with.
pub open spec fn is_first_refused(
    selectors: Seq<ComplexSelector>,
    in_negation: bool,
    at: int,
) -> bool {
    &&& 0 <= at < selectors.len()
    &&& components_error(selectors[at].components@, in_negation) is Some
    &&& forall|i: int|
        0 <= i < at ==> components_error(
            (#[trigger] selectors[i]).components@,
            in_negation,
        ) is None
}

/// A selector list is taken exactly if each of its selectors is, and refused for the first that is
/// not.
pub proof fn law_list_is_refused_for_its_first_error(
    selectors: Seq<ComplexSelector>,
    in_negation: bool,
)
    ensures
        list_error(selectors, in_negation) is None <==> forall|i: int|
            0 <= i < selectors.len() ==> components_error(
                (#[trigger] selectors[i]).components@,
                in_negation,
            ) is None,
        forall|at: int| #[trigger]
            is_first_refused(selectors, in_negation, at) ==> list_error(selectors, in_negation)
                == components_error(selectors[at].components@, in_negation),
    decreases selectors.len(),
{
    if selectors.len() > 0 {
        let shorter = selectors.drop_last();
        law_list_is_refused_for_its_first_error(shorter, in_negation);
        let last = selectors.len() - 1;
        if list_error(shorter, in_negation) is None {
            assert forall|i: int| 0 <= i < last implies components_error(
                (#[trigger] selectors[i]).components@,
                in_negation,
            ) is None by {
                assert(shorter[i] == selectors[i]);
            }
        } else {
            let i: int = choose|i: int|
                0 <= i < shorter.len() && components_error(
                    (#[trigger] shorter[i]).components@,
                    in_negation,
                ) is Some;
            assert(selectors[i] == shorter[i]);
        }
        assert(selectors[last] == selectors.last());
        assert forall|at: int| #[trigger]
            is_first_refused(selectors, in_negation, at) implies list_error(selectors, in_negation)
            == components_error(selectors[at].components@, in_negation) by {
            if at < last {
                assert forall|i: int| 0 <= i < at implies components_error(
                    (#[trigger] shorter[i]).components@,
                    in_negation,
                ) is None by {
                    assert(shorter[i] == selectors[i]);
                }
                assert(shorter[at] == selectors[at]);
                assert(is_first_refused(shorter, in_negation, at));
            } else {
                assert forall|i: int| 0 <= i < shorter.len() implies components_error(
                    (#[trigger] shorter[i]).components@,
                    in_negation,
                ) is None by {
                    assert(shorter[i] == selectors[i]);
                }
            }
        }
    }
}

/// A `:not()` is taken exactly if all that is in its list is taken and none of it is a combinator,
/// wherever the `:not()` stands. So a `:not()` in a `:not()` is taken as it would be outside.
pub proof fn law_negation_is_taken_with_its_list(
    selectors: Vec<ComplexSelector>,
    in_negation: bool,
)
    ensures
        component_error(Component::Negation(selectors), in_negation) is None <==> forall|
            i: int,
            j: int,
        |
            #![trigger selectors@[i].components@[j]]
            0 <= i < selectors@.len() && 0 <= j < selectors@[i].components@.len() ==> {
                &&& !(selectors@[i].components@[j] is Combinator)
                &&& component_error(selectors@[i].components@[j], false) is None
            },
{
    let component = Component::Negation(selectors);
    law_list_is_refused_for_its_first_error(selectors@, true);
    assert(component_error(component, in_negation) is None <==> list_error(
        selectors@,
        true,
    ) is None);
    if component_error(component, in_negation) is None {
        assert forall|i: int, j: int|
            #![trigger selectors@[i].components@[j]]
            0 <= i < selectors@.len() && 0 <= j < selectors@[i].components@.len() implies !(
        selectors@[i].components@[j] is Combinator) && component_error(
            selectors@[i].components@[j],
            false,
        ) is None by {
            let components = selectors@[i].components@;
            law_selector_is_refused_for_its_first_error(components, true);
            assert(component_error(components[j], true) is None);
            law_negation_takes_what_is_taken_outside(components[j]);
        }
    } else {
        let i: int = choose|i: int|
            0 <= i < selectors@.len() && components_error(
                (#[trigger] selectors@[i]).components@,
                true,
            ) is Some;
        let components = selectors@[i].components@;
        law_selector_is_refused_for_its_first_error(components, true);
        let j: int = choose|j: int|
            0 <= j < components.len() && component_error(#[trigger] components[j], true) is Some;
        law_negation_takes_what_is_taken_outside(components[j]);
        assert(selectors@[i].components@[j] == components[j]);
    }
}

/// `:nth-child()` and `:nth-of-type()` hold of just those places that their `an+b` reaches: of index
/// `index` exactly if it is `step * n + offset` for some `n` from zero on.
pub proof fn law_nth_condition_holds_at_its_places(step: i32, offset: i32, index: int)
    ensures
        condition_of(Component::Nth { ty: NthType::Child, step, offset }) matches Condition::OnTagName(
            OnTagNameExpr::NthChild(nth),
        ) && nth.spec_step() == step && nth.spec_offset() == offset && is_an_plus_b(
            nth.spec_step() as int,
            nth.spec_offset() as int,
            index,
        ) == exists|n: nat| #[trigger] reach(step as int, n) == index - offset,
        condition_of(Component::Nth { ty: NthType::OfType, step, offset }) matches Condition::OnTagName(
            OnTagNameExpr::NthOfType(nth),
        ) && nth.spec_step() == step && nth.spec_offset() == offset && is_an_plus_b(
            nth.spec_step() as int,
            nth.spec_offset() as int,
            index,
        ) == exists|n: nat| #[trigger] reach(step as int, n) == index - offset,
{
    NthChild::law_parts_of_a_new_one(step, offset);
    if is_an_plus_b(step as int, offset as int, index) {
        let n: nat = choose|n: nat| #[trigger] reach(step as int, n) + offset == index;
        assert(reach(step as int, n) == index - offset);
    }
    if exists|n: nat| #[trigger] reach(step as int, n) == index - offset {
        let n: nat = choose|n: nat| #[trigger] reach(step as int, n) == index - offset;
        assert(reach(step as int, n) + offset == index);
    }
}

/// What a simple selector asks of the tag name: a type selector asks for just its name, and `*` for
/// nothing.
pub proof fn law_type_selectors_ask_for_their_name(name: String)
    ensures
        condition_of(Component::LocalName(name)) == Condition::OnTagName(
            OnTagNameExpr::LocalName(name@),
        ),
        condition_of(Component::ExplicitUniversalType) == Condition::OnTagName(
            OnTagNameExpr::<Seq<char>>::ExplicitAny,
        ),
        condition_of(Component::ExplicitAnyNamespace) == Condition::OnTagName(
            OnTagNameExpr::<Seq<char>>::ExplicitAny,
        ),
{
}

/// An id and a class are asked for as they are written.
pub proof fn law_ids_and_classes_are_asked_for(text: String)
    ensures
        condition_of(Component::ID(text)) == Condition::OnAttributes(OnAttributesExpr::Id(text@)),
        condition_of(Component::Class(text)) == Condition::OnAttributes(
            OnAttributesExpr::Class(text@),
        ),
{
}

/// The name, the value, the operator and the case sensitivity that a condition compares an attribute
/// by, where it compares one.
pub open spec fn comparison_of(condition: Condition<Seq<char>>) -> Option<
    AttributeComparisonExpr<Seq<char>>,
> {
    match condition {
        Condition::OnAttributes(OnAttributesExpr::AttributeComparisonExpr(expr)) => Some(expr),
        _ => None,
    }
}

/// An attribute selector asks for the attribute of its name, and compares its value as it says. Which
/// way the parser has of writing the selector makes no difference.
pub proof fn law_attribute_selectors_ask_for_their_attribute(component: Component)
    ensures
        component matches Component::AttributeInNoNamespaceExists { local_name_lower }
            ==> condition_of(component) == Condition::OnAttributes(
            OnAttributesExpr::AttributeExists(local_name_lower@),
        ),
        component matches Component::AttributeOther {
            has_namespace: false,
            local_name_lower,
            operation: AttrOperation::Exists,
        } ==> condition_of(component) == Condition::OnAttributes(
            OnAttributesExpr::AttributeExists(local_name_lower@),
        ),
        component matches Component::AttributeInNoNamespace {
            local_name,
            operator,
            value,
            case_sensitivity,
        } ==> (comparison_of(condition_of(component)) matches Some(expr) && expr.name == local_name@
            && expr.value == value@ && expr.operator == operator && expr.case_sensitivity
            == case_sensitivity),
        component matches Component::AttributeOther {
            has_namespace: false,
            local_name_lower,
            operation: AttrOperation::WithValue { operator, case_sensitivity, value },
        } ==> (comparison_of(condition_of(component)) matches Some(expr) && expr.name
            == local_name_lower@ && expr.value == value@ && expr.operator == operator
            && expr.case_sensitivity == case_sensitivity),
{
}

/// What is made of a component is what it asks for.
pub proof fn law_condition_is_what_a_component_asks_for(
    component: Component,
    condition: Condition<String>,
)
    requires
        call_ensures(Condition::<String>::from, (&component,), condition),
    ensures
        component matches Component::Nth { ty, step, offset } ==> {
            &&& ty == NthType::Child ==> (condition matches Condition::OnTagName(
                OnTagNameExpr::NthChild(nth),
            ) && nth.spec_step() == step && nth.spec_offset() == offset)
            &&& ty == NthType::OfType ==> (condition matches Condition::OnTagName(
                OnTagNameExpr::NthOfType(nth),
            ) && nth.spec_step() == step && nth.spec_offset() == offset)
        },
        component matches Component::LocalName(name) ==> (condition matches Condition::OnTagName(
            OnTagNameExpr::LocalName(asked),
        ) && asked@ == name@),
{
    if let Component::Nth { ty, step, offset } = component {
        NthChild::law_parts_of_a_new_one(step, offset);
    }
}

/// A predicate of one condition matches exactly the elements that meet it, or with a negation those
/// that do not. The empty predicate matches every element.
pub proof fn law_predicate_of_a_condition(
    condition: Condition<Seq<char>>,
    negation: bool,
    meets: Meets,
)
    ensures
        predicate_matches(PredicateView::of(condition, negation), meets) == (meets(condition)
            != negation),
        predicate_matches(PredicateView::empty(), meets),
{
    let predicate = PredicateView::of(condition, negation);
    match condition {
        Condition::OnTagName(expr) => {
            assert(predicate.on_tag_name_exprs[0].simple_expr == expr);
        },
        Condition::OnAttributes(expr) => {
            assert(predicate.on_attr_exprs[0].simple_expr == expr);
        },
    }
}

/// A conjunction keeps the conditions of both predicates, those of the first before those of the
/// second, and a predicate joined with the empty one is as it was.
pub proof fn law_conjunction_keeps_the_order(left: PredicateView, right: PredicateView)
    ensures
        ({
            let both = left.and(right);
            let tags = left.on_tag_name_exprs.len() as int;
            let attrs = left.on_attr_exprs.len() as int;
            &&& both.on_tag_name_exprs.take(tags) == left.on_tag_name_exprs
            &&& both.on_tag_name_exprs.skip(tags) == right.on_tag_name_exprs
            &&& both.on_attr_exprs.take(attrs) == left.on_attr_exprs
            &&& both.on_attr_exprs.skip(attrs) == right.on_attr_exprs
        }),
        left.and(PredicateView::empty()) == left,
        PredicateView::empty().and(left) == left,
{
    let both = left.and(right);
    let tags = left.on_tag_name_exprs.len() as int;
    let attrs = left.on_attr_exprs.len() as int;
    assert(both.on_tag_name_exprs.take(tags) =~= left.on_tag_name_exprs);
    assert(both.on_tag_name_exprs.skip(tags) =~= right.on_tag_name_exprs);
    assert(both.on_attr_exprs.take(attrs) =~= left.on_attr_exprs);
    assert(both.on_attr_exprs.skip(attrs) =~= right.on_attr_exprs);
    assert(left.and(PredicateView::empty()) =~= left);
    assert(PredicateView::empty().and(left) =~= left);
}

/// The rightmost compound selector is all that stands before the first combinator.
pub proof fn law_subject_stands_before_the_first_combinator(components: Seq<Component>)
    ensures
        ({
            let subject = until_combinator(components);
            &&& subject.len() <= components.len()
            &&& subject == components.take(subject.len() as int)
            &&& forall|i: int| 0 <= i < subject.len() ==> !((#[trigger] subject[i]) is Combinator)
            &&& subject.len() < components.len() ==> components[subject.len() as int] is Combinator
        }),
    decreases components.len(),
{
    let subject = until_combinator(components);
    if components.len() > 0 && !(components.first() is Combinator) {
        let rest = components.drop_first();
        law_subject_stands_before_the_first_combinator(rest);
        let behind = until_combinator(rest);
        assert forall|i: int| 0 <= i < subject.len() implies !((
        #[trigger] subject[i]) is Combinator) && subject[i] == components[i] by {
            if i > 0 {
                assert(subject[i] == behind[i - 1]);
                assert(behind[i - 1] == rest.take(behind.len() as int)[i - 1]);
            }
        }
        assert(rest[behind.len() as int] == components[subject.len() as int]
            || subject.len() == components.len());
    }
    assert(subject =~= components.take(subject.len() as int));
}

/// A text that is no selector is refused for what is wrong with it: by the token where that is not
/// expected, by the attribute selector where that is not complete, and so on, each for itself.
pub proof fn law_syntax_errors_are_told_apart(error: SyntaxError)
    ensures
        ({
            let refusal = SelectorError::spec_of_syntax(error);
            &&& refusal == SelectorError::UnexpectedToken <==> error == SyntaxError::UnexpectedToken
                || error == SyntaxError::ExplicitNamespaceUnexpectedToken
            &&& refusal == SelectorError::UnexpectedEnd <==> error == SyntaxError::EndOfInput
            &&& refusal == SelectorError::MissingAttributeName <==> error
                == SyntaxError::NoQualifiedNameInAttributeSelector
            &&& refusal == SelectorError::EmptySelector <==> error == SyntaxError::EmptySelector
            &&& refusal == SelectorError::DanglingCombinator <==> error
                == SyntaxError::DanglingCombinator
            &&& refusal == SelectorError::UnexpectedTokenInAttribute <==> error
                == SyntaxError::UnexpectedTokenInAttributeSelector || error
                == SyntaxError::ExpectedBarInAttr || error == SyntaxError::BadValueInAttr || error
                == SyntaxError::InvalidQualNameInAttr
            &&& refusal == SelectorError::NamespacedSelector <==> error
                == SyntaxError::ExpectedNamespace
            &&& refusal == SelectorError::InvalidClassName <==> error
                == SyntaxError::ClassNeedsIdent
            &&& refusal == SelectorError::UnsupportedPseudoClassOrElement <==> error
                == SyntaxError::Pseudo
            &&& refusal == SelectorError::UnsupportedSyntax <==> error == SyntaxError::InvalidRule
                || error == SyntaxError::InvalidState
        }),
{
}

/// A selector list is taken only if everything in it is: outside of a `:not()` no combinator but the
/// child and the descendant combinator, and nothing that no element can match. It is refused for the
/// first thing that is wrong with it.
pub proof fn law_validate(selector: Selector, res: Result<(), SelectorError>)
    requires
        call_ensures(Selector::validate, (&selector,), res),
    ensures
        res is Ok ==> forall|i: int, j: int|
            #![trigger selector.0@[i].components@[j]]
            0 <= i < selector.0@.len() && 0 <= j < selector.0@[i].components@.len()
                ==> component_error(selector.0@[i].components@[j], false) is None,
        forall|i: int, j: int|
            #![trigger selector.0@[i].components@[j]]
            is_first_refused(selector.0@, false, i) && is_first_wrong(
                selector.0@[i].components@,
                false,
                j,
            ) ==> res == Err::<(), SelectorError>(
                component_error(selector.0@[i].components@[j], false)->0,
            ),
        res matches Err(error) ==> error == SelectorError::UnsupportedSyntax || list_error(
            selector.0@,
            false,
        ) == Some(error),
{
    law_list_is_refused_for_its_first_error(selector.0@, false);
    if res is Ok {
        assert forall|i: int, j: int|
            #![trigger selector.0@[i].components@[j]]
            0 <= i < selector.0@.len() && 0 <= j
                < selector.0@[i].components@.len() implies component_error(
            selector.0@[i].components@[j],
            false,
        ) is None by {
            law_selector_is_refused_for_its_first_error(selector.0@[i].components@, false);
        }
    }
    assert forall|i: int, j: int|
        #![trigger selector.0@[i].components@[j]]
        is_first_refused(selector.0@, false, i) && is_first_wrong(
            selector.0@[i].components@,
            false,
            j,
        ) implies res == Err::<(), SelectorError>(
        component_error(selector.0@[i].components@[j], false)->0,
    ) by {
        law_selector_is_refused_for_its_first_error(selector.0@[i].components@, false);
    }
}

/// In parse order the components of a selector are those in matching order, backwards.
pub proof fn law_parse_order_is_backwards(selector: ComplexSelector)
    ensures
        selector.spec_parse_order().len() == selector.components@.len(),
        forall|i: int|
            0 <= i < selector.components@.len() ==> #[trigger] selector.spec_parse_order()[i]
                == selector.components@[selector.components@.len() - 1 - i],
{
}

/// What is no simple selector asks for something that no element meets.
pub proof fn law_what_is_no_simple_selector_is_never_met(component: Component)
    requires
        component is Combinator || component is Negation || component is Unsupported,
    ensures
        condition_of(component) == Condition::OnTagName(
            OnTagNameExpr::<Seq<char>>::Unmatchable,
        ),
{
}

} // verus!
