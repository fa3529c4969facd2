use super::expansion::{
    combinations, compound_expansion, compound_operands, concatenation, lemma_subject_is_smaller,
    list_operands, product, saturated, saturated_product, saturated_sum, simple_expansion,
};
use super::expr::{condition_of, Condition, Predicate, PredicateView};
use super::selector::{ComplexSelector, Component};
use vstd::prelude::*;

verus! {

/// Whether each number is the size of the alternatives beside it, held down to a `usize`.
pub open spec fn are_sizes(counts: Seq<nat>, operands: Seq<Seq<PredicateView>>) -> bool {
    &&& counts.len() == operands.len()
    &&& forall|i: int|
        0 <= i < counts.len() ==> #[trigger] counts[i] == saturated(operands[i].len())
}

/// A product has a predicate for every pair.
pub proof fn lemma_product_len(left: Seq<PredicateView>, right: Seq<PredicateView>)
    ensures
        product(left, right).len() == left.len() * right.len(),
    decreases left.len(),
{
    if left.len() > 0 {
        lemma_product_len(left.drop_last(), right);
        assert(left.len() * right.len() == (left.len() - 1) * right.len() + right.len())
            by (nonlinear_arith)
            requires
                left.len() > 0,
        ;
    } else {
        assert(0 * right.len() == 0);
    }
}

/// Holding factors down does not change a product that is held down.
proof fn lemma_saturated_times(a: nat, b: nat)
    ensures
        saturated(saturated(a) * saturated(b)) == saturated(a * b),
{
    let max: nat = usize::MAX as nat;
    if a == 0 || b == 0 {
        assert(a * b == 0 && saturated(a) * saturated(b) == 0) by (nonlinear_arith)
            requires
                a == 0 || b == 0,
                a == 0 ==> saturated(a) == 0,
                b == 0 ==> saturated(b) == 0,
        ;
    } else if a > max {
        assert(a * b > max && max * saturated(b) >= max) by (nonlinear_arith)
            requires
                a > max,
                b >= 1,
                saturated(b) >= 1,
        ;
    } else if b > max {
        assert(a * b > max && a * max >= max) by (nonlinear_arith)
            requires
                b > max,
                a >= 1,
        ;
    }
}

/// The product of the sizes is the size of the combinations.
proof fn lemma_product_of_sizes(counts: Seq<nat>, operands: Seq<Seq<PredicateView>>)
    requires
        are_sizes(counts, operands),
    ensures
        saturated_product(counts) == saturated(combinations(operands).len()),
    decreases counts.len(),
{
    if counts.len() > 0 {
        let rest = combinations(operands.drop_last());
        lemma_product_of_sizes(counts.drop_last(), operands.drop_last());
        lemma_product_len(rest, operands.last());
        lemma_saturated_times(rest.len(), operands.last().len());
        assert(counts.last() == saturated(operands.last().len()));
    }
}

/// The sum of the sizes is the size of the concatenation.
proof fn lemma_sum_of_sizes(counts: Seq<nat>, operands: Seq<Seq<PredicateView>>)
    requires
        are_sizes(counts, operands),
    ensures
        saturated_sum(counts) == saturated(concatenation(operands).len()),
    decreases counts.len(),
{
    if counts.len() > 0 {
        lemma_sum_of_sizes(counts.drop_last(), operands.drop_last());
        assert(counts.last() == saturated(operands.last().len()));
    }
}

proof fn lemma_compound_sizes(components: Seq<Component>, negation: bool)
    ensures
        are_sizes(
            compound_operands::<usize>(components, negation),
            compound_operands::<Vec<Predicate>>(components, negation),
        ),
    decreases components,
{
    if components.len() > 0 {
        lemma_compound_sizes(components.drop_last(), negation);
        lemma_simple_size(components.last(), negation);
    }
}

proof fn lemma_simple_size(component: Component, negation: bool)
    ensures
        simple_expansion::<usize>(component, negation) == saturated(
            simple_expansion::<Vec<Predicate>>(component, negation).len(),
        ),
    decreases component,
{
    match component {
        Component::Negation(selectors) => {
            let counts = list_operands::<usize>(selectors@, !negation);
            let operands = list_operands::<Vec<Predicate>>(selectors@, !negation);
            lemma_list_sizes(selectors@, !negation);
            lemma_product_of_sizes(counts, operands);
            lemma_sum_of_sizes(counts, operands);
        },
        _ => {},
    }
}

proof fn lemma_list_sizes(selectors: Seq<ComplexSelector>, negation: bool)
    ensures
        are_sizes(
            list_operands::<usize>(selectors, negation),
            list_operands::<Vec<Predicate>>(selectors, negation),
        ),
    decreases selectors,
{
    if selectors.len() > 0 {
        let last = selectors.last();
        lemma_subject_is_smaller(last);
        lemma_list_sizes(selectors.drop_last(), negation);
        lemma_compound_sizes(last.spec_subject(), negation);
        let counts = compound_operands::<usize>(last.spec_subject(), negation);
        let operands = compound_operands::<Vec<Predicate>>(last.spec_subject(), negation);
        lemma_product_of_sizes(counts, operands);
        lemma_sum_of_sizes(counts, operands);
    }
}

/// The number of alternatives and the alternatives themselves cannot disagree: the number is that
/// of the alternatives, or the largest `usize` where there are more.
pub proof fn law_count_is_number_of_alternatives(components: Seq<Component>, negation: bool)
    ensures
        compound_expansion::<usize>(components, negation) == saturated(
            compound_expansion::<Vec<Predicate>>(components, negation).len(),
        ),
{
    let counts = compound_operands::<usize>(components, negation);
    let operands = compound_operands::<Vec<Predicate>>(components, negation);
    lemma_compound_sizes(components, negation);
    lemma_product_of_sizes(counts, operands);
    lemma_sum_of_sizes(counts, operands);
}

/// Which conditions an element meets.
pub type Meets = spec_fn(Condition<Seq<char>>) -> bool;

/// Whether an element matches a predicate: every expression holds of it.
pub open spec fn predicate_matches(predicate: PredicateView, meets: Meets) -> bool {
    &&& forall|i: int|
        #![trigger predicate.on_tag_name_exprs[i]]
        0 <= i < predicate.on_tag_name_exprs.len() ==> meets(
            Condition::OnTagName(predicate.on_tag_name_exprs[i].simple_expr),
        ) != predicate.on_tag_name_exprs[i].negation
    &&& forall|i: int|
        #![trigger predicate.on_attr_exprs[i]]
        0 <= i < predicate.on_attr_exprs.len() ==> meets(
            Condition::OnAttributes(predicate.on_attr_exprs[i].simple_expr),
        ) != predicate.on_attr_exprs[i].negation
}

/// Whether an element matches any of the alternatives.
pub open spec fn any_matches(alternatives: Seq<PredicateView>, meets: Meets) -> bool {
    exists|i: int|
        0 <= i < alternatives.len() && predicate_matches(#[trigger] alternatives[i], meets)
}

/// Whether an element matches a compound selector: every simple selector.
pub open spec fn compound_matches(components: Seq<Component>, meets: Meets) -> bool
    decreases components,
{
    if components.len() == 0 {
        true
    } else {
        compound_matches(components.drop_last(), meets) && simple_matches(components.last(), meets)
    }
}

/// Whether an element matches a simple selector. `:not()` matches when no selector of its list
/// does.
pub open spec fn simple_matches(component: Component, meets: Meets) -> bool
    decreases component,
{
    match component {
        Component::Negation(selectors) => !list_matches(selectors@, meets),
        _ => meets(condition_of(component)),
    }
}

/// Whether an element matches a selector list of compound selectors: any one of them.
pub open spec fn list_matches(selectors: Seq<ComplexSelector>, meets: Meets) -> bool
    decreases selectors,
{
    if selectors.len() == 0 {
        false
    } else {
        proof {
            lemma_subject_is_smaller(selectors.last());
        }
        list_matches(selectors.drop_last(), meets) || compound_matches(
            selectors.last().spec_subject(),
            meets,
        )
    }
}

/// Whether no `|` prefix is under an odd number of `:not()`, counting an enclosing one for
/// `negation`.
pub open spec fn compound_is_plain(components: Seq<Component>, negation: bool) -> bool
    decreases components,
{
    if components.len() == 0 {
        true
    } else {
        compound_is_plain(components.drop_last(), negation) && simple_is_plain(
            components.last(),
            negation,
        )
    }
}

pub open spec fn simple_is_plain(component: Component, negation: bool) -> bool
    decreases component,
{
    match component {
        Component::Negation(selectors) => list_is_plain(selectors@, !negation),
        Component::ExplicitNoNamespace => !negation,
        _ => true,
    }
}

pub open spec fn list_is_plain(selectors: Seq<ComplexSelector>, negation: bool) -> bool
    decreases selectors,
{
    if selectors.len() == 0 {
        true
    } else {
        proof {
            lemma_subject_is_smaller(selectors.last());
        }
        list_is_plain(selectors.drop_last(), negation) && compound_is_plain(
            selectors.last().spec_subject(),
            negation,
        )
    }
}

/// A conjunction of predicates matches when both match.
pub proof fn law_and_matches_both(left: PredicateView, right: PredicateView, meets: Meets)
    ensures
        predicate_matches(left.and(right), meets) == (predicate_matches(left, meets)
            && predicate_matches(right, meets)),
{
    let both = left.and(right);
    let tags: int = left.on_tag_name_exprs.len() as int;
    let attrs: int = left.on_attr_exprs.len() as int;
    if predicate_matches(both, meets) {
        assert forall|i: int| 0 <= i < left.on_tag_name_exprs.len() implies meets(
            Condition::OnTagName((#[trigger] left.on_tag_name_exprs[i]).simple_expr),
        ) != left.on_tag_name_exprs[i].negation by {
            assert(both.on_tag_name_exprs[i] == left.on_tag_name_exprs[i]);
        }
        assert forall|i: int| 0 <= i < left.on_attr_exprs.len() implies meets(
            Condition::OnAttributes((#[trigger] left.on_attr_exprs[i]).simple_expr),
        ) != left.on_attr_exprs[i].negation by {
            assert(both.on_attr_exprs[i] == left.on_attr_exprs[i]);
        }
        assert forall|i: int| 0 <= i < right.on_tag_name_exprs.len() implies meets(
            Condition::OnTagName((#[trigger] right.on_tag_name_exprs[i]).simple_expr),
        ) != right.on_tag_name_exprs[i].negation by {
            assert(both.on_tag_name_exprs[tags + i] == right.on_tag_name_exprs[i]);
        }
        assert forall|i: int| 0 <= i < right.on_attr_exprs.len() implies meets(
            Condition::OnAttributes((#[trigger] right.on_attr_exprs[i]).simple_expr),
        ) != right.on_attr_exprs[i].negation by {
            assert(both.on_attr_exprs[attrs + i] == right.on_attr_exprs[i]);
        }
    }
}

/// An element matches a product when it matches both sides.
proof fn lemma_product_matches(
    left: Seq<PredicateView>,
    right: Seq<PredicateView>,
    meets: Meets,
)
    ensures
        any_matches(product(left, right), meets) == (any_matches(left, meets) && any_matches(
            right,
            meets,
        )),
    decreases left.len(),
{
    if left.len() > 0 {
        let head = product(left.drop_last(), right);
        let row = right.map_values(|r: PredicateView| left.last().and(r));
        lemma_product_matches(left.drop_last(), right, meets);
        lemma_append_matches(head, row, meets);
        lemma_append_matches(left.drop_last(), seq![left.last()], meets);
        assert(left.drop_last() + seq![left.last()] =~= left);
        assert(any_matches(seq![left.last()], meets) == predicate_matches(left.last(), meets)) by {
            assert(seq![left.last()][0] == left.last());
        }
        assert(any_matches(row, meets) == (predicate_matches(left.last(), meets) && any_matches(
            right,
            meets,
        ))) by {
            assert forall|i: int| 0 <= i < right.len() implies predicate_matches(
                #[trigger] row[i],
                meets,
            ) == (predicate_matches(left.last(), meets) && predicate_matches(right[i], meets)) by {
                law_and_matches_both(left.last(), right[i], meets);
            }
            if any_matches(row, meets) {
                let i: int = choose|i: int|
                    0 <= i < row.len() && predicate_matches(#[trigger] row[i], meets);
                assert(predicate_matches(right[i], meets));
            }
            if predicate_matches(left.last(), meets) && any_matches(right, meets) {
                let i: int = choose|i: int|
                    0 <= i < right.len() && predicate_matches(#[trigger] right[i], meets);
                assert(predicate_matches(row[i], meets));
            }
        }
    }
}

/// An element matches the alternatives of two lists when it matches those of one of them.
proof fn lemma_append_matches(left: Seq<PredicateView>, right: Seq<PredicateView>, meets: Meets)
    ensures
        any_matches(left + right, meets) == (any_matches(left, meets) || any_matches(right, meets)),
{
    let both = left + right;
    if any_matches(left, meets) {
        let i: int = choose|i: int|
            0 <= i < left.len() && predicate_matches(#[trigger] left[i], meets);
        assert(both[i] == left[i]);
    }
    if any_matches(right, meets) {
        let i: int = choose|i: int|
            0 <= i < right.len() && predicate_matches(#[trigger] right[i], meets);
        assert(both[left.len() + i] == right[i]);
    }
    if any_matches(both, meets) {
        let i: int = choose|i: int|
            0 <= i < both.len() && predicate_matches(#[trigger] both[i], meets);
        if i < left.len() {
            assert(predicate_matches(left[i], meets));
        } else {
            assert(predicate_matches(right[i - left.len()], meets));
        }
    }
}

/// Whether an element matches the alternatives of every operand.
spec fn all_operands_match(operands: Seq<Seq<PredicateView>>, meets: Meets) -> bool
    decreases operands.len(),
{
    operands.len() == 0 || (all_operands_match(operands.drop_last(), meets) && any_matches(
        operands.last(),
        meets,
    ))
}

/// Whether an element matches the alternatives of some operand.
spec fn some_operand_matches(operands: Seq<Seq<PredicateView>>, meets: Meets) -> bool
    decreases operands.len(),
{
    operands.len() > 0 && (some_operand_matches(operands.drop_last(), meets) || any_matches(
        operands.last(),
        meets,
    ))
}

proof fn lemma_combinations_match(operands: Seq<Seq<PredicateView>>, meets: Meets)
    ensures
        any_matches(combinations(operands), meets) == all_operands_match(operands, meets),
    decreases operands.len(),
{
    if operands.len() == 0 {
        assert(predicate_matches(combinations(operands)[0], meets));
    } else {
        lemma_combinations_match(operands.drop_last(), meets);
        lemma_product_matches(combinations(operands.drop_last()), operands.last(), meets);
    }
}

proof fn lemma_concatenation_matches(operands: Seq<Seq<PredicateView>>, meets: Meets)
    ensures
        any_matches(concatenation(operands), meets) == some_operand_matches(operands, meets),
    decreases operands.len(),
{
    if operands.len() > 0 {
        lemma_concatenation_matches(operands.drop_last(), meets);
        lemma_append_matches(concatenation(operands.drop_last()), operands.last(), meets);
    }
}

proof fn lemma_compound_operands_match(components: Seq<Component>, negation: bool, meets: Meets)
    requires
        compound_is_plain(components, negation),
    ensures
        negation ==> some_operand_matches(
            compound_operands::<Vec<Predicate>>(components, negation),
            meets,
        ) == !compound_matches(components, meets),
        !negation ==> all_operands_match(
            compound_operands::<Vec<Predicate>>(components, negation),
            meets,
        ) == compound_matches(components, meets),
    decreases components,
{
    if components.len() > 0 {
        let operands = compound_operands::<Vec<Predicate>>(components, negation);
        let last = simple_expansion::<Vec<Predicate>>(components.last(), negation);
        lemma_compound_operands_match(components.drop_last(), negation, meets);
        lemma_simple_matches(components.last(), negation, meets);
        assert(operands.drop_last() =~= compound_operands::<Vec<Predicate>>(
            components.drop_last(),
            negation,
        ));
        assert(operands.last() == last);
    }
}

proof fn lemma_simple_matches(component: Component, negation: bool, meets: Meets)
    requires
        simple_is_plain(component, negation),
    ensures
        any_matches(simple_expansion::<Vec<Predicate>>(component, negation), meets) == (
        simple_matches(component, meets) != negation),
    decreases component,
{
    match component {
        Component::Negation(selectors) => {
            let operands = list_operands::<Vec<Predicate>>(selectors@, !negation);
            lemma_list_operands_match(selectors@, !negation, meets);
            lemma_combinations_match(operands, meets);
            lemma_concatenation_matches(operands, meets);
        },
        _ => {
            let condition = condition_of(component);
            let alternatives = simple_expansion::<Vec<Predicate>>(component, negation);
            let only = PredicateView::of(condition, negation);
            assert(alternatives =~= seq![only]);
            assert(alternatives[0] == only);
            match condition {
                Condition::OnTagName(expr) => {
                    assert(only.on_tag_name_exprs[0].simple_expr == expr);
                },
                Condition::OnAttributes(expr) => {
                    assert(only.on_attr_exprs[0].simple_expr == expr);
                },
            }
            assert(predicate_matches(only, meets) == (meets(condition) != negation));
        },
    }
}

proof fn lemma_list_operands_match(
    selectors: Seq<ComplexSelector>,
    negation: bool,
    meets: Meets,
)
    requires
        list_is_plain(selectors, negation),
    ensures
        negation ==> all_operands_match(
            list_operands::<Vec<Predicate>>(selectors, negation),
            meets,
        ) == !list_matches(selectors, meets),
        !negation ==> some_operand_matches(
            list_operands::<Vec<Predicate>>(selectors, negation),
            meets,
        ) == list_matches(selectors, meets),
    decreases selectors,
{
    if selectors.len() > 0 {
        let subject = selectors.last().spec_subject();
        let operands = list_operands::<Vec<Predicate>>(selectors, negation);
        let inner = compound_operands::<Vec<Predicate>>(subject, negation);
        lemma_subject_is_smaller(selectors.last());
        lemma_list_operands_match(selectors.drop_last(), negation, meets);
        lemma_compound_operands_match(subject, negation, meets);
        lemma_combinations_match(inner, meets);
        lemma_concatenation_matches(inner, meets);
        assert(operands.drop_last() =~= list_operands::<Vec<Predicate>>(
            selectors.drop_last(),
            negation,
        ));
        assert(operands.last() == compound_expansion::<Vec<Predicate>>(subject, negation));
    }
}

/// De Morgan's laws: an element matches some alternative of an expanded compound selector exactly
/// when it matches the compound selector, and some alternative of the expanded negation exactly
/// when it does not. A negated `|` prefix is left out of an expansion, so the law is of selectors
/// without one.
pub proof fn law_expansion_is_equivalent(components: Seq<Component>, negation: bool, meets: Meets)
    requires
        compound_is_plain(components, negation),
    ensures
        any_matches(compound_expansion::<Vec<Predicate>>(components, negation), meets) == (
        compound_matches(components, meets) != negation),
{
    let operands = compound_operands::<Vec<Predicate>>(components, negation);
    lemma_compound_operands_match(components, negation, meets);
    lemma_combinations_match(operands, meets);
    lemma_concatenation_matches(operands, meets);
}

/// `:not(|p)` expands to what `:not(p)` expands to: a negated `|` prefix adds no alternative,
/// wherever in the compound selector it stands.
pub proof fn law_negated_no_namespace_is_ignored(
    before: Seq<Component>,
    after: Seq<Component>,
)
    ensures
        compound_expansion::<Vec<Predicate>>(
            before.push(Component::ExplicitNoNamespace) + after,
            true,
        ) == compound_expansion::<Vec<Predicate>>(before + after, true),
{
    lemma_no_namespace_adds_no_operand(before, after);
}

proof fn lemma_no_namespace_adds_no_operand(before: Seq<Component>, after: Seq<Component>)
    ensures
        compound_operands::<Vec<Predicate>>(
            before.push(Component::ExplicitNoNamespace) + after,
            true,
        ) == compound_operands::<Vec<Predicate>>(before + after, true),
    decreases after.len(),
{
    let with = before.push(Component::ExplicitNoNamespace) + after;
    if after.len() == 0 {
        assert(with.drop_last() =~= before);
        assert(before + after =~= before);
    } else {
        lemma_no_namespace_adds_no_operand(before, after.drop_last());
        assert(with.drop_last() =~= before.push(Component::ExplicitNoNamespace)
            + after.drop_last());
        assert((before + after).drop_last() =~= before + after.drop_last());
    }
}

} // verus!
