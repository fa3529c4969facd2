use super::expr::{condition_of, views, Predicate, PredicateView};
use super::selector::{referents, until_combinator, ComplexSelector, Component, Selector};
use vstd::prelude::*;

verus! {

/// A disjunction of predicates: an element matches when it matches any one of them.
///
/// A [`Predicate`] is a conjunction, so a single one can't express `:not(a.b)`, which is
/// `:not(a)` OR `:not(b)`, or `:not(:not(a, b))`, which is `a` OR `b`. Every alternative gets
/// an AST node of its own with the same match id, like every selector of a selector list does.
pub type Alternatives = Vec<Predicate>;

/// How many [`Alternatives`] a selector can expand to before the parser refuses it.
///
/// The expansion multiplies: `:not(a.b):not(c.d)` has 4 alternatives, and one more `:not()`
/// of that shape doubles them again.
pub const MAX_ALTERNATIVES: usize = 256;

/// Something that contracts speak of by its value.
pub trait Valued: Sized {
    type V;

    spec fn value(&self) -> Self::V;
}

/// The values of a list.
pub open spec fn values<X: Valued>(items: Seq<X>) -> Seq<X::V> {
    items.map_values(|x: X| x.value())
}

/// What a selector expands to: the [`Alternatives`] for the AST, or only their number for the
/// parser. Both come from the same traversal.
pub trait Expansion: Valued {
    spec fn spec_of(component: Component, negation: bool) -> Self::V;

    spec fn spec_all_of(operands: Seq<Self::V>) -> Self::V;

    spec fn spec_any_of(operands: Seq<Self::V>) -> Self::V;

    /// A simple selector, or its negation.
    fn of(component: &Component, negation: bool) -> (expansion: Self)
        ensures
            expansion.value() == Self::spec_of(*component, negation),
    ;

    /// Matches when all the `operands` match.
    fn all_of(operands: Vec<Self>) -> (expansion: Self)
        ensures
            expansion.value() == Self::spec_all_of(values(operands@)),
    ;

    /// Matches when any of the `operands` matches.
    fn any_of(operands: Vec<Self>) -> (expansion: Self)
        ensures
            expansion.value() == Self::spec_any_of(values(operands@)),
    ;
}

/// Every predicate of `left` joined with every one of `right`, the ones of `right` changing
/// fastest.
pub open spec fn product(left: Seq<PredicateView>, right: Seq<PredicateView>) -> Seq<PredicateView>
    decreases left.len(),
{
    if left.len() == 0 {
        Seq::empty()
    } else {
        product(left.drop_last(), right) + right.map_values(
            |r: PredicateView| left.last().and(r),
        )
    }
}

/// One predicate of each operand joined, in every combination.
pub open spec fn combinations(operands: Seq<Seq<PredicateView>>) -> Seq<PredicateView>
    decreases operands.len(),
{
    if operands.len() == 0 {
        seq![PredicateView::empty()]
    } else {
        product(combinations(operands.drop_last()), operands.last())
    }
}

/// The operands one after another.
pub open spec fn concatenation(operands: Seq<Seq<PredicateView>>) -> Seq<PredicateView>
    decreases operands.len(),
{
    if operands.len() == 0 {
        Seq::empty()
    } else {
        concatenation(operands.drop_last()) + operands.last()
    }
}

/// Joins every predicate of `left` with every one of `right`.
fn join_each(left: &Alternatives, right: &Alternatives) -> (joined: Alternatives)
    ensures
        views(joined@) == product(views(left@), views(right@)),
{
    let mut joined: Alternatives = Vec::new();
    let mut i: usize = 0;
    assert(views(joined@) =~= product(views(left@).take(0), views(right@)));
    while i < left.len()
        invariant
            i <= left.len(),
            views(joined@) == product(views(left@).take(i as int), views(right@)),
        decreases left.len() - i,
    {
        let ghost done = views(joined@);
        let ghost row = views(right@).map_values(|r: PredicateView| left@[i as int]@.and(r));
        let mut j: usize = 0;
        assert(views(joined@) =~= done + row.take(0));
        while j < right.len()
            invariant
                i < left.len(),
                j <= right.len(),
                row == views(right@).map_values(|r: PredicateView| left@[i as int]@.and(r)),
                views(joined@) == done + row.take(j as int),
            decreases right.len() - j,
        {
            let ghost before = joined@;
            let one = left[i].clone();
            joined.push(one.and(&right[j]));
            assert(views(joined@) =~= views(before).push(row[j as int]));
            assert(row.take(j + 1) =~= row.take(j as int).push(row[j as int]));
            assert(views(joined@) =~= done + row.take(j + 1));
            j = j + 1;
        }
        assert(row.take(j as int) =~= row);
        proof {
            let upto = views(left@).take(i + 1);
            assert(upto.drop_last() =~= views(left@).take(i as int));
            assert(upto.last() == left@[i as int]@);
            assert(row =~= views(right@).map_values(|r: PredicateView| upto.last().and(r)));
        }
        i = i + 1;
    }
    assert(views(left@).take(i as int) =~= views(left@));
    joined
}

impl Valued for Vec<Predicate> {
    type V = Seq<PredicateView>;

    open spec fn value(&self) -> Seq<PredicateView> {
        views(self@)
    }
}

impl Expansion for Vec<Predicate> {
    open spec fn spec_of(component: Component, negation: bool) -> Seq<PredicateView> {
        seq![PredicateView::of(condition_of(component), negation)]
    }

    open spec fn spec_all_of(operands: Seq<Seq<PredicateView>>) -> Seq<PredicateView> {
        combinations(operands)
    }

    open spec fn spec_any_of(operands: Seq<Seq<PredicateView>>) -> Seq<PredicateView> {
        concatenation(operands)
    }

    fn of(component: &Component, negation: bool) -> (expansion: Self) {
        let mut predicate: Predicate = Predicate::default();
        predicate.add_component(component, negation);
        let mut expansion: Vec<Predicate> = Vec::new();
        expansion.push(predicate);
        proof {
            let one = PredicateView::of(condition_of(*component), negation);
            assert(PredicateView::empty().and(one) =~= one);
            assert(views(expansion@) =~= seq![one]);
        }
        expansion
    }

    fn all_of(operands: Vec<Self>) -> (expansion: Self) {
        let mut matched: Vec<Predicate> = Vec::new();
        matched.push(Predicate::default());
        let mut i: usize = 0;
        assert(views(matched@) =~= combinations(values(operands@).take(0)));
        while i < operands.len()
            invariant
                i <= operands.len(),
                views(matched@) == combinations(values(operands@).take(i as int)),
            decreases operands.len() - i,
        {
            proof {
                let upto = values(operands@).take(i + 1);
                assert(upto.drop_last() =~= values(operands@).take(i as int));
                assert(upto.last() == views(operands@[i as int]@));
            }
            matched = join_each(&matched, &operands[i]);
            i = i + 1;
        }
        assert(values(operands@).take(i as int) =~= values(operands@));
        matched
    }

    fn any_of(operands: Vec<Self>) -> (expansion: Self) {
        let mut expansion: Vec<Predicate> = Vec::new();
        let mut i: usize = 0;
        assert(views(expansion@) =~= concatenation(values(operands@).take(0)));
        while i < operands.len()
            invariant
                i <= operands.len(),
                views(expansion@) == concatenation(values(operands@).take(i as int)),
            decreases operands.len() - i,
        {
            let ghost done = views(expansion@);
            let operand = &operands[i];
            let mut j: usize = 0;
            assert(views(expansion@) =~= done + views(operand@.take(0)));
            while j < operand.len()
                invariant
                    j <= operand.len(),
                    views(expansion@) == done + views(operand@.take(j as int)),
                decreases operand.len() - j,
            {
                let ghost before = expansion@;
                expansion.push(operand[j].clone());
                assert(views(expansion@) =~= views(before).push(operand@[j as int]@));
                assert(views(expansion@) =~= done + views(operand@.take(j + 1)));
                j = j + 1;
            }
            assert(operand@.take(j as int) =~= operand@);
            proof {
                let upto = values(operands@).take(i + 1);
                assert(upto.drop_last() =~= values(operands@).take(i as int));
                assert(upto.last() == views(operand@));
            }
            i = i + 1;
        }
        assert(values(operands@).take(i as int) =~= values(operands@));
        expansion
    }
}

/// `n`, or the largest `usize` where `n` is larger.
pub open spec fn saturated(n: nat) -> nat {
    if n > usize::MAX {
        usize::MAX as nat
    } else {
        n
    }
}

/// The product, held down at each step.
pub open spec fn saturated_product(factors: Seq<nat>) -> nat
    decreases factors.len(),
{
    if factors.len() == 0 {
        1
    } else {
        saturated(saturated_product(factors.drop_last()) * factors.last())
    }
}

/// The sum, held down at each step.
pub open spec fn saturated_sum(terms: Seq<nat>) -> nat
    decreases terms.len(),
{
    if terms.len() == 0 {
        0
    } else {
        saturated(saturated_sum(terms.drop_last()) + terms.last())
    }
}

impl Valued for usize {
    type V = nat;

    open spec fn value(&self) -> nat {
        *self as nat
    }
}

impl Expansion for usize {
    open spec fn spec_of(component: Component, negation: bool) -> nat {
        1
    }

    open spec fn spec_all_of(operands: Seq<nat>) -> nat {
        saturated_product(operands)
    }

    open spec fn spec_any_of(operands: Seq<nat>) -> nat {
        saturated_sum(operands)
    }

    fn of(component: &Component, negation: bool) -> (expansion: Self) {
        1
    }

    fn all_of(operands: Vec<Self>) -> (expansion: Self) {
        let mut count: usize = 1;
        let mut i: usize = 0;
        while i < operands.len()
            invariant
                i <= operands.len(),
                count == saturated_product(values(operands@).take(i as int)),
            decreases operands.len() - i,
        {
            proof {
                let upto = values(operands@).take(i + 1);
                assert(upto.drop_last() =~= values(operands@).take(i as int));
                assert(upto.last() == operands@[i as int]);
                assert(count * operands@[i as int] >= 0) by (nonlinear_arith)
                    requires
                        count >= 0,
                        operands@[i as int] >= 0,
                ;
            }
            count =
            match count.checked_mul(operands[i]) {
                Some(exact) => exact,
                None => usize::MAX,
            };
            i = i + 1;
        }
        assert(values(operands@).take(i as int) =~= values(operands@));
        count
    }

    fn any_of(operands: Vec<Self>) -> (expansion: Self) {
        let mut count: usize = 0;
        let mut i: usize = 0;
        while i < operands.len()
            invariant
                i <= operands.len(),
                count == saturated_sum(values(operands@).take(i as int)),
            decreases operands.len() - i,
        {
            proof {
                let upto = values(operands@).take(i + 1);
                assert(upto.drop_last() =~= values(operands@).take(i as int));
                assert(upto.last() == operands@[i as int]);
            }
            count = count.saturating_add(operands[i]);
            i = i + 1;
        }
        assert(values(operands@).take(i as int) =~= values(operands@));
        count
    }
}

/// The components before the first combinator are a prefix.
proof fn lemma_until_combinator_is_prefix(components: Seq<Component>)
    ensures
        until_combinator(components).len() <= components.len(),
        until_combinator(components) == components.take(until_combinator(components).len() as int),
    decreases components.len(),
{
    let prefix = until_combinator(components);
    if components.len() > 0 && !components.first().spec_is_combinator() {
        let rest = until_combinator(components.drop_first());
        lemma_until_combinator_is_prefix(components.drop_first());
        assert forall|i: int| 0 <= i < prefix.len() implies prefix[i] == components.take(
            prefix.len() as int,
        )[i] by {
            if i > 0 {
                assert(prefix[i] == rest[i - 1]);
                assert(rest[i - 1] == components.drop_first().take(rest.len() as int)[i - 1]);
            }
        }
    }
    assert(prefix =~= components.take(prefix.len() as int));
}

/// The rightmost compound selector is smaller than the selector.
pub proof fn lemma_subject_is_smaller(selector: ComplexSelector)
    ensures
        decreases_to!(selector => selector.spec_subject()),
{
    let components = selector.components@;
    lemma_until_combinator_is_prefix(components);
    let len: int = selector.spec_subject().len() as int;
    assert(decreases_to!(selector => selector.components));
    assert(decreases_to!(selector.components => components));
    if len == components.len() {
        assert(selector.spec_subject() =~= components);
    } else {
        assert(decreases_to!(components => components.subrange(0, len)));
        assert(selector.spec_subject() =~= components.subrange(0, len));
    }
}

/// What the simple selectors of a compound selector, or their negations, expand to.
pub open spec fn compound_operands<X: Expansion>(
    components: Seq<Component>,
    negation: bool,
) -> Seq<X::V>
    decreases components,
{
    if components.len() == 0 {
        Seq::empty()
    } else if negation && components.last() is ExplicitNoNamespace {
        compound_operands::<X>(components.drop_last(), negation)
    } else {
        compound_operands::<X>(components.drop_last(), negation).push(
            simple_expansion::<X>(components.last(), negation),
        )
    }
}

/// What a simple selector, or its negation, expands to.
pub open spec fn simple_expansion<X: Expansion>(component: Component, negation: bool) -> X::V
    decreases component,
{
    match component {
        Component::Negation(selectors) => if negation {
            X::spec_any_of(list_operands::<X>(selectors@, !negation))
        } else {
            X::spec_all_of(list_operands::<X>(selectors@, !negation))
        },
        _ => X::spec_of(component, negation),
    }
}

/// What the selectors of the list of a `:not()` expand to.
pub open spec fn list_operands<X: Expansion>(
    selectors: Seq<ComplexSelector>,
    negation: bool,
) -> Seq<X::V>
    decreases selectors,
{
    if selectors.len() == 0 {
        Seq::empty()
    } else {
        proof {
            lemma_subject_is_smaller(selectors.last());
        }
        list_operands::<X>(selectors.drop_last(), negation).push(
            if negation {
                X::spec_any_of(compound_operands::<X>(selectors.last().spec_subject(), negation))
            } else {
                X::spec_all_of(compound_operands::<X>(selectors.last().spec_subject(), negation))
            },
        )
    }
}

/// What a compound selector, or its negation, expands to.
pub open spec fn compound_expansion<X: Expansion>(
    components: Seq<Component>,
    negation: bool,
) -> X::V {
    if negation {
        X::spec_any_of(compound_operands::<X>(components, negation))
    } else {
        X::spec_all_of(compound_operands::<X>(components, negation))
    }
}

/// What the selector list of a `:not()`, or of one that is cancelled, expands to.
pub open spec fn list_expansion<X: Expansion>(
    selectors: Seq<ComplexSelector>,
    negation: bool,
) -> X::V {
    if negation {
        X::spec_all_of(list_operands::<X>(selectors, negation))
    } else {
        X::spec_any_of(list_operands::<X>(selectors, negation))
    }
}

/// Expands a compound selector, or its negation, with De Morgan's laws.
pub fn expand_compound<X: Expansion>(components: &Vec<&Component>, negation: bool) -> (expansion: X)
    ensures
        expansion.value() == compound_expansion::<X>(referents(components@), negation),
    decreases referents(components@),
{
    let mut operands: Vec<X> = Vec::new();
    let mut i: usize = 0;
    let ghost all = referents(components@);
    assert(values(operands@) =~= compound_operands::<X>(all.take(0), negation));
    while i < components.len()
        invariant
            i <= components.len(),
            all == referents(components@),
            values(operands@) == compound_operands::<X>(all.take(i as int), negation),
        decreases components.len() - i,
    {
        let component: &Component = components[i];
        let ghost before = operands@;
        proof {
            let upto = all.take(i + 1);
            assert(upto.drop_last() =~= all.take(i as int));
            assert(upto.last() == *component);
            assert(all[i as int] == *component);
        }
        match component {
            // `:not(|p)` has always matched what `:not(p)` matches: the negated no-namespace
            // prefix was one more term of a conjunction, and it is true for every element. As an
            // alternative of its own it would make `:not(|p)` match everything.
            Component::ExplicitNoNamespace if negation => {},
            Component::Negation(selectors) => {
                assert(decreases_to!(all => all[i as int]));
                assert(decreases_to!(component => selectors));
                assert(decreases_to!(selectors => selectors@));
                let operand: X = expand_negation(selectors, !negation);
                operands.push(operand);
                assert(values(operands@) =~= values(before).push(
                    simple_expansion::<X>(*component, negation),
                ));
            },
            _ => {
                let operand: X = X::of(component, negation);
                operands.push(operand);
                assert(values(operands@) =~= values(before).push(
                    simple_expansion::<X>(*component, negation),
                ));
            },
        }
        i = i + 1;
    }
    assert(all.take(i as int) =~= all);
    // `!(a && b)` is `!a || !b`
    if negation {
        X::any_of(operands)
    } else {
        X::all_of(operands)
    }
}

/// Expands the selector list of a `:not()`. `negation` is set when the `:not()` applies, and
/// unset when an enclosing `:not()` cancels it.
///
/// The parser refuses combinators inside `:not()`, so every selector of the list is a single
/// compound selector.
pub fn expand_negation<X: Expansion>(selectors: &Vec<ComplexSelector>, negation: bool) -> (expansion:
    X)
    ensures
        expansion.value() == list_expansion::<X>(selectors@, negation),
    decreases selectors@,
{
    let mut operands: Vec<X> = Vec::new();
    let mut i: usize = 0;
    assert(values(operands@) =~= list_operands::<X>(selectors@.take(0), negation));
    while i < selectors.len()
        invariant
            i <= selectors.len(),
            values(operands@) == list_operands::<X>(selectors@.take(i as int), negation),
        decreases selectors.len() - i,
    {
        let ghost before = operands@;
        let compound = selectors[i].subject();
        proof {
            let upto = selectors@.take(i + 1);
            assert(upto.drop_last() =~= selectors@.take(i as int));
            assert(upto.last() == selectors@[i as int]);
            lemma_subject_is_smaller(selectors@[i as int]);
            assert(decreases_to!(selectors@ => selectors@[i as int]));
        }
        let operand: X = expand_compound(&compound, negation);
        operands.push(operand);
        assert(values(operands@) =~= values(before).push(
            compound_expansion::<X>(selectors@[i as int].spec_subject(), negation),
        ));
        i = i + 1;
    }
    assert(selectors@.take(i as int) =~= selectors@);
    // `!(a || b)` is `!a && !b`
    if negation {
        X::all_of(operands)
    } else {
        X::any_of(operands)
    }
}

/// How many AST paths a selector takes: one for every combination of one alternative per
/// compound selector.
pub fn count_alternatives(selector: &ComplexSelector) -> (count: usize)
    ensures
        count == compound_expansion::<usize>(selector.components@, false),
{
    // A combinator counts as 1, so the product over all the components is the product over
    // the compound selectors.
    expand_compound::<usize>(&selector.match_order(), false)
}

/// Whether some selector of a list expands to more alternatives than it may.
pub fn has_too_many_alternatives(selector: &Selector) -> (refused: bool)
    ensures
        refused == exists|i: int|
            0 <= i < selector.0@.len() && compound_expansion::<usize>(
                (#[trigger] selector.0@[i]).components@,
                false,
            ) > MAX_ALTERNATIVES,
{
    let mut i: usize = 0;
    while i < selector.0.len()
        invariant
            i <= selector.0@.len(),
            forall|k: int|
                0 <= k < i ==> compound_expansion::<usize>(
                    (#[trigger] selector.0@[k]).components@,
                    false,
                ) <= MAX_ALTERNATIVES,
        decreases selector.0@.len() - i,
    {
        if count_alternatives(&selector.0[i]) > MAX_ALTERNATIVES {
            assert(compound_expansion::<usize>(selector.0@[i as int].components@, false)
                > MAX_ALTERNATIVES);
            return true;
        }
        i = i + 1;
    }
    false
}

} // verus!
