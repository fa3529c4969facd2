use super::ast::AstNode;
use super::expr::{
    AttributeComparisonExpr, Condition, Expr, OnAttributesExpr, OnTagNameExpr, Predicate,
};
use vstd::prelude::*;
use vstd::std_specs::cmp::PartialEqSpec;

verus! {

/// Checks of the tag name are equal exactly if they are of the same kind and ask for the same: the same
/// name, or the same places.
pub proof fn law_tag_name_checks_are_equal(left: OnTagNameExpr<String>, right: OnTagNameExpr<String>)
    ensures
        left.eq_spec(&right) <==> match (left, right) {
            (OnTagNameExpr::ExplicitAny, OnTagNameExpr::ExplicitAny) => true,
            (OnTagNameExpr::Unmatchable, OnTagNameExpr::Unmatchable) => true,
            (OnTagNameExpr::LocalName(a), OnTagNameExpr::LocalName(b)) => a@ == b@,
            (OnTagNameExpr::NthChild(a), OnTagNameExpr::NthChild(b)) => a == b,
            (OnTagNameExpr::NthOfType(a), OnTagNameExpr::NthOfType(b)) => a == b,
            _ => false,
        },
{
}

/// Comparisons of an attribute are equal exactly if all of their four parts are.
pub proof fn law_comparisons_are_equal(
    left: AttributeComparisonExpr<String>,
    right: AttributeComparisonExpr<String>,
)
    ensures
        left.eq_spec(&right) <==> left.name@ == right.name@ && left.value@ == right.value@
            && left.case_sensitivity == right.case_sensitivity && left.operator == right.operator,
{
}

/// Checks of attributes are equal exactly if they are of the same kind and ask for the same.
pub proof fn law_attribute_checks_are_equal(
    left: OnAttributesExpr<String>,
    right: OnAttributesExpr<String>,
)
    ensures
        left.eq_spec(&right) <==> match (left, right) {
            (OnAttributesExpr::Id(a), OnAttributesExpr::Id(b)) => a@ == b@,
            (OnAttributesExpr::Class(a), OnAttributesExpr::Class(b)) => a@ == b@,
            (OnAttributesExpr::AttributeExists(a), OnAttributesExpr::AttributeExists(b)) => a@
                == b@,
            (
                OnAttributesExpr::AttributeComparisonExpr(a),
                OnAttributesExpr::AttributeComparisonExpr(b),
            ) => a.eq_spec(&b),
            _ => false,
        },
{
}

/// Expressions are equal exactly if their checks are and both or none is negated.
pub proof fn law_expressions_are_equal(
    left: Expr<OnTagNameExpr<String>>,
    right: Expr<OnTagNameExpr<String>>,
    other_left: Expr<OnAttributesExpr<String>>,
    other_right: Expr<OnAttributesExpr<String>>,
)
    ensures
        left.eq_spec(&right) <==> left.simple_expr.eq_spec(&right.simple_expr) && left.negation
            == right.negation,
        other_left.eq_spec(&other_right) <==> other_left.simple_expr.eq_spec(
            &other_right.simple_expr,
        ) && other_left.negation == other_right.negation,
{
}

/// Predicates are equal exactly if they have equal expressions in the same order.
pub proof fn law_predicates_are_equal(left: Predicate, right: Predicate)
    ensures
        left.eq_spec(&right) <==> {
            &&& left.on_tag_name_exprs@.len() == right.on_tag_name_exprs@.len()
            &&& left.on_attr_exprs@.len() == right.on_attr_exprs@.len()
            &&& forall|i: int|
                #![trigger left.on_tag_name_exprs@[i]]
                0 <= i < left.on_tag_name_exprs@.len() ==> left.on_tag_name_exprs@[i].eq_spec(
                    &right.on_tag_name_exprs@[i],
                )
            &&& forall|i: int|
                #![trigger left.on_attr_exprs@[i]]
                0 <= i < left.on_attr_exprs@.len() ==> left.on_attr_exprs@[i].eq_spec(
                    &right.on_attr_exprs@[i],
                )
        },
{
    if left@ == right@ {
        assert(left@.on_tag_name_exprs.len() == right@.on_tag_name_exprs.len());
        assert(left@.on_attr_exprs.len() == right@.on_attr_exprs.len());
        assert forall|i: int|
            #![trigger left.on_tag_name_exprs@[i]]
            0 <= i < left.on_tag_name_exprs@.len() implies left.on_tag_name_exprs@[i].eq_spec(
            &right.on_tag_name_exprs@[i],
        ) by {
            assert(left@.on_tag_name_exprs[i] == right@.on_tag_name_exprs[i]);
        }
        assert forall|i: int|
            #![trigger left.on_attr_exprs@[i]]
            0 <= i < left.on_attr_exprs@.len() implies left.on_attr_exprs@[i].eq_spec(
            &right.on_attr_exprs@[i],
        ) by {
            assert(left@.on_attr_exprs[i] == right@.on_attr_exprs[i]);
        }
    }
    if left.on_tag_name_exprs@.len() == right.on_tag_name_exprs@.len() && left.on_attr_exprs@.len()
        == right.on_attr_exprs@.len() && (forall|i: int|
        #![trigger left.on_tag_name_exprs@[i]]
        0 <= i < left.on_tag_name_exprs@.len() ==> left.on_tag_name_exprs@[i].eq_spec(
            &right.on_tag_name_exprs@[i],
        )) && (forall|i: int|
        #![trigger left.on_attr_exprs@[i]]
        0 <= i < left.on_attr_exprs@.len() ==> left.on_attr_exprs@[i].eq_spec(
            &right.on_attr_exprs@[i],
        )) {
        assert(left@.on_tag_name_exprs =~= right@.on_tag_name_exprs);
        assert(left@.on_attr_exprs =~= right@.on_attr_exprs);
    }
}

/// Conditions are told apart by when they can be answered and by what they ask.
pub proof fn law_conditions_are_told_apart(left: Condition<String>, right: Condition<String>)
    ensures
        left@ == right@ <==> match (left, right) {
            (Condition::OnTagName(a), Condition::OnTagName(b)) => a.eq_spec(&b),
            (Condition::OnAttributes(a), Condition::OnAttributes(b)) => a.eq_spec(&b),
            _ => false,
        },
{
}

/// What a node is made of is all of it: its predicate, its children and its descendants, each for
/// themselves and in order, and its match ids.
pub proof fn law_node_is_all_of_its_parts(node: AstNode)
    ensures
        node@.predicate == node.predicate@,
        node@.match_ids == node.match_ids@,
        node@.children.len() == node.children@.len(),
        forall|i: int|
            0 <= i < node.children@.len() ==> #[trigger] node@.children[i] == node.children@[i]@,
        node@.descendants.len() == node.descendants@.len(),
        forall|i: int|
            0 <= i < node.descendants@.len() ==> #[trigger] node@.descendants[i]
                == node.descendants@[i]@,
{
}

} // verus!
