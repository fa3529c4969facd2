use super::nth_child::NthChild;
use super::selector::{AttrOperation, AttrSelectorOperator, Component, NthType, ParsedCaseSensitivity};
use vstd::prelude::*;

verus! {

/// A check of the tag name or of the position among siblings. `S` is how a name is held: a
/// `String` where the code runs, a sequence of characters where a contract speaks of it.
#[derive(Debug)]
pub enum OnTagNameExpr<S = String> {
    ExplicitAny,
    Unmatchable,
    LocalName(S),
    NthChild(NthChild),
    NthOfType(NthChild),
}

impl View for OnTagNameExpr<String> {
    type V = OnTagNameExpr<Seq<char>>;

    open spec fn view(&self) -> OnTagNameExpr<Seq<char>> {
        match self {
            OnTagNameExpr::ExplicitAny => OnTagNameExpr::ExplicitAny,
            OnTagNameExpr::Unmatchable => OnTagNameExpr::Unmatchable,
            OnTagNameExpr::LocalName(name) => OnTagNameExpr::LocalName(name@),
            OnTagNameExpr::NthChild(nth) => OnTagNameExpr::NthChild(*nth),
            OnTagNameExpr::NthOfType(nth) => OnTagNameExpr::NthOfType(*nth),
        }
    }
}

impl Clone for OnTagNameExpr<String> {
    fn clone(&self) -> (copy: Self)
        ensures
            copy@ == self@,
    {
        match self {
            OnTagNameExpr::ExplicitAny => OnTagNameExpr::ExplicitAny,
            OnTagNameExpr::Unmatchable => OnTagNameExpr::Unmatchable,
            OnTagNameExpr::LocalName(name) => OnTagNameExpr::LocalName(name.clone()),
            OnTagNameExpr::NthChild(nth) => OnTagNameExpr::NthChild(*nth),
            OnTagNameExpr::NthOfType(nth) => OnTagNameExpr::NthOfType(*nth),
        }
    }
}

impl PartialEq for OnTagNameExpr<String> {
    fn eq(&self, other: &Self) -> (same: bool) {
        match (self, other) {
            (OnTagNameExpr::ExplicitAny, OnTagNameExpr::ExplicitAny) => true,
            (OnTagNameExpr::Unmatchable, OnTagNameExpr::Unmatchable) => true,
            (OnTagNameExpr::LocalName(a), OnTagNameExpr::LocalName(b)) => *a == *b,
            (OnTagNameExpr::NthChild(a), OnTagNameExpr::NthChild(b)) => *a == *b,
            (OnTagNameExpr::NthOfType(a), OnTagNameExpr::NthOfType(b)) => *a == *b,
            _ => false,
        }
    }
}

impl vstd::std_specs::cmp::PartialEqSpecImpl for OnTagNameExpr<String> {
    open spec fn obeys_eq_spec() -> bool {
        true
    }

    open spec fn eq_spec(&self, other: &Self) -> bool {
        self@ == other@
    }
}

impl Eq for OnTagNameExpr<String> {

}

/// A comparison of the value of an attribute with a given one.
#[derive(Debug)]
pub struct AttributeComparisonExpr<S = String> {
    pub name: S,
    pub value: S,
    pub case_sensitivity: ParsedCaseSensitivity,
    pub operator: AttrSelectorOperator,
}

impl View for AttributeComparisonExpr<String> {
    type V = AttributeComparisonExpr<Seq<char>>;

    open spec fn view(&self) -> AttributeComparisonExpr<Seq<char>> {
        AttributeComparisonExpr {
            name: self.name@,
            value: self.value@,
            case_sensitivity: self.case_sensitivity,
            operator: self.operator,
        }
    }
}

impl AttributeComparisonExpr<String> {
    #[must_use]
    pub fn new(
        name: String,
        value: String,
        case_sensitivity: ParsedCaseSensitivity,
        operator: AttrSelectorOperator,
    ) -> (expr: Self)
        ensures
            expr.name == name,
            expr.value == value,
            expr.case_sensitivity == case_sensitivity,
            expr.operator == operator,
    {
        Self { name, value, case_sensitivity, operator }
    }
}

impl Clone for AttributeComparisonExpr<String> {
    fn clone(&self) -> (copy: Self)
        ensures
            copy@ == self@,
    {
        AttributeComparisonExpr {
            name: self.name.clone(),
            value: self.value.clone(),
            case_sensitivity: self.case_sensitivity,
            operator: self.operator,
        }
    }
}

impl PartialEq for AttributeComparisonExpr<String> {
    fn eq(&self, other: &Self) -> (same: bool) {
        self.name == other.name && self.value == other.value && self.case_sensitivity
            == other.case_sensitivity && self.operator == other.operator
    }
}

impl vstd::std_specs::cmp::PartialEqSpecImpl for AttributeComparisonExpr<String> {
    open spec fn obeys_eq_spec() -> bool {
        true
    }

    open spec fn eq_spec(&self, other: &Self) -> bool {
        self@ == other@
    }
}

impl Eq for AttributeComparisonExpr<String> {

}

/// An attribute check when attributes are received and parsed.
#[derive(Debug)]
pub enum OnAttributesExpr<S = String> {
    Id(S),
    Class(S),
    AttributeExists(S),
    AttributeComparisonExpr(AttributeComparisonExpr<S>),
}

impl View for OnAttributesExpr<String> {
    type V = OnAttributesExpr<Seq<char>>;

    open spec fn view(&self) -> OnAttributesExpr<Seq<char>> {
        match self {
            OnAttributesExpr::Id(id) => OnAttributesExpr::Id(id@),
            OnAttributesExpr::Class(class) => OnAttributesExpr::Class(class@),
            OnAttributesExpr::AttributeExists(name) => OnAttributesExpr::AttributeExists(name@),
            OnAttributesExpr::AttributeComparisonExpr(expr) =>
                OnAttributesExpr::AttributeComparisonExpr(expr@),
        }
    }
}

impl Clone for OnAttributesExpr<String> {
    fn clone(&self) -> (copy: Self)
        ensures
            copy@ == self@,
    {
        match self {
            OnAttributesExpr::Id(id) => OnAttributesExpr::Id(id.clone()),
            OnAttributesExpr::Class(class) => OnAttributesExpr::Class(class.clone()),
            OnAttributesExpr::AttributeExists(name) => OnAttributesExpr::AttributeExists(
                name.clone(),
            ),
            OnAttributesExpr::AttributeComparisonExpr(expr) =>
                OnAttributesExpr::AttributeComparisonExpr(expr.clone()),
        }
    }
}

impl PartialEq for OnAttributesExpr<String> {
    fn eq(&self, other: &Self) -> (same: bool) {
        match (self, other) {
            (OnAttributesExpr::Id(a), OnAttributesExpr::Id(b)) => *a == *b,
            (OnAttributesExpr::Class(a), OnAttributesExpr::Class(b)) => *a == *b,
            (OnAttributesExpr::AttributeExists(a), OnAttributesExpr::AttributeExists(b)) => *a
                == *b,
            (
                OnAttributesExpr::AttributeComparisonExpr(a),
                OnAttributesExpr::AttributeComparisonExpr(b),
            ) => *a == *b,
            _ => false,
        }
    }
}

impl vstd::std_specs::cmp::PartialEqSpecImpl for OnAttributesExpr<String> {
    open spec fn obeys_eq_spec() -> bool {
        true
    }

    open spec fn eq_spec(&self, other: &Self) -> bool {
        self@ == other@
    }
}

impl Eq for OnAttributesExpr<String> {

}

/// What a simple selector asks of an element, by when it can be answered.
#[derive(Debug)]
pub enum Condition<S = String> {
    OnTagName(OnTagNameExpr<S>),
    OnAttributes(OnAttributesExpr<S>),
}

impl View for Condition<String> {
    type V = Condition<Seq<char>>;

    open spec fn view(&self) -> Condition<Seq<char>> {
        match self {
            Condition::OnTagName(expr) => Condition::OnTagName(expr@),
            Condition::OnAttributes(expr) => Condition::OnAttributes(expr@),
        }
    }
}

/// What `component` asks of an element.
///
/// A component that is no simple selector, or that names a namespace, never matches.
pub open spec fn condition_of(component: Component) -> Condition<Seq<char>> {
    match component {
        Component::LocalName(name) => Condition::OnTagName(OnTagNameExpr::LocalName(name@)),
        Component::ExplicitUniversalType | Component::ExplicitAnyNamespace => Condition::OnTagName(
            OnTagNameExpr::ExplicitAny,
        ),
        Component::ID(id) => Condition::OnAttributes(OnAttributesExpr::Id(id@)),
        Component::Class(class) => Condition::OnAttributes(OnAttributesExpr::Class(class@)),
        Component::AttributeInNoNamespaceExists { local_name_lower } => Condition::OnAttributes(
            OnAttributesExpr::AttributeExists(local_name_lower@),
        ),
        Component::AttributeInNoNamespace { local_name, operator, value, case_sensitivity } =>
            Condition::OnAttributes(
                OnAttributesExpr::AttributeComparisonExpr(
                    AttributeComparisonExpr {
                        name: local_name@,
                        value: value@,
                        case_sensitivity,
                        operator,
                    },
                ),
            ),
        Component::AttributeOther { has_namespace: false, local_name_lower, operation } =>
            Condition::OnAttributes(
                match operation {
                    AttrOperation::Exists => OnAttributesExpr::AttributeExists(local_name_lower@),
                    AttrOperation::WithValue { operator, case_sensitivity, value } =>
                        OnAttributesExpr::AttributeComparisonExpr(
                            AttributeComparisonExpr {
                                name: local_name_lower@,
                                value: value@,
                                case_sensitivity,
                                operator,
                            },
                        ),
                },
            ),
        Component::Nth { ty: NthType::Child, step, offset } => Condition::OnTagName(
            OnTagNameExpr::NthChild(NthChild::spec_new(step, offset)),
        ),
        Component::Nth { ty: NthType::OfType, step, offset } => Condition::OnTagName(
            OnTagNameExpr::NthOfType(NthChild::spec_new(step, offset)),
        ),
        _ => Condition::OnTagName(OnTagNameExpr::Unmatchable),
    }
}

impl Condition<String> {
    /// The condition that `component` puts on an element.
    pub fn from(component: &Component) -> (condition: Self)
        ensures
            condition@ == condition_of(*component),
    {
        match component {
            Component::LocalName(name) => Condition::OnTagName(
                OnTagNameExpr::LocalName(name.clone()),
            ),
            Component::ExplicitUniversalType | Component::ExplicitAnyNamespace =>
                Condition::OnTagName(OnTagNameExpr::ExplicitAny),
            Component::ExplicitNoNamespace => Condition::OnTagName(OnTagNameExpr::Unmatchable),
            Component::ID(id) => Condition::OnAttributes(OnAttributesExpr::Id(id.clone())),
            Component::Class(class) => Condition::OnAttributes(
                OnAttributesExpr::Class(class.clone()),
            ),
            Component::AttributeInNoNamespaceExists { local_name_lower } => Condition::OnAttributes(
                OnAttributesExpr::AttributeExists(local_name_lower.clone()),
            ),
            Component::AttributeInNoNamespace { local_name, operator, value, case_sensitivity } =>
                Condition::OnAttributes(
                    OnAttributesExpr::AttributeComparisonExpr(
                        AttributeComparisonExpr::new(
                            local_name.clone(),
                            value.clone(),
                            *case_sensitivity,
                            *operator,
                        ),
                    ),
                ),
            Component::AttributeOther { has_namespace: false, local_name_lower, operation } =>
                Condition::OnAttributes(
                    match operation {
                        AttrOperation::Exists => OnAttributesExpr::AttributeExists(
                            local_name_lower.clone(),
                        ),
                        AttrOperation::WithValue { operator, case_sensitivity, value } =>
                            OnAttributesExpr::AttributeComparisonExpr(
                                AttributeComparisonExpr::new(
                                    local_name_lower.clone(),
                                    value.clone(),
                                    *case_sensitivity,
                                    *operator,
                                ),
                            ),
                    },
                ),
            Component::Nth { ty: NthType::Child, step, offset } => Condition::OnTagName(
                OnTagNameExpr::NthChild(NthChild::new(*step, *offset)),
            ),
            Component::Nth { ty: NthType::OfType, step, offset } => Condition::OnTagName(
                OnTagNameExpr::NthOfType(NthChild::new(*step, *offset)),
            ),
            // The rest should not appear in a parsed selector.
            _ => Condition::OnTagName(OnTagNameExpr::Unmatchable),
        }
    }
}

/// A condition, or its negation.
#[derive(Debug)]
pub struct Expr<E> {
    pub simple_expr: E,
    pub negation: bool,
}

impl<E: View> View for Expr<E> {
    type V = Expr<E::V>;

    open spec fn view(&self) -> Expr<E::V> {
        Expr { simple_expr: self.simple_expr@, negation: self.negation }
    }
}

impl<E> Expr<E> {
    pub fn new(simple_expr: E, negation: bool) -> (expr: Self)
        ensures
            expr.simple_expr == simple_expr,
            expr.negation == negation,
    {
        Self { simple_expr, negation }
    }
}

impl Clone for Expr<OnTagNameExpr<String>> {
    fn clone(&self) -> (copy: Self)
        ensures
            copy@ == self@,
    {
        Expr { simple_expr: self.simple_expr.clone(), negation: self.negation }
    }
}

impl Clone for Expr<OnAttributesExpr<String>> {
    fn clone(&self) -> (copy: Self)
        ensures
            copy@ == self@,
    {
        Expr { simple_expr: self.simple_expr.clone(), negation: self.negation }
    }
}

impl PartialEq for Expr<OnTagNameExpr<String>> {
    fn eq(&self, other: &Self) -> (same: bool) {
        self.simple_expr == other.simple_expr && self.negation == other.negation
    }
}

impl vstd::std_specs::cmp::PartialEqSpecImpl for Expr<OnTagNameExpr<String>> {
    open spec fn obeys_eq_spec() -> bool {
        true
    }

    open spec fn eq_spec(&self, other: &Self) -> bool {
        self@ == other@
    }
}

impl Eq for Expr<OnTagNameExpr<String>> {

}

impl PartialEq for Expr<OnAttributesExpr<String>> {
    fn eq(&self, other: &Self) -> (same: bool) {
        self.simple_expr == other.simple_expr && self.negation == other.negation
    }
}

impl vstd::std_specs::cmp::PartialEqSpecImpl for Expr<OnAttributesExpr<String>> {
    open spec fn obeys_eq_spec() -> bool {
        true
    }

    open spec fn eq_spec(&self, other: &Self) -> bool {
        self@ == other@
    }
}

impl Eq for Expr<OnAttributesExpr<String>> {

}

/// The views of the elements of a sequence.
pub open spec fn views<E: View>(items: Seq<E>) -> Seq<E::V> {
    items.map_values(|item: E| item@)
}

/// Appends an expression to a list of them.
pub fn add_expr_to_list<E: View>(list: &mut Vec<Expr<E>>, expr: E, negation: bool)
    ensures
        views(final(list)@) == views(old(list)@).push(Expr { simple_expr: expr@, negation }),
{
    list.push(Expr::new(expr, negation));
    assert(views(list@) =~= views(old(list)@).push(Expr { simple_expr: expr@, negation }));
}

/// A conjunction: an element matches when every expression holds of it.
#[derive(Debug)]
pub struct Predicate {
    pub on_tag_name_exprs: Vec<Expr<OnTagNameExpr<String>>>,
    pub on_attr_exprs: Vec<Expr<OnAttributesExpr<String>>>,
}

/// What a [`Predicate`] is made of.
#[verifier::ext_equal]
pub struct PredicateView {
    pub on_tag_name_exprs: Seq<Expr<OnTagNameExpr<Seq<char>>>>,
    pub on_attr_exprs: Seq<Expr<OnAttributesExpr<Seq<char>>>>,
}

impl PredicateView {
    /// The predicate that holds of every element.
    pub open spec fn empty() -> Self {
        PredicateView { on_tag_name_exprs: Seq::empty(), on_attr_exprs: Seq::empty() }
    }

    /// The predicate made of one condition or its negation.
    pub open spec fn of(condition: Condition<Seq<char>>, negation: bool) -> Self {
        match condition {
            Condition::OnTagName(expr) => PredicateView {
                on_tag_name_exprs: seq![Expr { simple_expr: expr, negation }],
                on_attr_exprs: Seq::empty(),
            },
            Condition::OnAttributes(expr) => PredicateView {
                on_tag_name_exprs: Seq::empty(),
                on_attr_exprs: seq![Expr { simple_expr: expr, negation }],
            },
        }
    }

    /// The conjunction of two predicates.
    pub open spec fn and(self, other: Self) -> Self {
        PredicateView {
            on_tag_name_exprs: self.on_tag_name_exprs + other.on_tag_name_exprs,
            on_attr_exprs: self.on_attr_exprs + other.on_attr_exprs,
        }
    }
}

impl View for Predicate {
    type V = PredicateView;

    open spec fn view(&self) -> PredicateView {
        PredicateView {
            on_tag_name_exprs: views(self.on_tag_name_exprs@),
            on_attr_exprs: views(self.on_attr_exprs@),
        }
    }
}

impl Default for Predicate {
    fn default() -> (predicate: Self)
        ensures
            predicate@ == PredicateView::empty(),
    {
        let predicate = Predicate { on_tag_name_exprs: Vec::new(), on_attr_exprs: Vec::new() };
        assert(predicate@ =~= PredicateView::empty());
        predicate
    }
}

impl Clone for Predicate {
    fn clone(&self) -> (copy: Self)
        ensures
            copy@ == self@,
    {
        let predicate: Predicate = Predicate::default();
        let copy = predicate.and(self);
        assert(copy@ =~= self@);
        copy
    }
}

impl PartialEq for Predicate {
    fn eq(&self, other: &Self) -> (same: bool) {
        let same = self.on_tag_name_exprs == other.on_tag_name_exprs && self.on_attr_exprs
            == other.on_attr_exprs;
        proof {
            if same {
                assert(views(self.on_tag_name_exprs@) =~= views(other.on_tag_name_exprs@));
                assert(views(self.on_attr_exprs@) =~= views(other.on_attr_exprs@));
            } else if self@ == other@ {
                let tags = views(self.on_tag_name_exprs@);
                let attrs = views(self.on_attr_exprs@);
                assert(self.on_tag_name_exprs.len() == tags.len() == other.on_tag_name_exprs.len());
                assert(self.on_attr_exprs.len() == attrs.len() == other.on_attr_exprs.len());
                assert forall|i: int| 0 <= i < self.on_tag_name_exprs.len() implies (
                #[trigger] self.on_tag_name_exprs[i])@ == other.on_tag_name_exprs[i]@ by {
                    assert(tags[i] == views(other.on_tag_name_exprs@)[i]);
                }
                assert forall|i: int| 0 <= i < self.on_attr_exprs.len() implies (
                #[trigger] self.on_attr_exprs[i])@ == other.on_attr_exprs[i]@ by {
                    assert(attrs[i] == views(other.on_attr_exprs@)[i]);
                }
            }
        }
        same
    }
}

impl vstd::std_specs::cmp::PartialEqSpecImpl for Predicate {
    open spec fn obeys_eq_spec() -> bool {
        true
    }

    open spec fn eq_spec(&self, other: &Self) -> bool {
        self@ == other@
    }
}

impl Eq for Predicate {

}

impl Predicate {
    /// Adds what a component asks of an element, or its negation.
    pub fn add_component(&mut self, component: &Component, negation: bool)
        ensures
            final(self)@ == old(self)@.and(PredicateView::of(condition_of(*component), negation)),
    {
        match Condition::from(component) {
            Condition::OnTagName(expr) => add_expr_to_list(
                &mut self.on_tag_name_exprs,
                expr,
                negation,
            ),
            Condition::OnAttributes(expr) => add_expr_to_list(
                &mut self.on_attr_exprs,
                expr,
                negation,
            ),
        }
        assert(self@ =~= old(self)@.and(PredicateView::of(condition_of(*component), negation)));
    }

    /// The conjunction of `self` and `other`.
    pub fn and(self, other: &Self) -> (both: Self)
        ensures
            both@ == self@.and(other@),
    {
        let mut both = self;
        let mut i: usize = 0;
        while i < other.on_tag_name_exprs.len()
            invariant
                i <= other.on_tag_name_exprs.len(),
                views(both.on_tag_name_exprs@) == views(self.on_tag_name_exprs@) + views(
                    other.on_tag_name_exprs@.take(i as int),
                ),
                both.on_attr_exprs == self.on_attr_exprs,
            decreases other.on_tag_name_exprs.len() - i,
        {
            let ghost before = both.on_tag_name_exprs@;
            both.on_tag_name_exprs.push(other.on_tag_name_exprs[i].clone());
            i = i + 1;
            assert(views(both.on_tag_name_exprs@) =~= views(before).push(
                other.on_tag_name_exprs@[i - 1]@,
            ));
            assert(views(both.on_tag_name_exprs@) =~= views(self.on_tag_name_exprs@) + views(
                other.on_tag_name_exprs@.take(i as int),
            ));
        }
        let mut j: usize = 0;
        assert(other.on_tag_name_exprs@.take(i as int) == other.on_tag_name_exprs@);
        assert(views(both.on_attr_exprs@) =~= views(self.on_attr_exprs@) + views(
            other.on_attr_exprs@.take(0),
        ));
        while j < other.on_attr_exprs.len()
            invariant
                j <= other.on_attr_exprs.len(),
                views(both.on_attr_exprs@) == views(self.on_attr_exprs@) + views(
                    other.on_attr_exprs@.take(j as int),
                ),
                views(both.on_tag_name_exprs@) == views(self.on_tag_name_exprs@) + views(
                    other.on_tag_name_exprs@,
                ),
            decreases other.on_attr_exprs.len() - j,
        {
            let ghost before = both.on_attr_exprs@;
            both.on_attr_exprs.push(other.on_attr_exprs[j].clone());
            j = j + 1;
            assert(views(both.on_attr_exprs@) =~= views(before).push(
                other.on_attr_exprs@[j - 1]@,
            ));
            assert(views(both.on_attr_exprs@) =~= views(self.on_attr_exprs@) + views(
                other.on_attr_exprs@.take(j as int),
            ));
        }
        assert(other.on_attr_exprs@.take(j as int) == other.on_attr_exprs@);
        both
    }
}

} // verus!
