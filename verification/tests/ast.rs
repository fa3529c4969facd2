use cssparser::{BasicParseErrorKind, ParseError, ParseErrorKind, Parser as CssParser, ToCss};
use lol_html::selectors_vm::ast::{Ast, AstNode};
use lol_html::selectors_vm::dense_hash_set::{DenseHashSet, MatchId};
use lol_html::selectors_vm::expansion::{count_alternatives, MAX_ALTERNATIVES};
use lol_html::selectors_vm::expr::{
    AttributeComparisonExpr, Expr, OnAttributesExpr, OnTagNameExpr, Predicate,
};
use lol_html::selectors_vm::nth_child::NthChild;
use lol_html::selectors_vm::selector::{
    AttrOperation, AttrSelectorOperator, Combinator, ComplexSelector, Component, NthType,
    ParsedCaseSensitivity, Selector,
};
use lol_html::selectors_vm::selector_error::{SelectorError, SyntaxError};
use precomputed_hash::PrecomputedHash;
use selectors::attr;
use selectors::parser::{
    self, NonTSPseudoClass, ParseRelative, PseudoElement, SelectorImpl, SelectorList,
    SelectorParseErrorKind,
};
use std::fmt;

#[derive(Clone, Debug, Default, PartialEq, Eq)]
struct CssString(String);

impl<'a> From<&'a str> for CssString {
    fn from(string: &'a str) -> Self {
        CssString(string.to_owned())
    }
}

impl ToCss for CssString {
    fn to_css<W: fmt::Write>(&self, dest: &mut W) -> fmt::Result {
        dest.write_str(&self.0)
    }
}

impl PrecomputedHash for CssString {
    fn precomputed_hash(&self) -> u32 {
        0
    }
}

#[derive(Clone, Debug, PartialEq, Eq)]
enum NoPseudo {}

impl ToCss for NoPseudo {
    fn to_css<W: fmt::Write>(&self, _dest: &mut W) -> fmt::Result {
        match *self {}
    }
}

#[derive(Clone, Debug, PartialEq, Eq)]
struct Descriptor;

impl NonTSPseudoClass for NoPseudo {
    fn is_active_or_hover(&self) -> bool {
        match *self {}
    }

    fn is_user_action_state(&self) -> bool {
        match *self {}
    }
}

impl PseudoElement for NoPseudo {}

impl SelectorImpl for Descriptor {
    type ExtraMatchingData<'a> = ();
    type AttrValue = CssString;
    type Identifier = CssString;
    type LocalName = CssString;
    type NamespaceUrl = CssString;
    type NamespacePrefix = CssString;
    type BorrowedNamespaceUrl = CssString;
    type BorrowedLocalName = CssString;
    type NonTSPseudoClass = NoPseudo;
    type PseudoElement = NoPseudo;
}

struct SelectorsParser;

impl<'i> parser::Parser<'i> for SelectorsParser {
    type Impl = Descriptor;
    type Error = SelectorParseErrorKind;
}

fn operator_of(operator: attr::AttrSelectorOperator) -> AttrSelectorOperator {
    match operator {
        attr::AttrSelectorOperator::Equal => AttrSelectorOperator::Equal,
        attr::AttrSelectorOperator::Includes => AttrSelectorOperator::Includes,
        attr::AttrSelectorOperator::DashMatch => AttrSelectorOperator::DashMatch,
        attr::AttrSelectorOperator::Prefix => AttrSelectorOperator::Prefix,
        attr::AttrSelectorOperator::Substring => AttrSelectorOperator::Substring,
        attr::AttrSelectorOperator::Suffix => AttrSelectorOperator::Suffix,
    }
}

fn case_sensitivity_of(case: attr::ParsedCaseSensitivity) -> ParsedCaseSensitivity {
    match case {
        attr::ParsedCaseSensitivity::ExplicitCaseSensitive => {
            ParsedCaseSensitivity::ExplicitCaseSensitive
        }
        attr::ParsedCaseSensitivity::AsciiCaseInsensitive => {
            ParsedCaseSensitivity::AsciiCaseInsensitive
        }
        attr::ParsedCaseSensitivity::CaseSensitive => ParsedCaseSensitivity::CaseSensitive,
        attr::ParsedCaseSensitivity::AsciiCaseInsensitiveIfInHtmlElementInHtmlDocument => {
            ParsedCaseSensitivity::AsciiCaseInsensitiveIfInHtmlElementInHtmlDocument
        }
    }
}

fn operation_of(operation: &attr::ParsedAttrSelectorOperation<CssString>) -> AttrOperation {
    match operation {
        attr::ParsedAttrSelectorOperation::Exists => AttrOperation::Exists,
        attr::ParsedAttrSelectorOperation::WithValue {
            operator,
            case_sensitivity,
            value,
        } => AttrOperation::WithValue {
            operator: operator_of(*operator),
            case_sensitivity: case_sensitivity_of(*case_sensitivity),
            value: value.0.clone(),
        },
    }
}

fn nth_type_of(ty: parser::NthType) -> NthType {
    match ty {
        parser::NthType::Child => NthType::Child,
        parser::NthType::LastChild => NthType::LastChild,
        parser::NthType::OnlyChild => NthType::OnlyChild,
        parser::NthType::OfType => NthType::OfType,
        parser::NthType::LastOfType => NthType::LastOfType,
        parser::NthType::OnlyOfType => NthType::OnlyOfType,
    }
}

fn combinator_of(combinator: parser::Combinator) -> Combinator {
    match combinator {
        parser::Combinator::Child => Combinator::Child,
        parser::Combinator::Descendant => Combinator::Descendant,
        parser::Combinator::NextSibling => Combinator::NextSibling,
        parser::Combinator::LaterSibling => Combinator::LaterSibling,
        parser::Combinator::PseudoElement => Combinator::PseudoElement,
        parser::Combinator::SlotAssignment => Combinator::SlotAssignment,
        parser::Combinator::Part => Combinator::Part,
    }
}

fn component_of(component: &parser::Component<Descriptor>) -> Component {
    match component {
        parser::Component::LocalName(name) => Component::LocalName(name.name.0.clone()),
        parser::Component::ID(id) => Component::ID(id.0.clone()),
        parser::Component::Class(class) => Component::Class(class.0.clone()),
        parser::Component::AttributeInNoNamespaceExists {
            local_name_lower, ..
        } => Component::AttributeInNoNamespaceExists {
            local_name_lower: local_name_lower.0.clone(),
        },
        parser::Component::AttributeInNoNamespace {
            local_name,
            operator,
            value,
            case_sensitivity,
        } => Component::AttributeInNoNamespace {
            local_name: local_name.0.clone(),
            operator: operator_of(*operator),
            value: value.0.clone(),
            case_sensitivity: case_sensitivity_of(*case_sensitivity),
        },
        parser::Component::AttributeOther(other) => Component::AttributeOther {
            has_namespace: other.namespace.is_some(),
            local_name_lower: other.local_name_lower.0.clone(),
            operation: operation_of(&other.operation),
        },
        parser::Component::ExplicitUniversalType => Component::ExplicitUniversalType,
        parser::Component::ExplicitAnyNamespace => Component::ExplicitAnyNamespace,
        parser::Component::ExplicitNoNamespace => Component::ExplicitNoNamespace,
        parser::Component::Negation(list) => Component::Negation(selectors_of(list)),
        parser::Component::Nth(nth) => Component::Nth {
            ty: nth_type_of(nth.ty),
            step: nth.an_plus_b.0,
            offset: nth.an_plus_b.1,
        },
        parser::Component::Combinator(combinator) => {
            Component::Combinator(combinator_of(*combinator))
        }
        _ => Component::Unsupported,
    }
}

fn selectors_of(list: &SelectorList<Descriptor>) -> Vec<ComplexSelector> {
    list.slice()
        .iter()
        .map(|selector| ComplexSelector {
            components: selector.iter_raw_match_order().map(component_of).collect(),
        })
        .collect()
}

fn syntax_error_of(error: ParseError<SelectorParseErrorKind>) -> SyntaxError {
    match error.kind {
        ParseErrorKind::Basic(BasicParseErrorKind::UnexpectedToken) => SyntaxError::UnexpectedToken,
        ParseErrorKind::Basic(BasicParseErrorKind::EndOfInput) => SyntaxError::EndOfInput,
        ParseErrorKind::Basic(
            BasicParseErrorKind::AtRuleInvalid
            | BasicParseErrorKind::AtRuleBodyInvalid
            | BasicParseErrorKind::QualifiedRuleInvalid
            | BasicParseErrorKind::TooManyNestedBlocks,
        ) => SyntaxError::InvalidRule,
        ParseErrorKind::Custom(kind) => match kind {
            SelectorParseErrorKind::NoQualifiedNameInAttributeSelector => {
                SyntaxError::NoQualifiedNameInAttributeSelector
            }
            SelectorParseErrorKind::EmptySelector => SyntaxError::EmptySelector,
            SelectorParseErrorKind::DanglingCombinator => SyntaxError::DanglingCombinator,
            SelectorParseErrorKind::UnexpectedTokenInAttributeSelector => {
                SyntaxError::UnexpectedTokenInAttributeSelector
            }
            SelectorParseErrorKind::ExpectedBarInAttr => SyntaxError::ExpectedBarInAttr,
            SelectorParseErrorKind::BadValueInAttr => SyntaxError::BadValueInAttr,
            SelectorParseErrorKind::InvalidQualNameInAttr => SyntaxError::InvalidQualNameInAttr,
            SelectorParseErrorKind::ExpectedNamespace => SyntaxError::ExpectedNamespace,
            SelectorParseErrorKind::ExplicitNamespaceUnexpectedToken => {
                SyntaxError::ExplicitNamespaceUnexpectedToken
            }
            SelectorParseErrorKind::ClassNeedsIdent => SyntaxError::ClassNeedsIdent,
            SelectorParseErrorKind::InvalidState => SyntaxError::InvalidState,
            SelectorParseErrorKind::NonCompoundSelector
            | SelectorParseErrorKind::NonPseudoElementAfterSlotted
            | SelectorParseErrorKind::InvalidPseudoElementAfterSlotted
            | SelectorParseErrorKind::InvalidPseudoElementInsideWhere
            | SelectorParseErrorKind::PseudoElementExpectedColon
            | SelectorParseErrorKind::PseudoElementExpectedIdent
            | SelectorParseErrorKind::NoIdentForPseudo
            | SelectorParseErrorKind::UnsupportedPseudoClassOrElement
            | SelectorParseErrorKind::UnexpectedIdent => SyntaxError::Pseudo,
        },
    }
}

fn parse_selector(selector: &str) -> Result<Selector, SelectorError> {
    let mut input = CssParser::new(selector);
    let list: SelectorList<Descriptor> =
        SelectorList::parse(&SelectorsParser, &mut input, ParseRelative::No)
            .map_err(|error| SelectorError::of_syntax(syntax_error_of(error)))?;
    let selector = Selector(selectors_of(&list));
    selector.validate()?;
    Ok(selector)
}

fn parse(selector: &str) -> Selector {
    parse_selector(selector).unwrap()
}

fn assert_err(selector: &str, expected_err: SelectorError) {
    assert_eq!(parse_selector(selector).unwrap_err(), expected_err);
}

fn ids(match_ids: &[MatchId]) -> DenseHashSet {
    let mut set = DenseHashSet::new();
    for id in match_ids {
        set.insert(*id);
    }
    set
}

fn assert_ast(selectors: &[&str], expected: Ast) {
    let mut ast = Ast::default();

    for (selector, match_id) in selectors.iter().zip(0..) {
        ast.add_selector(&parse(selector), match_id);
    }

    assert_eq!(ast, expected);
}

fn tag_name(name: &str, negation: bool) -> Predicate {
    Predicate {
        on_tag_name_exprs: vec![Expr {
            simple_expr: OnTagNameExpr::LocalName(name.into()),
            negation,
        }],
        ..Default::default()
    }
}

fn attribute(simple_expr: OnAttributesExpr, negation: bool) -> Predicate {
    Predicate {
        on_attr_exprs: vec![Expr {
            simple_expr,
            negation,
        }],
        ..Default::default()
    }
}

fn class(name: &str, negation: bool) -> Predicate {
    attribute(OnAttributesExpr::Class(name.into()), negation)
}

fn id(name: &str) -> Predicate {
    attribute(OnAttributesExpr::Id(name.into()), false)
}

fn has_attribute(name: &str) -> Predicate {
    attribute(OnAttributesExpr::AttributeExists(name.into()), false)
}

fn node(
    predicate: Predicate,
    children: Vec<AstNode>,
    descendants: Vec<AstNode>,
    match_ids: &[MatchId],
) -> AstNode {
    AstNode {
        predicate,
        children,
        descendants,
        match_ids: ids(match_ids),
    }
}

fn leaf(predicate: Predicate) -> AstNode {
    node(predicate, vec![], vec![], &[0])
}

fn comparison(
    name: &str,
    value: &str,
    case_sensitivity: ParsedCaseSensitivity,
    operator: AttrSelectorOperator,
) -> OnAttributesExpr {
    OnAttributesExpr::AttributeComparisonExpr(AttributeComparisonExpr {
        name: name.into(),
        value: value.into(),
        case_sensitivity,
        operator,
    })
}

#[test]
fn simple_non_attr_expression() {
    for (selector, expected) in [
        (
            "*",
            Expr {
                simple_expr: OnTagNameExpr::ExplicitAny,
                negation: false,
            },
        ),
        (
            "div",
            Expr {
                simple_expr: OnTagNameExpr::LocalName("div".into()),
                negation: false,
            },
        ),
        (
            ":not(div)",
            Expr {
                simple_expr: OnTagNameExpr::LocalName("div".into()),
                negation: true,
            },
        ),
    ] {
        assert_ast(
            &[selector],
            Ast {
                root: vec![AstNode {
                    predicate: Predicate {
                        on_tag_name_exprs: vec![expected],
                        ..Default::default()
                    },
                    children: vec![],
                    descendants: vec![],
                    match_ids: ids(&[0]),
                }],
                cumulative_node_count: 1,
            },
        );
    }
}

#[test]
fn simple_attr_expression() {
    for (selector, expected, negation) in [
        ("#foo", OnAttributesExpr::Id("foo".into()), false),
        (".bar", OnAttributesExpr::Class("bar".into()), false),
        (
            "[foo]",
            OnAttributesExpr::AttributeExists("foo".into()),
            false,
        ),
        (
            "[FOO]",
            OnAttributesExpr::AttributeExists("foo".into()),
            false,
        ),
        (
            r#"[foo="bar"]"#,
            comparison(
                "foo",
                "bar",
                ParsedCaseSensitivity::CaseSensitive,
                AttrSelectorOperator::Equal,
            ),
            false,
        ),
        (
            r#"[FOO="bar"]"#,
            comparison(
                "foo",
                "bar",
                ParsedCaseSensitivity::CaseSensitive,
                AttrSelectorOperator::Equal,
            ),
            false,
        ),
        (
            r#"[foo*=""]"#,
            comparison(
                "foo",
                "",
                ParsedCaseSensitivity::CaseSensitive,
                AttrSelectorOperator::Substring,
            ),
            false,
        ),
        (
            r#"[foo~="bar" i]"#,
            comparison(
                "foo",
                "bar",
                ParsedCaseSensitivity::AsciiCaseInsensitive,
                AttrSelectorOperator::Includes,
            ),
            false,
        ),
        (
            r#"[foo|="bar" s]"#,
            comparison(
                "foo",
                "bar",
                ParsedCaseSensitivity::ExplicitCaseSensitive,
                AttrSelectorOperator::DashMatch,
            ),
            false,
        ),
        (
            r#"[foo^="bar"]"#,
            comparison(
                "foo",
                "bar",
                ParsedCaseSensitivity::CaseSensitive,
                AttrSelectorOperator::Prefix,
            ),
            false,
        ),
        (
            r#"[foo*="bar"]"#,
            comparison(
                "foo",
                "bar",
                ParsedCaseSensitivity::CaseSensitive,
                AttrSelectorOperator::Substring,
            ),
            false,
        ),
        (
            r#"[foo$="bar"]"#,
            comparison(
                "foo",
                "bar",
                ParsedCaseSensitivity::CaseSensitive,
                AttrSelectorOperator::Suffix,
            ),
            false,
        ),
        (
            r#":not([foo$="bar"])"#,
            comparison(
                "foo",
                "bar",
                ParsedCaseSensitivity::CaseSensitive,
                AttrSelectorOperator::Suffix,
            ),
            true,
        ),
    ] {
        assert_ast(
            &[selector],
            Ast {
                root: vec![leaf(attribute(expected, negation))],
                cumulative_node_count: 1,
            },
        );
    }
}

#[test]
fn compound_selectors() {
    assert_ast(
        &["div.foo#bar:not([baz])"],
        Ast {
            root: vec![AstNode {
                predicate: Predicate {
                    on_tag_name_exprs: vec![Expr {
                        simple_expr: OnTagNameExpr::LocalName("div".into()),
                        negation: false,
                    }],
                    on_attr_exprs: vec![
                        Expr {
                            simple_expr: OnAttributesExpr::AttributeExists("baz".into()),
                            negation: true,
                        },
                        Expr {
                            simple_expr: OnAttributesExpr::Id("bar".into()),
                            negation: false,
                        },
                        Expr {
                            simple_expr: OnAttributesExpr::Class("foo".into()),
                            negation: false,
                        },
                    ],
                },
                children: vec![],
                descendants: vec![],
                match_ids: ids(&[0]),
            }],
            cumulative_node_count: 1,
        },
    );
}

#[test]
fn multiple_payloads() {
    assert_ast(
        &["#foo", "#foo"],
        Ast {
            root: vec![node(id("foo"), vec![], vec![], &[0, 1])],
            cumulative_node_count: 1,
        },
    );
}

#[test]
fn selector_list() {
    assert_ast(
        &["#foo > div, #foo > span", "#foo > .c1, #foo > .c2"],
        Ast {
            root: vec![node(
                id("foo"),
                vec![
                    node(tag_name("div", false), vec![], vec![], &[0]),
                    node(tag_name("span", false), vec![], vec![], &[0]),
                    node(class("c1", false), vec![], vec![], &[1]),
                    node(class("c2", false), vec![], vec![], &[1]),
                ],
                vec![],
                &[],
            )],
            cumulative_node_count: 5,
        },
    );
}

#[test]
fn combinators() {
    assert_ast(
        &[
            ".c1 > .c2 .c3 #foo",
            ".c1 > .c2 #bar",
            ".c1 > #qux",
            ".c1 #baz",
            ".c1 [foo] [bar]",
            "#quz",
        ],
        Ast {
            root: vec![
                node(
                    class("c1", false),
                    vec![
                        node(
                            class("c2", false),
                            vec![],
                            vec![
                                node(
                                    class("c3", false),
                                    vec![],
                                    vec![node(id("foo"), vec![], vec![], &[0])],
                                    &[],
                                ),
                                node(id("bar"), vec![], vec![], &[1]),
                            ],
                            &[],
                        ),
                        node(id("qux"), vec![], vec![], &[2]),
                    ],
                    vec![
                        node(id("baz"), vec![], vec![], &[3]),
                        node(
                            has_attribute("foo"),
                            vec![],
                            vec![node(has_attribute("bar"), vec![], vec![], &[4])],
                            &[],
                        ),
                    ],
                    &[],
                ),
                node(id("quz"), vec![], vec![], &[5]),
            ],
            cumulative_node_count: 10,
        },
    );
}

#[test]
fn parse_errors() {
    assert_err("div@", SelectorError::UnexpectedToken);
    assert_err("div.", SelectorError::UnexpectedEnd);
    assert_err(r#"div[="foo"]"#, SelectorError::MissingAttributeName);
    assert_err("", SelectorError::EmptySelector);
    assert_err("div >", SelectorError::DanglingCombinator);
    assert_err(
        r#"div[foo~"bar"]"#,
        SelectorError::UnexpectedTokenInAttribute,
    );
    assert_err("svg|img", SelectorError::NamespacedSelector);
    assert_err("[*|Foo]", SelectorError::NamespacedSelector);
    assert_err("[*|Foo=bar]", SelectorError::NamespacedSelector);
    assert_err(".foo()", SelectorError::InvalidClassName);
    assert_err(":not()", SelectorError::EmptySelector);
    assert_err("div + span", SelectorError::UnsupportedCombinator('+'));
    assert_err("div ~ span", SelectorError::UnsupportedCombinator('~'));
    assert_err(":nth-child(n of a)", SelectorError::UnexpectedToken);
}

#[test]
fn pseudo_class_parse_errors() {
    for s in &[
        ":active",
        ":any-link",
        ":blank",
        ":checked",
        ":current",
        ":default",
        ":defined",
        ":dir(rtl)",
        ":disabled",
        ":drop",
        ":empty",
        ":enabled",
        ":first",
        ":fullscreen",
        ":future",
        ":focus",
        ":focus-visible",
        ":focus-within",
        ":has(div)",
        ":host",
        ":host(h1)",
        ":host-context(h1)",
        ":hover",
        ":indeterminate",
        ":in-range",
        ":invalid",
        ":is(header)",
        ":lang(en)",
        ":last-child",
        ":last-of-type",
        ":left",
        ":link",
        ":local-link",
        ":nth-col(1)",
        ":nth-last-child(1)",
        ":nth-last-col(1)",
        ":nth-last-of-type(1)",
        ":only-child",
        ":only-of-type",
        ":optional",
        ":out-of-range",
        ":past",
        ":placeholder-shown",
        ":read-only",
        ":read-write",
        ":required",
        ":right",
        ":root",
        ":scope",
        ":target",
        ":target-within",
        ":user-invalid",
        ":valid",
        ":visited",
        ":where(p)",
        ":not(foo bar)",
        ":not(foo > bar)",
        ":not(* > .x)",
    ] {
        assert_err(s, SelectorError::UnsupportedPseudoClassOrElement);
    }
}

#[test]
fn pseudo_elements_parse_errors() {
    for s in &[
        "::after",
        "::backdrop",
        "::before",
        "::cue",
        "::first-letter",
        "::first-line",
        "::grammar-error",
        "::marker",
        "::placeholder",
        "::selection",
        "::slotted()",
        "::spelling-error",
    ] {
        assert_err(s, SelectorError::UnsupportedPseudoClassOrElement);
    }
}

#[test]
fn negated_pseudo_class_parse_error() {
    assert_err(
        ":not(:nth-last-child(even))",
        SelectorError::UnsupportedPseudoClassOrElement,
    );
}

#[test]
fn nested_not_selector() {
    assert_ast(
        &[":not(:not(div))"],
        Ast {
            // simplified double negation
            root: vec![leaf(tag_name("div", false))],
            cumulative_node_count: 1,
        },
    );

    assert_ast(
        &[":not(:not(:not(div)))"],
        Ast {
            root: vec![leaf(tag_name("div", true))],
            cumulative_node_count: 1,
        },
    );

    assert_ast(
        &["div:not(:not(.foo))"],
        Ast {
            root: vec![leaf(Predicate {
                on_tag_name_exprs: vec![Expr {
                    simple_expr: OnTagNameExpr::LocalName("div".into()),
                    negation: false,
                }],
                on_attr_exprs: vec![Expr {
                    simple_expr: OnAttributesExpr::Class("foo".into()),
                    negation: false, // simplified double negation
                }],
            })],
            cumulative_node_count: 1,
        },
    );
}

#[test]
fn negated_compound_selector_has_an_alternative_per_simple_selector() {
    // `!(div && .foo)` is `!div || !.foo`
    assert_ast(
        &[":not(div.foo)"],
        Ast {
            root: vec![leaf(tag_name("div", true)), leaf(class("foo", true))],
            cumulative_node_count: 2,
        },
    );

    // `!(div || span)` is `!div && !span`
    assert_ast(
        &[":not(div, span)"],
        Ast {
            root: vec![leaf(tag_name("div", true).and(&tag_name("span", true)))],
            cumulative_node_count: 1,
        },
    );
}

#[test]
fn double_negation_of_a_selector_list_has_an_alternative_per_selector() {
    for selector in [":not(:not(div, span))", ":not(:not(div):not(span))"] {
        assert_ast(
            &[selector],
            Ast {
                root: vec![leaf(tag_name("div", false)), leaf(tag_name("span", false))],
                cumulative_node_count: 2,
            },
        );
    }

    assert_ast(
        &[":not(:not(div.foo))"],
        Ast {
            root: vec![leaf(tag_name("div", false).and(&class("foo", false)))],
            cumulative_node_count: 1,
        },
    );
}

#[test]
fn alternatives_of_every_compound_selector_are_combined() {
    let child = |predicate| AstNode {
        children: vec![leaf(tag_name("a", true)), leaf(class("b", true))],
        match_ids: DenseHashSet::new(),
        ..leaf(predicate)
    };

    assert_ast(
        &[":not(div.foo) > :not(a.b)"],
        Ast {
            root: vec![child(tag_name("div", true)), child(class("foo", true))],
            cumulative_node_count: 6,
        },
    );
}

#[test]
fn too_many_alternatives() {
    let selector =
        |count| -> String { (0..count).map(|i| format!(":not(a{i}.b{i})")).collect() };

    // 2^8 alternatives
    let mut ast = Ast::default();
    ast.add_selector(&parse(&selector(8)), 0);
    assert_eq!(ast.root.len(), MAX_ALTERNATIVES);

    assert_err(&selector(9), SelectorError::UnsupportedSyntax);
    assert_err(
        &format!("{} > {}", selector(5), selector(4)),
        SelectorError::UnsupportedSyntax,
    );
    assert_err(&selector(200), SelectorError::UnsupportedSyntax);

    // Every `:not()` has one alternative here, however many there are.
    parse_selector(&":not(.a)".repeat(1000)).unwrap();
}

#[test]
fn positions_among_siblings() {
    assert_ast(
        &["li:nth-child(2n+1)", "li:nth-of-type(3)"],
        Ast {
            root: vec![
                node(
                    Predicate {
                        on_tag_name_exprs: vec![
                            Expr {
                                simple_expr: OnTagNameExpr::NthChild(NthChild::new(2, 1)),
                                negation: false,
                            },
                            Expr {
                                simple_expr: OnTagNameExpr::LocalName("li".into()),
                                negation: false,
                            },
                        ],
                        ..Default::default()
                    },
                    vec![],
                    vec![],
                    &[0],
                ),
                node(
                    Predicate {
                        on_tag_name_exprs: vec![
                            Expr {
                                simple_expr: OnTagNameExpr::NthOfType(NthChild::new(0, 3)),
                                negation: false,
                            },
                            Expr {
                                simple_expr: OnTagNameExpr::LocalName("li".into()),
                                negation: false,
                            },
                        ],
                        ..Default::default()
                    },
                    vec![],
                    vec![],
                    &[1],
                ),
            ],
            cumulative_node_count: 2,
        },
    );
}

#[test]
fn what_cannot_be_matched_never_matches() {
    let selector = Selector(vec![ComplexSelector {
        components: vec![Component::Unsupported],
    }]);
    assert_eq!(
        selector.validate(),
        Err(SelectorError::UnsupportedPseudoClassOrElement)
    );
    let mut ast = Ast::default();
    ast.add_selector(&selector, 0);
    assert_eq!(
        ast,
        Ast {
            root: vec![leaf(Predicate {
                on_tag_name_exprs: vec![Expr {
                    simple_expr: OnTagNameExpr::Unmatchable,
                    negation: false,
                }],
                ..Default::default()
            })],
            cumulative_node_count: 1,
        }
    );
}

#[test]
fn what_can_be_matched_is_taken() {
    for selector in [
        "*",
        "*|a",
        "|a",
        "a.b#c[d][E=f] > g h",
        ":first-child",
        ":nth-of-type(2n)",
        ":not(a.b, :not(c))",
    ] {
        assert!(parse_selector(selector).is_ok());
    }
}

#[test]
fn another_id_goes_to_the_same_nodes() {
    let selector = parse(".a:not(b.c) > d, e f");
    let mut ast = Ast::default();
    ast.add_selector(&selector, 7);
    let count = ast.cumulative_node_count;
    ast.add_selector(&selector, 8);
    assert_eq!(ast.cumulative_node_count, count);
    let mut nodes: Vec<&AstNode> = ast.root.iter().collect();
    while let Some(node) = nodes.pop() {
        assert!(node.match_ids.ids().is_empty() || node.match_ids.ids() == [7, 8]);
        nodes.extend(&node.children);
        nodes.extend(&node.descendants);
    }
}

#[test]
fn adding_a_selector_again_changes_nothing() {
    let selector = parse(".a:not(b.c) > d, e f");
    let mut once = Ast::default();
    once.add_selector(&selector, 7);
    let mut twice = Ast::default();
    twice.add_selector(&selector, 7);
    twice.add_selector(&selector, 7);
    assert_eq!(once, twice);
    assert_eq!(once.cumulative_node_count, 6);
}

#[test]
fn a_list_is_its_selectors() {
    let mut list = Ast::default();
    list.add_selector(&parse("a > b, a > c"), 3);
    let mut parts = Ast::default();
    parts.add_selector(&parse("a > b"), 3);
    parts.add_selector(&parse("a > c"), 3);
    assert_eq!(list, parts);
}

#[test]
fn alternatives_are_counted_as_they_are_expanded() {
    for selector in [
        "a",
        ":not(a.b)",
        ":not(a.b):not(c.d.e)",
        ":not(a.b) > :not(c.d.e) f",
        ":not(:not(a, b, c))",
    ] {
        let parsed = parse(selector);
        let mut ast = Ast::default();
        ast.add_selector(&parsed, 0);
        let mut leaves = 0;
        let mut nodes: Vec<&AstNode> = ast.root.iter().collect();
        while let Some(node) = nodes.pop() {
            leaves += node.match_ids.ids().len();
            nodes.extend(&node.children);
            nodes.extend(&node.descendants);
        }
        assert_eq!(count_alternatives(&parsed.0[0]), leaves);
    }
}

#[test]
fn negated_prefix_without_a_namespace_is_ignored() {
    assert_ast(
        &[":not(|a.b)"],
        Ast {
            root: vec![leaf(tag_name("a", true)), leaf(class("b", true))],
            cumulative_node_count: 2,
        },
    );
}

#[test]
fn ids_are_held_once_and_in_order() {
    let set = ids(&[5, 1, 3, 1, 5]);
    assert_eq!(set.ids(), [1, 3, 5]);
    assert_eq!(set, ids(&[1, 3, 5]));
}

/// Whether the nodes are still there, at their places and with their match ids.
fn are_kept(before: &[AstNode], after: &[AstNode]) -> bool {
    before.len() <= after.len()
        && before.iter().zip(after).all(|(old, new)| {
            old.predicate == new.predicate
                && old.match_ids.ids().iter().all(|id| new.match_ids.ids().contains(id))
                && are_kept(&old.children, &new.children)
                && are_kept(&old.descendants, &new.descendants)
        })
}

fn number_of_nodes(nodes: &[AstNode]) -> usize {
    nodes
        .iter()
        .map(|node| 1 + number_of_nodes(&node.children) + number_of_nodes(&node.descendants))
        .sum()
}

#[test]
fn earlier_nodes_are_kept() {
    let selectors = ["a > b", "a c", ".x:not(y.z) > a", "a > b, a > d", "a"];
    let mut earlier = Ast::default();
    for n in 0..selectors.len() {
        let mut ast = Ast::default();
        for (id, selector) in selectors[..=n].iter().enumerate() {
            ast.add_selector(&parse(selector), id as MatchId);
        }
        assert!(are_kept(&earlier.root, &ast.root));
        assert_eq!(ast.cumulative_node_count, number_of_nodes(&ast.root));
        earlier = ast;
    }
    assert!(!are_kept(&earlier.root, &Ast::default().root));
}
