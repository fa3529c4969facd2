use vstd::prelude::*;

verus! {

/// How an attribute selector compares the value of the attribute with its own.
#[derive(Copy, Clone, Debug, PartialEq, Eq, Structural)]
pub enum AttrSelectorOperator {
    /// `=`
    Equal,
    /// `~=`
    Includes,
    /// `|=`
    DashMatch,
    /// `^=`
    Prefix,
    /// `*=`
    Substring,
    /// `$=`
    Suffix,
}

/// Whether an attribute selector compares values with regard to ASCII case.
#[derive(Copy, Clone, Debug, PartialEq, Eq, Structural)]
pub enum ParsedCaseSensitivity {
    /// `s` was specified.
    ExplicitCaseSensitive,
    /// `i` was specified.
    AsciiCaseInsensitive,
    /// No flag was specified, and values of the attribute are case-sensitive in HTML.
    CaseSensitive,
    /// No flag was specified, and values of the attribute are case-insensitive in HTML.
    AsciiCaseInsensitiveIfInHtmlElementInHtmlDocument,
}

/// What an `:nth-*` or `:only-*` pseudo-class counts.
#[derive(Copy, Clone, Debug, PartialEq, Eq, Structural)]
pub enum NthType {
    Child,
    LastChild,
    OnlyChild,
    OfType,
    LastOfType,
    OnlyOfType,
}

/// What stands between two compound selectors.
#[derive(Copy, Clone, Debug, PartialEq, Eq, Structural)]
pub enum Combinator {
    /// `>`
    Child,
    /// White space.
    Descendant,
    /// `+`
    NextSibling,
    /// `~`
    LaterSibling,
    /// Between an element and its pseudo-element.
    PseudoElement,
    /// Between a slot and a slotted element.
    SlotAssignment,
    /// Between a shadow host and a part.
    Part,
}

/// What an attribute selector asks of the attribute.
#[derive(Debug)]
pub enum AttrOperation {
    /// That the attribute is there.
    Exists,
    /// That its value compares to `value`.
    WithValue {
        operator: AttrSelectorOperator,
        case_sensitivity: ParsedCaseSensitivity,
        value: String,
    },
}

/// A simple selector, or the combinator that follows a compound selector.
#[derive(Debug)]
pub enum Component {
    LocalName(String),
    /// `*`
    ExplicitUniversalType,
    /// `*|`
    ExplicitAnyNamespace,
    /// `|` with nothing before it.
    ExplicitNoNamespace,
    /// `#id`
    ID(String),
    /// `.class`
    Class(String),
    /// `[name]`
    AttributeInNoNamespaceExists { local_name_lower: String },
    /// `[name=value]`, with a name that is lowercase already.
    AttributeInNoNamespace {
        local_name: String,
        operator: AttrSelectorOperator,
        value: String,
        case_sensitivity: ParsedCaseSensitivity,
    },
    /// Any other attribute selector.
    AttributeOther { has_namespace: bool, local_name_lower: String, operation: AttrOperation },
    /// An `:nth-*` or `:only-*` pseudo-class with its `an+b`.
    Nth { ty: NthType, step: i32, offset: i32 },
    /// `:not()` with its selector list.
    Negation(Vec<ComplexSelector>),
    Combinator(Combinator),
    /// Explicit namespaces, and pseudo-classes and pseudo-elements that cannot be matched while
    /// the document streams by.
    Unsupported,
}

/// Compound selectors joined by combinators.
///
/// The components are in matching order: the compound selectors from right to left, the simple
/// selectors of each from left to right. So `.a:first-child > .b.c` is held as `.b`, `.c`, `>`,
/// `.a`, `:first-child`.
#[derive(Debug)]
pub struct ComplexSelector {
    pub components: Vec<Component>,
}

/// A selector list.
#[derive(Debug)]
pub struct Selector(pub Vec<ComplexSelector>);

impl Component {
    /// Whether the component is a combinator.
    pub open spec fn spec_is_combinator(self) -> bool {
        self is Combinator
    }

    /// Whether a compound selector of its own AST level ends at the component.
    pub open spec fn spec_ends_level(self) -> bool {
        self == Component::Combinator(Combinator::Child) || self == Component::Combinator(
            Combinator::Descendant,
        )
    }

    /// Whether the component is a `>` or descendant combinator.
    pub fn ends_level(&self) -> (ends: bool)
        ensures
            ends == self.spec_ends_level(),
    {
        match self {
            Component::Combinator(Combinator::Child) => true,
            Component::Combinator(Combinator::Descendant) => true,
            _ => false,
        }
    }
}

/// The components before the first combinator of `components`.
pub open spec fn until_combinator(components: Seq<Component>) -> Seq<Component>
    decreases components.len(),
{
    if components.len() == 0 || components.first().spec_is_combinator() {
        Seq::empty()
    } else {
        seq![components.first()] + until_combinator(components.drop_first())
    }
}

/// What a list of references refers to.
pub open spec fn referents(refs: Seq<&Component>) -> Seq<Component> {
    refs.map_values(|r: &Component| *r)
}

impl ComplexSelector {
    /// The rightmost compound selector.
    pub open spec fn spec_subject(self) -> Seq<Component> {
        until_combinator(self.components@)
    }

    /// The components from the first compound selector to the last.
    pub open spec fn spec_parse_order(self) -> Seq<Component> {
        self.components@.reverse()
    }

    /// The simple selectors of the rightmost compound selector.
    pub fn subject(&self) -> (compound: Vec<&Component>)
        ensures
            referents(compound@) == self.spec_subject(),
    {
        let mut compound: Vec<&Component> = Vec::new();
        let mut i: usize = 0;
        assert(self.components@.skip(0) == self.components@);
        assert(referents(compound@) + until_combinator(self.components@.skip(0))
            =~= self.spec_subject());
        while i < self.components.len()
            invariant
                i <= self.components.len(),
                referents(compound@) + until_combinator(self.components@.skip(i as int))
                    == self.spec_subject(),
            decreases self.components.len() - i,
        {
            let component = &self.components[i];
            let ghost rest = self.components@.skip(i as int);
            let ghost before = compound@;
            assert(rest.first() == self.components@[i as int]);
            if let Component::Combinator(_) = component {
                assert(referents(compound@) + until_combinator(rest) =~= referents(compound@));
                return compound;
            }
            compound.push(component);
            proof {
                assert(rest.drop_first() =~= self.components@.skip(i + 1));
                assert(referents(compound@) =~= referents(before).push(rest.first()));
                assert(referents(compound@) + until_combinator(rest.drop_first()) =~= referents(
                    before,
                ) + until_combinator(rest));
            }
            i = i + 1;
        }
        assert(referents(compound@) + until_combinator(self.components@.skip(i as int))
            =~= referents(compound@));
        compound
    }

    /// All components, from the first compound selector to the last.
    pub fn parse_order(&self) -> (components: Vec<&Component>)
        ensures
            referents(components@) == self.spec_parse_order(),
    {
        let mut components: Vec<&Component> = Vec::new();
        let mut left: usize = self.components.len();
        while left > 0
            invariant
                left <= self.components.len(),
                components.len() == self.components.len() - left,
                forall|k: int|
                    0 <= k < components.len() ==> *#[trigger] components[k]
                        == self.components@[self.components.len() - 1 - k],
            decreases left,
        {
            left = left - 1;
            components.push(&self.components[left]);
        }
        assert(referents(components@) =~= self.spec_parse_order());
        components
    }

    /// All components in matching order.
    pub fn match_order(&self) -> (components: Vec<&Component>)
        ensures
            referents(components@) == self.components@,
    {
        let mut components: Vec<&Component> = Vec::new();
        let mut i: usize = 0;
        while i < self.components.len()
            invariant
                i <= self.components.len(),
                components.len() == i,
                forall|k: int|
                    0 <= k < i ==> *#[trigger] components[k] == self.components@[k],
            decreases self.components.len() - i,
        {
            components.push(&self.components[i]);
            i = i + 1;
        }
        assert(referents(components@) =~= self.components@);
        components
    }
}

} // verus!
