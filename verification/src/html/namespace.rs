use vstd::prelude::*;

verus! {

/// Element namespace, as tracked by the tree builder simulation.
#[derive(Debug, Clone, Copy, PartialEq, Eq, Structural)]
pub enum Namespace {
    Html,
    Svg,
    MathML,
}

impl Default for Namespace {
    fn default() -> (namespace: Self)
        ensures
            namespace == Namespace::Html,
    {
        Namespace::Html
    }
}

impl Namespace {
    /// The namespace URI.
    pub open spec fn spec_uri(self) -> Seq<char> {
        match self {
            Namespace::Html => "http://www.w3.org/1999/xhtml"@,
            Namespace::Svg => "http://www.w3.org/2000/svg"@,
            Namespace::MathML => "http://www.w3.org/1998/Math/MathML"@,
        }
    }

    /// The namespace URI.
    #[must_use]
    pub fn uri(self) -> (uri: &'static str)
        ensures
            uri@ == self.spec_uri(),
    {
        match self {
            Namespace::Html => "http://www.w3.org/1999/xhtml",
            Namespace::Svg => "http://www.w3.org/2000/svg",
            Namespace::MathML => "http://www.w3.org/1998/Math/MathML",
        }
    }
}

/// No two namespaces share a URI.
pub proof fn law_uris_are_different(left: Namespace, right: Namespace)
    ensures
        left.spec_uri() == right.spec_uri() <==> left == right,
{
    reveal_strlit("http://www.w3.org/1999/xhtml");
    reveal_strlit("http://www.w3.org/2000/svg");
    reveal_strlit("http://www.w3.org/1998/Math/MathML");
    assert("http://www.w3.org/1999/xhtml"@.len() == 28);
    assert("http://www.w3.org/2000/svg"@.len() == 26);
    assert("http://www.w3.org/1998/Math/MathML"@.len() == 34);
}

} // verus!
