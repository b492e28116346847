use vstd::prelude::*;

verus! {

/// Who a request is charged to.
#[derive(Clone, Debug, Hash)]
pub enum RequestIdentifier {
    /// A bearer credential, taken from the `Authorization` header.
    Token(String),
    /// An IPv4 address, as its four octets.
    Ip(u8, u8, u8, u8),
    /// The caller could not be identified; never stored.
    NoParse,
}

/// The mathematical value of a `RequestIdentifier`.
pub enum IdentityView {
    Token(Seq<char>),
    Ip(u8, u8, u8, u8),
    NoParse,
}

impl View for RequestIdentifier {
    type V = IdentityView;

    open spec fn view(&self) -> IdentityView {
        match self {
            RequestIdentifier::Token(s) => IdentityView::Token(s@),
            RequestIdentifier::Ip(a, b, c, d) => IdentityView::Ip(*a, *b, *c, *d),
            RequestIdentifier::NoParse => IdentityView::NoParse,
        }
    }
}

impl PartialEq for RequestIdentifier {
    fn eq(&self, o: &RequestIdentifier) -> (r: bool) {
        match (self, o) {
            (RequestIdentifier::Token(s), RequestIdentifier::Token(t)) => *s == *t,
            (RequestIdentifier::Ip(a, b, c, d), RequestIdentifier::Ip(e, f, g, h)) => {
                *a == *e && *b == *f && *c == *g && *d == *h
            },
            (RequestIdentifier::NoParse, RequestIdentifier::NoParse) => true,
            _ => false,
        }
    }
}

impl vstd::std_specs::cmp::PartialEqSpecImpl for RequestIdentifier {
    open spec fn obeys_eq_spec() -> bool {
        true
    }

    open spec fn eq_spec(&self, o: &RequestIdentifier) -> bool {
        self@ == o@
    }
}

impl Eq for RequestIdentifier {
}

} // verus!
