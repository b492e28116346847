//! Working out who sent a request, from its headers and its peer address.
use vstd::prelude::*;
use vstd::string::*;
use crate::identity::{IdentityView, RequestIdentifier};
use crate::ipv4::{dotted, lemma_dotted_injective, parse_ipv4};

verus! {

/// Unicode white space, as `char::is_whitespace` has it.
pub open spec fn is_ws(c: char) -> bool {
    let u = c as u32;
    (9 <= u <= 13) || u == 32 || u == 0x85 || u == 0xA0 || u == 0x1680 || (0x2000 <= u <= 0x200A)
        || u == 0x2028 || u == 0x2029 || u == 0x202F || u == 0x205F || u == 0x3000
}

/// `s` without its leading white space.
pub open spec fn trim_start(s: Seq<char>) -> Seq<char>
    decreases s.len(),
{
    if s.len() > 0 && is_ws(s[0]) {
        trim_start(s.drop_first())
    } else {
        s
    }
}

/// `s` without its trailing white space.
pub open spec fn trim_end(s: Seq<char>) -> Seq<char>
    decreases s.len(),
{
    if s.len() > 0 && is_ws(s.last()) {
        trim_end(s.drop_last())
    } else {
        s
    }
}

pub open spec fn trimmed(s: Seq<char>) -> Seq<char> {
    trim_end(trim_start(s))
}

/// The position of the first comma of `s`, or its length if it has none.
pub open spec fn first_comma(s: Seq<char>) -> int
    decreases s.len(),
{
    if s.len() == 0 {
        0
    } else if s[0] == ',' {
        0
    } else {
        1 + first_comma(s.drop_first())
    }
}

/// The first entry of a comma-separated list.
pub open spec fn first_field(s: Seq<char>) -> Seq<char> {
    s.take(first_comma(s))
}

pub open spec fn bearer_prefix() -> Seq<char> {
    seq!['B', 'e', 'a', 'r', 'e', 'r', ' ']
}

/// An `Authorization` value without its `"Bearer "` prefix, if it has one.
pub open spec fn strip_bearer(a: Seq<char>) -> Seq<char> {
    if a.len() >= 7 && a.take(7) == bearer_prefix() {
        a.skip(7)
    } else {
        a
    }
}

/// True when the first entry of a forwarded-for list is an IPv4 address.
pub open spec fn forwarded_is_ip(f: Seq<char>) -> bool {
    exists|ip: (u8, u8, u8, u8)| dotted(ip) == trimmed(first_field(f))
}

/// The address that the first entry of a forwarded-for list names.
pub open spec fn forwarded_ip(f: Seq<char>) -> (u8, u8, u8, u8) {
    choose|ip: (u8, u8, u8, u8)| dotted(ip) == trimmed(first_field(f))
}

pub open spec fn opt_view(o: Option<String>) -> Option<Seq<char>> {
    match o {
        Some(s) => Some(s@),
        None => None,
    }
}

/// The caller of a request: its bearer credential if it has an
/// `Authorization` header; else the first forwarded-for address if that
/// parses; else its peer address; else no one.
pub open spec fn identity_of(
    authorization: Option<Seq<char>>,
    forwarded_for: Option<Seq<char>>,
    peer: Option<(u8, u8, u8, u8)>,
) -> IdentityView {
    match authorization {
        Some(a) => IdentityView::Token(strip_bearer(a)),
        None => {
            if forwarded_for is Some && forwarded_is_ip(forwarded_for->0) {
                let ip = forwarded_ip(forwarded_for->0);
                IdentityView::Ip(ip.0, ip.1, ip.2, ip.3)
            } else {
                match peer {
                    Some(p) => IdentityView::Ip(p.0, p.1, p.2, p.3),
                    None => IdentityView::NoParse,
                }
            }
        },
    }
}

fn is_whitespace(c: char) -> (r: bool)
    ensures
        r == is_ws(c),
{
    let u = c as u32;
    (9 <= u && u <= 13) || u == 32 || u == 0x85 || u == 0xA0 || u == 0x1680 || (0x2000 <= u && u
        <= 0x200A) || u == 0x2028 || u == 0x2029 || u == 0x202F || u == 0x205F || u == 0x3000
}

fn chars_of(s: &str) -> (r: Vec<char>)
    ensures
        r@ == s@,
{
    let n = s.unicode_len();
    let mut r: Vec<char> = Vec::new();
    let mut i: usize = 0;
    while i < n
        invariant
            n == s@.len(),
            i <= n,
            r@ == s@.take(i as int),
        decreases n - i,
    {
        r.push(s.get_char(i));
        i = i + 1;
        assert(r@ =~= s@.take(i as int));
    }
    assert(r@ =~= s@);
    r
}

proof fn lemma_first_comma(s: Seq<char>, i: int)
    requires
        0 <= i <= s.len(),
        forall|j: int| 0 <= j < i ==> s[j] != ',',
        i == s.len() || s[i] == ',',
    ensures
        first_comma(s) == i,
    decreases i,
{
    if i > 0 {
        lemma_first_comma(s.drop_first(), i - 1);
    }
}

/// The first entry of a forwarded-for list, without surrounding white space.
fn first_entry_trimmed(v: &Vec<char>) -> (r: Vec<char>)
    ensures
        r@ == trimmed(first_field(v@)),
{
    let mut e: usize = 0;
    while e < v.len() && v[e] != ','
        invariant
            e <= v@.len(),
            forall|j: int| 0 <= j < e ==> v@[j] != ',',
        decreases v@.len() - e,
    {
        e = e + 1;
    }
    proof {
        lemma_first_comma(v@, e as int);
    }
    let ghost f = v@.take(e as int);
    let mut lo: usize = 0;
    assert(f.subrange(0, e as int) =~= f);
    while lo < e && is_whitespace(v[lo])
        invariant
            e <= v@.len(),
            f == v@.take(e as int),
            lo <= e,
            trim_start(f) == trim_start(f.subrange(lo as int, e as int)),
        decreases e - lo,
    {
        assert(f.subrange(lo as int, e as int).drop_first() =~= f.subrange(lo + 1, e as int));
        lo = lo + 1;
    }
    proof {
        if lo == e {
            assert(f.subrange(lo as int, e as int) =~= Seq::<char>::empty());
        }
    }
    let mut hi: usize = e;
    while hi > lo && is_whitespace(v[hi - 1])
        invariant
            e <= v@.len(),
            f == v@.take(e as int),
            lo <= hi <= e,
            trimmed(f) == trim_end(f.subrange(lo as int, hi as int)),
        decreases hi - lo,
    {
        assert(f.subrange(lo as int, hi as int).drop_last() =~= f.subrange(lo as int, hi - 1));
        hi = hi - 1;
    }
    let mut r: Vec<char> = Vec::new();
    let mut i: usize = lo;
    while i < hi
        invariant
            lo <= i <= hi <= e <= v@.len(),
            f == v@.take(e as int),
            r@ == f.subrange(lo as int, i as int),
        decreases hi - i,
    {
        r.push(v[i]);
        i = i + 1;
        assert(r@ =~= f.subrange(lo as int, i as int));
    }
    r
}

/// The credential of an `Authorization` value: the text after `"Bearer "`
/// if it starts so, else the whole value.
pub fn strip_bearer_prefix(a: &str) -> (r: String)
    ensures
        r@ == strip_bearer(a@),
{
    let n = a.unicode_len();
    if n >= 7 {
        let p = a.substring_char(0, 7);
        if p.get_char(0) == 'B' && p.get_char(1) == 'e' && p.get_char(2) == 'a' && p.get_char(3)
            == 'r' && p.get_char(4) == 'e' && p.get_char(5) == 'r' && p.get_char(6) == ' ' {
            assert(a@.take(7) =~= bearer_prefix());
            let rest = a.substring_char(7, n);
            assert(rest@ =~= a@.skip(7));
            return String::from_str(rest);
        } else {
            proof {
                if a@.take(7) == bearer_prefix() {
                    assert(p@[0] == a@.take(7)[0]);
                    assert(p@[1] == a@.take(7)[1]);
                    assert(p@[2] == a@.take(7)[2]);
                    assert(p@[3] == a@.take(7)[3]);
                    assert(p@[4] == a@.take(7)[4]);
                    assert(p@[5] == a@.take(7)[5]);
                    assert(p@[6] == a@.take(7)[6]);
                }
            }
        }
    }
    String::from_str(a)
}

/// Identifies the caller of a request from its `Authorization` and
/// `X-Forwarded-For` header values and its IPv4 peer address, in that order
/// of precedence.
pub fn to_request_identifier(
    authorization: Option<String>,
    forwarded_for: Option<String>,
    peer: Option<(u8, u8, u8, u8)>,
) -> (r: RequestIdentifier)
    ensures
        r@ == identity_of(opt_view(authorization), opt_view(forwarded_for), peer),
{
    if let Some(auth) = &authorization {
        return RequestIdentifier::Token(strip_bearer_prefix(auth.as_str()));
    }
    if let Some(f) = &forwarded_for {
        let v = chars_of(f.as_str());
        let entry = first_entry_trimmed(&v);
        match parse_ipv4(&entry) {
            Some((a, b, c, d)) => {
                proof {
                    assert(dotted((a, b, c, d)) == trimmed(first_field(f@)));
                    let ip = forwarded_ip(f@);
                    assert(dotted(ip) == entry@);
                }
                return RequestIdentifier::Ip(a, b, c, d);
            },
            None => {},
        }
    }
    match peer {
        Some((a, b, c, d)) => RequestIdentifier::Ip(a, b, c, d),
        None => RequestIdentifier::NoParse,
    }
}

/// A request with an `Authorization` header is charged to its credential,
/// whatever its forwarded-for list and peer address say; a `"Bearer "`
/// prefix is not part of the credential.
pub proof fn authorization_precedence(a: Seq<char>, f: Option<Seq<char>>, peer: Option<(u8, u8, u8, u8)>)
    ensures
        identity_of(Some(a), f, peer) == IdentityView::Token(strip_bearer(a)),
        a.len() >= 7 && a.take(7) == bearer_prefix() ==> identity_of(Some(a), f, peer)
            == IdentityView::Token(a.skip(7)),
{
}

/// Without an `Authorization` header, a forwarded-for list whose first
/// entry is an address names the caller by that address, ahead of the peer
/// address.
pub proof fn forwarded_precedence(f: Seq<char>, ip: (u8, u8, u8, u8), peer: Option<(u8, u8, u8, u8)>)
    requires
        dotted(ip) == trimmed(first_field(f)),
    ensures
        identity_of(None, Some(f), peer) == IdentityView::Ip(ip.0, ip.1, ip.2, ip.3),
{
    assert(forwarded_is_ip(f));
    lemma_dotted_injective(forwarded_ip(f), ip);
}

} // verus!
