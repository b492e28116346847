//! Dotted-decimal IPv4 addresses: four octets written in decimal without
//! leading zeros, separated by dots.
use vstd::prelude::*;

verus! {

pub open spec fn is_digit(c: char) -> bool {
    '0' <= c && c <= '9'
}

/// The character of decimal digit `d`.
pub open spec fn digit(d: int) -> char {
    ((48 + d) as u8) as char
}

/// The shortest decimal text of `n`.
pub open spec fn octet_text(n: u8) -> Seq<char> {
    if n < 10 {
        seq![digit(n as int)]
    } else if n < 100 {
        seq![digit(n as int / 10), digit(n as int % 10)]
    } else {
        seq![digit(n as int / 100), digit((n as int / 10) % 10), digit(n as int % 10)]
    }
}

/// The dotted-decimal text of an address.
pub open spec fn dotted(ip: (u8, u8, u8, u8)) -> Seq<char> {
    octet_text(ip.0) + seq!['.'] + octet_text(ip.1) + seq!['.'] + octet_text(ip.2) + seq!['.']
        + octet_text(ip.3)
}

pub proof fn lemma_octet_shape(n: u8)
    ensures
        1 <= octet_text(n).len() <= 3,
        forall|i: int| 0 <= i < octet_text(n).len() ==> is_digit(#[trigger] octet_text(n)[i]),
        octet_text(n).len() > 1 ==> octet_text(n)[0] != '0',
        octet_text(n).len() == 1 <==> n < 10,
        octet_text(n).len() == 2 <==> 10 <= n < 100,
        octet_text(n).len() == 3 <==> 100 <= n,
{
}

proof fn lemma_digit_value(x: int)
    requires
        0 <= x <= 9,
    ensures
        digit(x) as u32 == 48 + x,
{
}

pub proof fn lemma_octet_injective(m: u8, n: u8)
    requires
        octet_text(m) == octet_text(n),
    ensures
        m == n,
{
    assert forall|x: int, y: int| 0 <= x <= 9 && 0 <= y <= 9 && #[trigger] digit(x) == #[trigger] digit(y) implies x == y by {
        lemma_digit_value(x);
        lemma_digit_value(y);
    }
    lemma_octet_shape(m);
    lemma_octet_shape(n);
    assert(octet_text(m)[0] == octet_text(n)[0]);
    if octet_text(m).len() >= 2 {
        assert(octet_text(m)[1] == octet_text(n)[1]);
    }
    if octet_text(m).len() >= 3 {
        assert(octet_text(m)[2] == octet_text(n)[2]);
    }
}

proof fn lemma_dotted_join(s: Seq<char>, e1: int, e2: int, e3: int, ip: (u8, u8, u8, u8))
    requires
        0 < e1 < e2 < e3 < s.len(),
        s.subrange(0, e1) == octet_text(ip.0),
        s[e1] == '.',
        s.subrange(e1 + 1, e2) == octet_text(ip.1),
        s[e2] == '.',
        s.subrange(e2 + 1, e3) == octet_text(ip.2),
        s[e3] == '.',
        s.subrange(e3 + 1, s.len() as int) == octet_text(ip.3),
    ensures
        dotted(ip) == s,
{
    assert(s =~= s.subrange(0, e1) + seq!['.'] + s.subrange(e1 + 1, e2) + seq!['.'] + s.subrange(
        e2 + 1,
        e3,
    ) + seq!['.'] + s.subrange(e3 + 1, s.len() as int));
}

/// Reads the octet that starts at `pos`: a maximal run of at most three
/// digits, without a leading zero, worth at most 255. Returns it and the
/// position after it.
fn parse_octet(t: &Vec<char>, pos: usize) -> (r: Option<(u8, usize)>)
    requires
        pos <= t@.len(),
    ensures
        match r {
            Some((v, e)) => pos < e <= t@.len() && t@.subrange(pos as int, e as int) == octet_text(v)
                && (e == t@.len() || !is_digit(t@[e as int])),
            None => true,
        },
        forall|m: u8, e: int|
            #![trigger octet_text(m), t@.subrange(pos as int, e)]
            pos < e <= t@.len() && t@.subrange(pos as int, e) == octet_text(m) && (e == t@.len()
                || !is_digit(t@[e])) ==> r == Some((m, e as usize)),
{
    let n = t.len();
    if pos >= n || !(t[pos] >= '0' && t[pos] <= '9') {
        proof {
            assert forall|m: u8, e: int|
                #![trigger octet_text(m), t@.subrange(pos as int, e)]
                pos < e <= t@.len() && t@.subrange(pos as int, e) == octet_text(m) implies false by {
                lemma_octet_shape(m);
                assert(t@.subrange(pos as int, e)[0] == t@[pos as int]);
            }
        }
        return None;
    }
    let mut len: usize = 1;
    if pos + 1 < n && t[pos + 1] >= '0' && t[pos + 1] <= '9' {
        len = 2;
        if pos + 2 < n && t[pos + 2] >= '0' && t[pos + 2] <= '9' {
            len = 3;
            if pos + 3 < n && t[pos + 3] >= '0' && t[pos + 3] <= '9' {
                proof {
                    assert forall|m: u8, e: int|
                        #![trigger octet_text(m), t@.subrange(pos as int, e)]
                        pos < e <= t@.len() && t@.subrange(pos as int, e) == octet_text(m) && (e
                            == t@.len() || !is_digit(t@[e])) implies false by {
                        lemma_octet_shape(m);
                        let w = t@.subrange(pos as int, e);
                        assert(forall|i: int| 0 <= i < w.len() ==> w[i] == t@[pos + i]);
                        assert(is_digit(w[w.len() - 1]));
                    }
                }
                return None;
            }
        }
    }
    let d0 = (t[pos] as u32) - 48;
    let mut v: u32 = d0;
    if len >= 2 {
        v = v * 10 + ((t[pos + 1] as u32) - 48);
    }
    if len >= 3 {
        v = v * 10 + ((t[pos + 2] as u32) - 48);
    }
    let ghost w = t@.subrange(pos as int, (pos + len) as int);
    proof {
        assert(forall|i: int| 0 <= i < w.len() ==> w[i] == t@[pos + i]);
        assert forall|m: u8, e: int|
            #![trigger octet_text(m), t@.subrange(pos as int, e)]
            pos < e <= t@.len() && t@.subrange(pos as int, e) == octet_text(m) && (e == t@.len()
                || !is_digit(t@[e])) implies e == pos + len && w == octet_text(m) by {
            lemma_octet_shape(m);
            let u = t@.subrange(pos as int, e);
            assert(forall|i: int| 0 <= i < u.len() ==> u[i] == t@[pos + i]);
            if e < pos + len {
                assert(is_digit(t@[e]));
            } else if e > pos + len {
                assert(is_digit(u[len as int]));
            }
        }
    }
    if len > 1 && d0 == 0 {
        proof {
            assert forall|m: u8, e: int|
                #![trigger octet_text(m), t@.subrange(pos as int, e)]
                pos < e <= t@.len() && t@.subrange(pos as int, e) == octet_text(m) && (e == t@.len()
                    || !is_digit(t@[e])) implies false by {
                lemma_octet_shape(m);
                assert(w[0] == t@[pos as int]);
            }
        }
        return None;
    }
    if v > 255 {
        proof {
            assert forall|m: u8, e: int|
                #![trigger octet_text(m), t@.subrange(pos as int, e)]
                pos < e <= t@.len() && t@.subrange(pos as int, e) == octet_text(m) && (e == t@.len()
                    || !is_digit(t@[e])) implies false by {
                lemma_octet_shape(m);
                assert(w == octet_text(m));
                assert(w[0] == t@[pos as int]);
            }
        }
        return None;
    }
    let b = v as u8;
    proof {
        assert(w =~= octet_text(b));
        assert forall|m: u8, e: int|
            #![trigger octet_text(m), t@.subrange(pos as int, e)]
            pos < e <= t@.len() && t@.subrange(pos as int, e) == octet_text(m) && (e == t@.len()
                || !is_digit(t@[e])) implies m == b && e == pos + len by {
            lemma_octet_injective(m, b);
        }
    }
    Some((b, pos + len))
}

pub proof fn lemma_dotted_parts(t: Seq<char>, ip: (u8, u8, u8, u8))
    requires
        t == dotted(ip),
    ensures
        ({
            let l1 = octet_text(ip.0).len() as int;
            let l2 = octet_text(ip.1).len() as int;
            let l3 = octet_text(ip.2).len() as int;
            let l4 = octet_text(ip.3).len() as int;
            &&& t.len() == l1 + l2 + l3 + l4 + 3
            &&& t.subrange(0, l1) == octet_text(ip.0)
            &&& t[l1] == '.'
            &&& t.subrange(l1 + 1, l1 + 1 + l2) == octet_text(ip.1)
            &&& t[l1 + 1 + l2] == '.'
            &&& t.subrange(l1 + 2 + l2, l1 + 2 + l2 + l3) == octet_text(ip.2)
            &&& t[l1 + 2 + l2 + l3] == '.'
            &&& t.subrange(l1 + 3 + l2 + l3, t.len() as int) == octet_text(ip.3)
        }),
{
    let l1 = octet_text(ip.0).len() as int;
    let l2 = octet_text(ip.1).len() as int;
    let l3 = octet_text(ip.2).len() as int;
    assert(t.subrange(0, l1) =~= octet_text(ip.0));
    assert(t.subrange(l1 + 1, l1 + 1 + l2) =~= octet_text(ip.1));
    assert(t.subrange(l1 + 2 + l2, l1 + 2 + l2 + l3) =~= octet_text(ip.2));
    assert(t.subrange(l1 + 3 + l2 + l3, t.len() as int) =~= octet_text(ip.3));
}

/// Two addresses with the same dotted-decimal text are the same address.
pub proof fn lemma_dotted_injective(x: (u8, u8, u8, u8), y: (u8, u8, u8, u8))
    requires
        dotted(x) == dotted(y),
    ensures
        x == y,
{
    let s = dotted(x);
    lemma_dotted_parts(s, x);
    lemma_dotted_parts(s, y);
    lemma_octet_shape(x.0);
    lemma_octet_shape(y.0);
    lemma_octet_shape(x.1);
    lemma_octet_shape(y.1);
    lemma_octet_shape(x.2);
    lemma_octet_shape(y.2);
    lemma_octet_shape(x.3);
    lemma_octet_shape(y.3);
    let a1 = octet_text(x.0).len() as int;
    let b1 = octet_text(y.0).len() as int;
    if a1 < b1 {
        assert(s.subrange(0, b1)[a1] == s[a1]);
    } else if b1 < a1 {
        assert(s.subrange(0, a1)[b1] == s[b1]);
    }
    lemma_octet_injective(x.0, y.0);
    let a2 = octet_text(x.1).len() as int;
    let b2 = octet_text(y.1).len() as int;
    if a2 < b2 {
        assert(s.subrange(a1 + 1, a1 + 1 + b2)[a2] == s[a1 + 1 + a2]);
    } else if b2 < a2 {
        assert(s.subrange(a1 + 1, a1 + 1 + a2)[b2] == s[a1 + 1 + b2]);
    }
    lemma_octet_injective(x.1, y.1);
    let a3 = octet_text(x.2).len() as int;
    let b3 = octet_text(y.2).len() as int;
    if a3 < b3 {
        assert(s.subrange(a1 + 2 + a2, a1 + 2 + a2 + b3)[a3] == s[a1 + 2 + a2 + a3]);
    } else if b3 < a3 {
        assert(s.subrange(a1 + 2 + a2, a1 + 2 + a2 + a3)[b3] == s[a1 + 2 + a2 + b3]);
    }
    lemma_octet_injective(x.2, y.2);
    lemma_octet_injective(x.3, y.3);
}

/// Parses `t` as a dotted-decimal IPv4 address: the result is `Some(ip)`
/// exactly when `t` is the dotted-decimal text of `ip`.
pub fn parse_ipv4(t: &Vec<char>) -> (r: Option<(u8, u8, u8, u8)>)
    ensures
        forall|ip: (u8, u8, u8, u8)| #[trigger] dotted(ip) == t@ <==> r == Some(ip),
{
    let p1 = parse_octet(t, 0);
    let ghost g1 = p1;
    proof {
        assert forall|ip: (u8, u8, u8, u8)| #[trigger] dotted(ip) == t@ implies g1 == Some(
            (ip.0, octet_text(ip.0).len() as usize),
        ) by {
            lemma_dotted_parts(t@, ip);
            lemma_octet_shape(ip.0);
        }
    }
    let (a, e1) = match p1 {
        Some(x) => x,
        None => return None,
    };
    if e1 >= t.len() || t[e1] != '.' {
        return None;
    }
    let p2 = parse_octet(t, e1 + 1);
    proof {
        assert forall|ip: (u8, u8, u8, u8)| #[trigger] dotted(ip) == t@ implies p2 == Some(
            (ip.1, (e1 + 1 + octet_text(ip.1).len()) as usize),
        ) by {
            lemma_dotted_parts(t@, ip);
            lemma_octet_shape(ip.1);
        }
    }
    let (b, e2) = match p2 {
        Some(x) => x,
        None => return None,
    };
    if e2 >= t.len() || t[e2] != '.' {
        return None;
    }
    let p3 = parse_octet(t, e2 + 1);
    proof {
        assert forall|ip: (u8, u8, u8, u8)| #[trigger] dotted(ip) == t@ implies p3 == Some(
            (ip.2, (e2 + 1 + octet_text(ip.2).len()) as usize),
        ) by {
            lemma_dotted_parts(t@, ip);
            lemma_octet_shape(ip.2);
        }
    }
    let (c, e3) = match p3 {
        Some(x) => x,
        None => return None,
    };
    if e3 >= t.len() || t[e3] != '.' {
        return None;
    }
    let p4 = parse_octet(t, e3 + 1);
    proof {
        assert forall|ip: (u8, u8, u8, u8)| #[trigger] dotted(ip) == t@ implies p4 == Some(
            (ip.3, t@.len() as usize),
        ) by {
            lemma_dotted_parts(t@, ip);
            lemma_octet_shape(ip.3);
        }
    }
    let (d, e4) = match p4 {
        Some(x) => x,
        None => return None,
    };
    if e4 != t.len() {
        return None;
    }
    proof {
        lemma_dotted_join(t@, e1 as int, e2 as int, e3 as int, (a, b, c, d));
        assert forall|ip: (u8, u8, u8, u8)| #[trigger] dotted(ip) == t@ implies ip == (a, b, c, d) by {
            assert(g1 == Some((ip.0, octet_text(ip.0).len() as usize)));
        }
    }
    Some((a, b, c, d))
}

} // verus!
