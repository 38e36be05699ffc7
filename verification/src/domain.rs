//! Domain canonicalization: normalize an arbitrary hostname to its likely
//! registrable root domain. This is a deliberate heuristic over a fixed set
//! of second-level-domain tokens, not a public-suffix-list lookup.
use vstd::prelude::*;

use crate::strutil::views;

verus! {

/// The labels of `s`, split on `'.'`. Splitting the empty string yields one
/// empty label, matching how `str::split` behaves.
pub open spec fn split_dots(s: Seq<char>) -> Seq<Seq<char>>
    decreases s.len(),
{
    if s.len() == 0 {
        seq![Seq::<char>::empty()]
    } else if s[0] == '.' {
        seq![Seq::<char>::empty()] + split_dots(s.subrange(1, s.len() as int))
    } else {
        let rest = split_dots(s.subrange(1, s.len() as int));
        seq![seq![s[0]] + rest[0]] + rest.subrange(1, rest.len() as int)
    }
}

pub proof fn lemma_split_nonempty(s: Seq<char>)
    ensures
        split_dots(s).len() >= 1,
    decreases s.len(),
{
    if s.len() != 0 {
        lemma_split_nonempty(s.subrange(1, s.len() as int));
    }
}

/// No label produced by `split_dots` contains a dot.
pub proof fn lemma_split_no_dot(s: Seq<char>)
    ensures
        forall|j: int, k: int|
            0 <= j < split_dots(s).len() && 0 <= k < split_dots(s)[j].len()
                ==> split_dots(s)[j][k] != '.',
    decreases s.len(),
{
    if s.len() != 0 {
        lemma_split_no_dot(s.subrange(1, s.len() as int));
        let rest = split_dots(s.subrange(1, s.len() as int));
        lemma_split_nonempty(s.subrange(1, s.len() as int));
        if s[0] != '.' {
            assert forall|j: int, k: int|
                0 <= j < split_dots(s).len() && 0 <= k < split_dots(s)[j].len()
                    implies split_dots(s)[j][k] != '.' by {
                if j == 0 {
                    if k == 0 {
                        assert(split_dots(s)[0][0] == s[0]);
                    } else {
                        assert(split_dots(s)[0][k] == rest[0][k - 1]);
                    }
                } else {
                    assert(split_dots(s)[j] == rest[j]);
                }
            }
        }
    }
}

/// A sequence with no dot splits into itself as the single label.
pub proof fn lemma_split_of_dotless(p: Seq<char>)
    requires
        forall|k: int| 0 <= k < p.len() ==> p[k] != '.',
    ensures
        split_dots(p) == seq![p],
    decreases p.len(),
{
    if p.len() == 0 {
        assert(split_dots(p) =~~= seq![p]);
    } else {
        let tail = p.subrange(1, p.len() as int);
        lemma_split_of_dotless(tail);
        assert(split_dots(p) =~= seq![seq![p[0]] + tail]);
        assert(seq![p[0]] + tail =~= p);
    }
}

/// Splitting a string that starts with a dotless label, a dot, and a rest
/// yields that label followed by the split of the rest.
pub proof fn lemma_split_prefix(p: Seq<char>, rest: Seq<char>)
    requires
        forall|k: int| 0 <= k < p.len() ==> p[k] != '.',
    ensures
        split_dots(p + seq!['.'] + rest) == seq![p] + split_dots(rest),
    decreases p.len(),
{
    let s = p + seq!['.'] + rest;
    if p.len() == 0 {
        assert(s[0] == '.');
        assert(s.subrange(1, s.len() as int) =~= rest);
        assert(split_dots(s) =~~= seq![p] + split_dots(rest));
    } else {
        let p2 = p.subrange(1, p.len() as int);
        lemma_split_prefix(p2, rest);
        assert(s[0] == p[0]);
        assert(s[0] != '.');
        assert(s.subrange(1, s.len() as int) =~= p2 + seq!['.'] + rest);
        let r2 = split_dots(p2 + seq!['.'] + rest);
        assert(r2 == seq![p2] + split_dots(rest));
        lemma_split_nonempty(rest);
        assert(r2[0] == p2);
        assert(seq![s[0]] + r2[0] =~= p);
        assert(r2.subrange(1, r2.len() as int) =~= split_dots(rest));
        assert(split_dots(s) =~= seq![p] + split_dots(rest));
    }
}

/// The recognized second-level-domain tokens.
pub open spec fn is_sld(l: Seq<char>) -> bool {
    ||| l == "co"@
    ||| l == "com"@
    ||| l == "net"@
    ||| l == "org"@
    ||| l == "gov"@
    ||| l == "nhs"@
    ||| l == "edu"@
    ||| l == "ac"@
    ||| l == "biz"@
}

/// The canonical registrable root of `d`, or `None` when `d` has fewer than
/// two labels. With more than two labels the last two are kept, or the last
/// three when the second-to-last label is a recognized second-level token.
pub open spec fn simplify_spec(d: Seq<char>) -> Option<Seq<char>> {
    let parts = split_dots(d);
    let n = parts.len() as int;
    if n > 2 {
        if is_sld(parts[n - 2]) {
            Some(parts[n - 3] + seq!['.'] + parts[n - 2] + seq!['.'] + parts[n - 1])
        } else {
            Some(parts[n - 2] + seq!['.'] + parts[n - 1])
        }
    } else if n == 2 {
        Some(d)
    } else {
        None
    }
}

/// Every element has enough labels to canonicalize.
pub open spec fn canon_all(ts: Seq<Seq<char>>) -> bool {
    forall|k: int| 0 <= k < ts.len() ==> simplify_spec(ts[k]) is Some
}

/// The canonical form of every element.
pub open spec fn canon_seq(ts: Seq<Seq<char>>) -> Seq<Seq<char>> {
    ts.map_values(|t: Seq<char>| simplify_spec(t)->Some_0)
}

pub proof fn lemma_dot_view()
    ensures
        "."@ == seq!['.'],
{
    reveal_strlit(".");
    assert("."@ =~= seq!['.']);
}

/// Split `s` into its dot-separated labels.
pub fn split_labels(s: &str) -> (parts: Vec<String>)
    ensures
        views(parts@) == split_dots(s@),
{
    let len = s.unicode_len();
    let mut parts: Vec<String> = Vec::new();
    let mut start: usize = 0;
    let mut i: usize = 0;
    proof {
        lemma_split_nonempty(s@);
        assert(s@.subrange(0, len as int) =~= s@);
        let sp = split_dots(s@);
        assert(s@.subrange(0, 0) + sp[0] =~= sp[0]);
        assert(views(parts@) + seq![s@.subrange(0, 0) + sp[0]] + sp.subrange(1, sp.len() as int)
            =~~= sp);
    }
    while i < len
        invariant
            start <= i <= len,
            len == s@.len(),
            split_dots(s@) == views(parts@) + seq![
                s@.subrange(start as int, i as int) + split_dots(
                    s@.subrange(i as int, len as int),
                )[0],
            ] + split_dots(s@.subrange(i as int, len as int)).subrange(
                1,
                split_dots(s@.subrange(i as int, len as int)).len() as int,
            ),
        decreases len - i,
    {
        let ghost rem = s@.subrange(i as int, len as int);
        let ghost rem2 = s@.subrange(i + 1, len as int);
        proof {
            assert(rem.len() > 0);
            assert(rem[0] == s@[i as int]);
            assert(rem.subrange(1, rem.len() as int) =~= rem2);
            lemma_split_nonempty(rem2);
        }
        let c = s.get_char(i);
        if c == '.' {
            let lbl = s.substring_char(start, i).to_owned();
            proof {
                let cur = s@.subrange(start as int, i as int);
                assert(split_dots(rem) == seq![Seq::<char>::empty()] + split_dots(rem2));
                assert(split_dots(rem)[0] == Seq::<char>::empty());
                assert(cur + Seq::<char>::empty() =~= cur);
                assert(split_dots(rem).subrange(1, split_dots(rem).len() as int) =~= split_dots(
                    rem2,
                ));
                crate::strutil::lemma_views_push(parts@, lbl);
                assert(s@.subrange(i + 1, i + 1) =~= Seq::<char>::empty());
                assert(views(parts@.push(lbl)) + seq![
                    s@.subrange(i + 1, i + 1) + split_dots(rem2)[0],
                ] + split_dots(rem2).subrange(1, split_dots(rem2).len() as int) =~= views(parts@)
                    + seq![cur] + split_dots(rem2));
                assert(views(parts@) + seq![cur + split_dots(rem)[0]] + split_dots(rem).subrange(
                    1,
                    split_dots(rem).len() as int,
                ) =~= views(parts@) + seq![cur] + split_dots(rem2));
            }
            parts.push(lbl);
            start = i + 1;
        } else {
            proof {
                let cur = s@.subrange(start as int, i as int);
                let rest = split_dots(rem2);
                assert(split_dots(rem) == seq![seq![rem[0]] + rest[0]] + rest.subrange(
                    1,
                    rest.len() as int,
                ));
                assert(split_dots(rem)[0] == seq![rem[0]] + rest[0]);
                assert(cur + (seq![rem[0]] + rest[0]) =~= s@.subrange(start as int, i + 1)
                    + rest[0]);
                assert(split_dots(rem).subrange(1, split_dots(rem).len() as int) =~= rest.subrange(
                    1,
                    rest.len() as int,
                ));
            }
        }
        i += 1;
    }
    let ghost rem = s@.subrange(i as int, len as int);
    proof {
        assert(rem =~= Seq::<char>::empty());
        assert(split_dots(rem) =~= seq![Seq::<char>::empty()]);
        assert(split_dots(rem)[0] == Seq::<char>::empty());
        let cur = s@.subrange(start as int, len as int);
        assert(cur + Seq::<char>::empty() =~= cur);
        assert(split_dots(rem).subrange(1, 1) =~= Seq::<Seq<char>>::empty());
        assert(split_dots(s@) =~= views(parts@) + seq![cur]);
    }
    let lbl = s.substring_char(start, len).to_owned();
    proof {
        crate::strutil::lemma_views_push(parts@, lbl);
        assert(views(parts@.push(lbl)) =~= views(parts@) + seq![lbl@]);
    }
    parts.push(lbl);
    parts
}

/// Whether `l` is one of the recognized second-level-domain tokens.
pub fn is_sld_token(l: &str) -> (r: bool)
    ensures
        r == is_sld(l@),
{
    crate::strutil::str_eq(l, "co") || crate::strutil::str_eq(l, "com") || crate::strutil::str_eq(
        l,
        "net",
    ) || crate::strutil::str_eq(l, "org") || crate::strutil::str_eq(l, "gov")
        || crate::strutil::str_eq(l, "nhs") || crate::strutil::str_eq(l, "edu")
        || crate::strutil::str_eq(l, "ac") || crate::strutil::str_eq(l, "biz")
}

/// Normalize `domain` to its likely registrable root, or `None` when it has
/// fewer than two labels.
pub fn simplify_domain(domain: &str) -> (r: Option<String>)
    ensures
        r is Some <==> simplify_spec(domain@) is Some,
        r is Some ==> r->Some_0@ == simplify_spec(domain@)->Some_0,
{
    let parts = split_labels(domain);
    let n = parts.len();
    proof {
        assert(views(parts@).len() == parts@.len());
        assert(split_dots(domain@).len() == n as int);
    }
    if n > 2 {
        proof {
            assert(views(parts@)[n - 2] == parts@[n - 2]@);
            assert(views(parts@)[n - 3] == parts@[n - 3]@);
            assert(views(parts@)[n - 1] == parts@[n - 1]@);
        }
        if is_sld_token(parts[n - 2].as_str()) {
            let mut r = parts[n - 3].clone();
            r.append(".");
            r.append(parts[n - 2].as_str());
            r.append(".");
            r.append(parts[n - 1].as_str());
            proof {
                lemma_dot_view();
            }
            Some(r)
        } else {
            let mut r = parts[n - 2].clone();
            r.append(".");
            r.append(parts[n - 1].as_str());
            proof {
                lemma_dot_view();
            }
            Some(r)
        }
    } else if n == 2 {
        Some(domain.to_owned())
    } else {
        None
    }
}

/// Canonicalization is idempotent: once a domain has been simplified, a
/// second simplification returns the same domain.
pub proof fn lemma_simplify_idempotent(d: Seq<char>)
    requires
        simplify_spec(d) is Some,
    ensures
        simplify_spec(simplify_spec(d)->Some_0) == simplify_spec(d),
{
    let parts = split_dots(d);
    let n = parts.len() as int;
    lemma_split_no_dot(d);
    if n > 2 {
        let a = parts[n - 3];
        let b = parts[n - 2];
        let c = parts[n - 1];
        if is_sld(b) {
            let r = a + seq!['.'] + b + seq!['.'] + c;
            lemma_split_of_dotless(c);
            lemma_split_prefix(b, c);
            assert(b + seq!['.'] + c =~= (b + seq!['.']) + c);
            lemma_split_prefix(a, b + seq!['.'] + c);
            assert(r =~= a + seq!['.'] + (b + seq!['.'] + c));
            assert(split_dots(r) == seq![a] + (seq![b] + seq![c]));
            assert(split_dots(r) =~= seq![a, b, c]);
            assert(split_dots(r).len() == 3);
            assert(split_dots(r)[1] == b);
            assert(split_dots(r)[0] == a && split_dots(r)[2] == c);
            assert(simplify_spec(r) == Some(a + seq!['.'] + b + seq!['.'] + c));
        } else {
            let r = b + seq!['.'] + c;
            lemma_split_of_dotless(c);
            lemma_split_prefix(b, c);
            assert(split_dots(r) =~= seq![b, c]);
            assert(simplify_spec(r) == Some(r));
        }
    }
}

} // verus!
