//! Tenant-domain harvesting: extract the `<Domain>…</Domain>` entries of a
//! federation response body by pattern match (not a full XML parse),
//! canonicalize each, and discard synthetic Microsoft-tenant placeholders.
use vstd::prelude::*;

use crate::domain::{canon_all, simplify_domain, simplify_spec};
use crate::strutil::{contains_seq, contains_str, lemma_matches_shift, match_at, matches_at, views};
use crate::ReconError;

verus! {

/// The first index at or after `j` where the closing tag matches, provided
/// no newline stands in between; `None` when a newline or the end of `s`
/// comes first.
pub open spec fn close_from(s: Seq<char>, j: int) -> Option<int>
    decreases s.len() - j,
{
    if j < 0 || j + 9 > s.len() {
        None
    } else if matches_at(s, "</Domain>"@, j) {
        Some(j)
    } else if s[j] == '\n' {
        None
    } else {
        close_from(s, j + 1)
    }
}

pub proof fn lemma_close_from_bounds(s: Seq<char>, j: int)
    requires
        close_from(s, j) is Some,
    ensures
        j <= close_from(s, j)->Some_0,
        close_from(s, j)->Some_0 + 9 <= s.len(),
    decreases s.len() - j,
{
    if !(j < 0 || j + 9 > s.len()) && !matches_at(s, "</Domain>"@, j) && s[j] != '\n' {
        lemma_close_from_bounds(s, j + 1);
    }
}

/// The raw captured domains of `s`: for each occurrence of the opening tag,
/// scanned left to right without overlap, the text up to the nearest closing
/// tag on the same line.
pub open spec fn tenant_raw(s: Seq<char>) -> Seq<Seq<char>>
    decreases s.len(),
    via tenant_raw_dec
{
    if s.len() < 8 {
        Seq::empty()
    } else if matches_at(s, "<Domain>"@, 0) {
        match close_from(s, 8) {
            Some(j) => seq![s.subrange(8, j)] + tenant_raw(s.subrange(j + 9, s.len() as int)),
            None => tenant_raw(s.subrange(1, s.len() as int)),
        }
    } else {
        tenant_raw(s.subrange(1, s.len() as int))
    }
}

#[via_fn]
proof fn tenant_raw_dec(s: Seq<char>) {
    if s.len() >= 8 && matches_at(s, "<Domain>"@, 0) {
        if close_from(s, 8) is Some {
            lemma_close_from_bounds(s, 8);
        }
    }
}

/// The canonical forms of the raw captures, with every domain containing
/// the Microsoft-tenant placeholder suffix dropped. Meaningful when every
/// capture canonicalizes.
pub open spec fn tenant_selected(ts: Seq<Seq<char>>) -> Seq<Seq<char>>
    decreases ts.len(),
{
    if ts.len() == 0 {
        Seq::empty()
    } else {
        let c = simplify_spec(ts[0])->Some_0;
        let rest = tenant_selected(ts.subrange(1, ts.len() as int));
        if contains_seq(c, "onmicrosoft.com"@) {
            rest
        } else {
            seq![c] + rest
        }
    }
}

/// Scan for the nearest closing tag at or after `base + 8`, stopping at a
/// newline or the end.
fn scan_close(body: &str, base: usize) -> (r: Option<usize>)
    requires
        base + 8 <= body@.len(),
    ensures
        ({
            let sub = body@.subrange(base as int, body@.len() as int);
            match r {
                Some(j) => base + 8 <= j && j + 9 <= body@.len() && close_from(sub, 8) == Some(
                    j - base,
                ),
                None => close_from(sub, 8) is None,
            }
        }),
{
    proof {
        reveal_strlit("</Domain>");
    }
    let len = body.unicode_len();
    let ghost sub = body@.subrange(base as int, body@.len() as int);
    let mut j = base + 8;
    while len - j >= 9
        invariant
            base + 8 <= j <= len,
            len == body@.len(),
            "</Domain>"@.len() == 9,
            sub == body@.subrange(base as int, body@.len() as int),
            close_from(sub, 8) == close_from(sub, j - base),
        decreases len - j,
    {
        if match_at(body, "</Domain>", j) {
            proof {
                lemma_matches_shift(body@, "</Domain>"@, base as int, j - base);
                assert(close_from(sub, j - base) == Some(j - base));
            }
            return Some(j);
        }
        proof {
            lemma_matches_shift(body@, "</Domain>"@, base as int, j - base);
            assert(sub[j - base] == body@[j as int]);
        }
        if body.get_char(j) == '\n' {
            proof {
                assert(close_from(sub, j - base) is None);
            }
            return None;
        }
        j += 1;
    }
    proof {
        assert((j - base) + 9 > sub.len());
        assert(close_from(sub, j - base) is None);
    }
    None
}

/// Extract the raw `<Domain>…</Domain>` captures of `body`, in order.
fn extract_tenants(body: &str) -> (raws: Vec<String>)
    ensures
        views(raws@) == tenant_raw(body@),
{
    proof {
        reveal_strlit("<Domain>");
    }
    let len = body.unicode_len();
    let mut raws: Vec<String> = Vec::new();
    let mut i: usize = 0;
    proof {
        assert(body@.subrange(0, len as int) =~= body@);
        assert(views(raws@) + tenant_raw(body@) =~~= tenant_raw(body@));
    }
    while len - i >= 8
        invariant
            len == body@.len(),
            i <= len,
            "<Domain>"@.len() == 8,
            tenant_raw(body@) == views(raws@) + tenant_raw(body@.subrange(i as int, len as int)),
        decreases len - i,
    {
        let ghost rem = body@.subrange(i as int, len as int);
        if match_at(body, "<Domain>", i) {
            proof {
                lemma_matches_shift(body@, "<Domain>"@, i as int, 0);
            }
            match scan_close(body, i) {
                Some(j) => {
                    let cap = body.substring_char(i + 8, j).to_owned();
                    proof {
                        assert(close_from(rem, 8) == Some(j - i));
                        assert(rem.subrange(8, j - i) =~= body@.subrange(i + 8, j as int));
                        assert(rem.subrange(j - i + 9, rem.len() as int) =~= body@.subrange(
                            j + 9,
                            len as int,
                        ));
                        assert(tenant_raw(rem) == seq![cap@] + tenant_raw(
                            body@.subrange(j + 9, len as int),
                        ));
                        crate::strutil::lemma_views_push(raws@, cap);
                        assert(views(raws@.push(cap)) + tenant_raw(body@.subrange(j + 9, len as int))
                            =~= views(raws@) + tenant_raw(rem));
                    }
                    raws.push(cap);
                    i = j + 9;
                },
                None => {
                    proof {
                        assert(close_from(rem, 8) is None);
                        assert(rem.subrange(1, rem.len() as int) =~= body@.subrange(
                            i + 1,
                            len as int,
                        ));
                    }
                    i += 1;
                },
            }
        } else {
            proof {
                lemma_matches_shift(body@, "<Domain>"@, i as int, 0);
                assert(rem.subrange(1, rem.len() as int) =~= body@.subrange(i + 1, len as int));
            }
            i += 1;
        }
    }
    proof {
        assert(body@.subrange(i as int, len as int).len() < 8);
        assert(tenant_raw(body@.subrange(i as int, len as int)) == Seq::<Seq<char>>::empty());
        assert(views(raws@) + Seq::<Seq<char>>::empty() =~~= views(raws@));
    }
    raws
}

/// The tenant domains of one federation response body: every capture
/// canonicalized, with Microsoft-tenant placeholders discarded. Fails only
/// when a capture has too few labels to canonicalize.
pub fn tenant_candidates(body: &str) -> (r: Result<Vec<String>, ReconError>)
    ensures
        match r {
            Ok(v) => canon_all(tenant_raw(body@)) && views(v@) == tenant_selected(
                tenant_raw(body@),
            ),
            Err(e) => e is NotCanonicalizable && !canon_all(tenant_raw(body@)),
        },
{
    let raws = extract_tenants(body);
    let ghost ts = tenant_raw(body@);
    let n = raws.len();
    let mut out: Vec<String> = Vec::new();
    let mut i: usize = 0;
    proof {
        assert(ts.subrange(0, n as int) =~= ts);
        assert(views(out@) + tenant_selected(ts) =~~= tenant_selected(ts));
    }
    while i < n
        invariant
            n == raws@.len(),
            views(raws@) == ts,
            ts == tenant_raw(body@),
            i <= n,
            forall|q: int| 0 <= q < i ==> simplify_spec(ts[q]) is Some,
            tenant_selected(ts) == views(out@) + tenant_selected(ts.subrange(i as int, n as int)),
        decreases n - i,
    {
        let ghost sub = ts.subrange(i as int, n as int);
        proof {
            assert(sub[0] == raws@[i as int]@);
            assert(sub.subrange(1, sub.len() as int) =~= ts.subrange(i + 1, n as int));
        }
        match simplify_domain(raws[i].as_str()) {
            Some(c) => {
                if contains_str(c.as_str(), "onmicrosoft.com") {
                    proof {
                        assert(tenant_selected(sub) == tenant_selected(
                            ts.subrange(i + 1, n as int),
                        ));
                    }
                } else {
                    proof {
                        crate::strutil::lemma_views_push(out@, c);
                        assert(views(out@.push(c)) + tenant_selected(ts.subrange(i + 1, n as int))
                            =~= views(out@) + tenant_selected(sub));
                    }
                    out.push(c);
                }
            },
            None => {
                proof {
                    assert(!canon_all(ts));
                }
                return Err(ReconError::NotCanonicalizable);
            },
        }
        i += 1;
    }
    proof {
        assert(ts.subrange(n as int, n as int).len() == 0);
        assert(views(out@) + Seq::<Seq<char>>::empty() =~~= views(out@));
        assert(canon_all(ts));
    }
    Ok(out)
}

} // verus!
