//! Verified string scanning primitives used by the analyzers: substring
//! matching, substring search, and string equality, all specified over
//! `Seq<char>` views.
use vstd::prelude::*;

verus! {

/// The views of a sequence of strings.
pub open spec fn views(v: Seq<String>) -> Seq<Seq<char>> {
    v.map_values(|s: String| s@)
}

pub proof fn lemma_views_push(a: Seq<String>, x: String)
    ensures
        views(a.push(x)) == views(a).push(x@),
{
    assert(views(a.push(x)) =~= views(a).push(x@));
}

/// Pattern `p` occurs in `s` starting at index `i`.
pub open spec fn matches_at(s: Seq<char>, p: Seq<char>, i: int) -> bool {
    0 <= i && i + p.len() <= s.len() && s.subrange(i, i + p.len() as int) == p
}

/// Pattern `p` occurs somewhere in `s`.
pub open spec fn contains_seq(s: Seq<char>, p: Seq<char>) -> bool {
    exists|i: int| matches_at(s, p, i)
}

/// Matching is invariant under dropping a prefix of `s`.
pub proof fn lemma_matches_shift(s: Seq<char>, p: Seq<char>, b: int, i: int)
    requires
        0 <= b <= s.len(),
        0 <= i,
    ensures
        matches_at(s.subrange(b, s.len() as int), p, i) == matches_at(s, p, b + i),
{
    let sub = s.subrange(b, s.len() as int);
    if i + p.len() <= sub.len() {
        assert(sub.subrange(i, i + p.len() as int) =~= s.subrange(b + i, b + i + p.len() as int));
    }
}

/// Whether `p` occurs in `s` at position `i`.
pub fn match_at(s: &str, p: &str, i: usize) -> (r: bool)
    requires
        i + p@.len() <= s@.len(),
    ensures
        r == matches_at(s@, p@, i as int),
{
    let s_len = s.unicode_len();
    let p_len = p.unicode_len();
    let mut j: usize = 0;
    while j < p_len
        invariant
            i + p@.len() <= s@.len(),
            s_len == s@.len(),
            p_len == p@.len(),
            j <= p_len,
            forall|k: int| 0 <= k < j ==> s@[i + k] == p@[k],
        decreases p_len - j,
    {
        if s.get_char(i + j) != p.get_char(j) {
            proof {
                assert(s@.subrange(i as int, i + p@.len() as int)[j as int] == s@[i + j]);
            }
            return false;
        }
        j += 1;
    }
    proof {
        assert(s@.subrange(i as int, i + p@.len() as int) =~= p@);
    }
    true
}

/// Whether `p` occurs anywhere in `s`.
pub fn contains_str(s: &str, p: &str) -> (r: bool)
    ensures
        r == contains_seq(s@, p@),
{
    let s_len = s.unicode_len();
    let p_len = p.unicode_len();
    if p_len > s_len {
        return false;
    }
    if p_len == 0 {
        proof {
            assert(s@.subrange(0, 0) =~= p@);
            assert(matches_at(s@, p@, 0));
        }
        return true;
    }
    let mut i: usize = 0;
    while i <= s_len - p_len
        invariant
            1 <= p_len <= s_len,
            s_len == s@.len(),
            p_len == p@.len(),
            i <= s_len - p_len + 1,
            forall|k: int| 0 <= k < i ==> !matches_at(s@, p@, k),
        decreases s_len - p_len + 1 - i,
    {
        if match_at(s, p, i) {
            return true;
        }
        i += 1;
    }
    false
}

/// Whether the character pattern `p` occurs in `s` at position `i`.
pub fn match_chars_at(s: &str, p: &Vec<char>, i: usize) -> (r: bool)
    requires
        i + p@.len() <= s@.len(),
    ensures
        r == matches_at(s@, p@, i as int),
{
    let s_len = s.unicode_len();
    let p_len = p.len();
    let mut j: usize = 0;
    while j < p_len
        invariant
            i + p@.len() <= s@.len(),
            s_len == s@.len(),
            p_len == p@.len(),
            j <= p_len,
            forall|k: int| 0 <= k < j ==> s@[i + k] == p@[k],
        decreases p_len - j,
    {
        if s.get_char(i + j) != p[j] {
            proof {
                assert(s@.subrange(i as int, i + p@.len() as int)[j as int] == s@[i + j]);
            }
            return false;
        }
        j += 1;
    }
    proof {
        assert(s@.subrange(i as int, i + p@.len() as int) =~= p@);
    }
    true
}

/// `s` with every non-overlapping occurrence of `p`, scanned left to right,
/// removed.
pub open spec fn remove_pat(s: Seq<char>, p: Seq<char>) -> Seq<char>
    decreases s.len(),
{
    if p.len() > 0 && matches_at(s, p, 0) {
        remove_pat(s.subrange(p.len() as int, s.len() as int), p)
    } else if s.len() == 0 {
        s
    } else {
        seq![s[0]] + remove_pat(s.subrange(1, s.len() as int), p)
    }
}

/// Remove every occurrence of the character pattern `p` from `s`.
pub fn remove_all_chars(s: &str, p: &Vec<char>) -> (r: String)
    requires
        p@.len() >= 1,
    ensures
        r@ == remove_pat(s@, p@),
{
    let s_len = s.unicode_len();
    let p_len = p.len();
    let mut out = String::new();
    let mut i: usize = 0;
    proof {
        assert(s@.subrange(0, s_len as int) =~= s@);
        assert(out@ + remove_pat(s@, p@) =~= remove_pat(s@, p@));
    }
    while i < s_len
        invariant
            s_len == s@.len(),
            p_len == p@.len(),
            1 <= p_len,
            i <= s_len,
            remove_pat(s@, p@) == out@ + remove_pat(s@.subrange(i as int, s_len as int), p@),
        decreases s_len - i,
    {
        let ghost rem = s@.subrange(i as int, s_len as int);
        proof {
            assert(rem[0] == s@[i as int]);
        }
        if p_len <= s_len - i && match_chars_at(s, p, i) {
            proof {
                lemma_matches_shift(s@, p@, i as int, 0);
                assert(rem.subrange(p@.len() as int, rem.len() as int) =~= s@.subrange(
                    i + p_len,
                    s_len as int,
                ));
            }
            i += p_len;
        } else {
            proof {
                lemma_matches_shift(s@, p@, i as int, 0);
                assert(!matches_at(rem, p@, 0));
                assert(remove_pat(rem, p@) == seq![rem[0]] + remove_pat(
                    rem.subrange(1, rem.len() as int),
                    p@,
                ));
                assert(rem.subrange(1, rem.len() as int) =~= s@.subrange(i + 1, s_len as int));
            }
            let ch = s.substring_char(i, i + 1);
            proof {
                assert(ch@ =~= seq![s@[i as int]]);
            }
            out.append(ch);
            proof {
                assert(out@ + remove_pat(s@.subrange(i + 1, s_len as int), p@) =~= remove_pat(
                    s@,
                    p@,
                ));
            }
            i += 1;
        }
    }
    proof {
        assert(s@.subrange(i as int, s_len as int).len() == 0);
        assert(out@ + remove_pat(s@.subrange(i as int, s_len as int), p@) =~= out@);
    }
    out
}

/// String equality over views.
pub fn str_eq(a: &str, b: &str) -> (r: bool)
    ensures
        r == (a@ == b@),
{
    let a_len = a.unicode_len();
    let b_len = b.unicode_len();
    if a_len != b_len {
        return false;
    }
    let mut i: usize = 0;
    while i < a_len
        invariant
            a_len == a@.len(),
            a_len == b@.len(),
            i <= a_len,
            forall|k: int| 0 <= k < i ==> a@[k] == b@[k],
        decreases a_len - i,
    {
        if a.get_char(i) != b.get_char(i) {
            return false;
        }
        i += 1;
    }
    proof {
        assert(a@ =~= b@);
    }
    true
}

} // verus!
