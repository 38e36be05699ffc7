//! Registrar availability lookups: credential validation, the per-domain
//! status cache, and the verified policy applied to the registrar's JSON
//! response. The HTTP transport itself stays outside the library; callers
//! hand in the response body.
use vstd::prelude::*;

use crate::strutil::str_eq;
use crate::ReconError;

verus! {

/// What the registrar response holds: `None` when the body is not valid
/// JSON, otherwise one entry per element of its `products` array (none at
/// all when no such array exists), each the element's string `status` field
/// if it carries one. A function of the body alone.
pub uninterp spec fn product_statuses(body: Seq<char>) -> Option<Seq<Option<Seq<char>>>>;

/// The views of a sequence of optional strings.
pub open spec fn status_views(sts: Seq<Option<String>>) -> Seq<Option<Seq<char>>> {
    sts.map_values(
        |o: Option<String>|
            match o {
                Some(s) => Some(s@),
                None => None::<Seq<char>>,
            },
    )
}

/// Relies on serde_json: `from_str` to parse the body, `Value::get` and
/// `Value::as_array` to reach the `products` array, and `Value::get` with
/// `Value::as_str` to read each element's `status`. Fails, with the parse
/// error's text, exactly when the body is not valid JSON.
#[verifier::external_body]
fn parse_product_statuses(body: &str) -> (r: Result<Vec<Option<String>>, String>)
    ensures
        r is Ok <==> product_statuses(body@) is Some,
        r is Ok ==> Some(status_views(r->Ok_0@)) == product_statuses(body@),
{
    match serde_json::from_str::<serde_json::Value>(body) {
        Ok(v) => Ok(match v.get("products").and_then(|p| p.as_array()) {
            Some(arr) => arr
                .iter()
                .map(|p| p.get("status").and_then(|s| s.as_str()).map(|s| s.to_string()))
                .collect(),
            None => Vec::new(),
        }),
        Err(e) => Err(e.to_string()),
    }
}

/// The first present status among the products, in array order.
pub open spec fn first_status(sts: Seq<Option<Seq<char>>>) -> Option<Seq<char>>
    decreases sts.len(),
{
    if sts.len() == 0 {
        None
    } else if sts[0] is Some {
        sts[0]
    } else {
        first_status(sts.subrange(1, sts.len() as int))
    }
}

/// Locate the first product that carries a status.
fn pick_first_status(sts: &Vec<Option<String>>) -> (r: Option<String>)
    ensures
        match r {
            Some(s) => first_status(status_views(sts@)) == Some(s@),
            None => first_status(status_views(sts@)) is None,
        },
{
    let n = sts.len();
    let mut i: usize = 0;
    proof {
        assert(status_views(sts@).subrange(0, n as int) =~= status_views(sts@));
    }
    while i < n
        invariant
            n == sts@.len(),
            i <= n,
            first_status(status_views(sts@)) == first_status(
                status_views(sts@).subrange(i as int, n as int),
            ),
        decreases n - i,
    {
        let ghost sub = status_views(sts@).subrange(i as int, n as int);
        proof {
            assert(sub.subrange(1, sub.len() as int) =~= status_views(sts@).subrange(
                i + 1,
                n as int,
            ));
        }
        match &sts[i] {
            Some(s) => {
                proof {
                    assert(sub[0] == Some(sts@[i as int]->Some_0@));
                }
                return Some(s.clone());
            },
            None => {
                proof {
                    assert(sub[0] is None);
                }
            },
        }
        i += 1;
    }
    None
}

/// Whether `c` is an ASCII hexadecimal digit.
pub open spec fn is_hex_char(c: char) -> bool {
    ||| ('0' as u32) <= (c as u32) <= ('9' as u32)
    ||| ('a' as u32) <= (c as u32) <= ('f' as u32)
    ||| ('A' as u32) <= (c as u32) <= ('F' as u32)
}

/// A well-formed registrar credential: exactly 40 hexadecimal characters.
pub open spec fn valid_pat(p: Seq<char>) -> bool {
    p.len() == 40 && forall|k: int| 0 <= k < p.len() ==> is_hex_char(p[k])
}

/// The first cached status for `d`, scanning from the front.
pub open spec fn cache_hit(cache: Seq<(Seq<char>, Seq<char>)>, d: Seq<char>) -> Option<Seq<char>>
    decreases cache.len(),
{
    if cache.len() == 0 {
        None
    } else if cache[0].0 == d {
        Some(cache[0].1)
    } else {
        cache_hit(cache.subrange(1, cache.len() as int), d)
    }
}

/// The registrar client: a validated credential and the per-domain status
/// cache. A status, once cached, is never overwritten or expired.
#[derive(Debug)]
pub struct Gandi {
    pat: String,
    domain_status_cache: Vec<(String, String)>,
}

impl Gandi {
    /// The credential.
    pub closed spec fn pat_view(&self) -> Seq<char> {
        self.pat@
    }

    /// The memoized (domain, status) pairs, in insertion order.
    pub closed spec fn cache(&self) -> Seq<(Seq<char>, Seq<char>)> {
        self.domain_status_cache@.map_values(|p: (String, String)| (p.0@, p.1@))
    }

    /// A client over the given credential, which must be 40 hexadecimal
    /// characters; the cache starts empty.
    pub fn new(pat: String) -> (r: Result<Gandi, String>)
        ensures
            match r {
                Ok(g) => valid_pat(pat@) && g.pat_view() == pat@ && g.cache() == Seq::<
                    (Seq<char>, Seq<char>),
                >::empty(),
                Err(m) => !valid_pat(pat@) && (if pat@.len() != 40 {
                    m@ == "gandi_pat is not 40 characters long"@
                } else {
                    m@ == "gandi_pat is not hexidecimal"@
                }),
            },
    {
        let len = pat.as_str().unicode_len();
        if len != 40 {
            return Err("gandi_pat is not 40 characters long".to_owned());
        }
        let mut i: usize = 0;
        while i < len
            invariant
                len == pat@.len(),
                len == 40,
                i <= len,
                forall|k: int| 0 <= k < i ==> is_hex_char(pat@[k]),
            decreases len - i,
        {
            let u = pat.as_str().get_char(i) as u32;
            if !((48 <= u && u <= 57) || (97 <= u && u <= 102) || (65 <= u && u <= 70)) {
                proof {
                    assert(!is_hex_char(pat@[i as int]));
                }
                return Err("gandi_pat is not hexidecimal".to_owned());
            }
            i += 1;
        }
        let g = Gandi { pat, domain_status_cache: Vec::new() };
        proof {
            assert(g.cache() =~= Seq::<(Seq<char>, Seq<char>)>::empty());
        }
        Ok(g)
    }

    /// The cached status of `domain`, with no network involved.
    pub fn cached_status(&self, domain: &str) -> (r: Option<String>)
        ensures
            match r {
                Some(s) => cache_hit(self.cache(), domain@) == Some(s@),
                None => cache_hit(self.cache(), domain@) is None,
            },
    {
        let n = self.domain_status_cache.len();
        let mut i: usize = 0;
        proof {
            assert(self.cache().subrange(0, n as int) =~= self.cache());
        }
        while i < n
            invariant
                n == self.domain_status_cache@.len(),
                i <= n,
                cache_hit(self.cache(), domain@) == cache_hit(
                    self.cache().subrange(i as int, n as int),
                    domain@,
                ),
            decreases n - i,
        {
            let ghost sub = self.cache().subrange(i as int, n as int);
            proof {
                assert(sub[0] == (self.domain_status_cache@[i as int].0@,
                self.domain_status_cache@[i as int].1@));
                assert(sub.subrange(1, sub.len() as int) =~= self.cache().subrange(
                    i + 1,
                    n as int,
                ));
            }
            if str_eq(self.domain_status_cache[i].0.as_str(), domain) {
                return Some(self.domain_status_cache[i].1.clone());
            }
            i += 1;
        }
        None
    }

    /// Record the status located in a registrar response: a found status is
    /// cached and returned; a response without one yields the literal
    /// `"error"` and caches nothing, so a later lookup retries the network.
    /// Runs only after a cache miss, which keeps domains unique.
    pub fn apply_status(&mut self, domain: &str, found: Option<String>) -> (r: String)
        requires
            cache_hit(old(self).cache(), domain@) is None,
        ensures
            final(self).pat_view() == old(self).pat_view(),
            match found {
                Some(s) => r == s && final(self).cache() == old(self).cache().push(
                    (domain@, s@),
                ),
                None => r@ == "error"@ && final(self).cache() == old(self).cache(),
            },
    {
        match found {
            Some(s) => {
                let entry = (domain.to_owned(), s.clone());
                proof {
                    assert(self.domain_status_cache@.push(entry).map_values(
                        |p: (String, String)| (p.0@, p.1@),
                    ) =~= self.cache().push((domain@, s@)));
                }
                self.domain_status_cache.push(entry);
                s
            },
            None => "error".to_owned(),
        }
    }

    /// Interpret one registrar response body for `domain`: parse the JSON,
    /// locate the first element of the `products` array carrying a string
    /// `status`, and apply the caching policy. Fails with a lookup error,
    /// caching nothing, exactly when the body is not JSON. Runs only after
    /// a cache miss: on a hit no network call, and so no response, exists.
    pub fn status_from_body(&mut self, domain: &str, body: &str) -> (r: Result<String, ReconError>)
        requires
            cache_hit(old(self).cache(), domain@) is None,
        ensures
            final(self).pat_view() == old(self).pat_view(),
            match r {
                Ok(s) => {
                    &&& product_statuses(body@) is Some
                    &&& match first_status(product_statuses(body@)->Some_0) {
                        Some(st) => s@ == st && final(self).cache() == old(self).cache().push(
                            (domain@, st),
                        ),
                        None => s@ == "error"@ && final(self).cache() == old(self).cache(),
                    }
                },
                Err(e) => {
                    &&& e is Lookup
                    &&& product_statuses(body@) is None
                    &&& final(self).cache() == old(self).cache()
                },
            },
    {
        let sts = match parse_product_statuses(body) {
            Ok(v) => v,
            Err(t) => {
                return Err(ReconError::Lookup(t));
            },
        };
        let found = pick_first_status(&sts);
        Ok(self.apply_status(domain, found))
    }
}

/// No domain appears in the cache twice.
pub open spec fn unique_domains(cache: Seq<(Seq<char>, Seq<char>)>) -> bool {
    forall|i: int, j: int| 0 <= i < j < cache.len() ==> cache[i].0 != cache[j].0
}

/// A miss means no entry at all carries the domain.
pub proof fn lemma_miss_means_absent(cache: Seq<(Seq<char>, Seq<char>)>, d: Seq<char>)
    requires
        cache_hit(cache, d) is None,
    ensures
        forall|i: int| 0 <= i < cache.len() ==> cache[i].0 != d,
    decreases cache.len(),
{
    if cache.len() > 0 {
        lemma_miss_means_absent(cache.subrange(1, cache.len() as int), d);
        assert forall|i: int| 0 <= i < cache.len() implies cache[i].0 != d by {
            if i > 0 {
                assert(cache.subrange(1, cache.len() as int)[i - 1] == cache[i]);
            }
        }
    }
}

/// Caching a status after a miss keeps at most one entry per domain.
pub proof fn lemma_insert_keeps_unique(
    cache: Seq<(Seq<char>, Seq<char>)>,
    d: Seq<char>,
    s: Seq<char>,
)
    requires
        unique_domains(cache),
        cache_hit(cache, d) is None,
    ensures
        unique_domains(cache.push((d, s))),
{
    lemma_miss_means_absent(cache, d);
    let c2 = cache.push((d, s));
    assert forall|i: int, j: int| 0 <= i < j < c2.len() implies c2[i].0 != c2[j].0 by {
        if j == cache.len() as int {
            assert(c2[i] == cache[i]);
            assert(c2[j] == (d, s));
        }
    }
}

/// Recording a found status makes it the cached status for that domain: a
/// second lookup hits the cache and needs no network call.
pub proof fn lemma_record_then_hit(cache: Seq<(Seq<char>, Seq<char>)>, d: Seq<char>, s: Seq<char>)
    requires
        cache_hit(cache, d) is None,
    ensures
        cache_hit(cache.push((d, s)), d) == Some(s),
    decreases cache.len(),
{
    if cache.len() == 0 {
        assert(cache.push((d, s))[0] == (d, s));
    } else {
        let sub = cache.subrange(1, cache.len() as int);
        assert(cache.push((d, s)).subrange(1, cache.push((d, s)).len() as int) =~= sub.push(
            (d, s),
        ));
        lemma_record_then_hit(sub, d, s);
    }
}

} // verus!
