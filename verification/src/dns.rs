//! SPF and DMARC posture analysis over the TXT answers of a DNS query, and
//! the checker that owns the resolver pool and the posture caches.
use vstd::prelude::*;

use crate::domain::{canon_all, canon_seq, simplify_domain};
use crate::strutil::{
    contains_seq, contains_str, lemma_matches_shift, match_chars_at, matches_at, remove_all_chars,
    remove_pat, str_eq, views,
};
use crate::ReconError;

verus! {

/// SPF posture: `SoftFail` when a matching record carries `~all`; `Missing`
/// when no TXT record matches `v=spf`. A present-but-strict record yields
/// neither signal.
#[derive(Clone, Copy, Debug, PartialEq, Eq, Structural)]
pub enum SpfPosture {
    SoftFail,
    Missing,
}

/// DMARC posture: `PolicyNone` when a record carries both `v=DMARC` and
/// `p=none`; `Missing` when the resolver returned zero answer records.
#[derive(Clone, Copy, Debug, PartialEq, Eq, Structural)]
pub enum DmarcPosture {
    PolicyNone,
    Missing,
}

/// One memoized SPF classification.
pub struct SpfCacheRecord {
    pub domain: String,
    pub result: SpfPosture,
}

/// One memoized DMARC classification.
pub struct DmarcCacheRecord {
    pub domain: String,
    pub result: DmarcPosture,
}

/// The splice artifact a DNS TXT answer shows between adjacent quoted
/// string fragments.
pub open spec fn splice() -> Seq<char> {
    seq!['"', ' ', '"']
}

/// The SPF directive marker: the word before each referenced domain.
pub open spec fn inc_marker() -> Seq<char> {
    seq!['i', 'n', 'c', 'l', 'u', 'd', 'e', ':']
}

/// A record's text with the quoted-fragment splices collapsed.
pub open spec fn cleaned(r: Seq<char>) -> Seq<char> {
    remove_pat(r, splice())
}

/// Whether a record is an SPF record.
pub open spec fn is_spf(r: Seq<char>) -> bool {
    contains_seq(cleaned(r), "v=spf"@)
}

/// Whether a record is an SPF record with a softfail qualifier.
pub open spec fn is_softfail(r: Seq<char>) -> bool {
    is_spf(r) && contains_seq(cleaned(r), "~all"@)
}

/// Length of the maximal prefix of `s` free of spaces and commas.
pub open spec fn token_len(s: Seq<char>) -> nat
    decreases s.len(),
{
    if s.len() == 0 {
        0
    } else if s[0] == ' ' || s[0] == ',' {
        0
    } else {
        1 + token_len(s.subrange(1, s.len() as int))
    }
}

pub proof fn lemma_token_len_bound(s: Seq<char>)
    ensures
        token_len(s) <= s.len(),
    decreases s.len(),
{
    if s.len() != 0 && !(s[0] == ' ' || s[0] == ',') {
        lemma_token_len_bound(s.subrange(1, s.len() as int));
    }
}

pub proof fn lemma_token_len_at(s: Seq<char>, j: int)
    requires
        0 <= j <= s.len(),
        forall|k: int| 0 <= k < j ==> !(s[k] == ' ' || s[k] == ','),
        j < s.len() ==> (s[j] == ' ' || s[j] == ','),
    ensures
        token_len(s) == j,
    decreases j,
{
    if j == 0 {
    } else {
        let tail = s.subrange(1, s.len() as int);
        assert(forall|k: int| 0 <= k < j - 1 ==> tail[k] == s[k + 1]);
        lemma_token_len_at(tail, j - 1);
    }
}

/// The directive tokens of one cleaned record: every maximal run starting at
/// the marker and ending before a space, a comma, or the end.
pub open spec fn raw_includes(s: Seq<char>) -> Seq<Seq<char>>
    decreases s.len(),
    via raw_includes_dec
{
    if s.len() < 8 {
        Seq::empty()
    } else if matches_at(s, inc_marker(), 0) {
        let e = 8 + token_len(s.subrange(8, s.len() as int)) as int;
        seq![s.subrange(0, e)] + raw_includes(s.subrange(e, s.len() as int))
    } else {
        raw_includes(s.subrange(1, s.len() as int))
    }
}

#[via_fn]
proof fn raw_includes_dec(s: Seq<char>) {
    if s.len() >= 8 && matches_at(s, inc_marker(), 0) {
        lemma_token_len_bound(s.subrange(8, s.len() as int));
    }
}

/// The known-safe, noise-reducing exclusion among SPF targets.
pub open spec fn outlook_target() -> Seq<char> {
    "spf.protection.outlook.com"@
}

/// The directive tokens with the marker removed and the known-safe target
/// dropped.
pub open spec fn sel_includes(toks: Seq<Seq<char>>) -> Seq<Seq<char>>
    decreases toks.len(),
{
    if toks.len() == 0 {
        Seq::empty()
    } else {
        let t = remove_pat(toks[0], inc_marker());
        let rest = sel_includes(toks.subrange(1, toks.len() as int));
        if t == outlook_target() {
            rest
        } else {
            seq![t] + rest
        }
    }
}

/// The referenced domains of one record, raw (before canonicalization).
pub open spec fn record_includes(r: Seq<char>) -> Seq<Seq<char>> {
    sel_includes(raw_includes(cleaned(r)))
}

/// The referenced domains over a whole answer set, in record order, taken
/// only from records that match `v=spf`.
pub open spec fn spf_includes(avs: Seq<Seq<char>>) -> Seq<Seq<char>>
    decreases avs.len(),
{
    if avs.len() == 0 {
        Seq::empty()
    } else {
        let head = if is_spf(avs[0]) {
            record_includes(avs[0])
        } else {
            Seq::<Seq<char>>::empty()
        };
        head + spf_includes(avs.subrange(1, avs.len() as int))
    }
}

/// How many records carry a softfail qualifier.
pub open spec fn softfail_count(avs: Seq<Seq<char>>) -> nat
    decreases avs.len(),
{
    if avs.len() == 0 {
        0
    } else {
        (if is_softfail(avs[0]) {
            1nat
        } else {
            0nat
        }) + softfail_count(avs.subrange(1, avs.len() as int))
    }
}

/// The SPF classification of an answer set.
pub open spec fn spf_posture(avs: Seq<Seq<char>>) -> Option<SpfPosture> {
    if exists|i: int| 0 <= i < avs.len() && is_softfail(avs[i]) {
        Some(SpfPosture::SoftFail)
    } else if forall|i: int| 0 <= i < avs.len() ==> !is_spf(avs[i]) {
        Some(SpfPosture::Missing)
    } else {
        None
    }
}

/// Whether a record declares a DMARC policy of none.
pub open spec fn is_dmarc_none(r: Seq<char>) -> bool {
    contains_seq(r, "v=DMARC"@) && contains_seq(r, "p=none"@)
}

/// The DMARC classification of an answer set: any answer at all avoids
/// `Missing`, whatever its content.
pub open spec fn dmarc_posture(avs: Seq<Seq<char>>) -> Option<DmarcPosture> {
    if exists|i: int| 0 <= i < avs.len() && is_dmarc_none(avs[i]) {
        Some(DmarcPosture::PolicyNone)
    } else if avs.len() == 0 {
        Some(DmarcPosture::Missing)
    } else {
        None
    }
}

/// Extract the raw directive tokens of one cleaned record.
fn extract_raw_includes(rs: &str) -> (toks: Vec<String>)
    ensures
        views(toks@) == raw_includes(rs@),
{
    let len = rs.unicode_len();
    let marker: Vec<char> = vec!['i', 'n', 'c', 'l', 'u', 'd', 'e', ':'];
    proof {
        assert(marker@ =~= inc_marker());
    }
    let mut toks: Vec<String> = Vec::new();
    let mut i: usize = 0;
    proof {
        assert(rs@.subrange(0, len as int) =~= rs@);
        assert(views(toks@) + raw_includes(rs@) =~~= raw_includes(rs@));
    }
    while len - i >= 8
        invariant
            len == rs@.len(),
            i <= len,
            marker@ == inc_marker(),
            raw_includes(rs@) == views(toks@) + raw_includes(rs@.subrange(i as int, len as int)),
        decreases len - i,
    {
        let ghost rem = rs@.subrange(i as int, len as int);
        if match_chars_at(rs, &marker, i) {
            proof {
                lemma_matches_shift(rs@, inc_marker(), i as int, 0);
            }
            let j = scan_token_end(rs, i + 8);
            let tok = rs.substring_char(i, j).to_owned();
            proof {
                let sub8 = rs@.subrange(i + 8, len as int);
                assert(rem.subrange(8, rem.len() as int) =~= sub8);
                lemma_token_len_at(sub8, j - (i + 8));
                let e = 8 + token_len(rem.subrange(8, rem.len() as int)) as int;
                assert(e == j - i);
                assert(rem.subrange(0, e) =~= rs@.subrange(i as int, j as int));
                assert(rem.subrange(e, rem.len() as int) =~= rs@.subrange(j as int, len as int));
                assert(raw_includes(rem) == seq![tok@] + raw_includes(
                    rs@.subrange(j as int, len as int),
                ));
                crate::strutil::lemma_views_push(toks@, tok);
                assert(views(toks@.push(tok)) + raw_includes(rs@.subrange(j as int, len as int))
                    =~= views(toks@) + raw_includes(rem));
            }
            toks.push(tok);
            i = j;
        } else {
            proof {
                lemma_matches_shift(rs@, inc_marker(), i as int, 0);
                assert(!matches_at(rem, inc_marker(), 0));
                assert(rem.subrange(1, rem.len() as int) =~= rs@.subrange(i + 1, len as int));
            }
            i += 1;
        }
    }
    proof {
        assert(rs@.subrange(i as int, len as int).len() < 8);
        assert(raw_includes(rs@.subrange(i as int, len as int)) == Seq::<Seq<char>>::empty());
        assert(views(toks@) + Seq::<Seq<char>>::empty() =~~= views(toks@));
    }
    toks
}

/// First index at or after `from` holding a space or a comma, or the end.
fn scan_token_end(rs: &str, from: usize) -> (j: usize)
    requires
        from <= rs@.len(),
    ensures
        from <= j <= rs@.len(),
        forall|k: int| from <= k < j ==> !(rs@[k] == ' ' || rs@[k] == ','),
        j < rs@.len() ==> (rs@[j as int] == ' ' || rs@[j as int] == ','),
{
    let len = rs.unicode_len();
    let mut j = from;
    while j < len
        invariant
            from <= j <= len,
            len == rs@.len(),
            forall|k: int| from <= k < j ==> !(rs@[k] == ' ' || rs@[k] == ','),
        decreases len - j,
    {
        let c = rs.get_char(j);
        if c == ' ' || c == ',' {
            return j;
        }
        j += 1;
    }
    j
}

/// Strip the marker from each token and drop the known-safe target.
fn select_includes(toks: &Vec<String>) -> (sel: Vec<String>)
    ensures
        views(sel@) == sel_includes(views(toks@)),
{
    let marker: Vec<char> = vec!['i', 'n', 'c', 'l', 'u', 'd', 'e', ':'];
    proof {
        assert(marker@ =~= inc_marker());
    }
    let mut sel: Vec<String> = Vec::new();
    let mut i: usize = 0;
    let n = toks.len();
    proof {
        assert(views(toks@).subrange(0, n as int) =~= views(toks@));
        assert(views(sel@) + sel_includes(views(toks@)) =~~= sel_includes(views(toks@)));
    }
    while i < n
        invariant
            n == toks@.len(),
            i <= n,
            marker@ == inc_marker(),
            sel_includes(views(toks@)) == views(sel@) + sel_includes(
                views(toks@).subrange(i as int, n as int),
            ),
        decreases n - i,
    {
        let ghost sub = views(toks@).subrange(i as int, n as int);
        proof {
            assert(sub[0] == toks@[i as int]@);
            assert(sub.subrange(1, sub.len() as int) =~= views(toks@).subrange(i + 1, n as int));
        }
        let t = remove_all_chars(toks[i].as_str(), &marker);
        if str_eq(t.as_str(), "spf.protection.outlook.com") {
            proof {
                assert(sel_includes(sub) == sel_includes(
                    views(toks@).subrange(i + 1, n as int),
                ));
            }
        } else {
            proof {
                crate::strutil::lemma_views_push(sel@, t);
                assert(views(sel@.push(t)) + sel_includes(views(toks@).subrange(i + 1, n as int))
                    =~= views(sel@) + sel_includes(sub));
            }
            sel.push(t);
        }
        i += 1;
    }
    proof {
        assert(views(toks@).subrange(n as int, n as int).len() == 0);
        assert(views(sel@) + Seq::<Seq<char>>::empty() =~~= views(sel@));
    }
    sel
}

/// The DNS posture checker: a resolver pool and the memoized posture
/// classifications.
pub struct DnsChecker {
    dns_servers: Vec<String>,
    spf_record_cache: Vec<SpfCacheRecord>,
    dmarc_record_cache: Vec<DmarcCacheRecord>,
}

impl DnsChecker {
    /// The resolver pool, as character sequences.
    pub closed spec fn servers(&self) -> Seq<Seq<char>> {
        views(self.dns_servers@)
    }

    /// The memoized SPF classifications.
    pub closed spec fn spf_cache(&self) -> Seq<(Seq<char>, SpfPosture)> {
        self.spf_record_cache@.map_values(|r: SpfCacheRecord| (r.domain@, r.result))
    }

    /// The memoized DMARC classifications.
    pub closed spec fn dmarc_cache(&self) -> Seq<(Seq<char>, DmarcPosture)> {
        self.dmarc_record_cache@.map_values(|r: DmarcCacheRecord| (r.domain@, r.result))
    }

    /// A checker over the given resolver pool, with empty caches.
    pub fn new(dns_servers: Vec<String>) -> (r: DnsChecker)
        ensures
            r.servers() == views(dns_servers@),
            r.spf_cache() == Seq::<(Seq<char>, SpfPosture)>::empty(),
            r.dmarc_cache() == Seq::<(Seq<char>, DmarcPosture)>::empty(),
    {
        let r = DnsChecker {
            dns_servers,
            spf_record_cache: Vec::new(),
            dmarc_record_cache: Vec::new(),
        };
        proof {
            assert(r.spf_cache() =~= Seq::<(Seq<char>, SpfPosture)>::empty());
            assert(r.dmarc_cache() =~= Seq::<(Seq<char>, DmarcPosture)>::empty());
        }
        r
    }

    /// One resolver chosen from the pool, with the DNS port attached.
    pub fn pick_resolver(&self) -> (r: String)
        requires
            self.servers().len() > 0,
        ensures
            exists|i: int| 0 <= i < self.servers().len() && r@ == self.servers()[i] + ":53"@,
    {
        let idx = crate::wire::random_below(self.dns_servers.len());
        let mut r = self.dns_servers[idx].clone();
        r.append(":53");
        proof {
            assert(r@ == self.servers()[idx as int] + ":53"@);
        }
        r
    }

    /// The referenced domains of the TXT `answers`, raw: as each stands in
    /// its record, before canonicalization. Index for index, these are the
    /// domains whose canonical forms `spf_records_check` hands back, so a
    /// caller can report when canonicalization changed one.
    pub fn spf_targets_raw(answers: &Vec<String>) -> (r: Vec<String>)
        ensures
            views(r@) == spf_includes(views(answers@)),
    {
        let ghost avs = views(answers@);
        let splice_v: Vec<char> = vec!['"', ' ', '"'];
        proof {
            assert(splice_v@ =~= splice());
        }
        let n = answers.len();
        let mut sel_all: Vec<String> = Vec::new();
        let mut i: usize = 0;
        proof {
            assert(avs.subrange(0, n as int) =~= avs);
            assert(views(sel_all@) + spf_includes(avs) =~~= spf_includes(avs));
        }
        while i < n
            invariant
                n == answers@.len(),
                avs == views(answers@),
                i <= n,
                splice_v@ == splice(),
                spf_includes(avs) == views(sel_all@) + spf_includes(
                    avs.subrange(i as int, n as int),
                ),
            decreases n - i,
        {
            let ghost sub = avs.subrange(i as int, n as int);
            proof {
                assert(sub[0] == answers@[i as int]@);
                assert(sub.subrange(1, sub.len() as int) =~= avs.subrange(i + 1, n as int));
            }
            let rs = remove_all_chars(answers[i].as_str(), &splice_v);
            if contains_str(rs.as_str(), "v=spf") {
                let toks = extract_raw_includes(rs.as_str());
                let mut sel = select_includes(&toks);
                proof {
                    assert(views(sel@) == record_includes(sub[0]));
                    assert(views(sel_all@ + sel@) =~= views(sel_all@) + views(sel@));
                    assert(views(sel_all@) + views(sel@) + spf_includes(
                        avs.subrange(i + 1, n as int),
                    ) =~= views(sel_all@) + spf_includes(sub));
                }
                sel_all.append(&mut sel);
            } else {
                proof {
                    assert(spf_includes(sub) == spf_includes(avs.subrange(i + 1, n as int)));
                }
            }
            i += 1;
        }
        proof {
            assert(avs.subrange(n as int, n as int).len() == 0);
            assert(spf_includes(avs.subrange(n as int, n as int)) == Seq::<Seq<char>>::empty());
            assert(views(sel_all@) + Seq::<Seq<char>>::empty() =~~= views(sel_all@));
        }
        sel_all
    }

    /// Classify the SPF posture of `domain` from the TXT `answers` and
    /// collect the canonicalized referenced domains, memoizing one softfail
    /// entry per softfail record. Fails only when a referenced domain has
    /// too few labels to canonicalize, leaving the checker unchanged.
    pub fn spf_records_check(&mut self, domain: &str, answers: &Vec<String>) -> (r: Result<
        (Option<SpfPosture>, Vec<String>),
        ReconError,
    >)
        ensures
            final(self).servers() == old(self).servers(),
            final(self).dmarc_cache() == old(self).dmarc_cache(),
            match r {
                Ok((posture, incs)) => {
                    &&& canon_all(spf_includes(views(answers@)))
                    &&& posture == spf_posture(views(answers@))
                    &&& views(incs@) == canon_seq(spf_includes(views(answers@)))
                    &&& final(self).spf_cache() == old(self).spf_cache() + Seq::new(
                        softfail_count(views(answers@)),
                        |k: int| (domain@, SpfPosture::SoftFail),
                    )
                },
                Err(e) => {
                    &&& e is NotCanonicalizable
                    &&& !canon_all(spf_includes(views(answers@)))
                    &&& final(self).spf_cache() == old(self).spf_cache()
                },
            },
    {
        let ghost avs = views(answers@);
        let splice_v: Vec<char> = vec!['"', ' ', '"'];
        proof {
            assert(splice_v@ =~= splice());
        }
        let n = answers.len();
        let sel_all = Self::spf_targets_raw(answers);
        let mut nsf: usize = 0;
        let mut found = false;
        let mut i: usize = 0;
        proof {
            assert(avs.subrange(0, n as int) =~= avs);
        }
        while i < n
            invariant
                n == answers@.len(),
                avs == views(answers@),
                i <= n,
                nsf <= i,
                splice_v@ == splice(),
                nsf + softfail_count(avs.subrange(i as int, n as int)) == softfail_count(avs),
                found == exists|k: int| 0 <= k < i && is_spf(avs[k]),
            decreases n - i,
        {
            let ghost sub = avs.subrange(i as int, n as int);
            proof {
                assert(sub[0] == answers@[i as int]@);
                assert(sub.subrange(1, sub.len() as int) =~= avs.subrange(i + 1, n as int));
            }
            let rs = remove_all_chars(answers[i].as_str(), &splice_v);
            if contains_str(rs.as_str(), "v=spf") {
                found = true;
                proof {
                    assert(is_spf(avs[i as int]));
                }
                if contains_str(rs.as_str(), "~all") {
                    nsf += 1;
                }
            }
            i += 1;
        }
        proof {
            assert(avs.subrange(n as int, n as int).len() == 0);
            assert(softfail_count(avs.subrange(n as int, n as int)) == 0);
        }
        // Canonicalize every referenced domain, or report the first failure.
        let ghost all = spf_includes(avs);
        let mut incs: Vec<String> = Vec::new();
        let mut k: usize = 0;
        let m = sel_all.len();
        proof {
            assert(views(incs@) =~= canon_seq(all.subrange(0, 0)));
        }
        while k < m
            invariant
                m == sel_all@.len(),
                views(sel_all@) == all,
                all == spf_includes(views(answers@)),
                k <= m,
                forall|q: int| 0 <= q < k ==> crate::domain::simplify_spec(all[q]) is Some,
                views(incs@) == canon_seq(all.subrange(0, k as int)),
            decreases m - k,
        {
            proof {
                assert(all[k as int] == sel_all@[k as int]@);
            }
            match simplify_domain(sel_all[k].as_str()) {
                Some(c) => {
                    proof {
                        crate::strutil::lemma_views_push(incs@, c);
                        assert(canon_seq(all.subrange(0, k + 1)) =~= canon_seq(
                            all.subrange(0, k as int),
                        ).push(c@));
                    }
                    incs.push(c);
                },
                None => {
                    proof {
                        assert(!canon_all(all));
                    }
                    return Err(ReconError::NotCanonicalizable);
                },
            }
            k += 1;
        }
        proof {
            assert(all.subrange(0, m as int) =~= all);
            assert(canon_all(all));
        }
        // Memoize one softfail entry per matching record.
        let ghost cache0 = self.spf_cache();
        let mut c: usize = 0;
        proof {
            assert(self.spf_cache() =~= cache0 + Seq::new(
                0nat,
                |q: int| (domain@, SpfPosture::SoftFail),
            ));
        }
        while c < nsf
            invariant
                c <= nsf,
                self.servers() == old(self).servers(),
                self.dmarc_cache() == old(self).dmarc_cache(),
                cache0 == old(self).spf_cache(),
                self.spf_cache() == cache0 + Seq::new(
                    c as nat,
                    |q: int| (domain@, SpfPosture::SoftFail),
                ),
            decreases nsf - c,
        {
            let entry = SpfCacheRecord { domain: domain.to_owned(), result: SpfPosture::SoftFail };
            proof {
                assert(self.spf_record_cache@.push(entry).map_values(
                    |r: SpfCacheRecord| (r.domain@, r.result),
                ) =~= self.spf_cache().push((domain@, SpfPosture::SoftFail)));
                assert(cache0 + Seq::new((c + 1) as nat, |q: int| (domain@, SpfPosture::SoftFail))
                    =~= (cache0 + Seq::new(c as nat, |q: int| (domain@, SpfPosture::SoftFail))).push(
                    (domain@, SpfPosture::SoftFail),
                ));
            }
            self.spf_record_cache.push(entry);
            c += 1;
        }
        let posture: Option<SpfPosture> = if nsf > 0 {
            proof {
                lemma_softfail_count_exists(avs);
            }
            Some(SpfPosture::SoftFail)
        } else {
            proof {
                lemma_softfail_count_zero(avs);
            }
            if !found {
                Some(SpfPosture::Missing)
            } else {
                None
            }
        };
        proof {
            assert(cache0 + Seq::new(nsf as nat, |q: int| (domain@, SpfPosture::SoftFail))
                =~= old(self).spf_cache() + Seq::new(
                softfail_count(views(answers@)),
                |k: int| (domain@, SpfPosture::SoftFail),
            ));
        }
        Ok((posture, incs))
    }

    /// Classify the DMARC posture of the TXT `answers` for a query at the
    /// `_dmarc.` name.
    pub fn dmarc_check(&self, answers: &Vec<String>) -> (r: Option<DmarcPosture>)
        ensures
            r == dmarc_posture(views(answers@)),
    {
        let n = answers.len();
        let mut i: usize = 0;
        let mut any_none = false;
        while i < n
            invariant
                n == answers@.len(),
                i <= n,
                any_none == exists|k: int|
                    0 <= k < i && is_dmarc_none(views(answers@)[k]),
            decreases n - i,
        {
            let has_v = contains_str(answers[i].as_str(), "v=DMARC");
            let has_p = contains_str(answers[i].as_str(), "p=none");
            proof {
                assert(views(answers@)[i as int] == answers@[i as int]@);
            }
            if has_v && has_p {
                any_none = true;
                proof {
                    assert(is_dmarc_none(views(answers@)[i as int]));
                }
            }
            i += 1;
        }
        if any_none {
            Some(DmarcPosture::PolicyNone)
        } else if n == 0 {
            Some(DmarcPosture::Missing)
        } else {
            None
        }
    }
}

/// A positive softfail count yields a softfail witness.
proof fn lemma_softfail_count_exists(avs: Seq<Seq<char>>)
    requires
        softfail_count(avs) > 0,
    ensures
        exists|i: int| 0 <= i < avs.len() && is_softfail(avs[i]),
    decreases avs.len(),
{
    if avs.len() > 0 {
        if is_softfail(avs[0]) {
        } else {
            lemma_softfail_count_exists(avs.subrange(1, avs.len() as int));
            let j = choose|j: int|
                0 <= j < avs.subrange(1, avs.len() as int).len() && is_softfail(
                    avs.subrange(1, avs.len() as int)[j],
                );
            assert(is_softfail(avs[j + 1]));
        }
    }
}

/// A zero softfail count means no record is a softfail record.
proof fn lemma_softfail_count_zero(avs: Seq<Seq<char>>)
    requires
        softfail_count(avs) == 0,
    ensures
        forall|i: int| 0 <= i < avs.len() ==> !is_softfail(avs[i]),
    decreases avs.len(),
{
    if avs.len() > 0 {
        lemma_softfail_count_zero(avs.subrange(1, avs.len() as int));
        assert forall|i: int| 0 <= i < avs.len() implies !is_softfail(avs[i]) by {
            if i > 0 {
                assert(avs.subrange(1, avs.len() as int)[i - 1] == avs[i]);
            }
        }
    }
}

/// Encode one DNS query with a single TXT question for `name` and an
/// EDNS(0) extension advertising a 4096-byte UDP payload, as wire-format
/// bytes ready to be sent. Fails, with a codec error, exactly when the
/// name cannot be encoded as a DNS question.
pub fn encode_txt_query(name: &str) -> (r: Result<Vec<u8>, ReconError>)
    ensures
        r is Ok <==> crate::wire::txt_query_encodable(name@),
        r is Err ==> r->Err_0 is Codec,
{
    match crate::wire::build_txt_query(name, 4096) {
        Ok(v) => Ok(v),
        Err(t) => Err(ReconError::Codec(t)),
    }
}

/// Decode one DNS reply and hand back the text of each answer record, in
/// answer order. Fails, with a codec error, exactly when the buffer does
/// not decode as a DNS message.
pub fn decode_txt_answers(buf: &[u8]) -> (r: Result<Vec<String>, ReconError>)
    ensures
        r is Ok <==> crate::wire::txt_answers_of(buf@) is Some,
        r is Ok ==> Some(views(r->Ok_0@)) == crate::wire::txt_answers_of(buf@),
        r is Err ==> r->Err_0 is Codec,
{
    match crate::wire::parse_txt_answers(buf) {
        Ok(texts) => Ok(texts),
        Err(t) => Err(ReconError::Codec(t)),
    }
}

/// The query name for a DMARC lookup: the `_dmarc.` label prefixed.
pub fn dmarc_query_name(domain: &str) -> (r: String)
    ensures
        r@ == "_dmarc."@ + domain@,
{
    let mut r = "_dmarc.".to_owned();
    r.append(domain);
    r
}

} // verus!
