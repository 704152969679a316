use vstd::prelude::*;

use crate::matcher::distance::{lemma_lev_le_len, lev, levenshtein};
use crate::matcher::jaro::{jaro_winkler, jaro_winkler_frac, lemma_jw_frac_bounds};
use crate::utils::string::{chars_of, despaced, lemma_despaced_le_len, strip_spaces};

verus! {

/// A candidate survives the filter unless its edit distance exceeds one
/// and its Jaro–Winkler similarity falls below eight tenths.
pub open spec fn cand_ok(c: Seq<char>, q: Seq<char>) -> bool {
    !(lev(c, q) > 1 && 5 * jaro_winkler_frac(c, q).0 < 4 * jaro_winkler_frac(c, q).1)
}

/// Numerator of the combined score `0.7 * lev + 0.3 * (1 - jw)` over the
/// denominator `10 *` [`score_den`]; lower scores are better.
pub open spec fn score_num(c: Seq<char>, q: Seq<char>) -> int {
    7 * lev(c, q) * jaro_winkler_frac(c, q).1 + 3 * (jaro_winkler_frac(c, q).1 - jaro_winkler_frac(
        c,
        q,
    ).0)
}

/// Denominator the score of candidate `c` is scaled by.
pub open spec fn score_den(c: Seq<char>, q: Seq<char>) -> int {
    jaro_winkler_frac(c, q).1
}

/// Whether candidate `c1` scores strictly better (lower) than `c2`
/// against query `q`, compared exactly by cross-multiplication.
pub open spec fn score_lt(c1: Seq<char>, c2: Seq<char>, q: Seq<char>) -> bool {
    score_num(c1, q) * score_den(c2, q) < score_num(c2, q) * score_den(c1, q)
}

/// Index of the best candidate among the first `i` entries of `dict`:
/// the first candidate that survives the filter and whose score no later
/// surviving candidate strictly beats.
pub open spec fn best_upto(dict: Seq<Seq<char>>, q: Seq<char>, i: int) -> Option<int>
    decreases i,
{
    if i <= 0 {
        None
    } else {
        let prev = best_upto(dict, q, i - 1);
        if !cand_ok(dict[i - 1], q) {
            prev
        } else {
            match prev {
                None => Some(i - 1),
                Some(k) => if score_lt(dict[i - 1], dict[k], q) {
                    Some(i - 1)
                } else {
                    Some(k)
                },
            }
        }
    }
}

/// The command name the matcher must return for query `q`, if any:
/// candidates and query are normalised by stripping spaces, the best
/// surviving candidate wins, and its configured (unstripped) name is
/// returned.
pub open spec fn match_spec(dict: Seq<Seq<char>>, q: Seq<char>) -> Option<Seq<char>> {
    let norm = dict.map_values(|c: Seq<char>| despaced(c));
    match best_upto(norm, despaced(q), norm.len() as int) {
        Some(k) => Some(dict[k]),
        None => None,
    }
}

/// Every dictionary entry is short enough for exact score arithmetic.
pub open spec fn dict_wf(dict: Seq<Seq<char>>) -> bool {
    forall|i: int| 0 <= i < dict.len() ==> (#[trigger] dict[i]).len() <= 10000
}

/// Scores are proper: the denominator is positive, the numerator is never
/// negative, a candidate equal to the query scores zero, and any other
/// candidate scores at least seven.
pub proof fn lemma_score_bounds(c: Seq<char>, q: Seq<char>)
    ensures
        score_den(c, q) >= 1,
        score_num(c, q) >= 0,
        c == q ==> score_num(c, q) == 0 && cand_ok(c, q),
        c != q ==> score_num(c, q) >= 7,
{
    crate::matcher::jaro::lemma_jw_frac_bounds(c, q);
    crate::matcher::distance::lemma_lev_zero_iff_eq(c, q);
    let d = lev(c, q) as int;
    let (jn, jd) = jaro_winkler_frac(c, q);
    assert(7 * d * jd >= 0) by (nonlinear_arith)
        requires
            d >= 0,
            jd >= 1,
    ;
    if c == q {
        crate::matcher::jaro::lemma_jw_self(q);
        assert(jn == jd);
        assert(d == 0);
        assert(7 * d * jd == 0) by (nonlinear_arith)
            requires
                d == 0,
        ;
    } else {
        assert(d >= 1);
        assert(7 * d * jd >= 7) by (nonlinear_arith)
            requires
                d >= 1,
                jd >= 1,
        ;
    }
}

/// The best candidate, when there is one, is an in-range entry that
/// survived the filter.
proof fn lemma_best_upto_range(dict: Seq<Seq<char>>, q: Seq<char>, i: int)
    requires
        i <= dict.len(),
    ensures
        ({
            match best_upto(dict, q, i) {
                Some(j) => 0 <= j < i && cand_ok(dict[j], q),
                None => true,
            }
        }),
    decreases i,
{
    if i > 0 {
        lemma_best_upto_range(dict, q, i - 1);
    }
}

/// Among the first `i` entries, once some entry equals the query, the
/// best candidate is an entry equal to the query.
proof fn lemma_best_upto_exact(dict: Seq<Seq<char>>, q: Seq<char>, i: int)
    requires
        0 <= i <= dict.len(),
        exists|k: int| 0 <= k < i && dict[k] == q,
    ensures
        ({
            match best_upto(dict, q, i) {
                Some(j) => 0 <= j < i && dict[j] == q,
                None => false,
            }
        }),
    decreases i,
{
    let last = dict[i - 1];
    lemma_score_bounds(last, q);
    if exists|k: int| 0 <= k < i - 1 && dict[k] == q {
        lemma_best_upto_exact(dict, q, i - 1);
        let j = best_upto(dict, q, i - 1)->Some_0;
        lemma_score_bounds(dict[j], q);
        if cand_ok(last, q) {
            assert(score_num(last, q) * score_den(dict[j], q) >= 0) by (nonlinear_arith)
                requires
                    score_num(last, q) >= 0,
                    score_den(dict[j], q) >= 1,
            ;
            assert(score_num(dict[j], q) * score_den(last, q) == 0) by (nonlinear_arith)
                requires
                    score_num(dict[j], q) == 0,
            ;
            assert(!score_lt(last, dict[j], q));
        }
    } else {
        assert(last == q);
        lemma_best_upto_range(dict, q, i - 1);
        match best_upto(dict, q, i - 1) {
            None => {},
            Some(k) => {
                lemma_score_bounds(dict[k], q);
                assert(dict[k] != q);
                assert(score_num(last, q) * score_den(dict[k], q) == 0) by (nonlinear_arith)
                    requires
                        score_num(last, q) == 0,
                ;
                assert(score_num(dict[k], q) * score_den(last, q) >= 7) by (nonlinear_arith)
                    requires
                        score_num(dict[k], q) >= 7,
                        score_den(last, q) >= 1,
                ;
                assert(score_lt(last, dict[k], q));
            },
        }
    }
}

/// A command name that equals the query exactly always scores lowest
/// (zero, by [`lemma_score_bounds`]) and a candidate of that lowest
/// score is selected, for any dictionary containing the exact match:
/// the returned name always has the query's normalised form.  When an
/// earlier candidate shares that normalised form, first-encountered
/// order decides between the tied spellings.
pub proof fn lemma_exact_match_selected(dict: Seq<Seq<char>>, q: Seq<char>)
    requires
        exists|k: int| 0 <= k < dict.len() && dict[k] == q,
    ensures
        match_spec(dict, q) matches Some(c) && despaced(c) == despaced(q),
{
    let norm = dict.map_values(|c: Seq<char>| despaced(c));
    let k = choose|k: int| 0 <= k < dict.len() && dict[k] == q;
    assert(norm[k] == despaced(q));
    lemma_best_upto_exact(norm, despaced(q), norm.len() as int);
}

/// Approximate matcher over a fixed dictionary of command names, scoring
/// by a hybrid of Levenshtein distance and Jaro–Winkler similarity, with
/// a cache of previously resolved utterances.
pub struct LevenshteinMatcher {
    /// The command names to match against, in priority order.
    pub dict: Vec<String>,
    /// Resolved utterances: each stored verbatim with its match.
    pub normalized_cache: Vec<(String, String)>,
}

impl LevenshteinMatcher {
    /// The dictionary as character sequences.
    pub open spec fn dict_view(&self) -> Seq<Seq<char>> {
        self.dict@.map_values(|s: String| s@)
    }

    /// The dictionary entries with spaces stripped, as they are scored.
    pub open spec fn norm_view(&self) -> Seq<Seq<char>> {
        self.dict_view().map_values(|c: Seq<char>| despaced(c))
    }

    /// Well-formed matcher: every dictionary entry is short enough, and
    /// every cache entry records exactly what matching its key computes.
    pub open spec fn wf(&self) -> bool {
        &&& dict_wf(self.dict_view())
        &&& forall|i: int|
            0 <= i < self.normalized_cache@.len() ==> (#[trigger] self.normalized_cache@[i]).0@.len()
                <= 10000 && match_spec(self.dict_view(), self.normalized_cache@[i].0@) == Some(
                self.normalized_cache@[i].1@,
            )
    }

    /// A matcher over `dict` with an empty cache.
    pub fn new(dict: Vec<String>) -> (m: Self)
        requires
            forall|i: int| 0 <= i < dict@.len() ==> (#[trigger] dict@[i])@.len() <= 10000,
        ensures
            m.wf(),
            m.dict_view() == dict@.map_values(|s: String| s@),
            m.normalized_cache@.len() == 0,
    {
        let m = Self { dict, normalized_cache: Vec::new() };
        proof {
            assert forall|i: int| 0 <= i < m.dict_view().len() implies (#[trigger] m.dict_view()[i]).len()
                <= 10000 by {
                assert(m.dict_view()[i] == m.dict@[i]@);
            }
        }
        m
    }

    /// The best-scoring command name for `input`, if any candidate
    /// survives the filter; consults and feeds the utterance cache.
    pub fn match_str(&mut self, input: &str) -> (r: Option<String>)
        requires
            old(self).wf(),
            input@.len() <= 10000,
        ensures
            final(self).wf(),
            final(self).dict == old(self).dict,
            match match_spec(old(self).dict_view(), input@) {
                Some(c) => r matches Some(s) && s@ == c,
                None => r is None,
            },
    {
        let key = input.to_owned();
        let cn = self.normalized_cache.len();
        let mut ci: usize = 0;
        while ci < cn
            invariant
                ci <= cn,
                cn == self.normalized_cache@.len(),
                self.wf(),
                key@ == input@,
            decreases cn - ci,
        {
            if self.normalized_cache[ci].0 == key {
                return Some(self.normalized_cache[ci].1.clone());
            }
            ci = ci + 1;
        }
        let q_raw = chars_of(input);
        let q = strip_spaces(q_raw.as_slice());
        proof {
            lemma_despaced_le_len(input@);
        }
        let n = self.dict.len();
        let mut best_i: usize = 0;
        let mut found = false;
        let mut bestn: u64 = 0;
        let mut bestd: u64 = 1;
        let mut i: usize = 0;
        while i < n
            invariant
                i <= n,
                n == self.dict@.len(),
                self.wf(),
                key@ == input@,
                q@ == despaced(input@),
                q@.len() <= 10000,
                if found {
                    ({
                        &&& best_upto(self.norm_view(), q@, i as int) == Some(best_i as int)
                        &&& best_i < n
                        &&& bestn as int == score_num(self.norm_view()[best_i as int], q@)
                        &&& bestd as int == score_den(self.norm_view()[best_i as int], q@)
                    })
                } else {
                    best_upto(self.norm_view(), q@, i as int) is None
                },
            decreases n - i,
        {
            let c_raw = chars_of(self.dict[i].as_str());
            let c = strip_spaces(c_raw.as_slice());
            assert(c_raw@ == self.dict_view()[i as int]);
            assert(c@ == self.norm_view()[i as int]);
            proof {
                lemma_despaced_le_len(self.dict_view()[i as int]);
                lemma_lev_le_len(c@, q@);
                lemma_jw_frac_bounds(c@, q@);
            }
            let d = levenshtein(&c, &q);
            let (jn, jd) = jaro_winkler(&c, &q);
            let d64 = d as u64;
            if !(d > 1 && 5 * jn < 4 * jd) {
                assert(cand_ok(c@, q@));
                assert(d64 <= 20000 && jd <= 30_000_000_000_000u64 && jn <= jd);
                assert(7 * d64 * jd <= 7 * 20000 * 30_000_000_000_000u64) by (nonlinear_arith)
                    requires
                        d64 <= 20000,
                        jd <= 30_000_000_000_000u64,
                ;
                let sn = 7 * d64 * jd + 3 * (jd - jn);
                assert(sn as int == score_num(c@, q@));
                if !found {
                    found = true;
                    best_i = i;
                    bestn = sn;
                    bestd = jd;
                } else {
                    proof {
                        assert((sn as u128) * (bestd as u128)
                            <= 340282366920938463463374607431768211455u128 && (bestn as u128) * (
                        jd as u128) <= 340282366920938463463374607431768211455u128)
                            by (nonlinear_arith)
                            requires
                                sn as u128 <= 18446744073709551615u128,
                                bestd as u128 <= 18446744073709551615u128,
                                bestn as u128 <= 18446744073709551615u128,
                                jd as u128 <= 18446744073709551615u128,
                        ;
                    }
                    if (sn as u128) * (bestd as u128) < (bestn as u128) * (jd as u128) {
                        assert(score_lt(c@, self.norm_view()[best_i as int], q@));
                        best_i = i;
                        bestn = sn;
                        bestd = jd;
                    } else {
                        assert(!score_lt(c@, self.norm_view()[best_i as int], q@));
                    }
                }
            } else {
                assert(!cand_ok(c@, q@));
            }
            i = i + 1;
        }
        if found {
            let name = self.dict[best_i].clone();
            self.normalized_cache.push((key, name.clone()));
            proof {
                let cache = self.normalized_cache@;
                assert forall|k: int|
                    0 <= k < cache.len() implies (#[trigger] cache[k]).0@.len() <= 10000
                    && match_spec(self.dict_view(), cache[k].0@) == Some(cache[k].1@) by {
                    if k < cache.len() - 1 {
                        assert(cache[k] == old(self).normalized_cache@[k]);
                    }
                }
            }
            Some(name)
        } else {
            None
        }
    }
}

} // verus!
