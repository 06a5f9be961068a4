//! The cached distance calculator: a word metric behind a per-frame-transition
//! cache. The cache only ever stores values the metric itself computed, so a
//! lookup and a fresh computation agree — the similarity a caller sees does
//! not depend on what happens to be cached. That is what makes partitioned
//! scoring deterministic.

use vstd::prelude::*;
use crate::distances::distance_matrix::{entry_matches, pair_present, DistanceMatrix};
use crate::distances::distance_metric::{lemma_metric_sim_symmetric, WordMetric, SCORE_ONE};
use crate::frame::{ElemV, Element};
use crate::distances::levenshtein::capped;
use crate::word::{clone_word, Word};

verus! {

/// Counters describing cache behaviour, for benchmarking runs.
#[derive(Clone, Copy, Debug)]
pub struct TraceCachedDistanceCalculator {
    pub computation_count: u64,
    pub cache_hit_count: u64,
    pub cache_size: usize,
}

impl TraceCachedDistanceCalculator {
    pub fn new() -> (t: Self)
        ensures
            t.computation_count == 0,
            t.cache_hit_count == 0,
            t.cache_size == 0,
    {
        Self { computation_count: 0, cache_hit_count: 0, cache_size: 0 }
    }

    pub fn reset(&mut self)
        ensures
            final(self).computation_count == 0,
            final(self).cache_hit_count == 0,
            final(self).cache_size == 0,
    {
        self.computation_count = 0;
        self.cache_hit_count = 0;
        self.cache_size = 0;
    }

    /// Folds another trace into this one, saturating instead of wrapping.
    pub fn merge(&mut self, other: Self)
        ensures
            final(self).computation_count == vstd::math::min(
                old(self).computation_count + other.computation_count,
                u64::MAX as int,
            ),
            final(self).cache_hit_count == vstd::math::min(
                old(self).cache_hit_count + other.cache_hit_count,
                u64::MAX as int,
            ),
            final(self).cache_size == vstd::math::min(
                old(self).cache_size + other.cache_size,
                usize::MAX as int,
            ),
    {
        self.computation_count = if u64::MAX - self.computation_count < other.computation_count {
            u64::MAX
        } else {
            self.computation_count + other.computation_count
        };
        self.cache_hit_count = if u64::MAX - self.cache_hit_count < other.cache_hit_count {
            u64::MAX
        } else {
            self.cache_hit_count + other.cache_hit_count
        };
        self.cache_size = if usize::MAX - self.cache_size < other.cache_size {
            usize::MAX
        } else {
            self.cache_size + other.cache_size
        };
    }
}

/// The integer value of an optional similarity.
pub open spec fn opt_wide(o: Option<u64>) -> Option<int> {
    match o {
        Some(v) => Some(v as int),
        None => None,
    }
}

/// What a calculator yields for a pair of elements: a similarity for two
/// words, and no evidence whenever either side is missing or multi-valued.
pub open spec fn elem_sim(m: WordMetric, e1: ElemV, e2: ElemV) -> Option<int> {
    match (e1, e2) {
        (ElemV::Word(s1), ElemV::Word(s2)) => Some(m.sim_spec(s1, s2)),
        _ => None,
    }
}

/// The abstract values of a column of elements.
pub open spec fn elem_views(s: Seq<Element>) -> Seq<ElemV> {
    s.map_values(|e: Element| e@)
}

/// How often a raw string occurs as a word cell in a column.
pub open spec fn col_word_count(col: Seq<ElemV>, s: Seq<char>) -> nat
    decreases col.len(),
{
    if col.len() == 0 {
        0
    } else {
        col_word_count(col.drop_last(), s) + match col.last() {
            ElemV::Word(w) => if w == s {
                1nat
            } else {
                0nat
            },
            _ => 0nat,
        }
    }
}

/// The pair of raw strings occurs often enough across the two columns for
/// caching to pay off.
pub open spec fn hot_pair(
    col1: Seq<ElemV>,
    col2: Seq<ElemV>,
    s1: Seq<char>,
    s2: Seq<char>,
    threshold: u32,
) -> bool {
    &&& col_word_count(col1, s1) > 0
    &&& col_word_count(col2, s2) > 0
    &&& col_word_count(col1, s1) * col_word_count(col2, s2) >= threshold
}

/// One more cell changes the count of exactly the word it holds.
proof fn lemma_col_word_count_step(col: Seq<ElemV>, i: int, s: Seq<char>)
    requires
        0 <= i < col.len(),
    ensures
        col_word_count(col.take(i + 1), s) == col_word_count(col.take(i), s) + match col[i] {
            ElemV::Word(w) => if w == s {
                1nat
            } else {
                0nat
            },
            _ => 0nat,
        },
{
    assert(col.take(i + 1).drop_last() =~= col.take(i));
    assert(col.take(i + 1).last() == col[i]);
}

/// Saturated counts still clear the caching threshold whenever the true
/// counts do.
proof fn lemma_capped_product(c1: nat, c2: nat, threshold: u32)
    requires
        c1 >= 1,
        c2 >= 1,
        c1 * c2 >= threshold,
    ensures
        capped(c1, u32::MAX as nat) * capped(c2, u32::MAX as nat) >= threshold,
{
    if c1 > u32::MAX || c2 > u32::MAX {
        assert(capped(c1, u32::MAX as nat) * capped(c2, u32::MAX as nat) >= u32::MAX)
            by (nonlinear_arith)
            requires
                capped(c1, u32::MAX as nat) >= 1,
                capped(c2, u32::MAX as nat) >= 1,
                capped(c1, u32::MAX as nat) == u32::MAX || capped(c2, u32::MAX as nat)
                    == u32::MAX,
        ;
    }
}

/// A word metric with a similarity cache filled once per frame transition.
pub struct CachedDistanceCalculatorWord {
    pub matrix: DistanceMatrix,
    pub distance_metric: WordMetric,
    pub cache_dist_threshold: u32,
}

impl CachedDistanceCalculatorWord {
    /// Every cached value is the one the metric computes for its pair.
    pub open spec fn wf(self) -> bool {
        forall|i: int|
            0 <= i < self.matrix.entries_view().len() ==> (#[trigger] self.matrix.entries_view()[i]).2
                == self.distance_metric.sim_spec(
                self.matrix.entries_view()[i].0,
                self.matrix.entries_view()[i].1,
            )
    }

    pub fn new(distance_metric: WordMetric, cache_dist_threshold: u32) -> (c: Self)
        ensures
            c.wf(),
            c.distance_metric == distance_metric,
            c.cache_dist_threshold == cache_dist_threshold,
    {
        Self { matrix: DistanceMatrix::new(), distance_metric, cache_dist_threshold }
    }

    /// The similarity of two words: from the cache on a hit, computed by the
    /// metric otherwise. Either way the result is exactly the metric's value,
    /// and the cache is not written.
    pub fn get_dist(&self, v1: &Word, v2: &Word) -> (r: u64)
        requires
            self.wf(),
            v1.wf(),
            v2.wf(),
        ensures
            r == self.distance_metric.sim_spec(v1.raw@, v2.raw@),
            0 <= r <= SCORE_ONE,
    {
        match self.matrix.get(&v1.raw, &v2.raw) {
            Some(d) => {
                proof {
                    let i = choose|i: int|
                        0 <= i < self.matrix.entries_view().len() && entry_matches(
                            #[trigger] self.matrix.entries_view()[i],
                            v1.raw@,
                            v2.raw@,
                        ) && self.matrix.entries_view()[i].2 == d;
                    lemma_metric_sim_symmetric(self.distance_metric, v1.raw@, v2.raw@);
                    crate::distances::distance_metric::lemma_metric_sim_range(
                        self.distance_metric,
                        *v1,
                        *v2,
                    );
                }
                d
            },
            None => self.distance_metric.dist(v1, v2),
        }
    }

    /// Empties the cache; the metric and threshold stay as they are.
    pub fn clear_cache(&mut self)
        ensures
            final(self).wf(),
            final(self).distance_metric == old(self).distance_metric,
            final(self).cache_dist_threshold == old(self).cache_dist_threshold,
            final(self).matrix.entries_view().len() == 0,
    {
        self.matrix.clear();
    }

    /// Fills the cache with the distances of words that occur often enough in
    /// both columns for caching to pay off: afterwards, every pair of raw
    /// strings whose occurrence product reaches the threshold has an entry,
    /// and only metric-computed values are stored.
    pub fn precompute(&mut self, serie1: &Vec<Element>, serie2: &Vec<Element>)
        requires
            old(self).wf(),
            forall|i: int| 0 <= i < serie1@.len() ==> (#[trigger] serie1@[i]).wf(),
            forall|i: int| 0 <= i < serie2@.len() ==> (#[trigger] serie2@[i]).wf(),
        ensures
            final(self).wf(),
            final(self).distance_metric == old(self).distance_metric,
            final(self).cache_dist_threshold == old(self).cache_dist_threshold,
            forall|s1: Seq<char>, s2: Seq<char>|
                #[trigger] hot_pair(
                    elem_views(serie1@),
                    elem_views(serie2@),
                    s1,
                    s2,
                    old(self).cache_dist_threshold,
                ) ==> pair_present(final(self).matrix.entries_view(), s1, s2),
            forall|e: (Seq<char>, Seq<char>, u64)|
                #[trigger] final(self).matrix.entries_view().contains(e) ==> (old(
                    self,
                ).matrix.entries_view().contains(e) || hot_pair(
                    elem_views(serie1@),
                    elem_views(serie2@),
                    e.0,
                    e.1,
                    old(self).cache_dist_threshold,
                ) || hot_pair(
                    elem_views(serie1@),
                    elem_views(serie2@),
                    e.1,
                    e.0,
                    old(self).cache_dist_threshold,
                )),
    {
        let uniques1 = compute_uniques(serie1);
        let uniques2 = compute_uniques(serie2);
        let ghost ev1 = elem_views(serie1@);
        let ghost ev2 = elem_views(serie2@);
        let n1 = uniques1.len();
        let n2 = uniques2.len();

        let mut i: usize = 0;
        while i < n1
            invariant
                n1 == uniques1@.len(),
                n2 == uniques2@.len(),
                i <= n1,
                self.wf(),
                self.distance_metric == old(self).distance_metric,
                self.cache_dist_threshold == old(self).cache_dist_threshold,
                forall|k: int| 0 <= k < n1 ==> (#[trigger] uniques1@[k]).0.wf(),
                forall|k: int| 0 <= k < n2 ==> (#[trigger] uniques2@[k]).0.wf(),
                forall|k: int|
                    0 <= k < n1 ==> ((#[trigger] uniques1@[k]).1 as nat == capped(
                        col_word_count(ev1, uniques1@[k].0.raw@),
                        u32::MAX as nat,
                    )) && col_word_count(ev1, uniques1@[k].0.raw@) > 0,
                forall|k: int|
                    0 <= k < n2 ==> ((#[trigger] uniques2@[k]).1 as nat == capped(
                        col_word_count(ev2, uniques2@[k].0.raw@),
                        u32::MAX as nat,
                    )) && col_word_count(ev2, uniques2@[k].0.raw@) > 0,
                forall|ii: int, jj: int|
                    0 <= ii < i && 0 <= jj < n2 && ((#[trigger] uniques1@[ii]).1 as int) * ((
                    #[trigger] uniques2@[jj]).1 as int) >= self.cache_dist_threshold
                        ==> pair_present(
                        self.matrix.entries_view(),
                        uniques1@[ii].0.raw@,
                        uniques2@[jj].0.raw@,
                    ),
                forall|e: (Seq<char>, Seq<char>, u64)|
                    #[trigger] self.matrix.entries_view().contains(e) ==> (old(
                        self,
                    ).matrix.entries_view().contains(e) || hot_pair(
                        ev1,
                        ev2,
                        e.0,
                        e.1,
                        old(self).cache_dist_threshold,
                    ) || hot_pair(ev1, ev2, e.1, e.0, old(self).cache_dist_threshold)),
            decreases n1 - i,
        {
            let mut j: usize = 0;
            while j < n2
                invariant
                    n1 == uniques1@.len(),
                    n2 == uniques2@.len(),
                    i < n1,
                    j <= n2,
                    self.wf(),
                    self.distance_metric == old(self).distance_metric,
                    self.cache_dist_threshold == old(self).cache_dist_threshold,
                    forall|k: int| 0 <= k < n1 ==> (#[trigger] uniques1@[k]).0.wf(),
                    forall|k: int| 0 <= k < n2 ==> (#[trigger] uniques2@[k]).0.wf(),
                    forall|k: int|
                        0 <= k < n1 ==> ((#[trigger] uniques1@[k]).1 as nat == capped(
                            col_word_count(ev1, uniques1@[k].0.raw@),
                            u32::MAX as nat,
                        )) && col_word_count(ev1, uniques1@[k].0.raw@) > 0,
                    forall|k: int|
                        0 <= k < n2 ==> ((#[trigger] uniques2@[k]).1 as nat == capped(
                            col_word_count(ev2, uniques2@[k].0.raw@),
                            u32::MAX as nat,
                        )) && col_word_count(ev2, uniques2@[k].0.raw@) > 0,
                    forall|ii: int, jj: int|
                        0 <= ii < n1 && 0 <= jj < n2 && (ii < i || (ii == i && jj < j)) && ((
                        #[trigger] uniques1@[ii]).1 as int) * ((#[trigger] uniques2@[jj]).1 as int)
                            >= self.cache_dist_threshold ==> pair_present(
                            self.matrix.entries_view(),
                            uniques1@[ii].0.raw@,
                            uniques2@[jj].0.raw@,
                        ),
                    forall|e: (Seq<char>, Seq<char>, u64)|
                        #[trigger] self.matrix.entries_view().contains(e) ==> (old(
                            self,
                        ).matrix.entries_view().contains(e) || hot_pair(
                            ev1,
                            ev2,
                            e.0,
                            e.1,
                            old(self).cache_dist_threshold,
                        ) || hot_pair(ev1, ev2, e.1, e.0, old(self).cache_dist_threshold)),
                decreases n2 - j,
            {
                let c1 = uniques1[i].1;
                let c2 = uniques2[j].1;
                proof {
                    assert((c1 as int) * (c2 as int) < 0x10000000000000000) by (nonlinear_arith)
                        requires
                            0 <= (c1 as int) < 0x100000000,
                            0 <= (c2 as int) < 0x100000000,
                    ;
                }
                if (c1 as u64) * (c2 as u64) >= self.cache_dist_threshold as u64 {
                    let w1 = &uniques1[i].0;
                    let w2 = &uniques2[j].0;
                    let hit = self.matrix.get(&w1.raw, &w2.raw);
                    if hit.is_none() {
                        let dist = self.distance_metric.dist(w1, w2);
                        let ghost pre = self.matrix.entries_view();
                        self.matrix.set(&w1.raw, &w2.raw, dist);
                        proof {
                            // The stored pair occurs often enough in both
                            // columns: the capped counts understate the raw
                            // ones.
                            let ghost thr = old(self).cache_dist_threshold as int;
                            assert(w1.raw@ == uniques1@[i as int].0.raw@);
                            assert(c1 as nat == capped(
                                col_word_count(ev1, uniques1@[i as int].0.raw@),
                                u32::MAX as nat,
                            ));
                            assert(col_word_count(ev1, w1.raw@) > 0);
                            assert(c1 as int <= col_word_count(ev1, w1.raw@));
                            assert(w2.raw@ == uniques2@[j as int].0.raw@);
                            assert(c2 as nat == capped(
                                col_word_count(ev2, uniques2@[j as int].0.raw@),
                                u32::MAX as nat,
                            ));
                            assert(col_word_count(ev2, w2.raw@) > 0);
                            assert(c2 as int <= col_word_count(ev2, w2.raw@));
                            assert(col_word_count(ev1, w1.raw@) * col_word_count(ev2, w2.raw@)
                                >= thr) by (nonlinear_arith)
                                requires
                                    0 <= (c1 as int) <= col_word_count(ev1, w1.raw@),
                                    0 <= (c2 as int) <= col_word_count(ev2, w2.raw@),
                                    (c1 as int) * (c2 as int) >= thr,
                            ;
                            assert(hot_pair(ev1, ev2, w1.raw@, w2.raw@, old(self).cache_dist_threshold));
                            assert forall|e: (Seq<char>, Seq<char>, u64)|
                                #[trigger] self.matrix.entries_view().contains(e) implies (old(
                            self).matrix.entries_view().contains(e) || hot_pair(
                                ev1,
                                ev2,
                                e.0,
                                e.1,
                                old(self).cache_dist_threshold,
                            ) || hot_pair(ev1, ev2, e.1, e.0, old(self).cache_dist_threshold)) by {
                                let q = choose|q: int|
                                    0 <= q < self.matrix.entries_view().len()
                                        && self.matrix.entries_view()[q] == e;
                                if pre.contains(e) {
                                } else {
                                    assert(entry_matches(e, w1.raw@, w2.raw@));
                                }
                            }
                            lemma_metric_sim_symmetric(self.distance_metric, w1.raw@, w2.raw@);
                            assert forall|k: int|
                                0 <= k < self.matrix.entries_view().len() implies (
                            #[trigger] self.matrix.entries_view()[k]).2
                                == self.distance_metric.sim_spec(
                                self.matrix.entries_view()[k].0,
                                self.matrix.entries_view()[k].1,
                            ) by {
                                let e = self.matrix.entries_view()[k];
                                if pre.contains(e) {
                                    let kk = choose|kk: int| 0 <= kk < pre.len() && pre[kk] == e;
                                }
                            }
                            // Earlier pairs stay present; the current pair is now present.
                            assert forall|ii: int, jj: int|
                                0 <= ii < n1 && 0 <= jj < n2 && (ii < i || (ii == i && jj < j + 1))
                                    && ((#[trigger] uniques1@[ii]).1 as int) * ((
                                #[trigger] uniques2@[jj]).1 as int) >= self.cache_dist_threshold implies pair_present(
                                self.matrix.entries_view(),
                                uniques1@[ii].0.raw@,
                                uniques2@[jj].0.raw@,
                            ) by {
                                if ii == i as int && jj == j as int {
                                } else {
                                    let e = choose|q: int|
                                        0 <= q < pre.len() && entry_matches(
                                            #[trigger] pre[q],
                                            uniques1@[ii].0.raw@,
                                            uniques2@[jj].0.raw@,
                                        );
                                    if entry_matches(pre[e], w1.raw@, w2.raw@) {
                                        // The earlier pair is the same unordered
                                        // pair as the one just stored.
                                        assert((uniques1@[ii].0.raw@ == w1.raw@
                                            && uniques2@[jj].0.raw@ == w2.raw@) || (
                                        uniques1@[ii].0.raw@ == w2.raw@ && uniques2@[jj].0.raw@
                                            == w1.raw@));
                                        let q2 = choose|q2: int|
                                            0 <= q2 < self.matrix.entries_view().len()
                                                && entry_matches(
                                                #[trigger] self.matrix.entries_view()[q2],
                                                w1.raw@,
                                                w2.raw@,
                                            ) && self.matrix.entries_view()[q2].2 == dist;
                                        assert(entry_matches(
                                            self.matrix.entries_view()[q2],
                                            uniques1@[ii].0.raw@,
                                            uniques2@[jj].0.raw@,
                                        ));
                                    } else {
                                        assert(pre.contains(pre[e]));
                                        assert(self.matrix.entries_view().contains(pre[e]));
                                        let q2 = choose|q2: int|
                                            0 <= q2 < self.matrix.entries_view().len()
                                                && self.matrix.entries_view()[q2] == pre[e];
                                    }
                                }
                            }
                        }
                    }
                }
                j += 1;
            }
            i += 1;
        }

        proof {
            assert forall|s1: Seq<char>, s2: Seq<char>|
                #[trigger] hot_pair(ev1, ev2, s1, s2, old(self).cache_dist_threshold) implies pair_present(
                self.matrix.entries_view(),
                s1,
                s2,
            ) by {
                let ii = choose|ii: int| 0 <= ii < n1 && (#[trigger] uniques1@[ii]).0.raw@ == s1;
                let jj = choose|jj: int| 0 <= jj < n2 && (#[trigger] uniques2@[jj]).0.raw@ == s2;
                lemma_capped_product(
                    col_word_count(ev1, s1),
                    col_word_count(ev2, s2),
                    old(self).cache_dist_threshold,
                );
                assert(uniques1@[ii].1 as nat == capped(col_word_count(ev1, s1), u32::MAX as nat));
                assert(uniques2@[jj].1 as nat == capped(col_word_count(ev2, s2), u32::MAX as nat));
            }
        }
    }
}

/// The distinct words of a column with their occurrence counts (saturated at
/// the largest 32-bit value). Every word occurring in the column has exactly
/// one entry.
fn compute_uniques(serie: &Vec<Element>) -> (uniques: Vec<(Word, u32)>)
    requires
        forall|i: int| 0 <= i < serie@.len() ==> (#[trigger] serie@[i]).wf(),
    ensures
        forall|k: int|
            0 <= k < uniques@.len() ==> (#[trigger] uniques@[k]).0.wf() && uniques@[k].1 as nat
                == capped(col_word_count(elem_views(serie@), uniques@[k].0.raw@), u32::MAX as nat)
                && col_word_count(elem_views(serie@), uniques@[k].0.raw@) > 0,
        forall|s: Seq<char>|
            #[trigger] col_word_count(elem_views(serie@), s) > 0 ==> exists|k: int|
                0 <= k < uniques@.len() && (#[trigger] uniques@[k]).0.raw@ == s,
{
    let ghost ev = elem_views(serie@);
    let n = serie.len();
    let mut uniques: Vec<(Word, u32)> = Vec::new();
    let mut i: usize = 0;
    while i < n
        invariant
            n == serie@.len(),
            ev == elem_views(serie@),
            i <= n,
            forall|k: int| 0 <= k < serie@.len() ==> (#[trigger] serie@[k]).wf(),
            forall|k: int|
                0 <= k < uniques@.len() ==> (#[trigger] uniques@[k]).0.wf() && uniques@[k].1 as nat
                    == capped(col_word_count(ev.take(i as int), uniques@[k].0.raw@), u32::MAX as nat)
                    && col_word_count(ev.take(i as int), uniques@[k].0.raw@) > 0,
            forall|s: Seq<char>|
                #[trigger] col_word_count(ev.take(i as int), s) > 0 ==> exists|k: int|
                    0 <= k < uniques@.len() && (#[trigger] uniques@[k]).0.raw@ == s,
            forall|k1: int, k2: int|
                0 <= k1 < k2 < uniques@.len() ==> (#[trigger] uniques@[k1]).0.raw@ != (
                #[trigger] uniques@[k2]).0.raw@,
        decreases n - i,
    {
        proof {
            assert(ev[i as int] == serie@[i as int]@);
        }
        match &serie[i] {
            Element::Word(w) => {
                let ghost target = w.raw@;
                let mut found = false;
                let mut j: usize = 0;
                loop
                    invariant_except_break
                        !found,
                        j <= uniques@.len(),
                        forall|k: int|
                            0 <= k < j ==> (#[trigger] uniques@[k]).0.raw@ != target,
                        forall|k: int|
                            0 <= k < uniques@.len() ==> (#[trigger] uniques@[k]).0.wf()
                                && uniques@[k].1 as nat == capped(
                                col_word_count(ev.take(i as int), uniques@[k].0.raw@),
                                u32::MAX as nat,
                            ) && col_word_count(ev.take(i as int), uniques@[k].0.raw@) > 0,
                        forall|s: Seq<char>|
                            #[trigger] col_word_count(ev.take(i as int), s) > 0 ==> exists|k: int|
                                0 <= k < uniques@.len() && (#[trigger] uniques@[k]).0.raw@ == s,
                    invariant
                        target == w.raw@,
                        w.wf(),
                        ev == elem_views(serie@),
                        i < n,
                        n == serie@.len(),
                        ev[i as int] == ElemV::Word(target),
                        forall|k1: int, k2: int|
                            0 <= k1 < k2 < uniques@.len() ==> (#[trigger] uniques@[k1]).0.raw@ != (
                            #[trigger] uniques@[k2]).0.raw@,
                    ensures
                        !found ==> forall|k: int|
                            0 <= k < uniques@.len() ==> (#[trigger] uniques@[k]).0.wf()
                                && uniques@[k].1 as nat == capped(
                                col_word_count(ev.take(i as int), uniques@[k].0.raw@),
                                u32::MAX as nat,
                            ) && col_word_count(ev.take(i as int), uniques@[k].0.raw@) > 0,
                        !found ==> forall|s: Seq<char>|
                            #[trigger] col_word_count(ev.take(i as int), s) > 0 ==> exists|k: int|
                                0 <= k < uniques@.len() && (#[trigger] uniques@[k]).0.raw@ == s,
                        found ==> forall|k: int|
                            0 <= k < uniques@.len() ==> (#[trigger] uniques@[k]).0.wf()
                                && uniques@[k].1 as nat == capped(
                                col_word_count(ev.take(i + 1), uniques@[k].0.raw@),
                                u32::MAX as nat,
                            ) && col_word_count(ev.take(i + 1), uniques@[k].0.raw@) > 0,
                        found ==> forall|s: Seq<char>|
                            #[trigger] col_word_count(ev.take(i + 1), s) > 0 ==> exists|k: int|
                                0 <= k < uniques@.len() && (#[trigger] uniques@[k]).0.raw@ == s,
                        found ==> forall|k1: int, k2: int|
                            0 <= k1 < k2 < uniques@.len() ==> (#[trigger] uniques@[k1]).0.raw@ != (
                            #[trigger] uniques@[k2]).0.raw@,
                        !found ==> forall|k: int|
                            0 <= k < uniques@.len() ==> (#[trigger] uniques@[k]).0.raw@ != target,
                    decreases uniques@.len() - j,
                {
                    if j >= uniques.len() {
                        break ;
                    }
                    if uniques[j].0.raw == *&w.raw {
                        let c = uniques[j].1;
                        let w2 = clone_word(&uniques[j].0);
                        let ghost pre_u = uniques@;
                        uniques.set(j, (w2, if c == u32::MAX { c } else { c + 1 }));
                        found = true;
                        proof {
                            assert forall|k: int|
                                0 <= k < uniques@.len() implies (#[trigger] uniques@[k]).0.wf()
                                && uniques@[k].1 as nat == capped(
                                col_word_count(ev.take(i + 1), uniques@[k].0.raw@),
                                u32::MAX as nat,
                            ) && col_word_count(ev.take(i + 1), uniques@[k].0.raw@) > 0 by {
                                lemma_col_word_count_step(ev, i as int, uniques@[k].0.raw@);
                                if k != j {
                                    assert(uniques@[k] == pre_u[k]);
                                    assert(pre_u[k].0.raw@ != target);
                                } else {
                                    assert(uniques@[k].0.raw@ == target);
                                }
                            }
                            assert forall|s: Seq<char>|
                                #[trigger] col_word_count(ev.take(i + 1), s) > 0 implies exists|
                                k: int,
                            |
                                0 <= k < uniques@.len() && (#[trigger] uniques@[k]).0.raw@
                                    == s by {
                                lemma_col_word_count_step(ev, i as int, s);
                                if s == target {
                                    assert(uniques@[j as int].0.raw@ == s);
                                } else {
                                    assert(col_word_count(ev.take(i as int), s) > 0);
                                    let k = choose|k: int|
                                        0 <= k < pre_u.len() && (#[trigger] pre_u[k]).0.raw@ == s;
                                    assert(uniques@[k].0.raw@ == s);
                                }
                            }
                        }
                        break ;
                    }
                    j += 1;
                }
                if !found {
                    let ghost pre_u = uniques@;
                    uniques.push((clone_word(w), 1));
                    proof {
                        assert forall|k: int|
                            0 <= k < uniques@.len() implies (#[trigger] uniques@[k]).0.wf()
                            && uniques@[k].1 as nat == capped(
                            col_word_count(ev.take(i + 1), uniques@[k].0.raw@),
                            u32::MAX as nat,
                        ) && col_word_count(ev.take(i + 1), uniques@[k].0.raw@) > 0 by {
                            lemma_col_word_count_step(ev, i as int, uniques@[k].0.raw@);
                            if k < pre_u.len() {
                                assert(uniques@[k] == pre_u[k]);
                                assert(pre_u[k].0.raw@ != target);
                            } else {
                                assert(uniques@[k].0.raw@ == target);
                                assert(col_word_count(ev.take(i as int), target) == 0) by {
                                    if col_word_count(ev.take(i as int), target) > 0 {
                                        let k2 = choose|k2: int|
                                            0 <= k2 < pre_u.len() && (#[trigger] pre_u[k2]).0.raw@
                                                == target;
                                    }
                                }
                            }
                        }
                        assert forall|s: Seq<char>|
                            #[trigger] col_word_count(ev.take(i + 1), s) > 0 implies exists|k: int|
                            0 <= k < uniques@.len() && (#[trigger] uniques@[k]).0.raw@ == s by {
                            lemma_col_word_count_step(ev, i as int, s);
                            if s == target {
                                assert(uniques@[uniques@.len() - 1].0.raw@ == s);
                            } else {
                                assert(col_word_count(ev.take(i as int), s) > 0);
                                let k = choose|k: int|
                                    0 <= k < pre_u.len() && (#[trigger] pre_u[k]).0.raw@ == s;
                                assert(uniques@[k].0.raw@ == s);
                            }
                        }
                    }
                }
            },
            _ => {
                proof {
                    assert forall|s: Seq<char>|
                        #[trigger] col_word_count(ev.take(i + 1), s) == col_word_count(
                            ev.take(i as int),
                            s,
                        ) by {
                        lemma_col_word_count_step(ev, i as int, s);
                    }
                }
            },
        }
        i += 1;
    }
    proof {
        assert(ev.take(n as int) =~= ev);
    }
    uniques
}

/// A cached calculator for one field, by element type.
/// A cached calculator for one field, by element type.
pub enum CachedDistanceCalculator {
    Word(CachedDistanceCalculatorWord),
    MultiWord,
}

impl CachedDistanceCalculator {
    pub open spec fn wf(self) -> bool {
        match self {
            CachedDistanceCalculator::Word(c) => c.wf(),
            CachedDistanceCalculator::MultiWord => true,
        }
    }

    /// The metric the calculator applies, where it has one.
    pub open spec fn metric_spec(self) -> Option<WordMetric> {
        match self {
            CachedDistanceCalculator::Word(c) => Some(c.distance_metric),
            CachedDistanceCalculator::MultiWord => None,
        }
    }

    /// The similarity of two elements, or no evidence when either side is
    /// missing or multi-valued. Multi-word cells carry no similarity.
    pub fn get_dist(&self, e1: &Element, e2: &Element) -> (r: Option<u64>)
        requires
            self.wf(),
            e1.wf(),
            e2.wf(),
        ensures
            match self.metric_spec() {
                Some(m) => opt_wide(r) == elem_sim(m, e1@, e2@),
                None => r is None,
            },
            r matches Some(v) ==> 0 <= v <= SCORE_ONE,
    {
        match self {
            CachedDistanceCalculator::Word(calculator) => match (e1, e2) {
                (Element::Word(w1), Element::Word(w2)) => Some(calculator.get_dist(w1, w2)),
                _ => None,
            },
            CachedDistanceCalculator::MultiWord => None,
        }
    }

    pub fn clear_cache(&mut self)
        ensures
            final(self).wf(),
            final(self).metric_spec() == old(self).metric_spec(),
            *old(self) matches CachedDistanceCalculator::Word(c) ==> (*final(self)
                matches CachedDistanceCalculator::Word(c2) && c2.cache_dist_threshold
                == c.cache_dist_threshold && c2.distance_metric == c.distance_metric
                && c2.matrix.entries_view().len() == 0),
            *old(self) is MultiWord ==> *final(self) == *old(self),
    {
        match self {
            CachedDistanceCalculator::Word(calculator) => calculator.clear_cache(),
            CachedDistanceCalculator::MultiWord => {},
        }
    }

    pub fn precompute(&mut self, column1: &Vec<Element>, column2: &Vec<Element>)
        requires
            old(self).wf(),
            forall|i: int| 0 <= i < column1@.len() ==> (#[trigger] column1@[i]).wf(),
            forall|i: int| 0 <= i < column2@.len() ==> (#[trigger] column2@[i]).wf(),
        ensures
            final(self).wf(),
            final(self).metric_spec() == old(self).metric_spec(),
            *old(self) matches CachedDistanceCalculator::Word(c) ==> (*final(self)
                matches CachedDistanceCalculator::Word(c2) && c2.cache_dist_threshold
                == c.cache_dist_threshold && (forall|s1: Seq<char>, s2: Seq<char>|
                #[trigger] hot_pair(
                    elem_views(column1@),
                    elem_views(column2@),
                    s1,
                    s2,
                    c.cache_dist_threshold,
                ) ==> pair_present(c2.matrix.entries_view(), s1, s2)) && (forall|
                e: (Seq<char>, Seq<char>, u64),
            |
                #[trigger] c2.matrix.entries_view().contains(e)
                    ==> (c.matrix.entries_view().contains(e) || hot_pair(
                    elem_views(column1@),
                    elem_views(column2@),
                    e.0,
                    e.1,
                    c.cache_dist_threshold,
                ) || hot_pair(
                    elem_views(column1@),
                    elem_views(column2@),
                    e.1,
                    e.0,
                    c.cache_dist_threshold,
                )))),
    {
        match self {
            CachedDistanceCalculator::Word(calculator) => calculator.precompute(column1, column2),
            CachedDistanceCalculator::MultiWord => {},
        }
    }
}

} // verus!
