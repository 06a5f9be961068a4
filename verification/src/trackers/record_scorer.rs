//! Record scorers: policies that fold the per-field similarities of a record
//! into one score on the `[0, SCORE_ONE]` scale. A field with no evidence
//! contributes nothing; a record whose present fields carry too little weight
//! scores zero.

use vstd::prelude::*;
use vstd::arithmetic::div_mod::{lemma_div_is_ordered, lemma_div_multiples_vanish, lemma_div_pos_is_pos};
use crate::distances::distance_metric::SCORE_ONE;

verus! {

/// The sum of the present similarities.
pub open spec fn opt_sum(s: Seq<Option<int>>) -> int
    decreases s.len(),
{
    if s.len() == 0 {
        0
    } else {
        opt_sum(s.drop_last()) + match s.last() {
            Some(v) => v,
            None => 0,
        }
    }
}

/// How many similarities are present.
pub open spec fn opt_cnt(s: Seq<Option<int>>) -> int
    decreases s.len(),
{
    if s.len() == 0 {
        0
    } else {
        opt_cnt(s.drop_last()) + match s.last() {
            Some(_) => 1int,
            None => 0,
        }
    }
}

/// The total weight of all fields.
pub open spec fn weight_total(w: Seq<u32>) -> int
    decreases w.len(),
{
    if w.len() == 0 {
        0
    } else {
        weight_total(w.drop_last()) + w.last()
    }
}

/// The weight carried by the present fields.
pub open spec fn weight_present(w: Seq<u32>, s: Seq<Option<int>>) -> int
    decreases w.len(),
{
    if w.len() == 0 || s.len() == 0 {
        0
    } else {
        weight_present(w.drop_last(), s.drop_last()) + match s.last() {
            Some(_) => w.last() as int,
            None => 0,
        }
    }
}

/// The weighted sum of the present similarities.
pub open spec fn weighted_sum(w: Seq<u32>, s: Seq<Option<int>>) -> int
    decreases w.len(),
{
    if w.len() == 0 || s.len() == 0 {
        0
    } else {
        weighted_sum(w.drop_last(), s.drop_last()) + match s.last() {
            Some(v) => w.last() * v,
            None => 0,
        }
    }
}

/// The weighted sum of the squared present similarities, each square brought
/// back to the scale.
pub open spec fn weighted_quad_sum(w: Seq<u32>, s: Seq<Option<int>>) -> int
    decreases w.len(),
{
    if w.len() == 0 || s.len() == 0 {
        0
    } else {
        weighted_quad_sum(w.drop_last(), s.drop_last()) + match s.last() {
            Some(v) => w.last() * (v * v / SCORE_ONE as int),
            None => 0,
        }
    }
}

/// The arithmetic mean of the present similarities; zero when none is.
pub open spec fn average_score_spec(s: Seq<Option<int>>) -> int {
    if opt_cnt(s) == 0 {
        0
    } else {
        opt_sum(s) / opt_cnt(s)
    }
}

/// The weighted mean over present fields, or zero when the present fields
/// carry less than the required share of the total weight.
pub open spec fn weighted_score_spec(w: Seq<u32>, s: Seq<Option<int>>, min_ratio: int) -> int {
    let wp = weight_present(w, s);
    if wp == 0 {
        0
    } else if wp * SCORE_ONE < min_ratio * weight_total(w) {
        0
    } else {
        weighted_sum(w, s) / wp
    }
}

/// As the weighted mean, but over squared similarities.
pub open spec fn weighted_quad_score_spec(w: Seq<u32>, s: Seq<Option<int>>, min_ratio: int) -> int {
    let wp = weight_present(w, s);
    if wp == 0 {
        0
    } else if wp * SCORE_ONE < min_ratio * weight_total(w) {
        0
    } else {
        weighted_quad_sum(w, s) / wp
    }
}

/// All present similarities lie on the scale.
pub open spec fn sims_on_scale(s: Seq<Option<int>>) -> bool {
    forall|i: int|
        0 <= i < s.len() ==> match #[trigger] s[i] {
            Some(v) => 0 <= v <= SCORE_ONE,
            None => true,
        }
}

/// The abstract values of a vector of optional similarities.
pub open spec fn opts_view(s: Seq<Option<u64>>) -> Seq<Option<int>> {
    s.map_values(
        |o: Option<u64>|
            match o {
                Some(v) => Some(v as int),
                None => None::<int>,
            },
    )
}

/// The sum of present similarities is bounded by their count times the scale.
proof fn lemma_opt_sum_bound(s: Seq<Option<int>>)
    requires
        sims_on_scale(s),
    ensures
        0 <= opt_cnt(s) <= s.len(),
        0 <= opt_sum(s) <= opt_cnt(s) * 1000000,
    decreases s.len(),
{
    if s.len() > 0 {
        assert(sims_on_scale(s.drop_last())) by {
            assert(forall|i: int| 0 <= i < s.len() - 1 ==> s.drop_last()[i] == #[trigger] s[i]);
        }
        lemma_opt_sum_bound(s.drop_last());
    }
}

/// Weighted sums are bounded by the present weight times the scale, and all
/// weight sums are non-negative.
proof fn lemma_weighted_sum_bound(w: Seq<u32>, s: Seq<Option<int>>)
    requires
        sims_on_scale(s),
        w.len() == s.len(),
    ensures
        0 <= weight_present(w, s) <= weight_total(w),
        0 <= weighted_sum(w, s) <= weight_present(w, s) * 1000000,
        0 <= weighted_quad_sum(w, s) <= weight_present(w, s) * 1000000,
    decreases w.len(),
{
    if w.len() > 0 {
        assert(sims_on_scale(s.drop_last())) by {
            assert(forall|i: int| 0 <= i < s.len() - 1 ==> s.drop_last()[i] == #[trigger] s[i]);
        }
        lemma_weighted_sum_bound(w.drop_last(), s.drop_last());
        let wl = w.last() as int;
        let wp0 = weight_present(w.drop_last(), s.drop_last());
        match s.last() {
            Some(v) => {
                let q = v * v / SCORE_ONE as int;
                lemma_square_div_scale(v);
                assert(0 <= wl * v && wl * v <= wl * 1000000) by (nonlinear_arith)
                    requires
                        0 <= wl,
                        0 <= v <= 1000000,
                ;
                assert(0 <= wl * q && wl * q <= wl * 1000000) by (nonlinear_arith)
                    requires
                        0 <= wl,
                        0 <= q <= 1000000,
                ;
                assert(wp0 * 1000000 + wl * 1000000 == (wp0 + wl) * 1000000) by (nonlinear_arith);
            },
            None => {},
        }
    }
}

/// A similarity's square, brought back to the scale, is at most the
/// similarity itself.
proof fn lemma_square_div_scale(v: int)
    requires
        0 <= v <= SCORE_ONE,
    ensures
        0 <= v * v / SCORE_ONE as int <= v,
{
    assert(0 <= v * v && v * v <= v * 1000000) by (nonlinear_arith)
        requires
            0 <= v <= 1000000,
    ;
    lemma_div_pos_is_pos(v * v, SCORE_ONE as int);
    lemma_div_is_ordered(v * v, v * 1000000, 1000000);
    lemma_div_multiples_vanish(v, 1000000);
    assert(v * 1000000 == 1000000 * v) by (nonlinear_arith);
}

/// A non-negative sum bounded by `d * SCORE_ONE` divides by `d` to a value on
/// the scale.
proof fn lemma_mean_on_scale(total: int, d: int)
    requires
        0 < d,
        0 <= total <= d * 1000000,
    ensures
        0 <= total / d <= SCORE_ONE,
{
    lemma_div_pos_is_pos(total, d);
    lemma_div_is_ordered(total, d * 1000000, d);
    lemma_div_multiples_vanish(1000000, d);
    assert(d * 1000000 == 1000000 * d) by (nonlinear_arith);
}

/// Computes the arithmetic mean of the present similarities.
pub struct AverageRecordScorer {}

impl AverageRecordScorer {
    pub fn new() -> (r: Self)
        ensures
            true,
    {
        Self {  }
    }

    pub fn score(&self, scores: &Vec<Option<u64>>) -> (r: u64)
        requires
            sims_on_scale(opts_view(scores@)),
        ensures
            r == average_score_spec(opts_view(scores@)),
            0 <= r <= SCORE_ONE,
    {
        let ghost sv = opts_view(scores@);
        let mut sum: u128 = 0;
        let mut cnt: u64 = 0;
        let mut i: usize = 0;
        while i < scores.len()
            invariant
                i <= scores@.len(),
                sv == opts_view(scores@),
                sims_on_scale(sv),
                sum == opt_sum(sv.take(i as int)),
                cnt == opt_cnt(sv.take(i as int)),
                cnt <= i,
                sum <= (i as int) * 1000000,
            decreases scores@.len() - i,
        {
            proof {
                assert(sv.take(i + 1).drop_last() =~= sv.take(i as int));
            }
            match scores[i] {
                Some(v) => {
                    proof {
                        assert(sv[i as int] == Some(v as int));
                    }
                    sum = sum + (v as u128);
                    cnt = cnt + 1;
                },
                None => {},
            }
            i += 1;
        }
        proof {
            assert(sv.take(scores@.len() as int) =~= sv);
            lemma_opt_sum_bound(sv);
        }
        if cnt == 0 {
            0
        } else {
            let q: u128 = sum / (cnt as u128);
            proof {
                lemma_mean_on_scale(opt_sum(sv), opt_cnt(sv));
            }
            q as u64
        }
    }
}

/// Computes the weighted mean of the present similarities, requiring the
/// present fields to carry a minimum share of the total weight.
pub struct WeightedAverageRecordScorer {
    pub weights: Vec<u32>,
    pub min_weight_ratio: u64,
}

impl WeightedAverageRecordScorer {
    pub fn new(weights: Vec<u32>, min_weight_ratio: u64) -> (r: Self)
        ensures
            r.weights@ == weights@,
            r.min_weight_ratio == min_weight_ratio,
    {
        Self { weights, min_weight_ratio }
    }

    pub fn score(&self, scores: &Vec<Option<u64>>) -> (r: u64)
        requires
            sims_on_scale(opts_view(scores@)),
            self.weights@.len() == scores@.len(),
            self.min_weight_ratio <= SCORE_ONE,
        ensures
            r == weighted_score_spec(
                self.weights@,
                opts_view(scores@),
                self.min_weight_ratio as int,
            ),
            0 <= r <= SCORE_ONE,
    {
        let (wp, wt, wsum) = weighted_sums(&self.weights, scores, false);
        proof {
            lemma_weighted_sum_bound(self.weights@, opts_view(scores@));
        }
        finish_weighted(wp, wt, wsum, self.min_weight_ratio)
    }
}

/// As the weighted mean, but each present similarity enters squared (scaled
/// back down), which punishes weak fields more than strong ones.
pub struct WeightedQuadraticRecordScorer {
    pub weights: Vec<u32>,
    pub min_weight_ratio: u64,
}

impl WeightedQuadraticRecordScorer {
    pub fn new(weights: Vec<u32>, min_weight_ratio: u64) -> (r: Self)
        ensures
            r.weights@ == weights@,
            r.min_weight_ratio == min_weight_ratio,
    {
        Self { weights, min_weight_ratio }
    }

    pub fn score(&self, scores: &Vec<Option<u64>>) -> (r: u64)
        requires
            sims_on_scale(opts_view(scores@)),
            self.weights@.len() == scores@.len(),
            self.min_weight_ratio <= SCORE_ONE,
        ensures
            r == weighted_quad_score_spec(
                self.weights@,
                opts_view(scores@),
                self.min_weight_ratio as int,
            ),
            0 <= r <= SCORE_ONE,
    {
        let (wp, wt, wsum) = weighted_sums(&self.weights, scores, true);
        proof {
            lemma_weighted_sum_bound(self.weights@, opts_view(scores@));
        }
        finish_weighted(wp, wt, wsum, self.min_weight_ratio)
    }
}

/// Accumulates the weight sums and the (plain or quadratic) weighted score
/// sum in one pass.
fn weighted_sums(weights: &Vec<u32>, scores: &Vec<Option<u64>>, quad: bool) -> (r: (u128, u128, u128))
    requires
        sims_on_scale(opts_view(scores@)),
        weights@.len() == scores@.len(),
    ensures
        r.0 == weight_present(weights@, opts_view(scores@)),
        r.1 == weight_total(weights@),
        !quad ==> r.2 == weighted_sum(weights@, opts_view(scores@)),
        quad ==> r.2 == weighted_quad_sum(weights@, opts_view(scores@)),
        r.0 <= 0x1000000000000000000000000,
        r.1 <= 0x1000000000000000000000000,
{
    let ghost sv = opts_view(scores@);
    let ghost wv = weights@;
    let mut wp: u128 = 0;
    let mut wt: u128 = 0;
    let mut wsum: u128 = 0;
    let mut i: usize = 0;
    while i < scores.len()
        invariant
            i <= scores@.len(),
            sv == opts_view(scores@),
            wv == weights@,
            wv.len() == sv.len(),
            sims_on_scale(sv),
            wp == weight_present(wv.take(i as int), sv.take(i as int)),
            wt == weight_total(wv.take(i as int)),
            !quad ==> wsum == weighted_sum(wv.take(i as int), sv.take(i as int)),
            quad ==> wsum == weighted_quad_sum(wv.take(i as int), sv.take(i as int)),
            wp <= (i as int) * 0x100000000,
            wt <= (i as int) * 0x100000000,
            wsum <= (i as int) * 0x4000000000000000,
        decreases scores@.len() - i,
    {
        proof {
            assert(sv.take(i + 1).drop_last() =~= sv.take(i as int));
            assert(wv.take(i + 1).drop_last() =~= wv.take(i as int));
        }
        let w = weights[i];
        wt = wt + (w as u128);
        match scores[i] {
            Some(v) => {
                proof {
                    assert(sv[i as int] == Some(v as int));
                }
                wp = wp + (w as u128);
                let term: u128 = if quad {
                    proof {
                        assert(0 <= (v as int) * (v as int) <= 1000000 * 1000000)
                            by (nonlinear_arith)
                            requires
                                0 <= (v as int) <= 1000000,
                        ;
                        lemma_square_div_scale(v as int);
                    }
                    let q: u128 = (v as u128) * (v as u128) / (SCORE_ONE as u128);
                    proof {
                        assert(0 <= (w as int) * (q as int) <= 0x4000000000000000)
                            by (nonlinear_arith)
                            requires
                                0 <= (w as int) < 0x100000000,
                                0 <= (q as int) <= 1000000,
                        ;
                    }
                    (w as u128) * q
                } else {
                    proof {
                        assert(0 <= (w as int) * (v as int) <= 0x4000000000000000)
                            by (nonlinear_arith)
                            requires
                                0 <= (w as int) < 0x100000000,
                                0 <= (v as int) <= 1000000,
                        ;
                    }
                    (w as u128) * (v as u128)
                };
                wsum = wsum + term;
            },
            None => {},
        }
        i += 1;
    }
    proof {
        assert(sv.take(scores@.len() as int) =~= sv);
        assert(wv.take(scores@.len() as int) =~= wv);
    }
    (wp, wt, wsum)
}

/// Applies the minimum-weight test and the final division.
fn finish_weighted(wp: u128, wt: u128, wsum: u128, min_ratio: u64) -> (r: u64)
    requires
        0 <= wsum <= (wp as int) * 1000000,
        wp <= 0x1000000000000000000000000,
        wt <= 0x1000000000000000000000000,
        min_ratio <= SCORE_ONE,
    ensures
        ({
            let v = if wp == 0 {
                0int
            } else if (wp as int) * SCORE_ONE < (min_ratio as int) * (wt as int) {
                0int
            } else {
                (wsum as int) / (wp as int)
            };
            r == v && 0 <= v <= SCORE_ONE
        }),
{
    if wp == 0 {
        return 0;
    }
    proof {
        assert((min_ratio as int) * (wt as int) <= 1000000 * 0x1000000000000000000000000)
            by (nonlinear_arith)
            requires
                0 <= (min_ratio as int) <= 1000000,
                0 <= (wt as int) <= 0x1000000000000000000000000,
        ;
        assert(0 <= (min_ratio as int) * (wt as int)) by (nonlinear_arith)
            requires
                0 <= (min_ratio as int),
                0 <= (wt as int),
        ;
    }
    let lhs: u128 = wp * (SCORE_ONE as u128);
    let rhs: u128 = (min_ratio as u128) * wt;
    if lhs < rhs {
        0
    } else {
        let q: u128 = wsum / wp;
        proof {
            lemma_mean_on_scale(wsum as int, wp as int);
        }
        q as u64
    }
}

} // verus!
