//! The median word of a collection: the word whose summed similarity to all
//! the others is greatest — equivalently, whose summed distance is least.
//! Ties go to the earliest word.

use vstd::prelude::*;
use crate::distances::distance_metric::{lv_word_sim, LvDistanceMetric, SCORE_ONE};
use crate::word::{clone_word, Word};

verus! {

/// The raw strings of a word collection.
pub open spec fn raws_of(ws: Seq<Word>) -> Seq<Seq<char>> {
    ws.map_values(|x: Word| x.raw@)
}

/// The summed similarity of word `i` to the first `k` words.
pub open spec fn sim_sum_upto(ws: Seq<Seq<char>>, i: int, k: int) -> int
    decreases k,
{
    if k <= 0 {
        0
    } else {
        sim_sum_upto(ws, i, k - 1) + lv_word_sim(ws[i], ws[k - 1])
    }
}

/// The summed similarity of word `i` to every word of the collection.
pub open spec fn sim_sum(ws: Seq<Seq<char>>, i: int) -> int {
    sim_sum_upto(ws, i, ws.len() as int)
}

/// Word `i` is the median: no word sums higher, and no earlier word sums as
/// high.
pub open spec fn is_median(ws: Seq<Seq<char>>, i: int) -> bool {
    &&& 0 <= i < ws.len()
    &&& forall|j: int| 0 <= j < ws.len() ==> sim_sum(ws, j) <= sim_sum(ws, i)
    &&& forall|j: int| 0 <= j < i ==> sim_sum(ws, j) < sim_sum(ws, i)
}

/// The median word of the collection, if it is non-empty.
pub fn compute_median_word(words: &Vec<Word>) -> (r: Option<Word>)
    requires
        forall|i: int| 0 <= i < words@.len() ==> (#[trigger] words@[i]).wf(),
    ensures
        r is None <==> words@.len() == 0,
        r matches Some(w) ==> w.wf() && exists|i: int|
            #[trigger] is_median(raws_of(words@), i) && w.raw@ == raws_of(words@)[i],
{
    let ghost ws = raws_of(words@);
    let n = words.len();
    if n == 0 {
        return None;
    }
    let metric = LvDistanceMetric::new();
    let mut best_idx: usize = 0;
    let mut best_sum: u128 = 0;
    let mut i: usize = 0;
    while i < n
        invariant
            n == words@.len(),
            n > 0,
            ws == raws_of(words@),
            forall|k: int| 0 <= k < words@.len() ==> (#[trigger] words@[k]).wf(),
            i <= n,
            i > 0 ==> best_idx < i && best_sum == sim_sum(ws, best_idx as int),
            i > 0 ==> forall|j: int| 0 <= j < i ==> sim_sum(ws, j) <= best_sum,
            i > 0 ==> forall|j: int| 0 <= j < best_idx ==> sim_sum(ws, j) < best_sum,
        decreases n - i,
    {
        let mut sum: u128 = 0;
        let mut j: usize = 0;
        while j < n
            invariant
                n == words@.len(),
                ws == raws_of(words@),
                forall|k: int| 0 <= k < words@.len() ==> (#[trigger] words@[k]).wf(),
                i < n,
                j <= n,
                sum == sim_sum_upto(ws, i as int, j as int),
                sum <= (j as int) * 1000000,
            decreases n - j,
        {
            let d = metric.dist(&words[i], &words[j]);
            sum = sum + (d as u128);
            j += 1;
        }
        if i == 0 || sum > best_sum {
            best_idx = i;
            best_sum = sum;
        }
        i += 1;
    }
    proof {
        assert(is_median(ws, best_idx as int));
    }
    Some(clone_word(&words[best_idx]))
}

} // verus!
