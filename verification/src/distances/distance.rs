//! Word-level distance API: the per-word distances behind the metric types,
//! plus the string-level variant that counts insertions, deletions and
//! substitutions separately. All share the same verified edit-distance model.

use vstd::prelude::*;
use vstd::utf8::encode_utf8;
use crate::distances::distance_metric::{lemma_lev_base, lemma_lev_step, lv_word_sim, lvopti_word_sim, sim_from_edits, LvDistanceMetric, LvOptiDistanceMetric, SCORE_ONE};
use crate::distances::levenshtein::{capped, lemma_flatten_count, lemma_lev_le_max, lev, max2};
use crate::word::{grapheme_split, split_graphemes, Word};

verus! {

/// A distance that ignores its arguments; it exists for wiring tests.
pub struct DummyDistance;

impl DummyDistance {
    /// A fixed similarity of 0.9 on the scale.
    pub fn dist(&self, _v1: &str, _v2: &str) -> (r: u64)
        ensures
            r == 900000,
    {
        900000
    }
}

/// Levenshtein distance over grapheme clusters.
pub struct LvDistance {}

impl LvDistance {
    pub fn new() -> (m: Self)
        ensures
            true,
    {
        Self {  }
    }

    /// The exact edit count between the words' grapheme clusters, capped at
    /// the largest 32-bit value.
    pub fn compute_edits(&self, w1: &Word, w2: &Word) -> (r: u32)
        ensures
            r == capped(lev(grapheme_split(w1.raw@), grapheme_split(w2.raw@)), u32::MAX as nat),
    {
        LvDistanceMetric::new().compute_edits(w1, w2)
    }

    pub fn dist(&self, v1: &Word, v2: &Word) -> (r: u64)
        requires
            v1.wf(),
            v2.wf(),
        ensures
            r == lv_word_sim(v1.raw@, v2.raw@),
            0 <= r <= SCORE_ONE,
    {
        LvDistanceMetric::new().dist(v1, v2)
    }
}

/// Levenshtein distance over packed codes with byte-sized cells.
pub struct LvOptiDistance {}

impl LvOptiDistance {
    pub fn new() -> (m: Self)
        ensures
            true,
    {
        Self {  }
    }

    /// The edit count between the words' packed codes, capped at 255.
    pub fn compute_edits(&self, w1: &Word, w2: &Word) -> (r: u8)
        ensures
            r == capped(lev(w1.graphemes@, w2.graphemes@), 255),
    {
        LvOptiDistanceMetric::new().compute_edits(w1, w2)
    }

    pub fn dist(&self, v1: &Word, v2: &Word) -> (r: u64)
        requires
            v1.wf(),
            v2.wf(),
        ensures
            r == lvopti_word_sim(v1.raw@, v2.raw@),
            0 <= r <= SCORE_ONE,
    {
        LvOptiDistanceMetric::new().dist(v1, v2)
    }
}

/// A decomposed edit count: insertions, deletions and substitutions.
#[derive(Clone, Copy, Debug, PartialEq, Eq, Structural)]
pub struct Edit {
    pub insertion: u32,
    pub deletion: u32,
    pub substitution: u32,
}

impl Edit {
    /// The components stay summable.
    pub open spec fn wf(self) -> bool {
        self.insertion + self.deletion + self.substitution <= u32::MAX
    }

    pub fn new() -> (e: Edit)
        ensures
            e.insertion == 0,
            e.deletion == 0,
            e.substitution == 0,
            e.wf(),
    {
        Edit { insertion: 0, deletion: 0, substitution: 0 }
    }

    /// The total number of edits.
    pub fn tot(&self) -> (r: u32)
        requires
            self.wf(),
        ensures
            r == self.insertion + self.deletion + self.substitution,
    {
        self.insertion + self.deletion + self.substitution
    }
}

/// String-level Levenshtein distance that keeps the kinds of edits apart.
pub struct LvMultiDistance {}

impl LvMultiDistance {
    pub fn new() -> (m: Self)
        ensures
            true,
    {
        Self {  }
    }

    /// The edit count between the strings' grapheme clusters, split into
    /// insertions, deletions and substitutions; the total is the Levenshtein
    /// distance, capped at the largest 32-bit value, and never exceeds the
    /// longer byte length.
    pub fn compute_edits(&self, w1: &str, w2: &str) -> (r: Edit)
        ensures
            r.wf(),
            r.insertion + r.deletion + r.substitution == capped(
                lev(grapheme_split(w1@), grapheme_split(w2@)),
                u32::MAX as nat,
            ),
            r.insertion + r.deletion + r.substitution <= max2(
                encode_utf8(w1@).len(),
                encode_utf8(w2@).len(),
            ),
    {
        let parts1 = split_graphemes(w1);
        let parts2 = split_graphemes(w2);
        proof {
            lemma_lev_le_max(grapheme_split(w1@), grapheme_split(w2@));
            lemma_flatten_count(grapheme_split(w1@));
            lemma_flatten_count(grapheme_split(w2@));
            crate::distances::distance_metric::lemma_utf8_len_ge_chars(w1@);
            crate::distances::distance_metric::lemma_utf8_len_ge_chars(w2@);
        }
        edit_dp(&parts1, &parts2)
    }

    /// The similarity the decomposed edit count yields: the same value as the
    /// plain Levenshtein metric.
    pub fn dist(&self, v1: &str, v2: &str) -> (r: u64)
        ensures
            r == lv_word_sim(v1@, v2@),
            0 <= r <= SCORE_ONE,
    {
        let edits = self.compute_edits(v1, v2);
        let tot = edits.tot();
        sim_from_edits(tot, v1.as_bytes().len(), v2.as_bytes().len())
    }
}

/// The decomposed-edit dynamic program over cluster sequences, kept two rows
/// at a time. Cell totals follow the Levenshtein recurrence, capped.
fn edit_dp(parts1: &Vec<String>, parts2: &Vec<String>) -> (r: Edit)
    ensures
        r.wf(),
        r.insertion + r.deletion + r.substitution == capped(
            lev(parts1@.map_values(|p: String| p@), parts2@.map_values(|p: String| p@)),
            u32::MAX as nat,
        ),
{
    let ghost a = parts1@.map_values(|p: String| p@);
    let ghost b = parts2@.map_values(|p: String| p@);
    let l1 = parts1.len();
    let l2 = parts2.len();
    let ghost cap = u32::MAX as nat;

    let mut prev: Vec<Edit> = Vec::new();
    let mut j: usize = 0;
    loop
        invariant_except_break
            prev@.len() == j,
        invariant
            j <= l2,
            l2 == b.len(),
            forall|k: int|
                0 <= k < j ==> edit_sum(#[trigger] prev@[k]) == capped(k as nat, u32::MAX as nat)
                    && prev@[k].wf(),
        ensures
            prev@.len() == l2 + 1,
            forall|k: int|
                0 <= k <= l2 ==> edit_sum(#[trigger] prev@[k]) == capped(k as nat, u32::MAX as nat)
                    && prev@[k].wf(),
        decreases l2 - j,
    {
        let d: u32 = if j >= u32::MAX as usize {
            u32::MAX
        } else {
            j as u32
        };
        prev.push(Edit { insertion: 0, deletion: d, substitution: 0 });
        if j == l2 {
            break ;
        }
        j += 1;
    }
    proof {
        assert forall|k: int| 0 <= k <= l2 implies edit_sum(#[trigger] prev@[k]) == capped(
            lev(a.take(0), b.take(k)),
            cap,
        ) by {
            lemma_lev_base(a, b, 0, k);
        }
    }

    if l1 == 0 {
        proof {
            assert(a.take(0) =~= a);
            assert(b.take(l2 as int) =~= b);
        }
        return prev[l2];
    }
    let mut i: usize = 1;
    loop
        invariant_except_break
            prev@.len() == l2 + 1,
            forall|k: int|
                0 <= k <= l2 ==> edit_sum(#[trigger] prev@[k]) == capped(
                    lev(a.take(i - 1), b.take(k)),
                    cap,
                ) && prev@[k].wf(),
        invariant
            1 <= i <= l1,
            l1 == a.len(),
            l2 == b.len(),
            parts1@.map_values(|p: String| p@) == a,
            parts2@.map_values(|p: String| p@) == b,
            parts1@.len() == l1,
            parts2@.len() == l2,
            cap == u32::MAX as nat,
        ensures
            prev@.len() == l2 + 1,
            forall|k: int|
                0 <= k <= l2 ==> edit_sum(#[trigger] prev@[k]) == capped(
                    lev(a.take(l1 as int), b.take(k)),
                    cap,
                ) && prev@[k].wf(),
        decreases l1 - i,
    {
        let mut cur: Vec<Edit> = Vec::new();
        let d: u32 = if i >= u32::MAX as usize {
            u32::MAX
        } else {
            i as u32
        };
        cur.push(Edit { insertion: 0, deletion: d, substitution: 0 });
        proof {
            lemma_lev_base(a, b, i as int, 0);
        }
        if l2 > 0 {
            let mut j: usize = 1;
            loop
                invariant_except_break
                    cur@.len() == j,
                    forall|k: int|
                        0 <= k < j ==> edit_sum(#[trigger] cur@[k]) == capped(
                            lev(a.take(i as int), b.take(k)),
                            cap,
                        ) && cur@[k].wf(),
                invariant
                    1 <= i <= l1,
                    1 <= j <= l2,
                    l1 == a.len(),
                    l2 == b.len(),
                    parts1@.map_values(|p: String| p@) == a,
                    parts2@.map_values(|p: String| p@) == b,
                    parts1@.len() == l1,
                    parts2@.len() == l2,
                    cap == u32::MAX as nat,
                    prev@.len() == l2 + 1,
                    forall|k: int|
                        0 <= k <= l2 ==> edit_sum(#[trigger] prev@[k]) == capped(
                            lev(a.take(i - 1), b.take(k)),
                            cap,
                        ) && prev@[k].wf(),
                ensures
                    prev@.len() == l2 + 1,
                    forall|k: int|
                        0 <= k <= l2 ==> edit_sum(#[trigger] prev@[k]) == capped(
                            lev(a.take(i - 1), b.take(k)),
                            cap,
                        ) && prev@[k].wf(),
                    cur@.len() == l2 + 1,
                    forall|k: int|
                        0 <= k <= l2 ==> edit_sum(#[trigger] cur@[k]) == capped(
                            lev(a.take(i as int), b.take(k)),
                            cap,
                        ) && cur@[k].wf(),
                decreases l2 - j,
            {
                proof {
                    lemma_lev_step(a, b, i as int, j as int);
                    assert(a[i - 1] == parts1@[i - 1]@);
                    assert(b[j - 1] == parts2@[j - 1]@);
                }
                let val: Edit = if parts1[i - 1] == parts2[j - 1] {
                    prev[j - 1]
                } else {
                    let c1 = prev[j - 1];
                    let c2 = prev[j];
                    let c3 = cur[j - 1];
                    let t1 = c1.tot();
                    let t2 = c2.tot();
                    let t3 = c3.tot();
                    if t1 <= t2 && t1 <= t3 {
                        bump_substitution(c1)
                    } else if t2 <= t3 {
                        bump_deletion(c2)
                    } else {
                        bump_insertion(c3)
                    }
                };
                cur.push(val);
                if j == l2 {
                    break ;
                }
                j += 1;
            }
        }
        prev = cur;
        if i == l1 {
            break ;
        }
        i += 1;
    }
    proof {
        assert(a.take(l1 as int) =~= a);
        assert(b.take(l2 as int) =~= b);
    }
    prev[l2]
}

/// The total of a decomposed edit count, as a mathematical value.
pub open spec fn edit_sum(e: Edit) -> int {
    e.insertion + e.deletion + e.substitution
}

/// One more substitution, unless the total is already saturated.
fn bump_substitution(e: Edit) -> (r: Edit)
    requires
        e.wf(),
    ensures
        r.wf(),
        edit_sum(r) == capped((edit_sum(e) + 1) as nat, u32::MAX as nat),
{
    if e.insertion + e.deletion + e.substitution == u32::MAX {
        e
    } else {
        Edit { insertion: e.insertion, deletion: e.deletion, substitution: e.substitution + 1 }
    }
}

/// One more deletion, unless the total is already saturated.
fn bump_deletion(e: Edit) -> (r: Edit)
    requires
        e.wf(),
    ensures
        r.wf(),
        edit_sum(r) == capped((edit_sum(e) + 1) as nat, u32::MAX as nat),
{
    if e.insertion + e.deletion + e.substitution == u32::MAX {
        e
    } else {
        Edit { insertion: e.insertion, deletion: e.deletion + 1, substitution: e.substitution }
    }
}

/// One more insertion, unless the total is already saturated.
fn bump_insertion(e: Edit) -> (r: Edit)
    requires
        e.wf(),
    ensures
        r.wf(),
        edit_sum(r) == capped((edit_sum(e) + 1) as nat, u32::MAX as nat),
{
    if e.insertion + e.deletion + e.substitution == u32::MAX {
        e
    } else {
        Edit { insertion: e.insertion + 1, deletion: e.deletion, substitution: e.substitution }
    }
}

} // verus!
