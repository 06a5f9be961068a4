//! Word distance metrics. Each metric maps a pair of words to a similarity in
//! `[0, SCORE_ONE]`, where `SCORE_ONE` stands for equality and `0` for no
//! resemblance. The similarity is `SCORE_ONE * (m - edits) / m` where `edits`
//! is the Levenshtein distance over grapheme clusters and `m` the byte length
//! of the longer raw string; two empty words are fully similar.

use vstd::prelude::*;
use vstd::utf8::{encode_scalar, encode_utf8};
use vstd::arithmetic::div_mod::{lemma_div_is_ordered, lemma_div_multiples_vanish, lemma_div_pos_is_pos};
use vstd::arithmetic::mul::lemma_mul_inequality;
use crate::word::{byte_span, clip8, grapheme_split, lemma_byte_span_monotone, lemma_pack_be_bound, pack_cluster, split_graphemes, Word};
use crate::distances::levenshtein::{capped, common_suffix, lemma_common_suffix_sym, lemma_flatten_count, lemma_lev_le_max, lemma_lev_self, lemma_lev_sym, lemma_take_drop_last, lev, max2, min3};

verus! {

/// The scaled representation of similarity 1. All similarities and record
/// scores are integers in `[0, SCORE_ONE]`.
pub const SCORE_ONE: u64 = 1000000;

/// UTF-8 takes at least one byte per character.
pub proof fn lemma_utf8_len_ge_chars(s: Seq<char>)
    ensures
        encode_utf8(s).len() >= s.len(),
    decreases s.len(),
{
    if s.len() > 0 {
        lemma_utf8_len_ge_chars(s.drop_first());
        assert(encode_scalar(s[0] as u32).len() >= 1);
    }
}

/// A well-formed word has no more grapheme codes than raw bytes.
pub proof fn lemma_word_graphemes_le_bytes(w: Word)
    requires
        w.wf(),
    ensures
        grapheme_split(w.raw@).len() <= encode_utf8(w.raw@).len(),
{
    lemma_flatten_count(grapheme_split(w.raw@));
    lemma_utf8_len_ge_chars(w.raw@);
}

/// A packed cluster code fits in 64 bits.
pub proof fn lemma_pack_cluster_fits(cs: Seq<char>)
    ensures
        0 <= pack_cluster(cs) < 0x10000000000000000,
{
    lemma_pack_be_bound(clip8(encode_utf8(cs)));
    lemma_byte_span_monotone(clip8(encode_utf8(cs)).len(), 8);
    assert(byte_span(8) == 0x10000000000000000) by {
        reveal_with_fuel(byte_span, 9);
    }
}

/// The packed grapheme codes of a string, as 64-bit values.
pub open spec fn packed_codes(s: Seq<char>) -> Seq<u64> {
    grapheme_split(s).map_values(|cs: Seq<char>| pack_cluster(cs) as u64)
}

/// A well-formed word carries exactly the packed codes of its raw string.
pub proof fn lemma_word_codes(w: Word)
    requires
        w.wf(),
    ensures
        w.graphemes@ == packed_codes(w.raw@),
{
    let parts = grapheme_split(w.raw@);
    assert forall|i: int| 0 <= i < parts.len() implies w.graphemes@[i] == packed_codes(
        w.raw@,
    )[i] by {
        lemma_pack_cluster_fits(parts[i]);
    }
    assert(w.graphemes@ =~= packed_codes(w.raw@));
}

/// Similarity derived from an edit count and the two raw byte lengths.
pub open spec fn sim_value(edits: nat, blen1: nat, blen2: nat) -> int {
    let m = max2(blen1, blen2);
    if m == 0 {
        SCORE_ONE as int
    } else {
        SCORE_ONE * (m - edits) / m as int
    }
}

/// The similarity the plain Levenshtein metric assigns to two raw strings.
pub open spec fn lv_word_sim(s1: Seq<char>, s2: Seq<char>) -> int {
    sim_value(
        capped(lev(grapheme_split(s1), grapheme_split(s2)), u32::MAX as nat),
        encode_utf8(s1).len(),
        encode_utf8(s2).len(),
    )
}

/// The similarity the byte-cell Levenshtein metric assigns: the edit count is
/// taken over packed codes and capped at 255.
pub open spec fn lvopti_word_sim(s1: Seq<char>, s2: Seq<char>) -> int {
    sim_value(
        capped(lev(packed_codes(s1), packed_codes(s2)), 255),
        encode_utf8(s1).len(),
        encode_utf8(s2).len(),
    )
}

/// Caps a usize at the largest 32-bit value.
fn capped_u32_of_usize(x: usize) -> (r: u32)
    ensures
        r == capped(x as nat, u32::MAX as nat),
{
    if x >= u32::MAX as usize {
        u32::MAX
    } else {
        x as u32
    }
}

/// The base rows of the dynamic program: a prefix against the empty sequence.
pub(crate) proof fn lemma_lev_base<A>(a: Seq<A>, b: Seq<A>, i: int, j: int)
    requires
        0 <= i <= a.len(),
        0 <= j <= b.len(),
    ensures
        lev(a.take(0), b.take(j)) == j,
        lev(a.take(i), b.take(0)) == i,
{
    assert(a.take(0) =~= Seq::<A>::empty());
    assert(b.take(0) =~= Seq::<A>::empty());
    assert(b.take(j).len() == j);
    assert(a.take(i).len() == i);
    if i > 0 {
        assert(lev(a.take(i), b.take(0)) == a.take(i).len());
    }
}

/// One cell of the dynamic program, stated over prefixes.
pub(crate) proof fn lemma_lev_step<A>(a: Seq<A>, b: Seq<A>, i: int, j: int)
    requires
        1 <= i <= a.len(),
        1 <= j <= b.len(),
    ensures
        a[i - 1] == b[j - 1] ==> lev(a.take(i), b.take(j)) == lev(a.take(i - 1), b.take(j - 1)),
        a[i - 1] != b[j - 1] ==> lev(a.take(i), b.take(j)) == 1 + min3(
            lev(a.take(i - 1), b.take(j - 1)),
            lev(a.take(i - 1), b.take(j)),
            lev(a.take(i), b.take(j - 1)),
        ),
{
    lemma_take_drop_last(a, i);
    lemma_take_drop_last(b, j);
}

/// Levenshtein distance over string sequences, capped at the largest 32-bit
/// value, by the classical dynamic program kept two rows at a time.
fn lv_edits_of_clusters(parts1: &Vec<String>, parts2: &Vec<String>) -> (r: u32)
    ensures
        r == capped(
            lev(parts1@.map_values(|p: String| p@), parts2@.map_values(|p: String| p@)),
            u32::MAX as nat,
        ),
{
    let ghost a = parts1@.map_values(|p: String| p@);
    let ghost b = parts2@.map_values(|p: String| p@);
    let l1 = parts1.len();
    let l2 = parts2.len();
    let ghost cap = u32::MAX as nat;

    let mut prev: Vec<u32> = Vec::new();
    let mut j: usize = 0;
    loop
        invariant_except_break
            prev@.len() == j,
        invariant
            j <= l2,
            l2 == b.len(),
            forall|k: int| 0 <= k < j ==> prev@[k] == capped(k as nat, u32::MAX as nat),
        ensures
            prev@.len() == l2 + 1,
            forall|k: int| 0 <= k <= l2 ==> prev@[k] == capped(k as nat, u32::MAX as nat),
        decreases l2 - j,
    {
        prev.push(capped_u32_of_usize(j));
        if j == l2 {
            break ;
        }
        j += 1;
    }
    proof {
        assert forall|k: int| 0 <= k <= l2 implies prev@[k] == capped(
            lev(a.take(0), b.take(k)),
            cap,
        ) by {
            lemma_lev_base(a, b, 0, k);
        }
    }

    if l1 == 0 {
        proof {
            assert(a.take(0) =~= a);
            assert(b.take(l2 as int) =~= b);
        }
        return prev[l2];
    }
    let mut i: usize = 1;
    loop
        invariant_except_break
            prev@.len() == l2 + 1,
            forall|k: int|
                0 <= k <= l2 ==> prev@[k] == capped(lev(a.take(i - 1), b.take(k)), cap),
        invariant
            1 <= i <= l1,
            l1 == a.len(),
            l2 == b.len(),
            parts1@.map_values(|p: String| p@) == a,
            parts2@.map_values(|p: String| p@) == b,
            parts1@.len() == l1,
            parts2@.len() == l2,
            cap == u32::MAX as nat,
        ensures
            prev@.len() == l2 + 1,
            forall|k: int|
                0 <= k <= l2 ==> prev@[k] == capped(lev(a.take(l1 as int), b.take(k)), cap),
        decreases l1 - i,
    {
        let mut cur: Vec<u32> = Vec::new();
        cur.push(capped_u32_of_usize(i));
        proof {
            lemma_lev_base(a, b, i as int, 0);
        }
        if l2 > 0 {
            let mut j: usize = 1;
            loop
                invariant_except_break
                    cur@.len() == j,
                    forall|k: int|
                        0 <= k < j ==> cur@[k] == capped(lev(a.take(i as int), b.take(k)), cap),
                invariant
                    1 <= i <= l1,
                    1 <= j <= l2,
                    l1 == a.len(),
                    l2 == b.len(),
                    parts1@.map_values(|p: String| p@) == a,
                    parts2@.map_values(|p: String| p@) == b,
                    parts1@.len() == l1,
                    parts2@.len() == l2,
                    cap == u32::MAX as nat,
                    prev@.len() == l2 + 1,
                    forall|k: int|
                        0 <= k <= l2 ==> prev@[k] == capped(lev(a.take(i - 1), b.take(k)), cap),
                ensures
                    prev@.len() == l2 + 1,
                    forall|k: int|
                        0 <= k <= l2 ==> prev@[k] == capped(lev(a.take(i - 1), b.take(k)), cap),
                    cur@.len() == l2 + 1,
                    forall|k: int|
                        0 <= k <= l2 ==> cur@[k] == capped(lev(a.take(i as int), b.take(k)), cap),
                decreases l2 - j,
            {
                proof {
                    lemma_lev_step(a, b, i as int, j as int);
                    assert(a[i - 1] == parts1@[i - 1]@);
                    assert(b[j - 1] == parts2@[j - 1]@);
                }
                let val: u32 = if parts1[i - 1] == parts2[j - 1] {
                    prev[j - 1]
                } else {
                    let c1 = prev[j - 1];
                    let c2 = prev[j];
                    let c3 = cur[j - 1];
                    let m = if c1 <= c2 && c1 <= c3 {
                        c1
                    } else if c2 <= c3 {
                        c2
                    } else {
                        c3
                    };
                    if m == u32::MAX {
                        m
                    } else {
                        m + 1
                    }
                };
                cur.push(val);
                if j == l2 {
                    break ;
                }
                j += 1;
            }
        }
        prev = cur;
        if i == l1 {
            break ;
        }
        i += 1;
    }
    proof {
        assert(a.take(l1 as int) =~= a);
        assert(b.take(l2 as int) =~= b);
    }
    prev[l2]
}

/// Levenshtein distance over packed code sequences, capped at 255, by the
/// dynamic program on byte-sized cells kept two rows at a time.
fn lv_edits_of_codes(codes1: &Vec<u64>, codes2: &Vec<u64>) -> (r: u8)
    ensures
        r == capped(lev(codes1@, codes2@), 255),
{
    let ghost a = codes1@;
    let ghost b = codes2@;
    let l1 = codes1.len();
    let l2 = codes2.len();
    let ghost cap = 255nat;

    let mut prev: Vec<u8> = Vec::new();
    let mut j: usize = 0;
    loop
        invariant_except_break
            prev@.len() == j,
        invariant
            j <= l2,
            l2 == b.len(),
            forall|k: int| 0 <= k < j ==> prev@[k] == capped(k as nat, 255),
        ensures
            prev@.len() == l2 + 1,
            forall|k: int| 0 <= k <= l2 ==> prev@[k] == capped(k as nat, 255),
        decreases l2 - j,
    {
        prev.push(if j >= 255 {
            255u8
        } else {
            j as u8
        });
        if j == l2 {
            break ;
        }
        j += 1;
    }
    proof {
        assert forall|k: int| 0 <= k <= l2 implies prev@[k] == capped(
            lev(a.take(0), b.take(k)),
            cap,
        ) by {
            lemma_lev_base(a, b, 0, k);
        }
    }

    if l1 == 0 {
        proof {
            assert(a.take(0) =~= a);
            assert(b.take(l2 as int) =~= b);
        }
        return prev[l2];
    }
    let mut i: usize = 1;
    loop
        invariant_except_break
            prev@.len() == l2 + 1,
            forall|k: int| 0 <= k <= l2 ==> prev@[k] == capped(lev(a.take(i - 1), b.take(k)), cap),
        invariant
            1 <= i <= l1,
            l1 == a.len(),
            l2 == b.len(),
            codes1@ == a,
            codes2@ == b,
            cap == 255nat,
        ensures
            prev@.len() == l2 + 1,
            forall|k: int|
                0 <= k <= l2 ==> prev@[k] == capped(lev(a.take(l1 as int), b.take(k)), cap),
        decreases l1 - i,
    {
        let mut cur: Vec<u8> = Vec::new();
        cur.push(if i >= 255 {
            255u8
        } else {
            i as u8
        });
        proof {
            lemma_lev_base(a, b, i as int, 0);
        }
        if l2 > 0 {
            let mut j: usize = 1;
            loop
                invariant_except_break
                    cur@.len() == j,
                    forall|k: int|
                        0 <= k < j ==> cur@[k] == capped(lev(a.take(i as int), b.take(k)), cap),
                invariant
                    1 <= i <= l1,
                    1 <= j <= l2,
                    l1 == a.len(),
                    l2 == b.len(),
                    codes1@ == a,
                    codes2@ == b,
                    cap == 255nat,
                    prev@.len() == l2 + 1,
                    forall|k: int|
                        0 <= k <= l2 ==> prev@[k] == capped(lev(a.take(i - 1), b.take(k)), cap),
                ensures
                    prev@.len() == l2 + 1,
                    forall|k: int|
                        0 <= k <= l2 ==> prev@[k] == capped(lev(a.take(i - 1), b.take(k)), cap),
                    cur@.len() == l2 + 1,
                    forall|k: int|
                        0 <= k <= l2 ==> cur@[k] == capped(lev(a.take(i as int), b.take(k)), cap),
                decreases l2 - j,
            {
                proof {
                    lemma_lev_step(a, b, i as int, j as int);
                }
                let val: u8 = if codes1[i - 1] == codes2[j - 1] {
                    prev[j - 1]
                } else {
                    let c1 = prev[j - 1];
                    let c2 = prev[j];
                    let c3 = cur[j - 1];
                    let m = if c1 <= c2 && c1 <= c3 {
                        c1
                    } else if c2 <= c3 {
                        c2
                    } else {
                        c3
                    };
                    if m == 255 {
                        m
                    } else {
                        m + 1
                    }
                };
                cur.push(val);
                if j == l2 {
                    break ;
                }
                j += 1;
            }
        }
        prev = cur;
        if i == l1 {
            break ;
        }
        i += 1;
    }
    proof {
        assert(a.take(l1 as int) =~= a);
        assert(b.take(l2 as int) =~= b);
    }
    prev[l2]
}

/// Levenshtein metric on the packed grapheme codes, with byte-sized cells:
/// the edit count saturates at 255, which leaves ordinary words unaffected.
#[derive(Clone, Copy, Debug)]
pub struct LvOptiDistanceMetric {}

impl LvOptiDistanceMetric {
    pub fn new() -> (m: Self)
        ensures
            true,
    {
        Self {  }
    }

    /// The Levenshtein edit count between the words' packed codes, capped at
    /// 255.
    pub fn compute_edits(&self, w1: &Word, w2: &Word) -> (r: u8)
        ensures
            r == capped(lev(w1.graphemes@, w2.graphemes@), 255),
    {
        proof {
            lemma_lev_sym(w1.graphemes@, w2.graphemes@);
        }
        if w1.graphemes.len() < w2.graphemes.len() {
            lv_edits_of_codes(&w2.graphemes, &w1.graphemes)
        } else {
            lv_edits_of_codes(&w1.graphemes, &w2.graphemes)
        }
    }

    pub fn dist(&self, v1: &Word, v2: &Word) -> (r: u64)
        requires
            v1.wf(),
            v2.wf(),
        ensures
            r == lvopti_word_sim(v1.raw@, v2.raw@),
            0 <= r <= SCORE_ONE,
    {
        let edits = self.compute_edits(v1, v2);
        proof {
            lemma_word_codes(*v1);
            lemma_word_codes(*v2);
            lemma_edits_le_bytes(*v1, *v2, lev(grapheme_split(v1.raw@), grapheme_split(v2.raw@)));
        }
        sim_from_edits(
            edits as u32,
            v1.raw.as_str().as_bytes().len(),
            v2.raw.as_str().as_bytes().len(),
        )
    }
}

/// The largest capped common-suffix length over prefixes of `b` cut at
/// positions up to `jmax`, with `a` cut at `i`.
pub open spec fn lcs_row_max(a: Seq<u64>, b: Seq<u64>, i: int, jmax: int) -> nat
    decreases jmax,
{
    if jmax <= 0 {
        0
    } else {
        max2(
            capped(common_suffix(a.take(i), b.take(jmax)), 255),
            lcs_row_max(a, b, i, jmax - 1),
        )
    }
}

/// The largest capped common-suffix length over all prefix pairs with the
/// first sequence cut at positions up to `imax`.
pub open spec fn lcs_upto(a: Seq<u64>, b: Seq<u64>, imax: int) -> nat
    decreases imax,
{
    if imax <= 0 {
        0
    } else {
        max2(lcs_row_max(a, b, imax, b.len() as int), lcs_upto(a, b, imax - 1))
    }
}

/// The longest common substring length of the two code sequences, capped at
/// 255: the largest common suffix over all prefix pairs.
pub open spec fn lcs_of(a: Seq<u64>, b: Seq<u64>) -> nat {
    lcs_upto(a, b, a.len() as int)
}

proof fn lemma_lcs_row_bound(a: Seq<u64>, b: Seq<u64>, i: int, jmax: int, j: int)
    requires
        0 <= j <= jmax || j == 0,
    ensures
        capped(common_suffix(a.take(i), b.take(j)), 255) <= lcs_row_max(a, b, i, jmax),
    decreases jmax,
{
    if j == 0 {
        assert(b.take(0) =~= Seq::<u64>::empty());
        assert(common_suffix(a.take(i), b.take(0)) == 0);
    } else if j == jmax {
    } else {
        lemma_lcs_row_bound(a, b, i, jmax - 1, j);
    }
}

/// Every prefix pair's capped common suffix is at most the capped longest
/// common substring length.
pub proof fn lemma_lcs_bound(a: Seq<u64>, b: Seq<u64>, i: int, j: int)
    requires
        0 <= i <= a.len(),
        0 <= j <= b.len(),
    ensures
        capped(common_suffix(a.take(i), b.take(j)), 255) <= lcs_of(a, b),
{
    lemma_lcs_bound_upto(a, b, i, j, a.len() as int);
}

proof fn lemma_lcs_bound_upto(a: Seq<u64>, b: Seq<u64>, i: int, j: int, imax: int)
    requires
        0 <= i <= a.len(),
        0 <= j <= b.len(),
        i <= imax || i == 0,
    ensures
        capped(common_suffix(a.take(i), b.take(j)), 255) <= lcs_upto(a, b, imax),
    decreases imax,
{
    if i == 0 {
        assert(a.take(0) =~= Seq::<u64>::empty());
        assert(common_suffix(a.take(0), b.take(j)) == 0);
    } else if i == imax {
        lemma_lcs_row_bound(a, b, i, b.len() as int, j);
    } else {
        lemma_lcs_bound_upto(a, b, i, j, imax - 1);
    }
}

proof fn lemma_lcs_row_attained(a: Seq<u64>, b: Seq<u64>, i: int, jmax: int)
    requires
        0 <= i <= a.len(),
        0 <= jmax <= b.len(),
    ensures
        exists|j: int|
            0 <= j <= b.len() && capped(common_suffix(a.take(i), #[trigger] b.take(j)), 255)
                == lcs_row_max(a, b, i, jmax),
    decreases jmax,
{
    if jmax <= 0 {
        assert(b.take(0) =~= Seq::<u64>::empty());
        assert(capped(common_suffix(a.take(i), b.take(0)), 255) == 0);
    } else {
        lemma_lcs_row_attained(a, b, i, jmax - 1);
    }
}

/// Some prefix pair attains the capped longest common substring length.
pub proof fn lemma_lcs_attained(a: Seq<u64>, b: Seq<u64>)
    ensures
        exists|i: int, j: int|
            0 <= i <= a.len() && 0 <= j <= b.len() && capped(
                common_suffix(#[trigger] a.take(i), #[trigger] b.take(j)),
                255,
            ) == lcs_of(a, b),
{
    lemma_lcs_attained_upto(a, b, a.len() as int);
}

proof fn lemma_lcs_attained_upto(a: Seq<u64>, b: Seq<u64>, imax: int)
    requires
        0 <= imax <= a.len(),
    ensures
        exists|i: int, j: int|
            0 <= i <= a.len() && 0 <= j <= b.len() && capped(
                common_suffix(#[trigger] a.take(i), #[trigger] b.take(j)),
                255,
            ) == lcs_upto(a, b, imax),
    decreases imax,
{
    if imax <= 0 {
        assert(a.take(0) =~= Seq::<u64>::empty());
        assert(b.take(0) =~= Seq::<u64>::empty());
        assert(capped(common_suffix(a.take(0), b.take(0)), 255) == 0);
    } else {
        lemma_lcs_attained_upto(a, b, imax - 1);
        lemma_lcs_row_attained(a, b, imax, b.len() as int);
    }
}

/// A value that bounds every pair and is attained by one is the capped
/// longest common substring length.
pub proof fn lemma_lcs_unique(a: Seq<u64>, b: Seq<u64>, l: nat)
    requires
        forall|i: int, j: int|
            0 <= i <= a.len() && 0 <= j <= b.len() ==> capped(
                common_suffix(#[trigger] a.take(i), #[trigger] b.take(j)),
                255,
            ) <= l,
        exists|i: int, j: int|
            0 <= i <= a.len() && 0 <= j <= b.len() && capped(
                common_suffix(#[trigger] a.take(i), #[trigger] b.take(j)),
                255,
            ) == l,
    ensures
        l == lcs_of(a, b),
{
    let (i0, j0) = choose|i0: int, j0: int|
        0 <= i0 <= a.len() && 0 <= j0 <= b.len() && capped(
            common_suffix(#[trigger] a.take(i0), #[trigger] b.take(j0)),
            255,
        ) == l;
    lemma_lcs_bound(a, b, i0, j0);
    lemma_lcs_attained(a, b);
    let (i1, j1) = choose|i1: int, j1: int|
        0 <= i1 <= a.len() && 0 <= j1 <= b.len() && capped(
            common_suffix(#[trigger] a.take(i1), #[trigger] b.take(j1)),
            255,
        ) == lcs_of(a, b);
}

/// The capped longest common substring length is symmetric.
pub proof fn lemma_lcs_sym(a: Seq<u64>, b: Seq<u64>)
    ensures
        lcs_of(a, b) == lcs_of(b, a),
{
    assert forall|i: int, j: int|
        0 <= i <= a.len() && 0 <= j <= b.len() implies capped(
        common_suffix(#[trigger] a.take(i), #[trigger] b.take(j)),
        255,
    ) <= lcs_of(b, a) by {
        lemma_common_suffix_sym(a.take(i), b.take(j));
        lemma_lcs_bound(b, a, j, i);
    }
    lemma_lcs_attained(b, a);
    let (i1, j1) = choose|i1: int, j1: int|
        0 <= i1 <= b.len() && 0 <= j1 <= a.len() && capped(
            common_suffix(#[trigger] b.take(i1), #[trigger] a.take(j1)),
            255,
        ) == lcs_of(b, a);
    lemma_common_suffix_sym(b.take(i1), a.take(j1));
    assert(capped(common_suffix(a.take(j1), b.take(i1)), 255) == lcs_of(b, a));
    lemma_lcs_unique(a, b, lcs_of(b, a));
}

/// The edit count after the substring bonus: the longest common substring
/// length, weighted (per mille), is forgiven, and the count never goes below
/// zero.
pub open spec fn sub_adjusted(edits: nat, l: nat, weight_per_mille: int) -> nat {
    let bonus = l * weight_per_mille / 1000;
    if bonus >= edits {
        0
    } else {
        (edits - bonus) as nat
    }
}

/// The similarity the substring-aware Levenshtein metric assigns: the capped
/// edit count over packed codes, reduced by the weighted longest common
/// substring length, over the longer byte length.
pub open spec fn lvsub_word_sim(s1: Seq<char>, s2: Seq<char>, weight_per_mille: int) -> int {
    sim_value(
        sub_adjusted(
            capped(lev(packed_codes(s1), packed_codes(s2)), 255),
            lcs_of(packed_codes(s1), packed_codes(s2)),
            weight_per_mille,
        ),
        encode_utf8(s1).len(),
        encode_utf8(s2).len(),
    )
}

/// Levenshtein metric that forgives part of the edit count when the words
/// share a long substring: the longest common substring length, scaled by the
/// configured weight (per mille), is subtracted from the edit count.
#[derive(Clone, Copy, Debug)]
pub struct LvSubstringDistanceMetric {
    pub weight: u32,
}

impl LvSubstringDistanceMetric {
    pub fn new(weight: u32) -> (m: Self)
        ensures
            m.weight == weight,
    {
        Self { weight }
    }

    /// The capped edit count between the packed codes, together with the
    /// capped longest common substring length.
    pub fn compute_edits(&self, w1: &Word, w2: &Word) -> (r: (u8, u8))
        ensures
            r.0 == capped(lev(w1.graphemes@, w2.graphemes@), 255),
            r.1 == lcs_of(w1.graphemes@, w2.graphemes@),
    {
        let edits = lv_edits_of_codes(&w1.graphemes, &w2.graphemes);
        let longest = lcs_of_codes(&w1.graphemes, &w2.graphemes);
        (edits, longest)
    }

    pub fn dist(&self, v1: &Word, v2: &Word) -> (r: u64)
        requires
            v1.wf(),
            v2.wf(),
        ensures
            r == lvsub_word_sim(v1.raw@, v2.raw@, self.weight as int),
            0 <= r <= SCORE_ONE,
    {
        let (edits, longest) = self.compute_edits(v1, v2);
        proof {
            lemma_word_codes(*v1);
            lemma_word_codes(*v2);
            lemma_edits_le_bytes(*v1, *v2, lev(grapheme_split(v1.raw@), grapheme_split(v2.raw@)));
        }
        proof {
            assert((longest as int) * (self.weight as int) < 0x10000000000000000)
                by (nonlinear_arith)
                requires
                    0 <= (longest as int) < 256,
                    0 <= (self.weight as int) < 0x100000000,
            ;
        }
        let bonus: u64 = (longest as u64) * (self.weight as u64) / 1000;
        let adjusted: u64 = if bonus >= edits as u64 {
            0
        } else {
            (edits as u64) - bonus
        };
        proof {
            assert(adjusted == sub_adjusted(
                capped(lev(v1.graphemes@, v2.graphemes@), 255),
                lcs_of(v1.graphemes@, v2.graphemes@),
                self.weight as int,
            ));
        }
        sim_from_edits(
            adjusted as u32,
            v1.raw.as_str().as_bytes().len(),
            v2.raw.as_str().as_bytes().len(),
        )
    }
}

/// The capped longest common substring length of two code sequences, by the
/// suffix-length dynamic program kept two rows at a time.
fn lcs_of_codes(codes1: &Vec<u64>, codes2: &Vec<u64>) -> (r: u8)
    ensures
        r == lcs_of(codes1@, codes2@),
{
    let ghost a = codes1@;
    let ghost b = codes2@;
    let l1 = codes1.len();
    let l2 = codes2.len();

    let mut longest: u8 = 0;
    let ghost mut wi: int = 0;
    let ghost mut wj: int = 0;
    proof {
        assert(a.take(0) =~= Seq::<u64>::empty());
        assert(b.take(0) =~= Seq::<u64>::empty());
    }

    // prev holds the suffix lengths of row `i - 1`; row 0 is all zero.
    let mut prev: Vec<u8> = Vec::new();
    let mut j: usize = 0;
    loop
        invariant_except_break
            prev@.len() == j,
        invariant
            j <= l2,
            l2 == b.len(),
            forall|k: int| 0 <= k < j ==> prev@[k] == 0,
        ensures
            prev@.len() == l2 + 1,
            forall|k: int| 0 <= k <= l2 ==> prev@[k] == 0,
        decreases l2 - j,
    {
        prev.push(0);
        if j == l2 {
            break ;
        }
        j += 1;
    }
    proof {
        assert forall|k: int| 0 <= k <= l2 implies prev@[k] == capped(
            common_suffix(a.take(0), b.take(k)),
            255,
        ) by {
            assert(a.take(0) =~= Seq::<u64>::empty());
        }
    }

    if l1 == 0 {
        proof {
            lemma_lcs_unique(a, b, 0);
        }
        return 0;
    }
    let mut i: usize = 1;
    loop
        invariant_except_break
            prev@.len() == l2 + 1,
            forall|k: int|
                0 <= k <= l2 ==> prev@[k] == capped(common_suffix(a.take(i - 1), b.take(k)), 255),
            forall|i2: int, j2: int|
                0 <= i2 <= l1 && 0 <= j2 <= l2 && (i2 < i || i2 == 0 || j2 == 0) ==> capped(
                    common_suffix(#[trigger] a.take(i2), #[trigger] b.take(j2)),
                    255,
                ) <= longest,
        invariant
            1 <= i <= l1,
            l1 == a.len(),
            l2 == b.len(),
            codes1@ == a,
            codes2@ == b,
            0 <= wi <= l1,
            0 <= wj <= l2,
            longest == capped(common_suffix(a.take(wi), b.take(wj)), 255),
        ensures
            forall|i2: int, j2: int|
                0 <= i2 <= l1 && 0 <= j2 <= l2 ==> capped(
                    common_suffix(#[trigger] a.take(i2), #[trigger] b.take(j2)),
                    255,
                ) <= longest,
        decreases l1 - i,
    {
        let mut cur: Vec<u8> = Vec::new();
        cur.push(0);
        proof {
            assert(b.take(0) =~= Seq::<u64>::empty());
        }
        if l2 > 0 {
            let mut j: usize = 1;
            loop
                invariant_except_break
                    cur@.len() == j,
                    forall|k: int|
                        0 <= k < j ==> cur@[k] == capped(
                            common_suffix(a.take(i as int), b.take(k)),
                            255,
                        ),
                    forall|i2: int, j2: int|
                        0 <= i2 <= l1 && 0 <= j2 <= l2 && (i2 < i || i2 == 0 || j2 == 0 || (i2 == i
                            && j2 < j)) ==> capped(
                            common_suffix(#[trigger] a.take(i2), #[trigger] b.take(j2)),
                            255,
                        ) <= longest,
                invariant
                    1 <= i <= l1,
                    1 <= j <= l2,
                    l1 == a.len(),
                    l2 == b.len(),
                    codes1@ == a,
                    codes2@ == b,
                    prev@.len() == l2 + 1,
                    forall|k: int|
                        0 <= k <= l2 ==> prev@[k] == capped(
                            common_suffix(a.take(i - 1), b.take(k)),
                            255,
                        ),
                    0 <= wi <= l1,
                    0 <= wj <= l2,
                    longest == capped(common_suffix(a.take(wi), b.take(wj)), 255),
                ensures
                    prev@.len() == l2 + 1,
                    forall|k: int|
                        0 <= k <= l2 ==> prev@[k] == capped(
                            common_suffix(a.take(i - 1), b.take(k)),
                            255,
                        ),
                    cur@.len() == l2 + 1,
                    forall|k: int|
                        0 <= k <= l2 ==> cur@[k] == capped(
                            common_suffix(a.take(i as int), b.take(k)),
                            255,
                        ),
                    forall|i2: int, j2: int|
                        0 <= i2 <= l1 && 0 <= j2 <= l2 && (i2 < i || i2 == 0 || j2 == 0 || i2 == i)
                            ==> capped(
                            common_suffix(#[trigger] a.take(i2), #[trigger] b.take(j2)),
                            255,
                        ) <= longest,
                    0 <= wi <= l1,
                    0 <= wj <= l2,
                    longest == capped(common_suffix(a.take(wi), b.take(wj)), 255),
                decreases l2 - j,
            {
                proof {
                    lemma_take_drop_last(a, i as int);
                    lemma_take_drop_last(b, j as int);
                }
                let val: u8 = if codes1[i - 1] == codes2[j - 1] {
                    let p = prev[j - 1];
                    if p == 255 {
                        255
                    } else {
                        p + 1
                    }
                } else {
                    0
                };
                if val > longest {
                    longest = val;
                    proof {
                        wi = i as int;
                        wj = j as int;
                    }
                }
                cur.push(val);
                if j == l2 {
                    break ;
                }
                j += 1;
            }
        }
        prev = cur;
        if i == l1 {
            break ;
        }
        i += 1;
    }
    proof {
        lemma_lcs_unique(a, b, longest as nat);
    }
    longest
}

/// A metric that ignores its arguments; it exists for wiring tests.
pub struct DummyDistanceMetric;

impl DummyDistanceMetric {
    /// A fixed similarity of 0.9 on the scale.
    pub fn dist(&self, _v1: &str, _v2: &str) -> (r: u64)
        ensures
            r == 900000,
    {
        900000
    }
}

/// Levenshtein distance metric over grapheme clusters, re-segmenting the raw
/// strings on every call.
#[derive(Clone, Copy, Debug)]
pub struct LvDistanceMetric {}

impl LvDistanceMetric {
    pub fn new() -> (m: Self)
        ensures
            true,
    {
        Self {  }
    }

    /// The exact Levenshtein edit count between the words' grapheme clusters,
    /// capped at the largest 32-bit value.
    pub fn compute_edits(&self, w1: &Word, w2: &Word) -> (r: u32)
        ensures
            r == capped(lev(grapheme_split(w1.raw@), grapheme_split(w2.raw@)), u32::MAX as nat),
    {
        let parts1 = split_graphemes(w1.raw.as_str());
        let parts2 = split_graphemes(w2.raw.as_str());
        lv_edits_of_clusters(&parts1, &parts2)
    }

    pub fn dist(&self, v1: &Word, v2: &Word) -> (r: u64)
        requires
            v1.wf(),
            v2.wf(),
        ensures
            r == lv_word_sim(v1.raw@, v2.raw@),
            0 <= r <= SCORE_ONE,
    {
        let edits = self.compute_edits(v1, v2);
        proof {
            lemma_edits_le_bytes(*v1, *v2, lev(grapheme_split(v1.raw@), grapheme_split(v2.raw@)));
        }
        sim_from_edits(edits, v1.raw.as_str().as_bytes().len(), v2.raw.as_str().as_bytes().len())
    }
}

/// The capped edit count never exceeds the longer byte length.
proof fn lemma_edits_le_bytes(w1: Word, w2: Word, edits: nat)
    requires
        w1.wf(),
        w2.wf(),
        edits == lev(grapheme_split(w1.raw@), grapheme_split(w2.raw@)),
    ensures
        capped(edits, u32::MAX as nat) <= max2(
            encode_utf8(w1.raw@).len(),
            encode_utf8(w2.raw@).len(),
        ),
        capped(edits, 255) <= max2(encode_utf8(w1.raw@).len(), encode_utf8(w2.raw@).len()),
        lev(packed_codes(w1.raw@), packed_codes(w2.raw@)) <= max2(
            encode_utf8(w1.raw@).len(),
            encode_utf8(w2.raw@).len(),
        ),
{
    lemma_lev_le_max(grapheme_split(w1.raw@), grapheme_split(w2.raw@));
    lemma_lev_le_max(packed_codes(w1.raw@), packed_codes(w2.raw@));
    lemma_word_graphemes_le_bytes(w1);
    lemma_word_graphemes_le_bytes(w2);
}

/// Turns an edit count into the scaled similarity over the raw byte lengths.
pub fn sim_from_edits(edits: u32, blen1: usize, blen2: usize) -> (r: u64)
    requires
        edits <= max2(blen1 as nat, blen2 as nat),
    ensures
        r == sim_value(edits as nat, blen1 as nat, blen2 as nat),
        0 <= r <= SCORE_ONE,
{
    let m: usize = if blen1 >= blen2 {
        blen1
    } else {
        blen2
    };
    if m == 0 {
        SCORE_ONE
    } else {
        let keep: u128 = (m as u128) - (edits as u128);
        proof {
            assert((SCORE_ONE as int) * (keep as int) <= (SCORE_ONE as int) * 0xffffffffffffffff)
                by (nonlinear_arith)
                requires
                    0 <= keep as int <= 0xffffffffffffffff,
            ;
        }
        let num: u128 = (SCORE_ONE as u128) * keep;
        let q: u128 = num / (m as u128);
        proof {
            lemma_sim_div_bounds(edits as nat, m as nat);
        }
        q as u64
    }
}

/// The quotient in the similarity formula lies between 0 and the scale.
proof fn lemma_sim_div_bounds(edits: nat, m: nat)
    requires
        0 < m,
        edits <= m,
    ensures
        0 <= SCORE_ONE * (m - edits) / m as int <= SCORE_ONE,
{
    lemma_div_pos_is_pos(SCORE_ONE * (m - edits), m as int);
    lemma_mul_inequality((m - edits) as int, m as int, SCORE_ONE as int);
    assert(SCORE_ONE * (m - edits) <= SCORE_ONE * m) by (nonlinear_arith)
        requires
            edits <= m,
    ;
    lemma_div_is_ordered(SCORE_ONE * (m - edits), SCORE_ONE * m, m as int);
    lemma_div_multiples_vanish(SCORE_ONE as int, m as int);
}

/// One of the word metrics, chosen by configuration.
#[derive(Clone, Copy, Debug)]
pub enum WordMetric {
    Lv(LvDistanceMetric),
    LvOpti(LvOptiDistanceMetric),
    LvSubstring(LvSubstringDistanceMetric),
}

impl WordMetric {
    /// The similarity this metric assigns to two raw strings.
    pub open spec fn sim_spec(self, s1: Seq<char>, s2: Seq<char>) -> int {
        match self {
            WordMetric::Lv(_) => lv_word_sim(s1, s2),
            WordMetric::LvOpti(_) => lvopti_word_sim(s1, s2),
            WordMetric::LvSubstring(m) => lvsub_word_sim(s1, s2, m.weight as int),
        }
    }

    pub fn dist(&self, v1: &Word, v2: &Word) -> (r: u64)
        requires
            v1.wf(),
            v2.wf(),
        ensures
            r == self.sim_spec(v1.raw@, v2.raw@),
            0 <= r <= SCORE_ONE,
    {
        match self {
            WordMetric::Lv(m) => m.dist(v1, v2),
            WordMetric::LvOpti(m) => m.dist(v1, v2),
            WordMetric::LvSubstring(m) => m.dist(v1, v2),
        }
    }
}

/// The similarity any metric assigns is symmetric.
pub proof fn lemma_metric_sim_symmetric(m: WordMetric, s1: Seq<char>, s2: Seq<char>)
    ensures
        m.sim_spec(s1, s2) == m.sim_spec(s2, s1),
{
    lemma_lv_sim_symmetric(s1, s2);
    lemma_lev_sym(packed_codes(s1), packed_codes(s2));
    lemma_lcs_sym(packed_codes(s1), packed_codes(s2));
}

/// The similarity any metric assigns to well-formed words stays on the scale.
pub proof fn lemma_metric_sim_range(m: WordMetric, w1: Word, w2: Word)
    requires
        w1.wf(),
        w2.wf(),
    ensures
        0 <= m.sim_spec(w1.raw@, w2.raw@) <= SCORE_ONE,
{
    lemma_lv_sim_range(w1, w2);
    match m {
        WordMetric::LvSubstring(ms) => {
            lemma_edits_le_bytes(
                w1,
                w2,
                lev(grapheme_split(w1.raw@), grapheme_split(w2.raw@)),
            );
            lemma_word_codes(w1);
            lemma_word_codes(w2);
            let b1 = encode_utf8(w1.raw@).len();
            let b2 = encode_utf8(w2.raw@).len();
            let mx = max2(b1, b2);
            let e = capped(lev(packed_codes(w1.raw@), packed_codes(w2.raw@)), 255);
            let adj = sub_adjusted(
                e,
                lcs_of(packed_codes(w1.raw@), packed_codes(w2.raw@)),
                ms.weight as int,
            );
            assert(adj <= e);
            if mx > 0 {
                lemma_sim_div_bounds(adj, mx);
            }
        },
        _ => {},
    }
}

/// The metric similarity is symmetric.
pub proof fn lemma_lv_sim_symmetric(s1: Seq<char>, s2: Seq<char>)
    ensures
        lv_word_sim(s1, s2) == lv_word_sim(s2, s1),
        lvopti_word_sim(s1, s2) == lvopti_word_sim(s2, s1),
{
    lemma_lev_sym(grapheme_split(s1), grapheme_split(s2));
    lemma_lev_sym(packed_codes(s1), packed_codes(s2));
}

/// A word is fully similar to itself.
pub proof fn lemma_lv_sim_self(s: Seq<char>)
    ensures
        lv_word_sim(s, s) == SCORE_ONE,
        lvopti_word_sim(s, s) == SCORE_ONE,
{
    lemma_lev_self(grapheme_split(s));
    lemma_lev_self(packed_codes(s));
    let m = encode_utf8(s).len();
    if m > 0 {
        lemma_div_multiples_vanish(SCORE_ONE as int, m as int);
        assert(SCORE_ONE * (m - 0) == SCORE_ONE * m);
    }
}

/// The metric similarity stays on the scale for well-formed words.
pub proof fn lemma_lv_sim_range(w1: Word, w2: Word)
    requires
        w1.wf(),
        w2.wf(),
    ensures
        0 <= lv_word_sim(w1.raw@, w2.raw@) <= SCORE_ONE,
        0 <= lvopti_word_sim(w1.raw@, w2.raw@) <= SCORE_ONE,
{
    lemma_edits_le_bytes(w1, w2, lev(grapheme_split(w1.raw@), grapheme_split(w2.raw@)));
    let b1 = encode_utf8(w1.raw@).len();
    let b2 = encode_utf8(w2.raw@).len();
    let m = max2(b1, b2);
    if m > 0 {
        lemma_sim_div_bounds(capped(lev(grapheme_split(w1.raw@), grapheme_split(w2.raw@)), u32::MAX as nat), m);
        lemma_sim_div_bounds(capped(lev(packed_codes(w1.raw@), packed_codes(w2.raw@)), 255), m);
    }
}

} // verus!
