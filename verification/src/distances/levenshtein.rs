//! The mathematical model of edit distance over sequences of grapheme codes,
//! together with the lemmas the metrics rely on: symmetry, reflexivity and the
//! upper bound by the longer sequence.

use vstd::prelude::*;

verus! {

/// The smaller of two naturals.
pub open spec fn min2(a: nat, b: nat) -> nat {
    if a <= b {
        a
    } else {
        b
    }
}

/// The smallest of three naturals.
pub open spec fn min3(a: nat, b: nat, c: nat) -> nat {
    min2(a, min2(b, c))
}

/// The larger of two naturals.
pub open spec fn max2(a: nat, b: nat) -> nat {
    if a >= b {
        a
    } else {
        b
    }
}

/// A natural capped at an upper bound.
pub open spec fn capped(n: nat, cap: nat) -> nat {
    if n > cap {
        cap
    } else {
        n
    }
}

/// Levenshtein edit distance between two sequences: the least number of
/// insertions, deletions and substitutions that turns one into the other.
pub open spec fn lev<A>(s: Seq<A>, t: Seq<A>) -> nat
    decreases s.len() + t.len(),
{
    if s.len() == 0 {
        t.len()
    } else if t.len() == 0 {
        s.len()
    } else if s.last() == t.last() {
        lev(s.drop_last(), t.drop_last())
    } else {
        1 + min3(
            lev(s.drop_last(), t.drop_last()),
            lev(s.drop_last(), t),
            lev(s, t.drop_last()),
        )
    }
}

/// A prefix of length `i`, shortened by one, is the prefix of length `i - 1`.
pub proof fn lemma_take_drop_last<A>(s: Seq<A>, i: int)
    requires
        1 <= i <= s.len(),
    ensures
        s.take(i).drop_last() =~= s.take(i - 1),
        s.take(i).last() == s[i - 1],
        s.take(i).len() == i,
{
}

/// A sequence is at edit distance zero from itself.
pub proof fn lemma_lev_self<A>(s: Seq<A>)
    ensures
        lev(s, s) == 0,
    decreases s.len(),
{
    if s.len() > 0 {
        lemma_lev_self(s.drop_last());
    }
}

/// Edit distance is symmetric in its arguments.
pub proof fn lemma_lev_sym<A>(s: Seq<A>, t: Seq<A>)
    ensures
        lev(s, t) == lev(t, s),
    decreases s.len() + t.len(),
{
    if s.len() > 0 && t.len() > 0 {
        lemma_lev_sym(s.drop_last(), t.drop_last());
        lemma_lev_sym(s.drop_last(), t);
        lemma_lev_sym(s, t.drop_last());
    }
}

/// Edit distance never exceeds the length of the longer sequence.
pub proof fn lemma_lev_le_max<A>(s: Seq<A>, t: Seq<A>)
    ensures
        lev(s, t) <= max2(s.len(), t.len()),
    decreases s.len() + t.len(),
{
    if s.len() > 0 && t.len() > 0 {
        lemma_lev_le_max(s.drop_last(), t.drop_last());
        lemma_lev_le_max(s.drop_last(), t);
        lemma_lev_le_max(s, t.drop_last());
    }
}

/// The length of the common suffix of two sequences.
pub open spec fn common_suffix<A>(s: Seq<A>, t: Seq<A>) -> nat
    decreases s.len() + t.len(),
{
    if s.len() == 0 || t.len() == 0 {
        0
    } else if s.last() == t.last() {
        1 + common_suffix(s.drop_last(), t.drop_last())
    } else {
        0
    }
}

/// Common suffixes are symmetric in their arguments.
pub proof fn lemma_common_suffix_sym<A>(s: Seq<A>, t: Seq<A>)
    ensures
        common_suffix(s, t) == common_suffix(t, s),
    decreases s.len() + t.len(),
{
    if s.len() > 0 && t.len() > 0 && s.last() == t.last() {
        lemma_common_suffix_sym(s.drop_last(), t.drop_last());
    }
}

/// Flattening a sequence of non-empty sequences yields at least one element
/// per part.
pub proof fn lemma_flatten_count<A>(ss: Seq<Seq<A>>)
    requires
        forall|i: int| 0 <= i < ss.len() ==> (#[trigger] ss[i]).len() > 0,
    ensures
        ss.flatten().len() >= ss.len(),
    decreases ss.len(),
{
    if ss.len() > 0 {
        lemma_flatten_count(ss.drop_first());
        assert(ss[0].len() > 0);
        assert(ss.flatten() == ss.first().add(ss.drop_first().flatten()));
    }
}

} // verus!
