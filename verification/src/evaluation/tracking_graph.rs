//! Chain-length statistics and per-frame match counts of a tracking graph.

use vstd::prelude::*;
use crate::id::ID;
use crate::tracking_graph::{edge_lookup, TrackingGraph};

verus! {

/// The saturated node count of the chain stored for `id`.
pub open spec fn chain_len_of(graph: TrackingGraph, id: ID) -> u64 {
    let l = graph.follow_from(
        id,
        edge_lookup(graph.root.outs@, id),
        graph.matrix@.len() as nat,
    ).len();
    if l < u64::MAX as usize as int {
        l as u64
    } else {
        u64::MAX
    }
}

/// The sum of a length list.
pub open spec fn sum_of(s: Seq<u64>) -> int
    decreases s.len(),
{
    if s.len() == 0 {
        0
    } else {
        sum_of(s.drop_last()) + s.last()
    }
}

/// The saturated lengths of the chains the root points at, in root order.
pub open spec fn chain_lengths(graph: TrackingGraph) -> Seq<u64> {
    Seq::new(graph.root.outs@.len(), |q: int| chain_len_of(graph, graph.root.outs@[q].0))
}

/// Chain-length statistics: the total and count give the exact average.
#[derive(Clone, Copy, Debug)]
pub struct EvalMetricChainLength {
    pub total: u64,
    pub count: u64,
    pub median: u64,
    pub max: u64,
    pub min: u64,
}

/// Per-frame counts of matched records (non-empty `ins`) and conflicted
/// records (more than one incoming edge), each with the frame's record count
/// as denominator.
#[derive(Debug)]
pub struct EvalMetricGraphProperties {
    pub match_counts: Vec<(usize, usize)>,
    pub conflict_counts: Vec<(usize, usize)>,
}

/// Follows the chain with the given identifier from the root and counts its
/// nodes; traversal visits at most one node per frame.
fn follow_chain_length(graph: &TrackingGraph, id: ID) -> (n: u64)
    ensures
        n == chain_len_of(*graph, id),
{
    let chain = graph.build_tracking_chain(id);
    let len = chain.nodes.len();
    if len < u64::MAX as usize {
        len as u64
    } else {
        u64::MAX
    }
}

/// The median of a sorted list: the midpoint, or the mean of the two middle
/// entries when the length is even.
pub fn median(values: &Vec<u64>) -> (m: u64)
    requires
        values@.len() > 0,
    ensures
        values@.len() % 2 == 1 ==> m == values@[values@.len() as int / 2],
        values@.len() % 2 == 0 ==> m as int == (values@[values@.len() as int / 2 - 1] as int
            + values@[values@.len() as int / 2] as int) / 2,
{
    let len = values.len();
    if len % 2 == 0 {
        let a = values[len / 2 - 1];
        let b = values[len / 2];
        let s: u128 = (a as u128) + (b as u128);
        let h: u128 = s / 2;
        proof {
            assert((a as int + b as int) / 2 <= u64::MAX) by {
                vstd::arithmetic::div_mod::lemma_div_is_ordered(
                    a as int + b as int,
                    2 * (u64::MAX as int),
                    2,
                );
                vstd::arithmetic::div_mod::lemma_div_multiples_vanish(u64::MAX as int, 2);
            }
        }
        h as u64
    } else {
        values[len / 2]
    }
}

/// Ascending insertion sort.
fn sort_ascending(values: Vec<u64>) -> (r: Vec<u64>)
    ensures
        r@.len() == values@.len(),
        forall|i: int, j: int| 0 <= i < j < r@.len() ==> (#[trigger] r@[i]) <= (#[trigger] r@[j]),
        r@.to_multiset() == values@.to_multiset(),
{
    let mut sorted: Vec<u64> = Vec::new();
    let mut k: usize = 0;
    proof {
        assert(values@.take(0) =~= Seq::<u64>::empty());
        assert(sorted@.to_multiset() =~= values@.take(0).to_multiset());
    }
    while k < values.len()
        invariant
            k <= values@.len(),
            sorted@.len() == k,
            forall|i: int, j: int|
                0 <= i < j < sorted@.len() ==> (#[trigger] sorted@[i]) <= (#[trigger] sorted@[j]),
            sorted@.to_multiset() == values@.take(k as int).to_multiset(),
        decreases values@.len() - k,
    {
        let x = values[k];
        let mut pos: usize = 0;
        while pos < sorted.len() && sorted[pos] <= x
            invariant
                pos <= sorted@.len(),
                forall|j: int| 0 <= j < pos ==> (#[trigger] sorted@[j]) <= x,
            decreases sorted@.len() - pos,
        {
            pos += 1;
        }
        let ghost pre = sorted@;
        sorted.insert(pos, x);
        proof {
            assert(sorted@ =~= pre.take(pos as int) + seq![x] + pre.skip(pos as int));
            assert(sorted@ =~= pre.insert(pos as int, x));
            vstd::seq_lib::to_multiset_insert(pre, pos as int, x);
            assert(values@.take(k + 1) =~= values@.take(k as int).push(x));
            vstd::seq_lib::to_multiset_build(values@.take(k as int), x);
            assert forall|i: int, j: int|
                0 <= i < j < sorted@.len() implies (#[trigger] sorted@[i]) <= (
            #[trigger] sorted@[j]) by {
                if i < pos && j > pos {
                    assert(sorted@[i] == pre[i] && sorted@[j] == pre[j - 1]);
                } else if i == pos as int && j > pos {
                    assert(sorted@[j] == pre[j - 1]);
                    assert(pre[j - 1] > x || j - 1 >= pos);
                } else if j == pos as int && i < pos {
                    assert(sorted@[i] == pre[i]);
                } else if i < pos && j < pos {
                    assert(sorted@[i] == pre[i] && sorted@[j] == pre[j]);
                } else if i > pos && j > pos {
                    assert(sorted@[i] == pre[i - 1] && sorted@[j] == pre[j - 1]);
                }
            }
        }
        k += 1;
    }
    proof {
        assert(values@.take(values@.len() as int) =~= values@);
    }
    sorted
}

/// Chain length statistics over every chain the root points at. The count is
/// the number of chains; total, minimum, maximum and median summarise their
/// lengths.
pub fn eval_tracking_chain_length(graph: &TrackingGraph) -> (m: EvalMetricChainLength)
    ensures
        m.count == graph.root.outs@.len(),
        m.count > 0 ==> m.min <= m.max,
        m.count > 0 ==> (exists|s: Seq<u64>|
            (#[trigger] s.to_multiset()) == chain_lengths(*graph).to_multiset() && s.len()
                == m.count && (forall|i: int, j: int|
                0 <= i < j < s.len() ==> (#[trigger] s[i]) <= (#[trigger] s[j])) && m.min == s[0]
                && m.max == s[s.len() - 1] && (s.len() % 2 == 1 ==> m.median == s[
                s.len() as int / 2
            ]) && (s.len() % 2 == 0 ==> m.median as int == (s[s.len() as int / 2 - 1] as int + s[
                s.len() as int / 2
            ] as int) / 2) && m.total as int == (if sum_of(s) > u64::MAX as int {
                u64::MAX as int
            } else {
                sum_of(s)
            })),
{
    let mut lengths: Vec<u64> = Vec::new();
    let nouts = graph.root.outs.len();
    let mut q: usize = 0;
    while q < nouts
        invariant
            q <= nouts,
            nouts == graph.root.outs@.len(),
            lengths@.len() == q,
            forall|i: int|
                0 <= i < q ==> (#[trigger] lengths@[i]) == chain_len_of(
                    *graph,
                    graph.root.outs@[i].0,
                ),
        decreases nouts - q,
    {
        let id = graph.root.outs[q].0;
        let len = follow_chain_length(graph, id);
        lengths.push(len);
        q += 1;
    }
    proof {
        assert(lengths@ =~= chain_lengths(*graph));
    }

    if lengths.len() == 0 {
        return EvalMetricChainLength { total: 0, count: 0, median: 0, max: 0, min: 0 };
    }

    let sorted = sort_ascending(lengths);
    let n = sorted.len();
    let mut total: u128 = 0;
    let mut k: usize = 0;
    proof {
        assert(sorted@.take(0) =~= Seq::<u64>::empty());
    }
    while k < n
        invariant
            k <= n,
            n == sorted@.len(),
            total <= (k as int) * (u64::MAX as int),
            total == sum_of(sorted@.take(k as int)),
        decreases n - k,
    {
        proof {
            assert((k as int + 1) * (u64::MAX as int) == (k as int) * (u64::MAX as int) + (
            u64::MAX as int)) by (nonlinear_arith);
            assert((k as int) * (u64::MAX as int) <= 0xffffffffffffffff * (u64::MAX as int))
                by (nonlinear_arith)
                requires
                    0 <= (k as int) <= 0xffffffffffffffff,
            ;
        }
        proof {
            assert(sorted@.take(k + 1).drop_last() =~= sorted@.take(k as int));
            assert(sorted@.take(k + 1).last() == sorted@[k as int]);
        }
        total = total + (sorted[k] as u128);
        k += 1;
    }
    proof {
        assert(sorted@.take(n as int) =~= sorted@);
    }
    let total64: u64 = if total > u64::MAX as u128 {
        u64::MAX
    } else {
        total as u64
    };
    let med = median(&sorted);
    proof {
        if n >= 2 {
            assert(sorted@[0] <= sorted@[n - 1]);
        }
    }
    let result = EvalMetricChainLength {
        total: total64,
        count: n as u64,
        median: med,
        max: sorted[n - 1],
        min: sorted[0],
    };
    proof {
        assert(sorted@.to_multiset() == chain_lengths(*graph).to_multiset());
        assert(sorted@.len() == result.count);
    }
    result
}

/// The number of row cells with at least one incoming edge.
pub open spec fn matched_count(row: Seq<crate::tracking_graph::GraphNode>) -> int
    decreases row.len(),
{
    if row.len() == 0 {
        0
    } else {
        matched_count(row.drop_last()) + if row.last().ins@.len() > 0 {
            1int
        } else {
            0int
        }
    }
}

/// The number of row cells with more than one incoming edge.
pub open spec fn conflict_count(row: Seq<crate::tracking_graph::GraphNode>) -> int
    decreases row.len(),
{
    if row.len() == 0 {
        0
    } else {
        conflict_count(row.drop_last()) + if row.last().ins@.len() > 1 {
            1int
        } else {
            0int
        }
    }
}

/// Per-frame match and conflict counts: how many records of each frame have
/// at least one incoming edge, and how many have more than one.
pub fn eval_tracking_graph_properties(graph: &TrackingGraph) -> (m: EvalMetricGraphProperties)
    ensures
        m.match_counts@.len() == graph.matrix@.len(),
        m.conflict_counts@.len() == graph.matrix@.len(),
        forall|i: int|
            0 <= i < graph.matrix@.len() ==> (#[trigger] m.match_counts@[i]).1
                == graph.matrix@[i]@.len(),
        forall|i: int|
            0 <= i < graph.matrix@.len() ==> (#[trigger] m.conflict_counts@[i]).1
                == graph.matrix@[i]@.len(),
        forall|i: int|
            0 <= i < graph.matrix@.len() ==> (#[trigger] m.match_counts@[i]).0
                <= graph.matrix@[i]@.len(),
        forall|i: int|
            0 <= i < graph.matrix@.len() ==> (#[trigger] m.conflict_counts@[i]).0
                <= graph.matrix@[i]@.len(),
        forall|i: int|
            0 <= i < graph.matrix@.len() ==> ((#[trigger] m.match_counts@[i]).0 as int)
                == matched_count(graph.matrix@[i]@),
        forall|i: int|
            0 <= i < graph.matrix@.len() ==> ((#[trigger] m.conflict_counts@[i]).0 as int)
                == conflict_count(graph.matrix@[i]@),
{
    let mut match_counts: Vec<(usize, usize)> = Vec::new();
    let mut conflict_counts: Vec<(usize, usize)> = Vec::new();
    let nrows = graph.matrix.len();
    let mut i: usize = 0;
    while i < nrows
        invariant
            i <= nrows,
            nrows == graph.matrix@.len(),
            match_counts@.len() == i,
            conflict_counts@.len() == i,
            forall|k: int|
                0 <= k < i ==> (#[trigger] match_counts@[k]).1 == graph.matrix@[k]@.len(),
            forall|k: int|
                0 <= k < i ==> (#[trigger] conflict_counts@[k]).1 == graph.matrix@[k]@.len(),
            forall|k: int|
                0 <= k < i ==> (#[trigger] match_counts@[k]).0 <= graph.matrix@[k]@.len(),
            forall|k: int|
                0 <= k < i ==> (#[trigger] conflict_counts@[k]).0 <= graph.matrix@[k]@.len(),
            forall|k: int|
                0 <= k < i ==> ((#[trigger] match_counts@[k]).0 as int) == matched_count(
                    graph.matrix@[k]@,
                ),
            forall|k: int|
                0 <= k < i ==> ((#[trigger] conflict_counts@[k]).0 as int) == conflict_count(
                    graph.matrix@[k]@,
                ),
        decreases nrows - i,
    {
        let row = &graph.matrix[i];
        let nrec = row.len();
        proof {
            assert(nrec == graph.matrix@[i as int]@.len());
        }
        let mut n_matchs: usize = 0;
        let mut n_conflicts: usize = 0;
        let mut rn: usize = 0;
        while rn < nrec
            invariant
                rn <= nrec,
                nrec == row@.len(),
                n_matchs <= rn,
                n_conflicts <= rn,
                nrows == graph.matrix@.len(),
                i < nrows,
                nrec == graph.matrix@[i as int]@.len(),
                match_counts@.len() == i,
                conflict_counts@.len() == i,
                forall|k: int|
                    0 <= k < i ==> (#[trigger] match_counts@[k]).1 == graph.matrix@[k]@.len(),
                forall|k: int|
                    0 <= k < i ==> (#[trigger] conflict_counts@[k]).1 == graph.matrix@[k]@.len(),
                forall|k: int|
                    0 <= k < i ==> (#[trigger] match_counts@[k]).0 <= graph.matrix@[k]@.len(),
                forall|k: int|
                    0 <= k < i ==> (#[trigger] conflict_counts@[k]).0 <= graph.matrix@[k]@.len(),
                forall|k: int|
                    0 <= k < i ==> ((#[trigger] match_counts@[k]).0 as int) == matched_count(
                        graph.matrix@[k]@,
                    ),
                forall|k: int|
                    0 <= k < i ==> ((#[trigger] conflict_counts@[k]).0 as int) == conflict_count(
                        graph.matrix@[k]@,
                    ),
                n_matchs as int == matched_count(row@.take(rn as int)),
                n_conflicts as int == conflict_count(row@.take(rn as int)),
            decreases nrec - rn,
        {
            proof {
                assert(row@.take(rn + 1).drop_last() =~= row@.take(rn as int));
                assert(row@.take(rn + 1).last() == row@[rn as int]);
            }
            if row[rn].ins.len() > 0 {
                n_matchs += 1;
            }
            if row[rn].ins.len() > 1 {
                n_conflicts += 1;
            }
            rn += 1;
        }
        proof {
            assert(row@.take(nrec as int) =~= row@);
        }
        match_counts.push((n_matchs, nrec));
        conflict_counts.push((n_conflicts, nrec));
        proof {
            assert(match_counts@[i as int] == (n_matchs, nrec));
            assert(conflict_counts@[i as int] == (n_conflicts, nrec));
        }
        i += 1;
    }
    EvalMetricGraphProperties { match_counts, conflict_counts }
}

} // verus!
