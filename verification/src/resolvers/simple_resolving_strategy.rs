//! The simple strategy: every tracker independently takes its top candidate.
//! Conflicting assignments are possible and no fresh trackers are spawned; it
//! exists for debugging runs.

use vstd::prelude::*;
use crate::frame::{ElemV, Frame};
use crate::resolvers::resolver::{resolve_outcome, trackers_ready};
use crate::tracking_graph::ChainNode;
use crate::trackers::tracker::{RecordScore, Tracker};
use crate::trackers::tracker_memory::mem_step;

verus! {

/// What the simple strategy does to one tracker: with no candidates, the
/// chain stands and the no-match streak grows; otherwise the first candidate
/// is taken, the streak resets, and each field memory steps on the matched
/// record's cell.
pub open spec fn simple_step(
    pre: Tracker,
    post: Tracker,
    cand: Seq<RecordScore>,
    cols: Seq<Seq<ElemV>>,
    fidx: int,
) -> bool {
    if cand.len() == 0 {
        &&& post.chain@ == pre.chain@
        &&& post.no_match_streak == if pre.no_match_streak == usize::MAX {
            usize::MAX as int
        } else {
            pre.no_match_streak + 1
        }
        &&& post.memories@ == pre.memories@
    } else {
        &&& post.chain@ == pre.chain@.push(
            ChainNode { frame_idx: fidx as usize, record_idx: cand[0].idx },
        )
        &&& post.no_match_streak == 0
        &&& post.memories@.len() == pre.memories@.len()
        &&& forall|f: int|
            0 <= f < pre.memories@.len() ==> mem_step(
                pre.memories@[f],
                #[trigger] post.memories@[f],
                cols[f][cand[0].idx as int],
            )
    }
}

pub struct SimpleResolvingStrategy {}

impl SimpleResolvingStrategy {
    /// Gives each tracker its highest-scored candidate, if it has any; a
    /// tracker without candidates is told it matched nothing.
    pub fn resolve(
        &self,
        frame: &Frame,
        trackers: &mut Vec<Tracker>,
        trackers_scores: &Vec<Vec<RecordScore>>,
    )
        requires
            frame.wf(),
            trackers_ready(old(trackers)@, frame.spec_idx(), frame.cols().len() as int),
            trackers_scores@.len() == old(trackers)@.len(),
            forall|k: int, q: int|
                0 <= k < trackers_scores@.len() && 0 <= q < (#[trigger] trackers_scores@[k])@.len()
                    ==> ((#[trigger] trackers_scores@[k]@[q]).idx as int)
                    < frame.spec_num_records(),
        ensures
            resolve_outcome(
                old(trackers)@,
                final(trackers)@,
                frame.spec_idx(),
                frame.spec_num_records(),
            ),
            forall|k: int|
                0 <= k < old(trackers)@.len() ==> simple_step(
                    old(trackers)@[k],
                    #[trigger] final(trackers)@[k],
                    trackers_scores@[k]@,
                    frame.cols(),
                    frame.spec_idx(),
                ),
    {
        let n = trackers.len();
        let fidx = frame.idx();
        let mut updated: Vec<Tracker> = Vec::new();
        let mut k: usize = 0;
        while k < n
            invariant
                frame.wf(),
                n == old(trackers)@.len(),
                trackers_ready(old(trackers)@, frame.spec_idx(), frame.cols().len() as int),
                trackers_scores@.len() == n,
                forall|kk: int, q: int|
                    0 <= kk < n && 0 <= q < (#[trigger] trackers_scores@[kk])@.len() ==> ((
                    #[trigger] trackers_scores@[kk]@[q]).idx as int) < frame.spec_num_records(),
                fidx == frame.spec_idx(),
                k <= n,
                trackers@ =~= old(trackers)@.skip(k as int),
                updated@.len() == k,
                forall|i: int|
                    0 <= i < k ==> crate::resolvers::resolver::same_identity(
                        old(trackers)@[i],
                        #[trigger] updated@[i],
                    ) && updated@[i].wf(),
                forall|i: int|
                    0 <= i < k ==> ((#[trigger] updated@[i]).chain@ == old(trackers)@[i].chain@ || (
                    updated@[i].chain@ == old(trackers)@[i].chain@.push(updated@[i].chain@.last())
                        && updated@[i].chain@.last().frame_idx == frame.spec_idx()
                        && updated@[i].chain@.last().record_idx < frame.spec_num_records())),
                forall|i: int|
                    0 <= i < k ==> simple_step(
                        old(trackers)@[i],
                        #[trigger] updated@[i],
                        trackers_scores@[i]@,
                        frame.cols(),
                        frame.spec_idx(),
                    ),
            decreases n - k,
        {
            let mut t = trackers.remove(0);
            proof {
                assert(old(trackers)@.skip(k as int)[0] == old(trackers)@[k as int]);
                assert(trackers@ =~= old(trackers)@.skip(k + 1));
            }
            let scores = &trackers_scores[k];
            if scores.len() == 0 {
                t.signal_no_matching_node();
            } else {
                let sc = scores[0];
                let record = frame.record(sc.idx);
                proof {
                    assert(record@ == Seq::new(
                        frame.cols().len(),
                        |f: int| frame.cols()[f][sc.idx as int],
                    ));
                }
                t.signal_matching_node(ChainNode::new(fidx, sc.idx), record);
                proof {
                    assert forall|f: int|
                        0 <= f < old(trackers)@[k as int].memories@.len() implies mem_step(
                        old(trackers)@[k as int].memories@[f],
                        #[trigger] t.memories@[f],
                        frame.cols()[f][sc.idx as int],
                    ) by {
                        assert(record@[f] == frame.cols()[f][sc.idx as int]);
                    }
                }
            }
            updated.push(t);
            k += 1;
        }
        proof {
            assert(old(trackers)@.skip(n as int) =~= Seq::<Tracker>::empty());
        }
        *trackers = updated;
    }
}

} // verus!
