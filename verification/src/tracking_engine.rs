//! The tracking engine: per frame transition it refreshes the per-field
//! distance caches, lets every tracker score the new frame, resolves the
//! scores globally, retires dead trackers and spawns fresh ones for unmatched
//! records. The engine maintains, across every step: each chain is non-empty
//! with strictly increasing frame positions pointing at real records, and —
//! under the best-match resolver — no two chains ever visit the same record.

use vstd::prelude::*;
use crate::distances::distance_calculator::CachedDistanceCalculator;
use crate::frame::Frame;
use crate::id::IdGen;
use crate::distances::distance_metric::WordMetric;
use crate::resolvers::resolver::{best_match_greedy, best_match_optimal, best_match_progress, cand_views, matched_rec, matches_injective, record_matched, record_spawned, resolve_outcome, spawn_covers, spawned_ok, Resolver, ResolvingStrategy};
use crate::resolvers::simple_resolving_strategy::simple_step;
use crate::tracking_graph::ChainNode;
use crate::frame::ElemV;
use crate::trackers::tracker::{calcs_wf, cfg_eq, cfg_wf, clone_config, clone_nodes, interesting_upto, lemma_cfg_eq_wf, mem_matches_strategy, metrics_of, nodes_below, nodes_sorted, scorer_matches, sort_desc, unchanged_but_diagnostics, InternalTrackerConfig, RecordScore, Tracker, TrackerMemoryStrategy, TrackingChain};
use crate::trackers::tracker_memory::{mem_step, TrackerMemory};

verus! {

/// Every node of the chain points at a record that exists in its frame.
pub open spec fn chain_in_frames(nodes: Seq<ChainNode>, frames: Seq<Frame>) -> bool {
    forall|i: int|
        0 <= i < nodes.len() ==> ((#[trigger] nodes[i]).frame_idx as int) < frames.len() && (
        nodes[i].record_idx as int) < frames[nodes[i].frame_idx as int].spec_num_records()
}

/// No node appears in two different chains of the collection.
pub open spec fn chains_disjoint(css: Seq<Seq<ChainNode>>) -> bool {
    forall|c1: int, c2: int, i: int, j: int|
        0 <= c1 < c2 < css.len() && 0 <= i < css[c1].len() && 0 <= j < css[c2].len() ==> (
        #[trigger] css[c1][i]) != (#[trigger] css[c2][j])
}

/// A well-formed chain: non-empty, strictly ascending frames, nodes inside
/// the frame set.
pub open spec fn chain_valid(nodes: Seq<ChainNode>, frames: Seq<Frame>) -> bool {
    &&& nodes.len() >= 1
    &&& nodes_sorted(nodes)
    &&& chain_in_frames(nodes, frames)
}

/// The memory is an empty memory of the given strategy, stepped once on the
/// given cell.
pub open spec fn mem_seeded(m: TrackerMemory, st: TrackerMemoryStrategy, v: ElemV) -> bool {
    exists|m0: TrackerMemory|
        m0.remembered() == Seq::<ElemV>::empty() && mem_matches_strategy(m0, st)
            && #[trigger] mem_step(m0, m, v)
}

/// A tracker freshly seeded from record `r` of the first frame: a one-node
/// chain at that record, a zero no-match streak, the engine's configuration,
/// and each field memory fed exactly the record's cell.
pub open spec fn seeded_tracker(
    t: Tracker,
    cfg: InternalTrackerConfig,
    frame0: Frame,
    r: int,
) -> bool {
    &&& t.chain@.len() == 1
    &&& t.chain@[0].frame_idx == 0
    &&& t.chain@[0].record_idx == r
    &&& t.no_match_streak == 0
    &&& cfg_eq(t.config, cfg)
    &&& scorer_matches(t.record_scorer, t.config.record_scorer)
    &&& t.memories@.len() == frame0.cols().len()
    &&& forall|f: int|
        0 <= f < t.memories@.len() ==> mem_seeded(
            #[trigger] t.memories@[f],
            cfg.memory_strategy,
            frame0.cols()[f][r],
        )
}

/// One per-field cache refresh: the calculator keeps its metric, and a word
/// calculator keeps its threshold, drops its old cache, and afterwards holds
/// exactly pairs of raw strings that occur often enough in the two adjacent
/// columns - every such pair among them.
pub open spec fn calc_refreshed(
    pre: CachedDistanceCalculator,
    post: CachedDistanceCalculator,
    col1: Seq<ElemV>,
    col2: Seq<ElemV>,
) -> bool {
    &&& post.metric_spec() == pre.metric_spec()
    &&& (pre matches CachedDistanceCalculator::Word(c) ==> (post
        matches CachedDistanceCalculator::Word(c2) && c2.cache_dist_threshold
        == c.cache_dist_threshold && (forall|s1: Seq<char>, s2: Seq<char>|
        #[trigger] crate::distances::distance_calculator::hot_pair(
            col1,
            col2,
            s1,
            s2,
            c.cache_dist_threshold,
        ) ==> crate::distances::distance_matrix::pair_present(c2.matrix.entries_view(), s1, s2))
        && (forall|e: (Seq<char>, Seq<char>, u64)|
        #[trigger] c2.matrix.entries_view().contains(e)
            ==> crate::distances::distance_calculator::hot_pair(
            col1,
            col2,
            e.0,
            e.1,
            c.cache_dist_threshold,
        ) || crate::distances::distance_calculator::hot_pair(
            col1,
            col2,
            e.1,
            e.0,
            c.cache_dist_threshold,
        ))))
}

/// A tracker whose no-match streak reached its configured limit; the engine
/// retires it after the frame it died on.
pub open spec fn spec_is_dead(t: Tracker) -> bool {
    t.no_match_streak >= t.config.limit_no_match_streak
}

/// The dead trackers of the list, in order.
pub open spec fn dead_of(ts: Seq<Tracker>) -> Seq<Tracker>
    decreases ts.len(),
{
    if ts.len() == 0 {
        Seq::empty()
    } else if spec_is_dead(ts.last()) {
        dead_of(ts.drop_last()).push(ts.last())
    } else {
        dead_of(ts.drop_last())
    }
}

/// The surviving trackers of the list, in order.
pub open spec fn kept_of(ts: Seq<Tracker>) -> Seq<Tracker>
    decreases ts.len(),
{
    if ts.len() == 0 {
        Seq::empty()
    } else if !spec_is_dead(ts.last()) {
        kept_of(ts.drop_last()).push(ts.last())
    } else {
        kept_of(ts.drop_last())
    }
}

/// The node of frame `f`, record `r` appears in some chain of the list.
pub open spec fn record_in_chains(css: Seq<Seq<ChainNode>>, f: int, r: int) -> bool {
    exists|c: int, i: int|
        0 <= c < css.len() && 0 <= i < css[c].len() && (#[trigger] css[c][i]) == (ChainNode {
            frame_idx: f as usize,
            record_idx: r as usize,
        })
}

/// Every record of every processed frame lies in some chain the engine owns.
pub open spec fn records_covered(e: TrackingEngine) -> bool {
    forall|f: int, r: int|
        0 <= f < e.next_frame_idx && 0 <= r < e.frames@[f].spec_num_records()
            ==> #[trigger] record_in_chains(e.all_chains(), f, r)
}

/// Every tracker lands in the kept or the dead list, whole.
proof fn lemma_dead_kept_cover(ts: Seq<Tracker>, k: int)
    requires
        0 <= k < ts.len(),
    ensures
        spec_is_dead(ts[k]) ==> (exists|i: int|
            0 <= i < dead_of(ts).len() && #[trigger] dead_of(ts)[i] == ts[k]),
        !spec_is_dead(ts[k]) ==> (exists|i: int|
            0 <= i < kept_of(ts).len() && #[trigger] kept_of(ts)[i] == ts[k]),
    decreases ts.len(),
{
    if k == ts.len() - 1 {
        if spec_is_dead(ts[k]) {
            assert(dead_of(ts) == dead_of(ts.drop_last()).push(ts[k]));
            assert(dead_of(ts)[dead_of(ts).len() - 1] == ts[k]);
        } else {
            assert(kept_of(ts) == kept_of(ts.drop_last()).push(ts[k]));
            assert(kept_of(ts)[kept_of(ts).len() - 1] == ts[k]);
        }
    } else {
        lemma_dead_kept_cover(ts.drop_last(), k);
        assert(ts.drop_last()[k] == ts[k]);
        if spec_is_dead(ts[k]) {
            let i = choose|i: int|
                0 <= i < dead_of(ts.drop_last()).len() && #[trigger] dead_of(ts.drop_last())[i]
                    == ts[k];
            if spec_is_dead(ts.last()) {
                assert(dead_of(ts) == dead_of(ts.drop_last()).push(ts.last()));
                assert(dead_of(ts)[i] == ts[k]);
            } else {
                assert(dead_of(ts) == dead_of(ts.drop_last()));
                assert(dead_of(ts)[i] == ts[k]);
            }
        } else {
            let i = choose|i: int|
                0 <= i < kept_of(ts.drop_last()).len() && #[trigger] kept_of(ts.drop_last())[i]
                    == ts[k];
            if !spec_is_dead(ts.last()) {
                assert(kept_of(ts) == kept_of(ts.drop_last()).push(ts.last()));
                assert(kept_of(ts)[i] == ts[k]);
            } else {
                assert(kept_of(ts) == kept_of(ts.drop_last()));
                assert(kept_of(ts)[i] == ts[k]);
            }
        }
    }
}

/// Every tracker was scored against the frame exactly as `process_frame`
/// states: the tracker itself changes in its diagnostics alone, and its
/// candidate list holds its interesting records, sorted by descending score.
pub open spec fn scored_per_spec(
    pre: Seq<Tracker>,
    scored: Seq<Tracker>,
    scores: Seq<Seq<RecordScore>>,
    ms: Seq<Option<WordMetric>>,
    frame: Frame,
) -> bool {
    &&& scored.len() == pre.len()
    &&& scores.len() == pre.len()
    &&& forall|k: int|
        0 <= k < pre.len() ==> unchanged_but_diagnostics(pre[k], #[trigger] scored[k])
    &&& forall|k: int|
        0 <= k < pre.len() ==> #[trigger] scores[k] == sort_desc(
            interesting_upto(
                pre[k].record_scorer,
                pre[k].config.interest_threshold as int,
                ms,
                pre[k].memories@,
                frame.cols(),
                frame.spec_num_records(),
            ),
        )
}

/// The frame's aftermath: the chains of exactly the dead trackers were
/// appended, in order, to the finished chains; the survivors stayed in order;
/// the freshly spawned trackers follow them.
pub open spec fn reaped_and_spawned(
    resolved: Seq<Tracker>,
    news: Seq<Tracker>,
    dead_pre: Seq<TrackingChain>,
    dead_post: Seq<TrackingChain>,
    trackers_post: Seq<Tracker>,
) -> bool {
    &&& dead_post.len() == dead_pre.len() + dead_of(resolved).len()
    &&& forall|i: int| 0 <= i < dead_pre.len() ==> #[trigger] dead_post[i] == dead_pre[i]
    &&& forall|i: int|
        0 <= i < dead_of(resolved).len() ==> (#[trigger] dead_post[dead_pre.len() + i]).nodes@
            == dead_of(resolved)[i].chain@ && dead_post[dead_pre.len() + i].id == dead_of(
            resolved,
        )[i].id
    &&& trackers_post.len() == kept_of(resolved).len() + news.len()
    &&& forall|i: int|
        0 <= i < kept_of(resolved).len() ==> #[trigger] trackers_post[i] == kept_of(resolved)[i]
    &&& forall|i: int|
        0 <= i < news.len() ==> #[trigger] trackers_post[kept_of(resolved).len() + i] == news[i]
}

/// One frame transition, witnessed by the intermediate tracker lists: the
/// scored trackers, the trackers after resolution, the spawned trackers and
/// the per-tracker candidate lists. Scoring follows `process_frame`'s
/// contract over the engine's metrics, the resolution satisfies the
/// configured strategy's contract over those candidate lists, and the dead
/// trackers were reaped and the spawned ones appended.
pub open spec fn step_witness(
    pre: TrackingEngine,
    post: TrackingEngine,
    scored: Seq<Tracker>,
    resolved: Seq<Tracker>,
    news: Seq<Tracker>,
    scores: Seq<Seq<RecordScore>>,
) -> bool {
    let frame = pre.frames@[pre.next_frame_idx as int];
    &&& scored_per_spec(
        pre.trackers@,
        scored,
        scores,
        metrics_of(pre.distance_calculators@),
        frame,
    )
    &&& resolve_outcome(scored, resolved, frame.spec_idx(), frame.spec_num_records())
    &&& (pre.resolver.resolving_strategy is BestMatch ==> matches_injective(scored, resolved)
        && spawned_ok(news, frame.spec_idx(), frame.spec_num_records(), pre.nf()) && spawn_covers(
        scored,
        resolved,
        news,
        frame.spec_num_records(),
    ) && best_match_optimal(scored, resolved, scores) && best_match_progress(
        scored,
        resolved,
        scores,
    ) && best_match_greedy(scored, resolved, scores))
    &&& (pre.resolver.resolving_strategy is Simple ==> news.len() == 0 && (forall|k: int|
        0 <= k < scored.len() ==> simple_step(
            scored[k],
            #[trigger] resolved[k],
            scores[k],
            frame.cols(),
            frame.spec_idx(),
        )))
    &&& reaped_and_spawned(
        resolved,
        news,
        pre.dead_tracking_chains@,
        post.dead_tracking_chains@,
        post.trackers@,
    )
}

/// The engine performed exactly one frame transition on the pending frame.
pub open spec fn engine_step(pre: TrackingEngine, post: TrackingEngine) -> bool {
    exists|scored: Seq<Tracker>, resolved: Seq<Tracker>, news: Seq<Tracker>, scores: Seq<
        Seq<RecordScore>,
    >| #[trigger] step_witness(pre, post, scored, resolved, news, scores)
}

pub struct TrackingEngine {
    pub frames: Vec<Frame>,
    pub resolver: Resolver,
    pub distance_calculators: Vec<CachedDistanceCalculator>,
    pub trackers: Vec<Tracker>,
    pub tracker_config: InternalTrackerConfig,
    pub id_gen: IdGen,
    pub num_threads: usize,
    pub dead_tracking_chains: Vec<TrackingChain>,
    pub next_frame_idx: usize,
}

impl TrackingEngine {
    /// The shared field count of every frame.
    pub open spec fn nf(self) -> int {
        self.frames@[0].cols().len() as int
    }

    /// All chains the engine currently owns, finished ones first.
    pub open spec fn all_chains(self) -> Seq<Seq<ChainNode>> {
        self.dead_tracking_chains@.map_values(|c: TrackingChain| c.nodes@)
            + self.trackers@.map_values(|t: Tracker| t.chain@)
    }

    pub open spec fn frames_wf(self) -> bool {
        &&& self.frames@.len() >= 2
        &&& forall|i: int|
            0 <= i < self.frames@.len() ==> (#[trigger] self.frames@[i]).wf()
                && self.frames@[i].spec_idx() == i && self.frames@[i].cols().len() == self.nf()
    }

    pub open spec fn wf(self) -> bool {
        &&& self.frames_wf()
        &&& self.distance_calculators@.len() == self.nf()
        &&& calcs_wf(self.distance_calculators@)
        &&& 1 <= self.next_frame_idx <= self.frames@.len()
        &&& cfg_wf(self.tracker_config, self.nf())
        &&& forall|k: int|
            0 <= k < self.trackers@.len() ==> (#[trigger] self.trackers@[k]).wf()
                && self.trackers@[k].memories@.len() == self.nf()
                && self.trackers@[k].chain@.len() >= 1 && nodes_below(
                self.trackers@[k].chain@,
                self.next_frame_idx as int,
            ) && chain_in_frames(self.trackers@[k].chain@, self.frames@)
        &&& forall|c: int|
            0 <= c < self.dead_tracking_chains@.len() ==> chain_valid(
                (#[trigger] self.dead_tracking_chains@[c]).nodes@,
                self.frames@,
            ) && nodes_below(self.dead_tracking_chains@[c].nodes@, self.next_frame_idx as int)
        &&& (self.resolver.resolving_strategy is BestMatch ==> chains_disjoint(self.all_chains()))
    }

    /// A fresh engine over the given frames, with no trackers yet.
    pub fn new(
        frames: Vec<Frame>,
        resolver: Resolver,
        distance_calculators: Vec<CachedDistanceCalculator>,
        tracker_config: InternalTrackerConfig,
        id_gen: IdGen,
        num_threads: usize,
    ) -> (e: TrackingEngine)
        requires
            frames@.len() >= 2,
            forall|i: int|
                0 <= i < frames@.len() ==> (#[trigger] frames@[i]).wf() && frames@[i].spec_idx()
                    == i && frames@[i].cols().len() == frames@[0].cols().len() as int,
            distance_calculators@.len() == frames@[0].cols().len() as int,
            calcs_wf(distance_calculators@),
            cfg_wf(tracker_config, frames@[0].cols().len() as int),
        ensures
            e.wf(),
            e.trackers@.len() == 0,
            e.dead_tracking_chains@.len() == 0,
            e.next_frame_idx == 1,
            e.frames@ == frames@,
            e.resolver == resolver,
            e.id_gen == id_gen,
            e.num_threads == num_threads,
    {
        TrackingEngine {
            frames,
            resolver,
            distance_calculators,
            trackers: Vec::new(),
            tracker_config,
            id_gen,
            num_threads,
            dead_tracking_chains: Vec::new(),
            next_frame_idx: 1,
        }
    }

    pub fn frames(&self) -> (r: &Vec<Frame>)
        ensures
            r@ == self.frames@,
    {
        &self.frames
    }

    /// Creates one tracker per record of the first frame, each seeded with
    /// its record.
    pub fn initialize_trackers(&mut self)
        requires
            old(self).wf(),
            old(self).trackers@.len() == 0,
            old(self).dead_tracking_chains@.len() == 0,
        ensures
            final(self).wf(),
            final(self).trackers@.len() == old(self).frames@[0].spec_num_records(),
            final(self).frames@ == old(self).frames@,
            final(self).next_frame_idx == old(self).next_frame_idx,
            final(self).dead_tracking_chains@.len() == 0,
            final(self).resolver == old(self).resolver,
            final(self).num_threads == old(self).num_threads,
            forall|r: int|
                0 <= r < final(self).trackers@.len() ==> seeded_tracker(
                    #[trigger] final(self).trackers@[r],
                    old(self).tracker_config,
                    old(self).frames@[0],
                    r,
                ),
            old(self).next_frame_idx == 1 ==> records_covered(*final(self)),
    {
        let nf = self.frames[0].num_features();
        let nrec = self.frames[0].num_records();
        let mut r: usize = 0;
        while r < nrec
            invariant
                old(self).wf(),
                self.frames@ == old(self).frames@,
                self.resolver == old(self).resolver,
                self.distance_calculators@ == old(self).distance_calculators@,
                self.tracker_config == old(self).tracker_config,
                self.num_threads == old(self).num_threads,
                self.dead_tracking_chains@ == old(self).dead_tracking_chains@,
                self.next_frame_idx == old(self).next_frame_idx,
                nf == self.nf(),
                nrec == self.frames@[0].spec_num_records(),
                r <= nrec,
                self.trackers@.len() == r,
                forall|k: int|
                    0 <= k < r ==> (#[trigger] self.trackers@[k]).wf()
                        && self.trackers@[k].memories@.len() == self.nf()
                        && self.trackers@[k].chain@.len() == 1
                        && self.trackers@[k].chain@[0].frame_idx == 0
                        && (self.trackers@[k].chain@[0].record_idx as int) == k,
                forall|k: int|
                    0 <= k < r ==> seeded_tracker(
                        #[trigger] self.trackers@[k],
                        old(self).tracker_config,
                        old(self).frames@[0],
                        k,
                    ),
            decreases nrec - r,
        {
            let cfg = clone_config(&self.tracker_config);
            proof {
                lemma_cfg_eq_wf(self.tracker_config, cfg, self.nf());
            }
            let id = self.id_gen.next();
            let mut tracker = Tracker::new(cfg, nf, id);
            let ghost pre_mems = tracker.memories@;
            let record = self.frames[0].record(r);
            tracker.signal_matching_node(ChainNode::new(0, r), record);
            proof {
                assert forall|f: int| 0 <= f < tracker.memories@.len() implies mem_seeded(
                    #[trigger] tracker.memories@[f],
                    old(self).tracker_config.memory_strategy,
                    old(self).frames@[0].cols()[f][r as int],
                ) by {
                    assert(record@[f] == old(self).frames@[0].cols()[f][r as int]);
                    assert(mem_step(pre_mems[f], tracker.memories@[f], record@[f]));
                    assert(pre_mems[f].remembered() == Seq::<ElemV>::empty());
                    assert(mem_matches_strategy(
                        pre_mems[f],
                        old(self).tracker_config.memory_strategy,
                    ));
                }
                assert(seeded_tracker(
                    tracker,
                    old(self).tracker_config,
                    old(self).frames@[0],
                    r as int,
                ));
            }
            self.trackers.push(tracker);
            r += 1;
        }
        proof {
            assert forall|c1: int, c2: int, i: int, j: int|
                0 <= c1 < c2 < self.all_chains().len() && 0 <= i < self.all_chains()[c1].len() && 0
                    <= j < self.all_chains()[c2].len() implies (#[trigger] self.all_chains()[c1][i])
                != (#[trigger] self.all_chains()[c2][j]) by {
                assert(self.all_chains()[c1] == self.trackers@[c1].chain@);
                assert(self.all_chains()[c2] == self.trackers@[c2].chain@);
            }
            if old(self).next_frame_idx == 1 {
                assert forall|f: int, r2: int|
                    0 <= f < self.next_frame_idx && 0 <= r2
                        < self.frames@[f].spec_num_records() implies #[trigger] record_in_chains(
                    self.all_chains(),
                    f,
                    r2,
                ) by {
                    assert(f == 0);
                    assert(self.all_chains()[r2] == self.trackers@[r2].chain@);
                    assert(self.trackers@[r2].chain@[0] == (ChainNode {
                        frame_idx: 0,
                        record_idx: r2 as usize,
                    }));
                }
            }
        }
    }

    /// Runs one frame transition: refresh caches, score, resolve, reap and
    /// spawn. Every engine invariant survives and the frame cursor advances.
    pub fn process_next_frame(&mut self)
        requires
            old(self).wf(),
            (old(self).next_frame_idx as int) < old(self).frames@.len(),
        ensures
            final(self).wf(),
            final(self).next_frame_idx == old(self).next_frame_idx + 1,
            final(self).frames@ == old(self).frames@,
            final(self).resolver == old(self).resolver,
            final(self).num_threads == old(self).num_threads,
            final(self).tracker_config == old(self).tracker_config,
            engine_step(*old(self), *final(self)),
            metrics_of(final(self).distance_calculators@) == metrics_of(
                old(self).distance_calculators@,
            ),
            forall|f: int|
                0 <= f < old(self).nf() ==> calc_refreshed(
                    old(self).distance_calculators@[f],
                    #[trigger] final(self).distance_calculators@[f],
                    old(self).frames@[old(self).next_frame_idx - 1].cols()[f],
                    old(self).frames@[old(self).next_frame_idx as int].cols()[f],
                ),
            old(self).resolver.resolving_strategy is BestMatch && records_covered(*old(self))
                ==> records_covered(*final(self)),
    {
        let fi = self.next_frame_idx;
        let nf = self.frames[fi].num_features();

        // Refresh every per-field cache from the adjacent columns.
        let mut refreshed: Vec<CachedDistanceCalculator> = Vec::new();
        let mut f: usize = 0;
        while f < nf
            invariant
                old(self).wf(),
                self.frames@ == old(self).frames@,
                self.resolver == old(self).resolver,
                self.trackers@ == old(self).trackers@,
                self.tracker_config == old(self).tracker_config,
                self.id_gen == old(self).id_gen,
                self.num_threads == old(self).num_threads,
                self.dead_tracking_chains@ == old(self).dead_tracking_chains@,
                self.next_frame_idx == old(self).next_frame_idx,
                fi == self.next_frame_idx,
                1 <= fi < self.frames@.len(),
                nf == self.nf(),
                f <= nf,
                self.distance_calculators@.len() + f == nf,
                self.distance_calculators@ == old(self).distance_calculators@.skip(f as int),
                refreshed@.len() == f,
                calcs_wf(refreshed@),
                calcs_wf(self.distance_calculators@),
                forall|i: int|
                    0 <= i < f ==> (#[trigger] refreshed@[i]).metric_spec() == old(
                        self,
                    ).distance_calculators@[i].metric_spec(),
                forall|i: int|
                    0 <= i < f ==> calc_refreshed(
                        old(self).distance_calculators@[i],
                        #[trigger] refreshed@[i],
                        old(self).frames@[fi - 1].cols()[i],
                        old(self).frames@[fi as int].cols()[i],
                    ),
            decreases nf - f,
        {
            let mut calc = self.distance_calculators.remove(0);
            proof {
                assert(old(self).distance_calculators@.skip(f as int)[0] == old(
                    self,
                ).distance_calculators@[f as int]);
                assert(self.distance_calculators@ =~= old(self).distance_calculators@.skip(f + 1));
            }
            calc.clear_cache();
            {
                let prev_frame = &self.frames[fi - 1];
                let next_frame = &self.frames[fi];
                let col1 = prev_frame.column(f);
                let col2 = next_frame.column(f);
                proof {
                    assert(crate::distances::distance_calculator::elem_views(col1@)
                        =~= old(self).frames@[fi - 1].cols()[f as int]);
                    assert(crate::distances::distance_calculator::elem_views(col2@)
                        =~= old(self).frames@[fi as int].cols()[f as int]);
                }
                calc.precompute(col1, col2);
            }
            proof {
                assert(calc_refreshed(
                    old(self).distance_calculators@[f as int],
                    calc,
                    old(self).frames@[fi - 1].cols()[f as int],
                    old(self).frames@[fi as int].cols()[f as int],
                ));
            }
            refreshed.push(calc);
            f += 1;
        }
        self.distance_calculators = refreshed;
        let ghost calcs1 = self.distance_calculators@;
        let ghost ms0 = metrics_of(old(self).distance_calculators@);
        proof {
            assert(metrics_of(self.distance_calculators@) =~= ms0);
        }

        // Score every tracker against the new frame.
        let n = self.trackers.len();
        let mut scored: Vec<Tracker> = Vec::new();
        let mut trackers_scores: Vec<Vec<RecordScore>> = Vec::new();
        let mut k: usize = 0;
        while k < n
            invariant
                old(self).wf(),
                self.frames@ == old(self).frames@,
                self.resolver == old(self).resolver,
                self.tracker_config == old(self).tracker_config,
                self.id_gen == old(self).id_gen,
                self.num_threads == old(self).num_threads,
                self.dead_tracking_chains@ == old(self).dead_tracking_chains@,
                self.next_frame_idx == old(self).next_frame_idx,
                fi == self.next_frame_idx,
                1 <= fi < self.frames@.len(),
                nf == self.nf(),
                self.distance_calculators@.len() == nf,
                calcs_wf(self.distance_calculators@),
                metrics_of(self.distance_calculators@) == ms0,
                self.distance_calculators@ == calcs1,
                n == old(self).trackers@.len(),
                self.trackers@ =~= old(self).trackers@.skip(k as int),
                k <= n,
                scored@.len() == k,
                trackers_scores@.len() == k,
                forall|i: int|
                    0 <= i < k ==> (#[trigger] trackers_scores@[i])@ == sort_desc(
                        interesting_upto(
                            old(self).trackers@[i].record_scorer,
                            old(self).trackers@[i].config.interest_threshold as int,
                            ms0,
                            old(self).trackers@[i].memories@,
                            self.frames@[fi as int].cols(),
                            self.frames@[fi as int].spec_num_records(),
                        ),
                    ),
                forall|i: int|
                    0 <= i < k ==> crate::trackers::tracker::unchanged_but_diagnostics(
                        old(self).trackers@[i],
                        #[trigger] scored@[i],
                    ) && scored@[i].wf(),
                forall|i: int, q: int|
                    0 <= i < k && 0 <= q < (#[trigger] trackers_scores@[i])@.len() ==> ((
                    #[trigger] trackers_scores@[i]@[q]).idx as int) < self.frames@[fi as int].spec_num_records(),
            decreases n - k,
        {
            let mut t = self.trackers.remove(0);
            proof {
                assert(old(self).trackers@.skip(k as int)[0] == old(self).trackers@[k as int]);
                assert(self.trackers@ =~= old(self).trackers@.skip(k + 1));
            }
            let scores = {
                let next_frame = &self.frames[fi];
                t.process_frame(next_frame, &self.distance_calculators)
            };
            scored.push(t);
            trackers_scores.push(scores);
            k += 1;
        }
        proof {
            assert(old(self).trackers@.skip(n as int) =~= Seq::<Tracker>::empty());
        }
        self.trackers = scored;

        proof {
            assert(crate::resolvers::resolver::trackers_ready(
                self.trackers@,
                fi as int,
                self.frames@[fi as int].cols().len() as int,
            ));
        }

        // Resolve the frame globally.
        let ghost pre_resolve = self.trackers@;
        let mut new_trackers = {
            let next_frame = &self.frames[fi];
            self.resolver.resolve(
                next_frame,
                &self.tracker_config,
                &mut self.id_gen,
                &mut self.trackers,
                &trackers_scores,
            )
        };
        let ghost post_resolve = self.trackers@;
        let ghost news = new_trackers@;
        let ghost sc_views = cand_views(trackers_scores@);
        let ghost fseq = self.frames@;
        let ghost fidx = fi as int;
        let ghost nrec = self.frames@[fi as int].spec_num_records();

        proof {
            lemma_resolved_chains(pre_resolve, post_resolve, fseq, fidx, nrec);
        }

        // Retire dead trackers, keeping the others in order.
        let n2 = self.trackers.len();
        let mut kept: Vec<Tracker> = Vec::new();
        let ghost mut kept_src: Seq<int> = Seq::empty();
        let ghost dead0 = self.dead_tracking_chains@;
        let ghost mut dead_src: Seq<int> = Seq::empty();
        let mut k: usize = 0;
        while k < n2
            invariant
                self.frames@ == old(self).frames@,
                self.resolver == old(self).resolver,
                self.tracker_config == old(self).tracker_config,
                self.num_threads == old(self).num_threads,
                self.next_frame_idx == old(self).next_frame_idx,
                fi == self.next_frame_idx,
                1 <= fi < self.frames@.len(),
                nf == self.nf(),
                self.distance_calculators@.len() == nf,
                calcs_wf(self.distance_calculators@),
                metrics_of(self.distance_calculators@) == ms0,
                self.distance_calculators@ == calcs1,
                n2 == post_resolve.len(),
                self.trackers@ =~= post_resolve.skip(k as int),
                k <= n2,
                kept@ == kept_of(post_resolve.take(k as int)),
                dead_src.len() == dead_of(post_resolve.take(k as int)).len(),
                forall|i: int|
                    0 <= i < dead_of(post_resolve.take(k as int)).len() ==> (
                    #[trigger] self.dead_tracking_chains@[dead0.len() + i]).nodes@ == dead_of(
                        post_resolve.take(k as int),
                    )[i].chain@ && self.dead_tracking_chains@[dead0.len() + i].id == dead_of(
                        post_resolve.take(k as int),
                    )[i].id,
                self.dead_tracking_chains@.len() == dead0.len() + dead_src.len(),
                forall|i: int|
                    0 <= i < dead0.len() ==> #[trigger] self.dead_tracking_chains@[i] == dead0[i],
                forall|i: int|
                    0 <= i < dead_src.len() ==> 0 <= #[trigger] dead_src[i] < k && (
                    self.dead_tracking_chains@[dead0.len() + i]).nodes@
                        == post_resolve[dead_src[i]].chain@,
                kept@.len() == kept_src.len(),
                forall|i: int|
                    0 <= i < kept_src.len() ==> 0 <= #[trigger] kept_src[i] < k && kept@[i]
                        == post_resolve[kept_src[i]],
                forall|i1: int, i2: int|
                    0 <= i1 < i2 < kept_src.len() ==> #[trigger] kept_src[i1] < #[trigger] kept_src[i2],
                forall|i1: int, i2: int|
                    0 <= i1 < i2 < dead_src.len() ==> #[trigger] dead_src[i1] < #[trigger] dead_src[i2],
                forall|i1: int, i2: int|
                    0 <= i1 < kept_src.len() && 0 <= i2 < dead_src.len() ==> #[trigger] kept_src[i1]
                        != #[trigger] dead_src[i2],
            decreases n2 - k,
        {
            let t = self.trackers.remove(0);
            proof {
                assert(post_resolve.skip(k as int)[0] == post_resolve[k as int]);
                assert(self.trackers@ =~= post_resolve.skip(k + 1));
            }
            if t.is_dead() {
                let chain = t.get_tracking_chain();
                self.dead_tracking_chains.push(chain);
                proof {
                    dead_src = dead_src.push(k as int);
                }
            } else {
                kept.push(t);
                proof {
                    kept_src = kept_src.push(k as int);
                }
            }
            proof {
                assert(post_resolve.take(k + 1).drop_last() =~= post_resolve.take(k as int));
                assert(post_resolve.take(k + 1).last() == post_resolve[k as int]);
                if spec_is_dead(post_resolve[k as int]) {
                    assert(dead_of(post_resolve.take(k + 1)) == dead_of(
                        post_resolve.take(k as int),
                    ).push(post_resolve[k as int]));
                    assert(kept_of(post_resolve.take(k + 1)) == kept_of(
                        post_resolve.take(k as int),
                    ));
                } else {
                    assert(dead_of(post_resolve.take(k + 1)) == dead_of(
                        post_resolve.take(k as int),
                    ));
                    assert(kept_of(post_resolve.take(k + 1)) == kept_of(
                        post_resolve.take(k as int),
                    ).push(post_resolve[k as int]));
                }
            }
            k += 1;
        }
        proof {
            assert(post_resolve.take(n2 as int) =~= post_resolve);
        }
        self.trackers = kept;
        let ghost dead_after = self.dead_tracking_chains@;

        // Append the freshly spawned trackers.
        let mut a: usize = 0;
        let nnew = new_trackers.len();
        let ghost kept_len = self.trackers@.len();
        while a < nnew
            invariant
                self.frames@ == old(self).frames@,
                self.resolver == old(self).resolver,
                self.tracker_config == old(self).tracker_config,
                self.num_threads == old(self).num_threads,
                self.next_frame_idx == old(self).next_frame_idx,
                fi == self.next_frame_idx,
                1 <= fi < self.frames@.len(),
                nf == self.nf(),
                self.distance_calculators@.len() == nf,
                calcs_wf(self.distance_calculators@),
                metrics_of(self.distance_calculators@) == ms0,
                self.distance_calculators@ == calcs1,
                self.dead_tracking_chains@ == dead_after,
                self.dead_tracking_chains@.len() == dead0.len() + dead_src.len(),
                forall|i: int|
                    0 <= i < dead0.len() ==> #[trigger] self.dead_tracking_chains@[i] == dead0[i],
                forall|i: int|
                    0 <= i < dead_src.len() ==> 0 <= #[trigger] dead_src[i] < post_resolve.len()
                        && (self.dead_tracking_chains@[dead0.len() + i]).nodes@
                        == post_resolve[dead_src[i]].chain@,
                nnew == news.len(),
                new_trackers@ =~= news.skip(a as int),
                a <= nnew,
                self.trackers@.len() == kept_len + a,
                forall|i: int| 0 <= i < kept_len ==> #[trigger] self.trackers@[i] == kept@[i],
                kept_len == kept@.len(),
                forall|i: int|
                    0 <= i < a ==> #[trigger] self.trackers@[kept_len + i] == news[i],
            decreases nnew - a,
        {
            let t = new_trackers.remove(0);
            proof {
                assert(news.skip(a as int)[0] == news[a as int]);
                assert(new_trackers@ =~= news.skip(a + 1));
            }
            self.trackers.push(t);
            a += 1;
        }

        let total_frames = self.frames.len();
        proof {
            assert(fi < total_frames);
        }
        self.next_frame_idx = fi + 1;

        proof {
            lemma_engine_step_wf(
                *old(self),
                *self,
                pre_resolve,
                post_resolve,
                news,
                dead0,
                dead_src,
                kept_src,
                kept@,
                fidx,
            );
            assert(step_witness(*old(self), *self, pre_resolve, post_resolve, news, sc_views));
            assert(engine_step(*old(self), *self));
            if old(self).resolver.resolving_strategy is BestMatch && records_covered(*old(self)) {
                let css0 = old(self).all_chains();
                let css1 = self.all_chains();
                let d0 = dead0.len() as int;
                let d1 = self.dead_tracking_chains@.len() as int;
                let kl = kept_of(post_resolve).len() as int;
                assert forall|f: int, r: int|
                    0 <= f < self.next_frame_idx && 0 <= r
                        < self.frames@[f].spec_num_records() implies #[trigger] record_in_chains(
                    css1,
                    f,
                    r,
                ) by {
                    let node = (ChainNode { frame_idx: f as usize, record_idx: r as usize });
                    if f < fidx {
                        assert(record_in_chains(css0, f, r));
                        let (c, i) = choose|c: int, i: int|
                            0 <= c < css0.len() && 0 <= i < css0[c].len() && (#[trigger] css0[c][i])
                                == (ChainNode { frame_idx: f as usize, record_idx: r as usize });
                        if c < d0 {
                            assert(css0[c] == dead0[c].nodes@);
                            assert(self.dead_tracking_chains@[c] == dead0[c]);
                            assert(css1[c] == self.dead_tracking_chains@[c].nodes@);
                            assert(css1[c][i] == node);
                        } else {
                            let k = c - d0;
                            assert(css0[c] == old(self).trackers@[k].chain@);
                            assert(unchanged_but_diagnostics(
                                old(self).trackers@[k],
                                pre_resolve[k],
                            ));
                            let rc = post_resolve[k].chain@;
                            assert(rc[i] == node);
                            lemma_dead_kept_cover(post_resolve, k);
                            if spec_is_dead(post_resolve[k]) {
                                let i2 = choose|i2: int|
                                    0 <= i2 < dead_of(post_resolve).len() && #[trigger] dead_of(
                                        post_resolve,
                                    )[i2] == post_resolve[k];
                                assert(self.dead_tracking_chains@[d0 + i2].nodes@ == dead_of(
                                    post_resolve,
                                )[i2].chain@);
                                assert(css1[d0 + i2] == self.dead_tracking_chains@[d0
                                    + i2].nodes@);
                                assert(css1[d0 + i2][i] == node);
                            } else {
                                let i2 = choose|i2: int|
                                    0 <= i2 < kept_of(post_resolve).len() && #[trigger] kept_of(
                                        post_resolve,
                                    )[i2] == post_resolve[k];
                                assert(self.trackers@[i2] == kept_of(post_resolve)[i2]);
                                assert(css1[d1 + i2] == self.trackers@[i2].chain@);
                                assert(css1[d1 + i2][i] == node);
                            }
                        }
                    } else {
                        assert(f == fidx);
                        assert(record_matched(pre_resolve, post_resolve, r) <==> !record_spawned(
                            news,
                            r,
                        ));
                        if record_matched(pre_resolve, post_resolve, r) {
                            let k = choose|k: int|
                                0 <= k < pre_resolve.len() && #[trigger] matched_rec(
                                    pre_resolve[k],
                                    post_resolve[k],
                                ) == Some(r);
                            let rc = post_resolve[k].chain@;
                            assert(rc.last().record_idx as int == r);
                            assert(rc.last().frame_idx == fidx);
                            assert(rc[rc.len() - 1] == node);
                            lemma_dead_kept_cover(post_resolve, k);
                            if spec_is_dead(post_resolve[k]) {
                                let i2 = choose|i2: int|
                                    0 <= i2 < dead_of(post_resolve).len() && #[trigger] dead_of(
                                        post_resolve,
                                    )[i2] == post_resolve[k];
                                assert(css1[d0 + i2] == self.dead_tracking_chains@[d0
                                    + i2].nodes@);
                                assert(css1[d0 + i2][rc.len() - 1] == node);
                            } else {
                                let i2 = choose|i2: int|
                                    0 <= i2 < kept_of(post_resolve).len() && #[trigger] kept_of(
                                        post_resolve,
                                    )[i2] == post_resolve[k];
                                assert(self.trackers@[i2] == kept_of(post_resolve)[i2]);
                                assert(css1[d1 + i2] == self.trackers@[i2].chain@);
                                assert(css1[d1 + i2][rc.len() - 1] == node);
                            }
                        } else {
                            assert(record_spawned(news, r));
                            let q = choose|q: int|
                                0 <= q < news.len() && ((#[trigger] news[q]).chain@[0].record_idx
                                    as int) == r;
                            assert(news[q].chain@[0] == node);
                            assert(self.trackers@[kl + q] == news[q]);
                            assert(css1[d1 + kl + q] == self.trackers@[kl + q].chain@);
                            assert(css1[d1 + kl + q][0] == node);
                        }
                    }
                }
            }
        }
    }

    /// Every chain the engine has produced: the finished ones, then one per
    /// live tracker. All are non-empty with strictly ascending frames over
    /// real records, and under the best-match resolver no record belongs to
    /// two chains.
    pub fn collect_tracking_chains(&self) -> (chains: Vec<TrackingChain>)
        requires
            self.wf(),
        ensures
            chains@.len() == self.all_chains().len(),
            forall|c: int|
                0 <= c < chains@.len() ==> (#[trigger] chains@[c]).nodes@ == self.all_chains()[c],
            forall|c: int|
                0 <= c < chains@.len() ==> chain_valid((#[trigger] chains@[c]).nodes@, self.frames@),
            self.resolver.resolving_strategy is BestMatch ==> chains_disjoint(
                chains@.map_values(|c: TrackingChain| c.nodes@),
            ),
    {
        let mut chains: Vec<TrackingChain> = Vec::new();
        let nd = self.dead_tracking_chains.len();
        let mut c: usize = 0;
        while c < nd
            invariant
                self.wf(),
                nd == self.dead_tracking_chains@.len(),
                c <= nd,
                chains@.len() == c,
                forall|i: int|
                    0 <= i < c ==> (#[trigger] chains@[i]).nodes@
                        == self.dead_tracking_chains@[i].nodes@,
            decreases nd - c,
        {
            let dc = &self.dead_tracking_chains[c];
            chains.push(TrackingChain::new(dc.id, clone_nodes(&dc.nodes)));
            c += 1;
        }
        let nt = self.trackers.len();
        let mut k: usize = 0;
        while k < nt
            invariant
                self.wf(),
                nd == self.dead_tracking_chains@.len(),
                nt == self.trackers@.len(),
                k <= nt,
                chains@.len() == nd + k,
                forall|i: int|
                    0 <= i < nd ==> (#[trigger] chains@[i]).nodes@
                        == self.dead_tracking_chains@[i].nodes@,
                forall|i: int|
                    0 <= i < k ==> (#[trigger] chains@[nd + i]).nodes@
                        == self.trackers@[i].chain@,
            decreases nt - k,
        {
            chains.push(self.trackers[k].get_tracking_chain());
            k += 1;
        }
        proof {
            assert forall|c2: int|
                0 <= c2 < chains@.len() implies (#[trigger] chains@[c2]).nodes@
                == self.all_chains()[c2] by {
                let dm = self.dead_tracking_chains@.map_values(|ch: TrackingChain| ch.nodes@);
                let tm = self.trackers@.map_values(|t: Tracker| t.chain@);
                assert(self.all_chains() == dm + tm);
                if c2 < nd {
                    assert(chains@[c2].nodes@ == self.dead_tracking_chains@[c2].nodes@);
                    assert((dm + tm)[c2] == dm[c2]);
                    assert(dm[c2] == self.dead_tracking_chains@[c2].nodes@);
                } else {
                    assert(chains@[nd + (c2 - nd)].nodes@ == self.trackers@[c2 - nd].chain@);
                    assert(chains@[c2].nodes@ == self.trackers@[c2 - nd].chain@);
                    assert((dm + tm)[c2] == tm[c2 - nd]);
                    assert(tm[c2 - nd] == self.trackers@[c2 - nd].chain@);
                }
            }
            if self.resolver.resolving_strategy is BestMatch {
                assert(chains@.map_values(|ch: TrackingChain| ch.nodes@) =~= self.all_chains());
            }
        }
        chains
    }
}

/// Every chain node but the first has an earlier node in its own chain: the
/// node just before it lies in a strictly earlier frame.
pub proof fn lemma_chain_has_predecessor(nodes: Seq<ChainNode>, i: int)
    requires
        nodes_sorted(nodes),
        1 <= i < nodes.len(),
    ensures
        exists|j: int|
            0 <= j < nodes.len() && ((#[trigger] nodes[j]).frame_idx as int) < nodes[i].frame_idx
                as int,
{
    assert(nodes[i - 1].frame_idx < nodes[i].frame_idx);
}

/// The chains that visit the given frame, by their positions in the
/// collection.
pub open spec fn chains_at_frame(css: Seq<Seq<ChainNode>>, f: int) -> Set<int> {
    Set::new(
        |c: int|
            0 <= c < css.len() && exists|i: int|
                0 <= i < css[c].len() && ((#[trigger] css[c][i]).frame_idx as int) == f,
    )
}

/// For any frame, the number of distinct chains visiting it never exceeds
/// the frame's record count: disjoint chains claim distinct records.
pub proof fn lemma_chains_per_frame_bound(css: Seq<Seq<ChainNode>>, frames: Seq<Frame>, f: int)
    requires
        chains_disjoint(css),
        forall|c: int|
            0 <= c < css.len() ==> chain_in_frames(#[trigger] css[c], frames),
        0 <= f < frames.len(),
    ensures
        chains_at_frame(css, f).finite(),
        chains_at_frame(css, f).len() <= frames[f].spec_num_records(),
{
    let cs = chains_at_frame(css, f);
    let nrec = frames[f].spec_num_records();
    let pick = |c: int|
        choose|i: int| 0 <= i < css[c].len() && ((#[trigger] css[c][i]).frame_idx as int) == f;
    let g = |c: int| css[c][pick(c)].record_idx as int;

    vstd::set_lib::lemma_int_range(0, css.len() as int);
    vstd::set_lib::lemma_len_subset(cs, vstd::set_lib::set_int_range(0, css.len() as int));

    assert(vstd::relations::injective_on(g, cs)) by {
        assert forall|c1: int, c2: int|
            #![trigger g(c1), g(c2)]
            cs.contains(c1) && cs.contains(c2) && g(c1) == g(c2) implies c1 == c2 by {
            let i1 = pick(c1);
            let i2 = pick(c2);
            assert(0 <= i1 < css[c1].len() && (css[c1][i1].frame_idx as int) == f);
            assert(0 <= i2 < css[c2].len() && (css[c2][i2].frame_idx as int) == f);
            if c1 != c2 {
                assert(css[c1][i1].record_idx == css[c2][i2].record_idx);
                assert(css[c1][i1] == css[c2][i2]);
                if c1 < c2 {
                    assert(css[c1][i1] != css[c2][i2]);
                } else {
                    assert(css[c2][i2] != css[c1][i1]);
                }
            }
        }
    }
    vstd::set_lib::lemma_map_size(cs, cs.map(g), g);
    assert(cs.map(g).subset_of(vstd::set_lib::set_int_range(0, nrec))) by {
        assert forall|r: int| cs.map(g).contains(r) implies 0 <= r < nrec by {
            let c = choose|c: int| cs.contains(c) && g(c) == r;
            let i = pick(c);
            assert(0 <= i < css[c].len() && (css[c][i].frame_idx as int) == f);
            assert((css[c][i].record_idx as int) < frames[f].spec_num_records());
        }
    }
    vstd::set_lib::lemma_int_range(0, nrec);
    vstd::set_lib::lemma_len_subset(cs.map(g), vstd::set_lib::set_int_range(0, nrec));
}

/// After resolution every tracker's chain is still valid, still below the
/// next frame cursor, and the fresh trackers' single-node chains are too.
proof fn lemma_resolved_chains(
    pre: Seq<Tracker>,
    post: Seq<Tracker>,
    frames: Seq<Frame>,
    fidx: int,
    nrec: int,
)
    requires
        crate::resolvers::resolver::resolve_outcome(pre, post, fidx, nrec),
        0 <= fidx < frames.len(),
        nrec == frames[fidx].spec_num_records(),
        forall|k: int|
            0 <= k < pre.len() ==> (#[trigger] pre[k]).chain@.len() >= 1 && nodes_below(
                pre[k].chain@,
                fidx,
            ) && chain_in_frames(pre[k].chain@, frames) && nodes_sorted(pre[k].chain@),
    ensures
        forall|k: int|
            0 <= k < post.len() ==> (#[trigger] post[k]).chain@.len() >= 1 && nodes_below(
                post[k].chain@,
                fidx + 1,
            ) && chain_in_frames(post[k].chain@, frames) && nodes_sorted(post[k].chain@),
{
    assert forall|k: int|
        0 <= k < post.len() implies (#[trigger] post[k]).chain@.len() >= 1 && nodes_below(
        post[k].chain@,
        fidx + 1,
    ) && chain_in_frames(post[k].chain@, frames) && nodes_sorted(post[k].chain@) by {
        if post[k].chain@ == pre[k].chain@ {
        } else {
            assert(post[k].chain@ == pre[k].chain@.push(post[k].chain@.last()));
            assert(nodes_sorted(post[k].chain@));
        }
    }
}

/// One full frame step preserves the engine invariant.
#[verifier::rlimit(60)]
proof fn lemma_engine_step_wf(
    pre: TrackingEngine,
    post: TrackingEngine,
    pre_resolve: Seq<Tracker>,
    post_resolve: Seq<Tracker>,
    news: Seq<Tracker>,
    dead0: Seq<TrackingChain>,
    dead_src: Seq<int>,
    kept_src: Seq<int>,
    kept: Seq<Tracker>,
    fidx: int,
)
    requires
        pre.wf(),
        1 <= fidx < pre.frames@.len(),
        fidx == pre.next_frame_idx as int,
        post.frames@ == pre.frames@,
        post.resolver == pre.resolver,
        post.tracker_config == pre.tracker_config,
        post.next_frame_idx == fidx + 1,
        post.distance_calculators@.len() == pre.nf(),
        calcs_wf(post.distance_calculators@),
        // scoring kept everything but diagnostics
        pre_resolve.len() == pre.trackers@.len(),
        forall|k: int|
            0 <= k < pre_resolve.len() ==> crate::trackers::tracker::unchanged_but_diagnostics(
                pre.trackers@[k],
                #[trigger] pre_resolve[k],
            ) && pre_resolve[k].wf(),
        // resolution outcome
        crate::resolvers::resolver::resolve_outcome(
            pre_resolve,
            post_resolve,
            fidx,
            pre.frames@[fidx].spec_num_records(),
        ),
        pre.resolver.resolving_strategy is BestMatch
            ==> crate::resolvers::resolver::matches_injective(pre_resolve, post_resolve)
            && crate::resolvers::resolver::spawned_ok(
            news,
            fidx,
            pre.frames@[fidx].spec_num_records(),
            pre.nf(),
        ) && crate::resolvers::resolver::spawn_covers(
            pre_resolve,
            post_resolve,
            news,
            pre.frames@[fidx].spec_num_records(),
        ),
        pre.resolver.resolving_strategy is Simple ==> news.len() == 0,
        // reaping bookkeeping
        dead0 == pre.dead_tracking_chains@,
        post.dead_tracking_chains@.len() == dead0.len() + dead_src.len(),
        forall|i: int|
            0 <= i < dead0.len() ==> #[trigger] post.dead_tracking_chains@[i] == dead0[i],
        forall|i: int|
            0 <= i < dead_src.len() ==> 0 <= #[trigger] dead_src[i] < post_resolve.len() && (
            post.dead_tracking_chains@[dead0.len() + i]).nodes@
                == post_resolve[dead_src[i]].chain@,
        kept.len() == kept_src.len(),
        forall|i: int|
            0 <= i < kept_src.len() ==> 0 <= #[trigger] kept_src[i] < post_resolve.len() && kept[i]
                == post_resolve[kept_src[i]],
        forall|i1: int, i2: int|
            0 <= i1 < i2 < kept_src.len() ==> #[trigger] kept_src[i1] < #[trigger] kept_src[i2],
        forall|i1: int, i2: int|
            0 <= i1 < i2 < dead_src.len() ==> #[trigger] dead_src[i1] < #[trigger] dead_src[i2],
        forall|i1: int, i2: int|
            0 <= i1 < kept_src.len() && 0 <= i2 < dead_src.len() ==> #[trigger] kept_src[i1]
                != #[trigger] dead_src[i2],
        // final tracker list
        post.trackers@.len() == kept.len() + news.len(),
        forall|i: int| 0 <= i < kept.len() ==> #[trigger] post.trackers@[i] == kept[i],
        forall|i: int|
            0 <= i < news.len() ==> #[trigger] post.trackers@[kept.len() + i] == news[i],
    ensures
        post.wf(),
{
    let frames = pre.frames@;
    let nrec = frames[fidx].spec_num_records();
    let npre = pre_resolve.len();

    // Chains after resolution are valid and below the new cursor.
    assert forall|k: int|
        0 <= k < npre implies (#[trigger] pre_resolve[k]).chain@.len() >= 1 && nodes_below(
        pre_resolve[k].chain@,
        fidx,
    ) && chain_in_frames(pre_resolve[k].chain@, frames) && nodes_sorted(pre_resolve[k].chain@) by {
        assert(pre.trackers@[k].chain@ == pre_resolve[k].chain@);
    }
    lemma_resolved_chains(pre_resolve, post_resolve, frames, fidx, nrec);

    // Fresh trackers' chains are valid and below the new cursor.
    assert forall|i: int|
        0 <= i < news.len() implies (#[trigger] news[i]).chain@.len() >= 1 && nodes_below(
        news[i].chain@,
        fidx + 1,
    ) && chain_in_frames(news[i].chain@, frames) && nodes_sorted(news[i].chain@) by {
        if pre.resolver.resolving_strategy is BestMatch {
            assert(news[i].chain@.len() == 1);
        }
    }

    // Well-formedness of the final tracker list.
    assert forall|k: int|
        0 <= k < post.trackers@.len() implies (#[trigger] post.trackers@[k]).wf()
            && post.trackers@[k].memories@.len() == post.nf() && post.trackers@[k].chain@.len() >= 1
            && nodes_below(post.trackers@[k].chain@, fidx + 1) && chain_in_frames(
            post.trackers@[k].chain@,
            frames,
        ) by {
        if k < kept.len() {
            let s = kept_src[k];
            assert(post.trackers@[k] == post_resolve[s]);
            assert(crate::resolvers::resolver::same_identity(pre_resolve[s], post_resolve[s]));
            assert(pre_resolve[s].memories@.len() == pre.nf());
        } else {
            let i = k - kept.len();
            assert(post.trackers@[kept.len() + i] == news[i]);
            assert(post.trackers@[k] == news[i]);
        }
    }

    // Dead chains stay valid.
    assert forall|c: int|
        0 <= c < post.dead_tracking_chains@.len() implies chain_valid(
        (#[trigger] post.dead_tracking_chains@[c]).nodes@,
        frames,
    ) && nodes_below(post.dead_tracking_chains@[c].nodes@, fidx + 1) by {
        if c < dead0.len() {
            assert(post.dead_tracking_chains@[c] == dead0[c]);
            assert(chain_valid(dead0[c].nodes@, frames));
            assert(nodes_below(dead0[c].nodes@, fidx));
            assert forall|i: int|
                0 <= i < dead0[c].nodes@.len() implies (#[trigger] dead0[c].nodes@[i]).frame_idx
                    < fidx + 1 by {}
        } else {
            let s = dead_src[c - dead0.len()];
            assert(post.dead_tracking_chains@[c].nodes@ == post_resolve[s].chain@);
        }
    }

    // Disjointness under the best-match resolver.
    if post.resolver.resolving_strategy is BestMatch {
        let pre_all = pre.all_chains();
        assert(chains_disjoint(pre_all));
        let nd0 = dead0.len() as int;
        let nds = dead_src.len() as int;
        let nk = kept.len() as int;

        assert forall|c1: int, c2: int, i: int, j: int|
            0 <= c1 < c2 < post.all_chains().len() && 0 <= i < post.all_chains()[c1].len() && 0 <= j
                < post.all_chains()[c2].len() implies (#[trigger] post.all_chains()[c1][i]) != (
        #[trigger] post.all_chains()[c2][j]) by {
            let css = post.all_chains();
            let node1 = css[c1][i];
            let node2 = css[c2][j];
            let s1 = engine_chain_source(c1, nd0, nk, dead_src, kept_src);
            let s2 = engine_chain_source(c2, nd0, nk, dead_src, kept_src);
            lemma_chain_source_props(
                pre, post, pre_resolve, post_resolve, news, dead0, dead_src, kept_src, kept, fidx,
                c1,
            );
            lemma_chain_source_props(
                pre, post, pre_resolve, post_resolve, news, dead0, dead_src, kept_src, kept, fidx,
                c2,
            );
            if (s1 is Some) && (s2 is Some) {
                let o1 = s1->0;
                let o2 = s2->0;
                // The two chains stem from different old chains.
                if c1 < nd0 {
                    if c2 >= nd0 && c2 < nd0 + nds {
                        assert(o2 == nd0 + dead_src[c2 - nd0]);
                    } else if c2 >= nd0 + nds {
                        assert(o2 == nd0 + kept_src[c2 - nd0 - nds]);
                    }
                } else if c1 < nd0 + nds {
                    if c2 < nd0 + nds {
                        assert(dead_src[c1 - nd0] < dead_src[c2 - nd0]);
                    } else {
                        assert(kept_src[c2 - nd0 - nds] != dead_src[c1 - nd0]);
                    }
                } else {
                    assert(kept_src[c1 - nd0 - nds] < kept_src[c2 - nd0 - nds]);
                }
                assert(o1 != o2);

                lemma_pre_chain_below(pre, fidx, o1);
                lemma_pre_chain_below(pre, fidx, o2);
                let ext1: Option<int> = if css[c1] == pre_all[o1] {
                    None
                } else {
                    Some(css[c1].last().record_idx as int)
                };
                let ext2: Option<int> = if css[c2] == pre_all[o2] {
                    None
                } else {
                    Some(css[c2].last().record_idx as int)
                };
                if o1 >= nd0 {
                    assert(pre_all[o1] == pre.trackers@[o1 - nd0].chain@);
                    assert(pre_resolve[o1 - nd0].chain@ == pre.trackers@[o1 - nd0].chain@);
                }
                if o2 >= nd0 {
                    assert(pre_all[o2] == pre.trackers@[o2 - nd0].chain@);
                    assert(pre_resolve[o2 - nd0].chain@ == pre.trackers@[o2 - nd0].chain@);
                }
                lemma_node_classify(pre_all[o1], css[c1], fidx, i, ext1);
                lemma_node_classify(pre_all[o2], css[c2], fidx, j, ext2);
                if node1.frame_idx as int == fidx && node2.frame_idx as int == fidx {
                    let t1 = o1 - nd0;
                    let t2 = o2 - nd0;
                    assert(matched_rec(pre_resolve[t1], post_resolve[t1]) == Some(
                        node1.record_idx as int,
                    ));
                    assert(matched_rec(pre_resolve[t2], post_resolve[t2]) == Some(
                        node2.record_idx as int,
                    ));
                    if t1 < t2 {
                        assert(matched_rec(pre_resolve[t1], post_resolve[t1]) is Some);
                        assert(matched_rec(pre_resolve[t2], post_resolve[t2]) is Some);
                    } else {
                        assert(matched_rec(pre_resolve[t2], post_resolve[t2]) is Some);
                        assert(matched_rec(pre_resolve[t1], post_resolve[t1]) is Some);
                    }
                    assert(node1.record_idx != node2.record_idx);
                } else if node1.frame_idx as int == fidx || node2.frame_idx as int == fidx {
                    assert(node1.frame_idx != node2.frame_idx);
                } else {
                    assert(node1 == pre_all[o1][i]);
                    assert(node2 == pre_all[o2][j]);
                    if o1 < o2 {
                        assert(pre_all[o1][i] != pre_all[o2][j]);
                    } else {
                        assert(pre_all[o2][j] != pre_all[o1][i]);
                    }
                }
            } else if (s1 is Some) {
                let o1 = s1->0;
                let i2 = c2 - nd0 - nds - nk;
                assert(css[c2] == news[i2].chain@);
                assert(news[i2].chain@.len() == 1);
                assert(node2 == news[i2].chain@[0]);
                assert(node2.frame_idx as int == fidx);
                let r2 = node2.record_idx as int;
                assert(crate::resolvers::resolver::record_spawned(news, r2));
                assert(!crate::resolvers::resolver::record_matched(
                    pre_resolve,
                    post_resolve,
                    r2,
                ));
                lemma_pre_chain_below(pre, fidx, o1);
                let ext1: Option<int> = if css[c1] == pre_all[o1] {
                    None
                } else {
                    Some(css[c1].last().record_idx as int)
                };
                lemma_node_classify(pre_all[o1], css[c1], fidx, i, ext1);
                if node1.frame_idx as int == fidx {
                    let t1 = o1 - nd0;
                    assert(matched_rec(pre_resolve[t1], post_resolve[t1]) == Some(
                        node1.record_idx as int,
                    ));
                    assert(crate::resolvers::resolver::record_matched(
                        pre_resolve,
                        post_resolve,
                        node1.record_idx as int,
                    ));
                    assert(node1.record_idx != node2.record_idx);
                } else {
                    assert(node1.frame_idx != node2.frame_idx);
                }
            } else if (s2 is Some) {
                let o2 = s2->0;
                let i1 = c1 - nd0 - nds - nk;
                assert(css[c1] == news[i1].chain@);
                assert(news[i1].chain@.len() == 1);
                assert(node1 == news[i1].chain@[0]);
                assert(node1.frame_idx as int == fidx);
                let r1 = node1.record_idx as int;
                assert(crate::resolvers::resolver::record_spawned(news, r1));
                assert(!crate::resolvers::resolver::record_matched(
                    pre_resolve,
                    post_resolve,
                    r1,
                ));
                lemma_pre_chain_below(pre, fidx, o2);
                let ext2: Option<int> = if css[c2] == pre_all[o2] {
                    None
                } else {
                    Some(css[c2].last().record_idx as int)
                };
                lemma_node_classify(pre_all[o2], css[c2], fidx, j, ext2);
                if node2.frame_idx as int == fidx {
                    let t2 = o2 - nd0;
                    assert(matched_rec(pre_resolve[t2], post_resolve[t2]) == Some(
                        node2.record_idx as int,
                    ));
                    assert(crate::resolvers::resolver::record_matched(
                        pre_resolve,
                        post_resolve,
                        node2.record_idx as int,
                    ));
                    assert(node1.record_idx != node2.record_idx);
                } else {
                    assert(node1.frame_idx != node2.frame_idx);
                }
            } else {
                let i1 = c1 - nd0 - nds - nk;
                let i2 = c2 - nd0 - nds - nk;
                assert(css[c1] == news[i1].chain@);
                assert(css[c2] == news[i2].chain@);
                assert(node1 == news[i1].chain@[0]);
                assert(node2 == news[i2].chain@[0]);
                assert(news[i1].chain@[0].record_idx < news[i2].chain@[0].record_idx);
                assert(node1.record_idx != node2.record_idx);
            }
        }
    }
}


/// Every chain the engine owned before the step lies below the frame cursor.
proof fn lemma_pre_chain_below(pre: TrackingEngine, fidx: int, o: int)
    requires
        pre.wf(),
        fidx == pre.next_frame_idx as int,
        0 <= o < pre.all_chains().len(),
    ensures
        nodes_below(pre.all_chains()[o], fidx),
        o >= pre.dead_tracking_chains@.len() ==> pre.all_chains()[o]
            == pre.trackers@[o - pre.dead_tracking_chains@.len()].chain@,
        o < pre.dead_tracking_chains@.len() ==> pre.all_chains()[o]
            == pre.dead_tracking_chains@[o].nodes@,
{
    let nd0 = pre.dead_tracking_chains@.len() as int;
    if o < nd0 {
        assert(pre.all_chains()[o] == pre.dead_tracking_chains@[o].nodes@);
    } else {
        assert(pre.all_chains()[o] == pre.trackers@[o - nd0].chain@);
    }
}

/// A node of a possibly-extended chain is either the appended node of the
/// current frame or a node of the old chain, below the current frame.
proof fn lemma_node_classify(
    old_chain: Seq<ChainNode>,
    chain: Seq<ChainNode>,
    fidx: int,
    i: int,
    ext_rec: Option<int>,
)
    requires
        nodes_below(old_chain, fidx),
        match ext_rec {
            None => chain == old_chain,
            Some(rec) => chain == old_chain.push(chain.last()) && chain.last().frame_idx as int
                == fidx && chain.last().record_idx as int == rec,
        },
        0 <= i < chain.len(),
    ensures
        (chain[i].frame_idx as int) <= fidx,
        chain[i].frame_idx as int == fidx ==> ext_rec is Some && chain[i].record_idx as int
            == ext_rec->0,
        (chain[i].frame_idx as int) < fidx ==> i < old_chain.len() && chain[i] == old_chain[i],
{
    match ext_rec {
        None => {
            assert(chain[i] == old_chain[i]);
        },
        Some(rec) => {
            if i < chain.len() - 1 {
                assert(chain[i] == old_chain[i]);
            } else {
                assert(chain[i] == chain.last());
            }
        },
    }
}

/// Which old configuration chain a new configuration chain came from, if it
/// is not a freshly spawned tracker. Old chains are indexed as in
/// `pre.all_chains()`: finished chains first, then the trackers.
pub open spec fn engine_chain_source(
    c: int,
    nd0: int,
    nkept: int,
    dead_src: Seq<int>,
    kept_src: Seq<int>,
) -> Option<int> {
    if c < nd0 {
        Some(c)
    } else if c < nd0 + dead_src.len() {
        Some(nd0 + dead_src[c - nd0])
    } else if c < nd0 + dead_src.len() + nkept {
        Some(nd0 + kept_src[c - nd0 - dead_src.len()])
    } else {
        None
    }
}

/// What each source tells us about the chain: an old-sourced chain is the old
/// chain possibly extended by one node of the current frame whose record no
/// other old-sourced chain shares; a fresh chain is a single current-frame
/// node whose record no old-sourced chain matched and no other fresh chain
/// holds.
#[verifier::rlimit(100)]
proof fn lemma_chain_source_props(
    pre: TrackingEngine,
    post: TrackingEngine,
    pre_resolve: Seq<Tracker>,
    post_resolve: Seq<Tracker>,
    news: Seq<Tracker>,
    dead0: Seq<TrackingChain>,
    dead_src: Seq<int>,
    kept_src: Seq<int>,
    kept: Seq<Tracker>,
    fidx: int,
    c: int,
)
    requires
        pre.wf(),
        pre.resolver.resolving_strategy is BestMatch,
        1 <= fidx < pre.frames@.len(),
        fidx == pre.next_frame_idx as int,
        post.frames@ == pre.frames@,
        post.resolver == pre.resolver,
        pre_resolve.len() == pre.trackers@.len(),
        forall|k: int|
            0 <= k < pre_resolve.len() ==> crate::trackers::tracker::unchanged_but_diagnostics(
                pre.trackers@[k],
                #[trigger] pre_resolve[k],
            ) && pre_resolve[k].wf(),
        crate::resolvers::resolver::resolve_outcome(
            pre_resolve,
            post_resolve,
            fidx,
            pre.frames@[fidx].spec_num_records(),
        ),
        crate::resolvers::resolver::matches_injective(pre_resolve, post_resolve),
        crate::resolvers::resolver::spawned_ok(
            news,
            fidx,
            pre.frames@[fidx].spec_num_records(),
            pre.nf(),
        ),
        crate::resolvers::resolver::spawn_covers(
            pre_resolve,
            post_resolve,
            news,
            pre.frames@[fidx].spec_num_records(),
        ),
        dead0 == pre.dead_tracking_chains@,
        post.dead_tracking_chains@.len() == dead0.len() + dead_src.len(),
        forall|i: int|
            0 <= i < dead0.len() ==> #[trigger] post.dead_tracking_chains@[i] == dead0[i],
        forall|i: int|
            0 <= i < dead_src.len() ==> 0 <= #[trigger] dead_src[i] < post_resolve.len() && (
            post.dead_tracking_chains@[dead0.len() + i]).nodes@
                == post_resolve[dead_src[i]].chain@,
        kept.len() == kept_src.len(),
        forall|i: int|
            0 <= i < kept_src.len() ==> 0 <= #[trigger] kept_src[i] < post_resolve.len() && kept[i]
                == post_resolve[kept_src[i]],
        forall|i1: int, i2: int|
            0 <= i1 < i2 < kept_src.len() ==> #[trigger] kept_src[i1] < #[trigger] kept_src[i2],
        forall|i1: int, i2: int|
            0 <= i1 < i2 < dead_src.len() ==> #[trigger] dead_src[i1] < #[trigger] dead_src[i2],
        forall|i1: int, i2: int|
            0 <= i1 < kept_src.len() && 0 <= i2 < dead_src.len() ==> #[trigger] kept_src[i1]
                != #[trigger] dead_src[i2],
        post.trackers@.len() == kept.len() + news.len(),
        forall|i: int| 0 <= i < kept.len() ==> #[trigger] post.trackers@[i] == kept[i],
        forall|i: int|
            0 <= i < news.len() ==> #[trigger] post.trackers@[kept.len() + i] == news[i],
        0 <= c < post.all_chains().len(),
    ensures
        ({
            let src = engine_chain_source(
                c,
                dead0.len() as int,
                kept.len() as int,
                dead_src,
                kept_src,
            );
            match src {
                Some(o) => 0 <= o < pre.all_chains().len() && (post.all_chains()[c]
                    == pre.all_chains()[o] || (o >= dead0.len() && post.all_chains()[c]
                    == pre.all_chains()[o].push(post.all_chains()[c].last())
                    && post.all_chains()[c].last().frame_idx as int == fidx && matched_rec(
                    pre_resolve[o - dead0.len()],
                    post_resolve[o - dead0.len()],
                ) == Some(post.all_chains()[c].last().record_idx as int))),
                None => {
                    let i = c - dead0.len() - dead_src.len() - kept.len();
                    0 <= i < news.len() && post.all_chains()[c] == news[i].chain@
                },
            }
        }),
{
    let nd0 = dead0.len() as int;
    let css = post.all_chains();
    if c < nd0 {
        assert(css[c] == post.dead_tracking_chains@[c].nodes@);
        assert(pre.all_chains()[c] == dead0[c].nodes@);
    } else if c < nd0 + dead_src.len() {
        let s = dead_src[c - nd0];
        assert(css[c] == post.dead_tracking_chains@[c].nodes@);
        assert(css[c] == post_resolve[s].chain@);
        assert(pre.all_chains()[nd0 + s] == pre.trackers@[s].chain@);
        assert(pre_resolve[s].chain@ == pre.trackers@[s].chain@);
    } else if c < nd0 + dead_src.len() + kept.len() {
        let i = c - nd0 - dead_src.len();
        let s = kept_src[i];
        assert(css[c] == post.trackers@[i].chain@);
        assert(post.trackers@[i] == post_resolve[s]);
        assert(pre.all_chains()[nd0 + s] == pre.trackers@[s].chain@);
        assert(pre_resolve[s].chain@ == pre.trackers@[s].chain@);
    } else {
        let i = c - nd0 - dead_src.len() - kept.len();
        assert(css[c] == post.trackers@[kept.len() + i].chain@);
    }
}

} // verus!
