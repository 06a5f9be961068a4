//! The tracker: per-entity state that accumulates a chain of matched records,
//! keeps one memory per field, and scores every record of a new frame against
//! those memories. Scoring is a pure function of the tracker's state and the
//! frame, so any partitioning of trackers over workers yields the same scores.

use vstd::prelude::*;
use crate::diagnostics::{TrackerDiagnostics, TrackerFrameDiagnostics, TrackerRecordDiagnostics};
use crate::distances::distance_calculator::{elem_sim, opt_wide, CachedDistanceCalculator};
use crate::distances::distance_metric::{WordMetric, SCORE_ONE};
use crate::frame::{clone_element, ElemV, Element, Frame, Record};
use crate::id::ID;
use crate::tracking_graph::ChainNode;
use crate::word::Word;
use crate::trackers::record_scorer::{average_score_spec, opts_view, sims_on_scale, weighted_quad_score_spec, weighted_score_spec, AverageRecordScorer, WeightedAverageRecordScorer, WeightedQuadraticRecordScorer};
use crate::trackers::tracker_memory::{BruteForceMemory, InnerMemory, LongShortTermMemory, MedianWordMemory, MostFrequentMemory, TrackerMemory};

verus! {

/// The finished trace of one tracker: its identifier and the chain of matched
/// positions, in ascending frame order.
pub struct TrackingChain {
    pub id: ID,
    pub nodes: Vec<ChainNode>,
}

impl TrackingChain {
    pub fn new(id: ID, nodes: Vec<ChainNode>) -> (c: Self)
        ensures
            c.id == id,
            c.nodes@ == nodes@,
    {
        Self { id, nodes }
    }
}

/// A record index with the score a tracker assigned it.
#[derive(Clone, Copy, Debug, PartialEq, Eq, Structural)]
pub struct RecordScore {
    pub idx: usize,
    pub score: u64,
}

impl RecordScore {
    pub fn new(idx: usize, score: u64) -> (r: Self)
        ensures
            r.idx == idx,
            r.score == score,
    {
        Self { idx, score }
    }
}

/// Which memory policy a tracker keeps per field.
#[derive(Clone, Copy, Debug, PartialEq, Eq, Structural)]
pub enum TrackerMemoryStrategy {
    BruteForce,
    MostFrequent,
    Median,
    LSBruteForce,
    LSMostFrequent,
    LSMedian,
}

/// Which record scorer a tracker uses, with its parameters. Weights are
/// per-field; the ratio is on the `[0, SCORE_ONE]` scale.
#[derive(Debug)]
pub enum TrackerRecordScorerConfig {
    Average,
    WeightedAverage(Vec<u32>, u64),
    WeightedQuadratic(Vec<u32>, u64),
}

/// Whether two scorer configurations carry the same values.
pub open spec fn scorer_cfg_eq(a: TrackerRecordScorerConfig, b: TrackerRecordScorerConfig) -> bool {
    match (a, b) {
        (TrackerRecordScorerConfig::Average, TrackerRecordScorerConfig::Average) => true,
        (
            TrackerRecordScorerConfig::WeightedAverage(w1, r1),
            TrackerRecordScorerConfig::WeightedAverage(w2, r2),
        ) => w1@ == w2@ && r1 == r2,
        (
            TrackerRecordScorerConfig::WeightedQuadratic(w1, r1),
            TrackerRecordScorerConfig::WeightedQuadratic(w2, r2),
        ) => w1@ == w2@ && r1 == r2,
        _ => false,
    }
}

/// A scorer configuration fits a field count when its weights cover every
/// field and its ratio lies on the scale.
pub open spec fn scorer_cfg_wf(c: TrackerRecordScorerConfig, nfields: int) -> bool {
    match c {
        TrackerRecordScorerConfig::Average => true,
        TrackerRecordScorerConfig::WeightedAverage(w, r) => w@.len() == nfields && r <= SCORE_ONE,
        TrackerRecordScorerConfig::WeightedQuadratic(w, r) => w@.len() == nfields && r
            <= SCORE_ONE,
    }
}

/// A fresh copy of a scorer configuration with the same values.
pub fn clone_scorer_cfg(c: &TrackerRecordScorerConfig) -> (r: TrackerRecordScorerConfig)
    ensures
        scorer_cfg_eq(*c, r),
{
    match c {
        TrackerRecordScorerConfig::Average => TrackerRecordScorerConfig::Average,
        TrackerRecordScorerConfig::WeightedAverage(w, ratio) => {
            TrackerRecordScorerConfig::WeightedAverage(clone_weights(w), *ratio)
        },
        TrackerRecordScorerConfig::WeightedQuadratic(w, ratio) => {
            TrackerRecordScorerConfig::WeightedQuadratic(clone_weights(w), *ratio)
        },
    }
}

/// A fresh copy of a weight vector.
pub fn clone_weights(w: &Vec<u32>) -> (r: Vec<u32>)
    ensures
        r@ == w@,
{
    let mut out: Vec<u32> = Vec::new();
    let mut i: usize = 0;
    while i < w.len()
        invariant
            i <= w@.len(),
            out@ == w@.take(i as int),
        decreases w@.len() - i,
    {
        out.push(w[i]);
        proof {
            assert(out@ =~= w@.take(i + 1));
        }
        i += 1;
    }
    proof {
        assert(w@.take(w@.len() as int) =~= w@);
    }
    out
}

/// Everything a tracker needs to know at construction.
#[derive(Debug)]
pub struct InternalTrackerConfig {
    pub interest_threshold: u64,
    pub limit_no_match_streak: usize,
    pub memory_strategy: TrackerMemoryStrategy,
    pub record_scorer: TrackerRecordScorerConfig,
}

/// Whether two tracker configurations carry the same values.
pub open spec fn cfg_eq(a: InternalTrackerConfig, b: InternalTrackerConfig) -> bool {
    &&& a.interest_threshold == b.interest_threshold
    &&& a.limit_no_match_streak == b.limit_no_match_streak
    &&& a.memory_strategy == b.memory_strategy
    &&& scorer_cfg_eq(a.record_scorer, b.record_scorer)
}

/// The memory variant each strategy builds, fresh: matching kind, nothing
/// remembered yet.
pub open spec fn mem_matches_strategy(m: TrackerMemory, st: TrackerMemoryStrategy) -> bool {
    match st {
        TrackerMemoryStrategy::BruteForce => m is BruteForce,
        TrackerMemoryStrategy::MostFrequent => m is MostFrequent,
        TrackerMemoryStrategy::Median => m is Median,
        TrackerMemoryStrategy::LSBruteForce => (m matches TrackerMemory::LongShortTerm(l)
            && l.long_memory is BruteForce),
        TrackerMemoryStrategy::LSMostFrequent => (m matches TrackerMemory::LongShortTerm(l)
            && l.long_memory is MostFrequent),
        TrackerMemoryStrategy::LSMedian => (m matches TrackerMemory::LongShortTerm(l)
            && l.long_memory is Median),
    }
}

/// The scorer each scorer configuration builds: the same variant, carrying
/// the configuration's weights and ratio.
pub open spec fn scorer_matches(s: RecordScorer, c: TrackerRecordScorerConfig) -> bool {
    match c {
        TrackerRecordScorerConfig::Average => s is Average,
        TrackerRecordScorerConfig::WeightedAverage(w, r) => (s
            matches RecordScorer::WeightedAverage(x) && x.weights@ == w@ && x.min_weight_ratio
            == r),
        TrackerRecordScorerConfig::WeightedQuadratic(w, r) => (s
            matches RecordScorer::WeightedQuadratic(x) && x.weights@ == w@ && x.min_weight_ratio
            == r),
    }
}

/// A configuration fits a field count when its scorer does.
pub open spec fn cfg_wf(c: InternalTrackerConfig, nfields: int) -> bool {
    scorer_cfg_wf(c.record_scorer, nfields)
}

/// Configurations with the same values fit the same field counts.
pub proof fn lemma_cfg_eq_wf(a: InternalTrackerConfig, b: InternalTrackerConfig, n: int)
    requires
        cfg_eq(a, b),
        cfg_wf(a, n),
    ensures
        cfg_wf(b, n),
{
}

/// A fresh copy of a tracker configuration with the same values.
pub fn clone_config(c: &InternalTrackerConfig) -> (r: InternalTrackerConfig)
    ensures
        cfg_eq(*c, r),
{
    InternalTrackerConfig {
        interest_threshold: c.interest_threshold,
        limit_no_match_streak: c.limit_no_match_streak,
        memory_strategy: c.memory_strategy,
        record_scorer: clone_scorer_cfg(&c.record_scorer),
    }
}

/// A record scorer instance.
pub enum RecordScorer {
    Average(AverageRecordScorer),
    WeightedAverage(WeightedAverageRecordScorer),
    WeightedQuadratic(WeightedQuadraticRecordScorer),
}

impl RecordScorer {
    /// The scorer fits a field count.
    pub open spec fn wf_for(self, nfields: int) -> bool {
        match self {
            RecordScorer::Average(_) => true,
            RecordScorer::WeightedAverage(s) => s.weights@.len() == nfields
                && s.min_weight_ratio <= SCORE_ONE,
            RecordScorer::WeightedQuadratic(s) => s.weights@.len() == nfields
                && s.min_weight_ratio <= SCORE_ONE,
        }
    }

    /// The score this policy assigns to a vector of per-field similarities.
    pub open spec fn score_spec(self, s: Seq<Option<int>>) -> int {
        match self {
            RecordScorer::Average(_) => average_score_spec(s),
            RecordScorer::WeightedAverage(sc) => weighted_score_spec(
                sc.weights@,
                s,
                sc.min_weight_ratio as int,
            ),
            RecordScorer::WeightedQuadratic(sc) => weighted_quad_score_spec(
                sc.weights@,
                s,
                sc.min_weight_ratio as int,
            ),
        }
    }

    pub fn score(&self, scores: &Vec<Option<u64>>) -> (r: u64)
        requires
            sims_on_scale(opts_view(scores@)),
            self.wf_for(scores@.len() as int),
        ensures
            r == self.score_spec(opts_view(scores@)),
            0 <= r <= SCORE_ONE,
    {
        match self {
            RecordScorer::Average(s) => s.score(scores),
            RecordScorer::WeightedAverage(s) => s.score(scores),
            RecordScorer::WeightedQuadratic(s) => s.score(scores),
        }
    }
}

/// Chain nodes in strictly increasing frame order: at most one node per
/// frame, frames only move forward.
pub open spec fn nodes_sorted(nodes: Seq<ChainNode>) -> bool {
    forall|k: int, l: int|
        0 <= k < l < nodes.len() ==> (#[trigger] nodes[k]).frame_idx < (#[trigger] nodes[l]).frame_idx
}

/// Every node lies before the given frame.
pub open spec fn nodes_below(nodes: Seq<ChainNode>, frame_idx: int) -> bool {
    forall|k: int| 0 <= k < nodes.len() ==> (#[trigger] nodes[k]).frame_idx < frame_idx
}

/// The best similarity any of the first `k` memory elements reaches against a
/// cell, if any pairing carries evidence.
pub open spec fn best_sim_upto(m: WordMetric, mem: Seq<ElemV>, cell: ElemV, k: int) -> Option<int>
    decreases k,
{
    if k <= 0 {
        None
    } else {
        match (best_sim_upto(m, mem, cell, k - 1), elem_sim(m, mem[k - 1], cell)) {
            (None, x) => x,
            (Some(v), None) => Some(v),
            (Some(v), Some(w)) => Some(
                if w > v {
                    w
                } else {
                    v
                },
            ),
        }
    }
}

/// The per-field distance of one cell against a memory: the best similarity
/// over the remembered elements, or no evidence.
pub open spec fn field_dist(mo: Option<WordMetric>, mem: Seq<ElemV>, cell: ElemV) -> Option<int> {
    match mo {
        None => None,
        Some(m) => best_sim_upto(m, mem, cell, mem.len() as int),
    }
}

/// The metric behind an optional one, with a default for spec bookkeeping.
pub open spec fn arb_metric(o: Option<WordMetric>) -> WordMetric {
    match o {
        Some(m) => m,
        None => WordMetric::Lv(crate::distances::distance_metric::LvDistanceMetric {  }),
    }
}

/// The scorer configuration's ratio lies on the scale.
pub open spec fn scorer_ratio_ok(c: TrackerRecordScorerConfig) -> bool {
    match c {
        TrackerRecordScorerConfig::Average => true,
        TrackerRecordScorerConfig::WeightedAverage(_, r) => r <= SCORE_ONE,
        TrackerRecordScorerConfig::WeightedQuadratic(_, r) => r <= SCORE_ONE,
    }
}

/// The metric (if any) each calculator applies.
pub open spec fn metrics_of(calcs: Seq<CachedDistanceCalculator>) -> Seq<Option<WordMetric>> {
    calcs.map_values(|c: CachedDistanceCalculator| c.metric_spec())
}

/// All calculators are well formed.
pub open spec fn calcs_wf(calcs: Seq<CachedDistanceCalculator>) -> bool {
    forall|i: int| 0 <= i < calcs.len() ==> (#[trigger] calcs[i]).wf()
}

/// The raw strings one memory cell contributes to a diagnostics snapshot.
pub open spec fn cell_strings(c: ElemV) -> Seq<Seq<char>> {
    match c {
        ElemV::Word(s) => seq![s],
        ElemV::MultiWords(ws) => ws,
        ElemV::Missing => Seq::empty(),
    }
}

/// The raw strings of a memory's remembered cells, in order.
pub open spec fn mem_strings(cells: Seq<ElemV>) -> Seq<Seq<char>>
    decreases cells.len(),
{
    if cells.len() == 0 {
        Seq::empty()
    } else {
        mem_strings(cells.drop_last()) + cell_strings(cells.last())
    }
}

/// The per-field distances of record `r`, as the scorer sees them.
pub open spec fn row_dists(
    ms: Seq<Option<WordMetric>>,
    mems: Seq<TrackerMemory>,
    cols: Seq<Seq<ElemV>>,
    r: int,
) -> Seq<Option<int>> {
    Seq::new(cols.len(), |f: int| field_dist(ms[f], mems[f].remembered(), cols[f][r]))
}

/// The score a tracker's scorer assigns to record `r` of a frame.
pub open spec fn rec_score(
    scorer: RecordScorer,
    ms: Seq<Option<WordMetric>>,
    mems: Seq<TrackerMemory>,
    cols: Seq<Seq<ElemV>>,
    r: int,
) -> int {
    scorer.score_spec(row_dists(ms, mems, cols, r))
}

/// The records among the first `k` whose score clears the interest threshold,
/// in record order.
pub open spec fn interesting_upto(
    scorer: RecordScorer,
    threshold: int,
    ms: Seq<Option<WordMetric>>,
    mems: Seq<TrackerMemory>,
    cols: Seq<Seq<ElemV>>,
    k: int,
) -> Seq<RecordScore>
    decreases k,
{
    if k <= 0 {
        Seq::empty()
    } else {
        let s = rec_score(scorer, ms, mems, cols, k - 1);
        interesting_upto(scorer, threshold, ms, mems, cols, k - 1) + if s > threshold {
            seq![RecordScore { idx: (k - 1) as usize, score: s as u64 }]
        } else {
            Seq::<RecordScore>::empty()
        }
    }
}

/// Stable insertion into a descending list: the new entry goes after every
/// entry that scores at least as high.
pub open spec fn insert_desc(s: Seq<RecordScore>, x: RecordScore) -> Seq<RecordScore>
    decreases s.len(),
{
    if s.len() == 0 {
        seq![x]
    } else if s[0].score >= x.score {
        seq![s[0]] + insert_desc(s.drop_first(), x)
    } else {
        seq![x] + s
    }
}

/// Stable descending sort by score: entries with equal scores keep their
/// original order.
pub open spec fn sort_desc(s: Seq<RecordScore>) -> Seq<RecordScore>
    decreases s.len(),
{
    if s.len() == 0 {
        Seq::empty()
    } else {
        insert_desc(sort_desc(s.drop_last()), s.last())
    }
}

/// Inserting at the position the exec search finds is the stable insertion.
proof fn lemma_insert_desc_split(s: Seq<RecordScore>, x: RecordScore, pos: int)
    requires
        0 <= pos <= s.len(),
        forall|j: int| 0 <= j < pos ==> (#[trigger] s[j]).score >= x.score,
        pos < s.len() ==> s[pos].score < x.score,
    ensures
        insert_desc(s, x) =~= s.take(pos) + seq![x] + s.skip(pos),
    decreases s.len(),
{
    if pos == 0 {
        if s.len() == 0 {
            assert(insert_desc(s, x) =~= seq![x]);
        }
    } else {
        let rest = s.drop_first();
        assert forall|j: int| 0 <= j < pos - 1 implies (#[trigger] rest[j]).score >= x.score by {
            assert(rest[j] == s[j + 1]);
        }
        lemma_insert_desc_split(rest, x, pos - 1);
    }
}

/// The tracker: identifier, configuration, the chain built so far, one memory
/// per field, the scorer, the diagnostics trace, and the current run of
/// frames without a match.
pub struct Tracker {
    pub id: ID,
    pub config: InternalTrackerConfig,
    pub chain: Vec<ChainNode>,
    pub memories: Vec<TrackerMemory>,
    pub record_scorer: RecordScorer,
    pub diagnostics: TrackerDiagnostics,
    pub no_match_streak: usize,
}

impl Tracker {
    /// Memories and scorer fit the field count, every memory is well formed,
    /// and the chain is strictly ascending.
    pub open spec fn wf(self) -> bool {
        &&& self.memories@.len() > 0
        &&& forall|i: int| 0 <= i < self.memories@.len() ==> (#[trigger] self.memories@[i]).wf()
        &&& self.record_scorer.wf_for(self.memories@.len() as int)
        &&& nodes_sorted(self.chain@)
    }

    /// Builds one memory per the configured strategy.
    pub fn build_tracker_memory(memory_strategy: TrackerMemoryStrategy) -> (m: TrackerMemory)
        ensures
            m.wf(),
            m.remembered() == Seq::<ElemV>::empty(),
            mem_matches_strategy(m, memory_strategy),
    {
        let m = match memory_strategy {
            TrackerMemoryStrategy::BruteForce => TrackerMemory::BruteForce(BruteForceMemory::new()),
            TrackerMemoryStrategy::MostFrequent => TrackerMemory::MostFrequent(
                MostFrequentMemory::new(),
            ),
            TrackerMemoryStrategy::Median => TrackerMemory::Median(MedianWordMemory::new()),
            TrackerMemoryStrategy::LSBruteForce => TrackerMemory::LongShortTerm(
                LongShortTermMemory::new(InnerMemory::BruteForce(BruteForceMemory::new())),
            ),
            TrackerMemoryStrategy::LSMostFrequent => TrackerMemory::LongShortTerm(
                LongShortTermMemory::new(InnerMemory::MostFrequent(MostFrequentMemory::new())),
            ),
            TrackerMemoryStrategy::LSMedian => TrackerMemory::LongShortTerm(
                LongShortTermMemory::new(InnerMemory::Median(MedianWordMemory::new())),
            ),
        };
        proof {
            assert(m.remembered() =~= Seq::<ElemV>::empty());
        }
        m
    }

    /// Builds the scorer the configuration names.
    pub fn build_record_scorer(record_scorer_config: &TrackerRecordScorerConfig) -> (s: RecordScorer)
        requires
            scorer_ratio_ok(*record_scorer_config),
        ensures
            forall|n: int|
                scorer_cfg_wf(*record_scorer_config, n) ==> s.wf_for(n),
            scorer_matches(s, *record_scorer_config),
    {
        match record_scorer_config {
            TrackerRecordScorerConfig::Average => RecordScorer::Average(AverageRecordScorer::new()),
            TrackerRecordScorerConfig::WeightedAverage(w, ratio) => RecordScorer::WeightedAverage(
                WeightedAverageRecordScorer::new(clone_weights(w), *ratio),
            ),
            TrackerRecordScorerConfig::WeightedQuadratic(w, ratio) => {
                RecordScorer::WeightedQuadratic(
                    WeightedQuadraticRecordScorer::new(clone_weights(w), *ratio),
                )
            },
        }
    }

    /// A fresh tracker with an empty chain, one empty memory per field and a
    /// zero no-match streak.
    pub fn new(config: InternalTrackerConfig, num_features: usize, id: ID) -> (t: Tracker)
        requires
            num_features > 0,
            cfg_wf(config, num_features as int),
        ensures
            t.wf(),
            t.id == id,
            t.chain@.len() == 0,
            t.memories@.len() == num_features,
            t.no_match_streak == 0,
            cfg_eq(t.config, config),
            t.config == config,
            forall|f: int|
                0 <= f < num_features ==> (#[trigger] t.memories@[f]).remembered() == Seq::<
                    ElemV,
                >::empty(),
            forall|f: int|
                0 <= f < num_features ==> mem_matches_strategy(
                    #[trigger] t.memories@[f],
                    config.memory_strategy,
                ),
            scorer_matches(t.record_scorer, config.record_scorer),
    {
        let mut memories: Vec<TrackerMemory> = Vec::new();
        let mut i: usize = 0;
        while i < num_features
            invariant
                i <= num_features,
                memories@.len() == i,
                forall|f: int| 0 <= f < i ==> (#[trigger] memories@[f]).wf(),
                forall|f: int|
                    0 <= f < i ==> (#[trigger] memories@[f]).remembered() == Seq::<
                        ElemV,
                    >::empty(),
                forall|f: int|
                    0 <= f < i ==> mem_matches_strategy(
                        #[trigger] memories@[f],
                        config.memory_strategy,
                    ),
            decreases num_features - i,
        {
            memories.push(Self::build_tracker_memory(config.memory_strategy));
            i += 1;
        }
        let record_scorer = Self::build_record_scorer(&config.record_scorer);
        Tracker {
            id,
            chain: Vec::new(),
            memories,
            record_scorer,
            config,
            diagnostics: TrackerDiagnostics::new(id),
            no_match_streak: 0,
        }
    }

    /// The tracker's identifier.
    pub fn id(&self) -> (r: ID)
        ensures
            r == self.id,
    {
        self.id
    }

    /// Hands the diagnostics out and starts a fresh trace.
    pub fn take_diagnostics(&mut self) -> (d: TrackerDiagnostics)
        ensures
            d == old(self).diagnostics,
            final(self).diagnostics.id == old(self).id,
            final(self).diagnostics.frames@.len() == 0,
            unchanged_but_diagnostics(*old(self), *final(self)),
    {
        let mut d = TrackerDiagnostics::new(self.id);
        core::mem::swap(&mut self.diagnostics, &mut d);
        d
    }

    /// The chain built so far, under the tracker's identifier.
    pub fn get_tracking_chain(&self) -> (c: TrackingChain)
        ensures
            c.id == self.id,
            c.nodes@ == self.chain@,
    {
        let nodes = clone_nodes(&self.chain);
        TrackingChain::new(self.id, nodes)
    }

    /// The elements one field's memory offers for scoring.
    pub fn get_memory_elements(&self, feature_idx: usize) -> (r: Vec<Element>)
        requires
            self.wf(),
            feature_idx < self.memories@.len(),
        ensures
            r@.map_values(|e: Element| e@) == self.memories@[feature_idx as int].remembered(),
    {
        self.memories[feature_idx].get_elements()
    }

    /// A tracker dies once its no-match streak reaches the configured limit.
    pub fn is_dead(&self) -> (r: bool)
        ensures
            r == (self.no_match_streak >= self.config.limit_no_match_streak),
    {
        self.no_match_streak >= self.config.limit_no_match_streak
    }

    /// Notes that the current frame matched nothing: the streak grows, the
    /// chain and memories stand.
    pub fn signal_no_matching_node(&mut self)
        ensures
            final(self).no_match_streak == if old(self).no_match_streak == usize::MAX {
                usize::MAX as int
            } else {
                old(self).no_match_streak + 1
            },
            final(self).chain@ == old(self).chain@,
            final(self).memories@ == old(self).memories@,
            final(self).id == old(self).id,
            final(self).config == old(self).config,
            final(self).record_scorer == old(self).record_scorer,
            final(self).diagnostics == old(self).diagnostics,
            old(self).wf() ==> final(self).wf(),
    {
        if self.no_match_streak < usize::MAX {
            self.no_match_streak = self.no_match_streak + 1;
        }
    }

    /// Appends the matched node to the chain, feeds the record into the
    /// per-field memories, and resets the no-match streak.
    pub fn signal_matching_node(&mut self, node: ChainNode, record: Record)
        requires
            old(self).wf(),
            record@.len() == old(self).memories@.len(),
            record.wf(),
            nodes_below(old(self).chain@, node.frame_idx as int),
        ensures
            final(self).wf(),
            final(self).chain@ == old(self).chain@.push(node),
            final(self).memories@.len() == old(self).memories@.len(),
            forall|f: int|
                0 <= f < old(self).memories@.len()
                    ==> crate::trackers::tracker_memory::mem_step(
                    old(self).memories@[f],
                    #[trigger] final(self).memories@[f],
                    record@[f],
                ),
            final(self).id == old(self).id,
            final(self).config == old(self).config,
            final(self).record_scorer == old(self).record_scorer,
            final(self).diagnostics == old(self).diagnostics,
            final(self).no_match_streak == 0,
    {
        self.chain.push(node);
        proof {
            assert(nodes_sorted(self.chain@));
        }
        self.no_match_streak = 0;
        let n = self.memories.len();
        let mut updated: Vec<TrackerMemory> = Vec::new();
        let mut k: usize = 0;
        while k < n
            invariant
                n == record@.len(),
                n == old(self).memories@.len(),
                record.wf(),
                self.memories@.len() + k == n,
                self.memories@ == old(self).memories@.skip(k as int),
                updated@.len() == k,
                forall|f: int|
                    0 <= f < k ==> crate::trackers::tracker_memory::mem_step(
                        old(self).memories@[f],
                        #[trigger] updated@[f],
                        record@[f],
                    ),
                self.chain@ == old(self).chain@.push(node),
                nodes_sorted(self.chain@),
                self.id == old(self).id,
                self.config == old(self).config,
                self.record_scorer == old(self).record_scorer,
                self.diagnostics == old(self).diagnostics,
                self.no_match_streak == 0,
                old(self).record_scorer.wf_for(n as int),
                forall|i: int| 0 <= i < k ==> (#[trigger] updated@[i]).wf(),
                forall|i: int|
                    0 <= i < self.memories@.len() ==> (#[trigger] self.memories@[i]).wf(),
            decreases n - k,
        {
            proof {
                assert(old(self).memories@.skip(k as int)[0] == old(self).memories@[k as int]);
            }
            let mut mem = self.memories.remove(0);
            mem.signal_matching_element(clone_element(record.element(k)));
            updated.push(mem);
            proof {
                assert(self.memories@ =~= old(self).memories@.skip(k + 1));
            }
            k += 1;
        }
        self.memories = updated;
        proof {
            assert(self.record_scorer.wf_for(self.memories@.len() as int));
        }
    }

    /// The per-field similarity of every record against this tracker's
    /// memories: exactly `field_dist` cell by cell.
    pub fn compute_distances(&self, frame: &Frame, distance_calculators: &Vec<CachedDistanceCalculator>) -> (d: Vec<
        Vec<Option<u64>>,
    >)
        requires
            self.wf(),
            frame.wf(),
            calcs_wf(distance_calculators@),
            distance_calculators@.len() == frame.cols().len() as int,
            self.memories@.len() == frame.cols().len() as int,
        ensures
            d@.len() == frame.spec_num_records(),
            forall|r: int|
                0 <= r < d@.len() ==> (#[trigger] d@[r])@.len() == frame.cols().len() as int,
            forall|r: int, f: int|
                0 <= r < d@.len() && 0 <= f < frame.cols().len() ==> opt_wide(
                    #[trigger] d@[r]@[f],
                ) == row_dists(
                    metrics_of(distance_calculators@),
                    self.memories@,
                    frame.cols(),
                    r,
                )[f],
            forall|r: int| 0 <= r < d@.len() ==> sims_on_scale(opts_view((#[trigger] d@[r])@)),
    {
        let nf = frame.num_features();
        let nr = frame.num_records();
        let ghost ms = metrics_of(distance_calculators@);
        let ghost cols = frame.cols();

        // Feature-major pass, transposed into record rows at the end.
        let mut by_feature: Vec<Vec<Option<u64>>> = Vec::new();
        let mut f: usize = 0;
        while f < nf
            invariant
                self.wf(),
                frame.wf(),
                calcs_wf(distance_calculators@),
                ms == metrics_of(distance_calculators@),
                cols == frame.cols(),
                distance_calculators@.len() == cols.len(),
                self.memories@.len() == cols.len(),
                nf == cols.len(),
                nr == frame.spec_num_records(),
                f <= nf,
                by_feature@.len() == f,
                forall|ff: int| 0 <= ff < f ==> (#[trigger] by_feature@[ff])@.len() == nr,
                forall|ff: int, r: int|
                    0 <= ff < f && 0 <= r < nr ==> opt_wide(#[trigger] by_feature@[ff]@[r])
                        == field_dist(ms[ff], self.memories@[ff].remembered(), cols[ff][r]),
                forall|ff: int, r: int|
                    0 <= ff < f && 0 <= r < nr ==> match #[trigger] by_feature@[ff]@[r] {
                        Some(v) => 0 <= v <= SCORE_ONE,
                        None => true,
                    },
            decreases nf - f,
        {
            let calc = &distance_calculators[f];
            let own_elements = self.memories[f].get_elements();
            let ghost memv = self.memories@[f as int].remembered();
            let column = frame.column(f);
            let mut col_out: Vec<Option<u64>> = Vec::new();
            let mut r: usize = 0;
            while r < column.len()
                invariant
                    self.wf(),
                    frame.wf(),
                    calcs_wf(distance_calculators@),
                    ms == metrics_of(distance_calculators@),
                    cols == frame.cols(),
                    distance_calculators@.len() == cols.len(),
                    self.memories@.len() == cols.len(),
                    nf == cols.len(),
                    f < nf,
                    calc == &distance_calculators[f as int],
                    memv == self.memories@[f as int].remembered(),
                    own_elements@.map_values(|e: Element| e@) == memv,
                    crate::trackers::tracker_memory::mem_cells_ok(own_elements@),
                    column@.map_values(|e: Element| e@) == cols[f as int],
                    forall|j: int| 0 <= j < column@.len() ==> (#[trigger] column@[j]).wf(),
                    column@.len() == nr,
                    nr == frame.spec_num_records(),
                    r <= nr,
                    col_out@.len() == r,
                    forall|rr: int|
                        0 <= rr < r ==> opt_wide(#[trigger] col_out@[rr]) == field_dist(
                            ms[f as int],
                            memv,
                            cols[f as int][rr],
                        ),
                    forall|rr: int|
                        0 <= rr < r ==> match #[trigger] col_out@[rr] {
                            Some(v) => 0 <= v <= SCORE_ONE,
                            None => true,
                        },
                decreases nr - r,
            {
                let cell = &column[r];
                let mut best: Option<u64> = None;
                let mut k: usize = 0;
                while k < own_elements.len()
                    invariant
                        self.wf(),
                        frame.wf(),
                        calcs_wf(distance_calculators@),
                        ms == metrics_of(distance_calculators@),
                        cols == frame.cols(),
                        distance_calculators@.len() == cols.len(),
                        f < cols.len(),
                        calc == &distance_calculators[f as int],
                        own_elements@.map_values(|e: Element| e@) == memv,
                        crate::trackers::tracker_memory::mem_cells_ok(own_elements@),
                        column@.map_values(|e: Element| e@) == cols[f as int],
                        forall|j: int| 0 <= j < column@.len() ==> (#[trigger] column@[j]).wf(),
                        r < column@.len(),
                        cell == &column@[r as int],
                        cell.wf(),
                        k <= own_elements@.len(),
                        opt_wide(best) == best_sim_upto(
                            arb_metric(ms[f as int]),
                            memv,
                            cols[f as int][r as int],
                            if ms[f as int] is Some {
                                k as int
                            } else {
                                0
                            },
                        ),
                        ms[f as int] is None ==> best is None,
                        match best {
                            Some(v) => 0 <= v <= SCORE_ONE,
                            None => true,
                        },
                    decreases own_elements@.len() - k,
                {
                    let dist = calc.get_dist(&own_elements[k], cell);
                    proof {
                        assert(own_elements@[k as int]@ == memv[k as int]);
                        assert(cell@ == cols[f as int][r as int]);
                    }
                    match dist {
                        Some(v) => {
                            best = match best {
                                Some(b) => Some(
                                    if v > b {
                                        v
                                    } else {
                                        b
                                    },
                                ),
                                None => Some(v),
                            };
                        },
                        None => {},
                    }
                    k += 1;
                }
                col_out.push(best);
                r += 1;
            }
            by_feature.push(col_out);
            f += 1;
        }

        // Transpose into one row of per-field distances per record.
        let mut out: Vec<Vec<Option<u64>>> = Vec::new();
        let mut r: usize = 0;
        while r < nr
            invariant
                nf == cols.len(),
                nr == frame.spec_num_records(),
                by_feature@.len() == nf,
                forall|ff: int| 0 <= ff < nf ==> (#[trigger] by_feature@[ff])@.len() == nr,
                forall|ff: int, rr: int|
                    0 <= ff < nf && 0 <= rr < nr ==> opt_wide(#[trigger] by_feature@[ff]@[rr])
                        == field_dist(ms[ff], self.memories@[ff].remembered(), cols[ff][rr]),
                forall|ff: int, rr: int|
                    0 <= ff < nf && 0 <= rr < nr ==> match #[trigger] by_feature@[ff]@[rr] {
                        Some(v) => 0 <= v <= SCORE_ONE,
                        None => true,
                    },
                r <= nr,
                out@.len() == r,
                forall|rr: int| 0 <= rr < r ==> (#[trigger] out@[rr])@.len() == nf,
                forall|rr: int, ff: int|
                    0 <= rr < r && 0 <= ff < nf ==> #[trigger] out@[rr]@[ff] == by_feature@[ff]@[rr],
            decreases nr - r,
        {
            let mut row: Vec<Option<u64>> = Vec::new();
            let mut ff: usize = 0;
            while ff < nf
                invariant
                    by_feature@.len() == nf,
                    forall|f2: int| 0 <= f2 < nf ==> (#[trigger] by_feature@[f2])@.len() == nr,
                    r < nr,
                    ff <= nf,
                    row@.len() == ff,
                    forall|f2: int|
                        0 <= f2 < ff ==> #[trigger] row@[f2] == by_feature@[f2]@[r as int],
                decreases nf - ff,
            {
                row.push(by_feature[ff][r]);
                ff += 1;
            }
            out.push(row);
            r += 1;
        }
        proof {
            assert forall|r2: int, f2: int|
                0 <= r2 < out@.len() && 0 <= f2 < cols.len() implies opt_wide(
                #[trigger] out@[r2]@[f2],
            ) == row_dists(ms, self.memories@, cols, r2)[f2] by {
                assert(out@[r2]@[f2] == by_feature@[f2]@[r2]);
            }
            assert forall|r2: int| 0 <= r2 < out@.len() implies sims_on_scale(
                opts_view((#[trigger] out@[r2])@),
            ) by {
                assert forall|f2: int|
                    0 <= f2 < out@[r2]@.len() implies match (#[trigger] opts_view(out@[r2]@)[f2]) {
                    Some(v) => 0 <= v <= SCORE_ONE,
                    None => true,
                } by {
                    assert(out@[r2]@[f2] == by_feature@[f2]@[r2]);
                }
            }
        }
        out
    }

    /// Scores every record of the frame, keeps those above the interest
    /// threshold, sorts them by descending score (stable), and records the
    /// frame in the diagnostics. The result is exactly determined by the
    /// tracker's memories, its scorer, and the frame.
    pub fn process_frame(&mut self, frame: &Frame, distance_calculators: &Vec<CachedDistanceCalculator>) -> (scores: Vec<
        RecordScore,
    >)
        requires
            old(self).wf(),
            frame.wf(),
            calcs_wf(distance_calculators@),
            distance_calculators@.len() == frame.cols().len() as int,
            old(self).memories@.len() == frame.cols().len() as int,
        ensures
            final(self).wf(),
            scores@ == sort_desc(
                interesting_upto(
                    old(self).record_scorer,
                    old(self).config.interest_threshold as int,
                    metrics_of(distance_calculators@),
                    old(self).memories@,
                    frame.cols(),
                    frame.spec_num_records(),
                ),
            ),
            final(self).chain@ == old(self).chain@,
            final(self).memories@ == old(self).memories@,
            final(self).id == old(self).id,
            final(self).config == old(self).config,
            final(self).record_scorer == old(self).record_scorer,
            final(self).no_match_streak == old(self).no_match_streak,
            forall|r: int|
                0 <= r < scores@.len() ==> (#[trigger] scores@[r]).idx
                    < frame.spec_num_records() && scores@[r].score <= SCORE_ONE,
            final(self).diagnostics.id == old(self).diagnostics.id,
            final(self).diagnostics.frames@.len() == old(self).diagnostics.frames@.len() + 1,
            forall|i: int|
                0 <= i < old(self).diagnostics.frames@.len()
                    ==> #[trigger] final(self).diagnostics.frames@[i]
                    == old(self).diagnostics.frames@[i],
            final(self).diagnostics.frames@.last().frame_idx == frame.spec_idx(),
            final(self).diagnostics.frames@.last().records@.map_values(
                |d: TrackerRecordDiagnostics| (RecordScore { idx: d.record_idx, score: d.record_score }),
            ) == interesting_upto(
                old(self).record_scorer,
                old(self).config.interest_threshold as int,
                metrics_of(distance_calculators@),
                old(self).memories@,
                frame.cols(),
                frame.spec_num_records(),
            ),
            final(self).diagnostics.frames@.last().memory@.len() == old(self).memories@.len(),
            forall|f: int|
                0 <= f < old(self).memories@.len()
                    ==> (#[trigger] final(self).diagnostics.frames@.last().memory@[f])@.map_values(
                    |s: String| s@,
                ) == mem_strings(old(self).memories@[f].remembered()),
    {
        let ghost ms = metrics_of(distance_calculators@);
        let ghost cols = frame.cols();
        let distances = self.compute_distances(frame, distance_calculators);

        let nr = frame.num_records();
        let mut picked: Vec<RecordScore> = Vec::new();
        let mut frame_diagnostics = TrackerFrameDiagnostics::new(frame.idx());
        let mut r: usize = 0;
        while r < nr
            invariant
                *self == *old(self),
                self.wf(),
                frame_diagnostics.frame_idx == frame.spec_idx(),
                nr == frame.spec_num_records(),
                cols == frame.cols(),
                ms == metrics_of(distance_calculators@),
                distances@.len() == nr,
                forall|rr: int|
                    0 <= rr < nr ==> (#[trigger] distances@[rr])@.len() == cols.len(),
                forall|rr: int, f: int|
                    0 <= rr < nr && 0 <= f < cols.len() ==> opt_wide(
                        #[trigger] distances@[rr]@[f],
                    ) == row_dists(ms, self.memories@, cols, rr)[f],
                forall|rr: int|
                    0 <= rr < nr ==> sims_on_scale(opts_view((#[trigger] distances@[rr])@)),
                self.record_scorer.wf_for(cols.len() as int),
                self.memories@.len() == cols.len(),
                r <= nr,
                frame_diagnostics.records@.map_values(
                    |d: TrackerRecordDiagnostics| (RecordScore {
                        idx: d.record_idx,
                        score: d.record_score,
                    }),
                ) == picked@,
                picked@ == interesting_upto(
                    self.record_scorer,
                    self.config.interest_threshold as int,
                    ms,
                    self.memories@,
                    cols,
                    r as int,
                ),
                forall|i: int|
                    0 <= i < picked@.len() ==> (#[trigger] picked@[i]).idx < nr && picked@[i].score
                        <= SCORE_ONE,
            decreases nr - r,
        {
            proof {
                assert(opts_view(distances@[r as int]@) =~= row_dists(
                    ms,
                    self.memories@,
                    cols,
                    r as int,
                ));
            }
            let score = self.record_scorer.score(&distances[r]);
            if score > self.config.interest_threshold {
                picked.push(RecordScore::new(r, score));
                let ghost pre_rec = frame_diagnostics.records@;
                frame_diagnostics.records.push(
                    TrackerRecordDiagnostics::new(r, score, clone_opts(&distances[r])),
                );
                proof {
                    assert(frame_diagnostics.records@.map_values(
                        |d: TrackerRecordDiagnostics| (RecordScore {
                            idx: d.record_idx,
                            score: d.record_score,
                        }),
                    ) =~= pre_rec.map_values(
                        |d: TrackerRecordDiagnostics| (RecordScore {
                            idx: d.record_idx,
                            score: d.record_score,
                        }),
                    ).push((RecordScore { idx: r, score: score })));
                }
            }
            proof {
                assert(picked@ =~= interesting_upto(
                    self.record_scorer,
                    self.config.interest_threshold as int,
                    ms,
                    self.memories@,
                    cols,
                    r + 1,
                ));
            }
            r += 1;
        }

        // Stable descending sort by insertion.
        let mut sorted: Vec<RecordScore> = Vec::new();
        let mut k: usize = 0;
        while k < picked.len()
            invariant
                k <= picked@.len(),
                sorted@ == sort_desc(picked@.take(k as int)),
                forall|i: int|
                    0 <= i < picked@.len() ==> (#[trigger] picked@[i]).idx
                        < frame.spec_num_records() && picked@[i].score <= SCORE_ONE,
                forall|i: int|
                    0 <= i < sorted@.len() ==> (#[trigger] sorted@[i]).idx
                        < frame.spec_num_records() && sorted@[i].score <= SCORE_ONE,
            decreases picked@.len() - k,
        {
            let x = picked[k];
            let mut pos: usize = 0;
            while pos < sorted.len() && sorted[pos].score >= x.score
                invariant
                    pos <= sorted@.len(),
                    forall|j: int| 0 <= j < pos ==> (#[trigger] sorted@[j]).score >= x.score,
                decreases sorted@.len() - pos,
            {
                pos += 1;
            }
            let ghost pre_sorted = sorted@;
            proof {
                lemma_insert_desc_split(pre_sorted, x, pos as int);
                assert(picked@.take(k + 1).drop_last() =~= picked@.take(k as int));
            }
            sorted.insert(pos, x);
            proof {
                assert(sorted@ =~= pre_sorted.take(pos as int) + seq![x] + pre_sorted.skip(
                    pos as int,
                ));
            }
            k += 1;
        }
        proof {
            assert(picked@.take(picked@.len() as int) =~= picked@);
        }

        self.save_memory_to_diagnostics(&mut frame_diagnostics);
        self.diagnostics.frames.push(frame_diagnostics);
        sorted
    }

    /// Snapshots each memory's raw strings into the frame diagnostics: one
    /// list per field, holding the remembered cells' raw strings in order.
    fn save_memory_to_diagnostics(&self, diagnostics: &mut TrackerFrameDiagnostics)
        requires
            self.wf(),
        ensures
            final(diagnostics).frame_idx == old(diagnostics).frame_idx,
            final(diagnostics).records@ == old(diagnostics).records@,
            final(diagnostics).memory@.len() == self.memories@.len(),
            forall|f: int|
                0 <= f < self.memories@.len() ==> (#[trigger] final(diagnostics).memory@[f])@
                    .map_values(|s: String| s@) == mem_strings(self.memories@[f].remembered()),
    {
        let mut memories: Vec<Vec<String>> = Vec::new();
        let mut f: usize = 0;
        while f < self.memories.len()
            invariant
                self.wf(),
                f <= self.memories@.len(),
                memories@.len() == f,
                forall|f2: int|
                    0 <= f2 < f ==> (#[trigger] memories@[f2])@.map_values(|s: String| s@)
                        == mem_strings(self.memories@[f2].remembered()),
            decreases self.memories@.len() - f,
        {
            let elements = self.memories[f].get_elements();
            let ghost cells = self.memories@[f as int].remembered();
            proof {
                assert(cells == elements@.map_values(|e: Element| e@));
            }
            let mut memory_strings: Vec<String> = Vec::new();
            let mut k: usize = 0;
            proof {
                assert(cells.take(0) =~= Seq::<ElemV>::empty());
                assert(memory_strings@.map_values(|s: String| s@) =~= mem_strings(cells.take(0)));
            }
            while k < elements.len()
                invariant
                    k <= elements@.len(),
                    crate::trackers::tracker_memory::mem_cells_ok(elements@),
                    cells == elements@.map_values(|e: Element| e@),
                    memory_strings@.map_values(|s: String| s@) == mem_strings(
                        cells.take(k as int),
                    ),
                decreases elements@.len() - k,
            {
                proof {
                    assert(cells.take(k + 1).drop_last() =~= cells.take(k as int));
                    assert(cells.take(k + 1).last() == cells[k as int]);
                    assert(cells[k as int] == elements@[k as int]@);
                }
                match &elements[k] {
                    Element::Word(w) => {
                        let ghost pre_ms = memory_strings@;
                        memory_strings.push(w.raw.clone());
                        proof {
                            assert(memory_strings@.map_values(|s: String| s@) =~= pre_ms.map_values(
                                |s: String| s@,
                            ).push(w.raw@));
                            assert(cell_strings(cells[k as int]) =~= seq![w.raw@]);
                            assert(memory_strings@.map_values(|s: String| s@) =~= mem_strings(
                                cells.take(k + 1),
                            ));
                        }
                    },
                    Element::MultiWords(ws) => {
                        let ghost base = memory_strings@.map_values(|s: String| s@);
                        let ghost raws = ws@.map_values(|w: Word| w.raw@);
                        let mut j: usize = 0;
                        proof {
                            assert(memory_strings@.map_values(|s: String| s@) =~= base
                                + raws.take(0));
                        }
                        while j < ws.len()
                            invariant
                                j <= ws@.len(),
                                raws == ws@.map_values(|w: Word| w.raw@),
                                base == mem_strings(cells.take(k as int)),
                                memory_strings@.map_values(|s: String| s@) == base + raws.take(
                                    j as int,
                                ),
                            decreases ws@.len() - j,
                        {
                            let ghost pre_ms = memory_strings@;
                            memory_strings.push(ws[j].raw.clone());
                            proof {
                                assert(raws.take(j + 1) =~= raws.take(j as int).push(
                                    ws@[j as int].raw@,
                                ));
                                assert(memory_strings@.map_values(|s: String| s@) =~= pre_ms
                                    .map_values(|s: String| s@).push(ws@[j as int].raw@));
                                assert(memory_strings@.map_values(|s: String| s@) =~= base
                                    + raws.take(j + 1));
                            }
                            j += 1;
                        }
                        proof {
                            assert(raws.take(ws@.len() as int) =~= raws);
                            assert(cell_strings(cells[k as int]) =~= raws);
                            assert(memory_strings@.map_values(|s: String| s@) =~= mem_strings(
                                cells.take(k + 1),
                            ));
                        }
                    },
                    Element::Missing => {
                        proof {
                            assert(cell_strings(cells[k as int]) =~= Seq::<Seq<char>>::empty());
                            assert(memory_strings@.map_values(|s: String| s@) =~= mem_strings(
                                cells.take(k + 1),
                            ));
                        }
                    },
                }
                k += 1;
            }
            proof {
                assert(cells.take(cells.len() as int) =~= cells);
            }
            memories.push(memory_strings);
            f += 1;
        }
        diagnostics.memory = memories;
    }
}

/// A copy of a row of optional similarities.
fn clone_opts(v: &Vec<Option<u64>>) -> (r: Vec<Option<u64>>)
    ensures
        r@ == v@,
{
    let mut out: Vec<Option<u64>> = Vec::new();
    let mut i: usize = 0;
    while i < v.len()
        invariant
            i <= v@.len(),
            out@ == v@.take(i as int),
        decreases v@.len() - i,
    {
        out.push(v[i]);
        proof {
            assert(out@ =~= v@.take(i + 1));
        }
        i += 1;
    }
    proof {
        assert(v@.take(v@.len() as int) =~= v@);
    }
    out
}

/// A copy of a chain.
pub fn clone_nodes(v: &Vec<ChainNode>) -> (r: Vec<ChainNode>)
    ensures
        r@ == v@,
{
    let mut out: Vec<ChainNode> = Vec::new();
    let mut i: usize = 0;
    while i < v.len()
        invariant
            i <= v@.len(),
            out@ == v@.take(i as int),
        decreases v@.len() - i,
    {
        out.push(v[i]);
        proof {
            assert(out@ =~= v@.take(i + 1));
        }
        i += 1;
    }
    proof {
        assert(v@.take(v@.len() as int) =~= v@);
    }
    out
}

/// Everything but the diagnostics stands.
pub open spec fn unchanged_but_diagnostics(pre: Tracker, post: Tracker) -> bool {
    &&& post.id == pre.id
    &&& post.config == pre.config
    &&& post.chain@ == pre.chain@
    &&& post.memories@ == pre.memories@
    &&& post.record_scorer == pre.record_scorer
    &&& post.no_match_streak == pre.no_match_streak
}

} // verus!
