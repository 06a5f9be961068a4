//! The top-level pipeline: validate the configuration, seed trackers from
//! the first frame, process every following frame, and fold the finished
//! chains into the tracking graph.

use vstd::prelude::*;
use crate::casting::{build_tracking_engine, config_valid, frames_ok, TrackingError};
use crate::config::TrackingConfig;
use crate::diagnostics::Diagnostics;
use crate::frame::Frame;
use crate::record::RecordSchema;
use crate::tracking_graph::{cells_encode, firsts, TrackingGraph};

verus! {

/// The graph is the fold of some list of valid chains: its root points at
/// their heads and its cells carry exactly their edges.
pub open spec fn graph_encodes_some_chains(g: TrackingGraph, frames: Seq<Frame>) -> bool {
    exists|cs: Seq<crate::trackers::tracker::TrackingChain>|
        #[trigger] cells_encode(g.matrix@, cs) && g.root.outs@ == firsts(cs) && (forall|c: int|
            0 <= c < cs.len() ==> crate::tracking_engine::chain_valid(
                (#[trigger] cs[c]).nodes@,
                frames,
            ))
}

/// The views of a chain list's node sequences.
pub open spec fn chain_views(cs: Seq<crate::trackers::tracker::TrackingChain>) -> Seq<
    Seq<crate::tracking_graph::ChainNode>,
> {
    cs.map_values(|ch: crate::trackers::tracker::TrackingChain| ch.nodes@)
}

/// The graph is the fold of some list of valid chains that together cover
/// every record of every frame.
pub open spec fn graph_encodes_covering_chains(g: TrackingGraph, frames: Seq<Frame>) -> bool {
    exists|cs: Seq<crate::trackers::tracker::TrackingChain>|
        #[trigger] cells_encode(g.matrix@, cs) && g.root.outs@ == firsts(cs) && (forall|c: int|
            0 <= c < cs.len() ==> crate::tracking_engine::chain_valid(
                (#[trigger] cs[c]).nodes@,
                frames,
            )) && (forall|f: int, r: int|
            0 <= f < frames.len() && 0 <= r < frames[f].spec_num_records()
                ==> #[trigger] crate::tracking_engine::record_in_chains(chain_views(cs), f, r))
}

/// Runs the whole tracking process over the given frames. It succeeds
/// exactly when the configuration and the frames pass validation; the graph
/// then has one row per frame and one cell per record.
pub fn execute_tracking_process(
    tracking_config: &TrackingConfig,
    record_schema: &RecordSchema,
    frames: Vec<Frame>,
) -> (r: Result<(TrackingGraph, Diagnostics), TrackingError>)
    requires
        forall|i: int| 0 <= i < frames@.len() ==> (#[trigger] frames@[i]).elems_wf(),
    ensures
        r is Ok <==> config_valid(*tracking_config, record_schema.fields@.len() as int)
            && frames_ok(frames@, record_schema.fields@.len() as int),
        r matches Ok(p) ==> p.0.matrix@.len() == frames@.len() && p.0.root.ins@.len() == 0
            && forall|i: int|
            0 <= i < frames@.len() ==> (#[trigger] p.0.matrix@[i])@.len()
                == frames@[i].spec_num_records(),
        r matches Ok(p) ==> graph_encodes_some_chains(p.0, frames@),
        tracking_config.resolver.resolving_strategy@ == "best_match"@ ==> (r matches Ok(p)
            ==> graph_encodes_covering_chains(p.0, frames@)),
{
    let ghost fseq = frames@;
    let mut engine = match build_tracking_engine(tracking_config, record_schema, frames) {
        Ok(e) => e,
        Err(e) => {
            return Err(e);
        },
    };
    engine.initialize_trackers();

    let total = engine.frames.len();
    while engine.next_frame_idx < total
        invariant
            engine.wf(),
            engine.frames@ == fseq,
            total == engine.frames@.len(),
            (engine.resolver.resolving_strategy is BestMatch
                <==> tracking_config.resolver.resolving_strategy@ == "best_match"@),
            engine.resolver.resolving_strategy is BestMatch
                ==> crate::tracking_engine::records_covered(engine),
        decreases total - engine.next_frame_idx,
    {
        engine.process_next_frame();
    }

    let chains = engine.collect_tracking_chains();
    proof {
        assert forall|c: int|
            0 <= c < chains@.len() implies crate::tracking_engine::chain_in_frames(
            (#[trigger] chains@[c]).nodes@,
            engine.frames@,
        ) by {
            assert(crate::tracking_engine::chain_valid(chains@[c].nodes@, engine.frames@));
        }
    }
    proof {
        if engine.resolver.resolving_strategy is BestMatch {
            assert forall|f: int, r: int|
                0 <= f < fseq.len() && 0 <= r
                    < fseq[f].spec_num_records() implies #[trigger] crate::tracking_engine::record_in_chains(
                chain_views(chains@),
                f,
                r,
            ) by {
                assert(crate::tracking_engine::record_in_chains(engine.all_chains(), f, r));
                let (c, i) = choose|c: int, i: int|
                    0 <= c < engine.all_chains().len() && 0 <= i < engine.all_chains()[c].len()
                        && (#[trigger] engine.all_chains()[c][i])
                        == (crate::tracking_graph::ChainNode {
                        frame_idx: f as usize,
                        record_idx: r as usize,
                    });
                assert(chains@[c].nodes@ == engine.all_chains()[c]);
                assert(chain_views(chains@)[c] == chains@[c].nodes@);
                assert(chain_views(chains@)[c][i] == (crate::tracking_graph::ChainNode {
                    frame_idx: f as usize,
                    record_idx: r as usize,
                }));
            }
        }
    }
    let ghost covered = engine.resolver.resolving_strategy is BestMatch;
    let graph = TrackingGraph::from_tracking_chains(&engine.frames, chains);
    proof {
        assert(cells_encode(graph.matrix@, chains@) && graph.root.outs@ == firsts(chains@) && (
        forall|c: int|
            0 <= c < chains@.len() ==> crate::tracking_engine::chain_valid(
                (#[trigger] chains@[c]).nodes@,
                fseq,
            )));
    }

    let mut diagnostics = Diagnostics::new();
    while engine.trackers.len() > 0
        invariant
            true,
        decreases engine.trackers@.len(),
    {
        let mut tracker = engine.trackers.remove(0);
        let d = tracker.take_diagnostics();
        diagnostics.trackers.push((tracker.id, d));
    }
    proof {
        assert(cells_encode(graph.matrix@, chains@) && graph.root.outs@ == firsts(chains@) && (
        forall|c: int|
            0 <= c < chains@.len() ==> crate::tracking_engine::chain_valid(
                (#[trigger] chains@[c]).nodes@,
                frames@,
            )));
        assert(graph_encodes_some_chains(graph, frames@));
        if tracking_config.resolver.resolving_strategy@ == "best_match"@ {
            assert(covered);
            assert(graph_encodes_covering_chains(graph, frames@));
        }
    }
    Ok((graph, diagnostics))
}

} // verus!
