//! The best-match strategy. Each tracker walks its candidates in descending
//! score order; within a candidate's bucket it defers to competitors with
//! higher scores until their fate is known. The result assigns each tracker
//! at most one record and each record at most one tracker; records nobody
//! claimed spawn fresh trackers.

use vstd::prelude::*;
use crate::frame::Frame;
use crate::id::IdGen;
use crate::resolvers::resolver::{dropped_out, matched_rec, matches_injective, outcome_decided, record_matched, record_spawned, resolve_outcome, same_identity, spawn_covers, spawned_ok, trackers_ready, ScoreBucket};
use crate::tracking_graph::ChainNode;
use crate::trackers::tracker::{cfg_wf, clone_config, InternalTrackerConfig, RecordScore, Tracker};

verus! {

/// Where a tracker stands during resolution: matched to a record, still
/// waiting on competitors, or out of candidates.
#[derive(Clone, Copy, Debug, PartialEq, Eq, Structural)]
pub enum TrackerStatus {
    Resolved(usize),
    StandBy,
    WontResolve,
}

/// Tracker `k` is known not to claim record `r`.
pub open spec fn decided_not(sts: Seq<TrackerStatus>, k: int, r: int) -> bool {
    0 <= k < sts.len() && match sts[k] {
        TrackerStatus::Resolved(rr) => rr != r,
        TrackerStatus::WontResolve => true,
        TrackerStatus::StandBy => false,
    }
}

/// Every bucket entry names a live tracker.
pub open spec fn buckets_wf(bs: Seq<ScoreBucket>, n: int) -> bool {
    forall|r: int, q: int|
        0 <= r < bs.len() && 0 <= q < (#[trigger] bs[r]).scores@.len() ==> ((
        #[trigger] bs[r].scores@[q]).1 as int) < n
}

/// Tracker `k` heads bucket `r` at position `p`: it sits there and every
/// earlier entry is known not to claim the record.
pub open spec fn cleared_prefix(
    sts: Seq<TrackerStatus>,
    bs: Seq<ScoreBucket>,
    r: int,
    k: int,
    p: int,
) -> bool {
    &&& 0 <= p < bs[r].scores@.len()
    &&& bs[r].scores@[p].1 as int == k
    &&& forall|q: int| 0 <= q < p ==> decided_not(sts, bs[r].scores@[q].1 as int, r)
}

/// A resolved tracker sits in its record's bucket with every earlier entry
/// known not to claim that record. Decided statuses never change, so this
/// survives every later decision.
pub open spec fn hist_ok_at(sts: Seq<TrackerStatus>, bs: Seq<ScoreBucket>, k: int) -> bool {
    match sts[k] {
        TrackerStatus::Resolved(r) => (r as int) < bs.len() && exists|p: int|
            #[trigger] cleared_prefix(sts, bs, r as int, k, p),
        _ => true,
    }
}

pub open spec fn hist_ok(sts: Seq<TrackerStatus>, bs: Seq<ScoreBucket>) -> bool {
    forall|k: int| 0 <= k < sts.len() ==> #[trigger] hist_ok_at(sts, bs, k)
}

/// No two trackers are resolved to the same record.
pub open spec fn statuses_injective(sts: Seq<TrackerStatus>) -> bool {
    forall|k1: int, k2: int|
        0 <= k1 < k2 < sts.len() ==> match (#[trigger] sts[k1], #[trigger] sts[k2]) {
            (TrackerStatus::Resolved(r1), TrackerStatus::Resolved(r2)) => r1 != r2,
            _ => true,
        }
}

/// Record `r` is out of tracker `k`'s reach: a competitor placed before every
/// entry of `k` in `r`'s bucket already resolved to `r`, or `k` has no entry
/// in that bucket at all.
pub open spec fn candidate_passed(
    sts: Seq<TrackerStatus>,
    bs: Seq<ScoreBucket>,
    r: int,
    k: int,
) -> bool {
    ||| exists|p: int|
        0 <= p < bs[r].scores@.len() && ((sts[(#[trigger] bs[r].scores@[p]).1 as int])
            matches TrackerStatus::Resolved(rr) && rr as int == r) && (forall|pk: int|
            0 <= pk < bs[r].scores@.len() && ((#[trigger] bs[r].scores@[pk]).1 as int) == k
                ==> pk > p)
    ||| forall|p: int|
        0 <= p < bs[r].scores@.len() ==> ((#[trigger] bs[r].scores@[p]).1 as int) != k
}

/// Every candidate of `k` is out of reach: the walk exhausted the list.
pub open spec fn wont_cert(
    sts: Seq<TrackerStatus>,
    bs: Seq<ScoreBucket>,
    cand: Seq<RecordScore>,
    k: int,
) -> bool {
    forall|c: int|
        0 <= c < cand.len() ==> candidate_passed(sts, bs, ((#[trigger] cand[c]).idx as int), k)
}

/// The walk passed its first candidates and is blocked at the next: that
/// candidate's bucket holds a still-waiting competitor placed before every
/// entry of `k`.
pub open spec fn standby_cert(
    sts: Seq<TrackerStatus>,
    bs: Seq<ScoreBucket>,
    cand: Seq<RecordScore>,
    k: int,
) -> bool {
    exists|c: int, p: int|
        0 <= c < cand.len() && (forall|c2: int|
            0 <= c2 < c ==> candidate_passed(sts, bs, ((#[trigger] cand[c2]).idx as int), k)) && 0
            <= p < bs[cand[c].idx as int].scores@.len() && sts[(#[trigger] bs[cand[c].idx
            as int].scores@[p]).1 as int] is StandBy && (bs[cand[c].idx as int].scores@[p].1
            as int) != k && (forall|pk: int|
            0 <= pk < bs[cand[c].idx as int].scores@.len() && ((#[trigger] bs[cand[c].idx
                as int].scores@[pk]).1 as int) == k ==> pk > p)
}

/// The walk stopped at candidate `c`, whose record is `r`, after every
/// earlier candidate proved out of reach.
pub open spec fn resolved_cert(
    sts: Seq<TrackerStatus>,
    bs: Seq<ScoreBucket>,
    cand: Seq<RecordScore>,
    k: int,
    r: int,
) -> bool {
    exists|c: int|
        0 <= c < cand.len() && ((#[trigger] cand[c]).idx as int) == r && (forall|c2: int|
            0 <= c2 < c ==> candidate_passed(sts, bs, ((#[trigger] cand[c2]).idx as int), k))
}

/// A passed candidate stays passed when a waiting tracker is decided: the
/// certificate mentions only resolved entries, which never change.
proof fn lemma_passed_preserved(
    sts: Seq<TrackerStatus>,
    upd: TrackerStatus,
    kk: int,
    bs: Seq<ScoreBucket>,
    r: int,
    k: int,
)
    requires
        0 <= kk < sts.len(),
        sts[kk] is StandBy,
        0 <= r < bs.len(),
        buckets_wf(bs, sts.len() as int),
    ensures
        candidate_passed(sts, bs, r, k) ==> candidate_passed(sts.update(kk, upd), bs, r, k),
{
    let sts2 = sts.update(kk, upd);
    if exists|p: int|
        0 <= p < bs[r].scores@.len() && ((sts[(#[trigger] bs[r].scores@[p]).1 as int])
            matches TrackerStatus::Resolved(rr) && rr as int == r) && (forall|pk: int|
            0 <= pk < bs[r].scores@.len() && ((#[trigger] bs[r].scores@[pk]).1 as int) == k
                ==> pk > p) {
        let p = choose|p: int|
            0 <= p < bs[r].scores@.len() && ((sts[(#[trigger] bs[r].scores@[p]).1 as int])
                matches TrackerStatus::Resolved(rr) && rr as int == r) && (forall|pk: int|
                0 <= pk < bs[r].scores@.len() && ((#[trigger] bs[r].scores@[pk]).1 as int) == k
                    ==> pk > p);
        assert(bs[r].scores@[p].1 as int != kk);
        assert((sts2[bs[r].scores@[p].1 as int]) matches TrackerStatus::Resolved(rr) && rr as int
            == r);
        assert(candidate_passed(sts2, bs, r, k));
    }
}

/// Both walk certificates survive deciding a waiting tracker.
proof fn lemma_certs_preserved(
    sts: Seq<TrackerStatus>,
    upd: TrackerStatus,
    kk: int,
    bs: Seq<ScoreBucket>,
    cand: Seq<RecordScore>,
    k: int,
)
    requires
        0 <= kk < sts.len(),
        sts[kk] is StandBy,
        buckets_wf(bs, sts.len() as int),
        forall|c: int| 0 <= c < cand.len() ==> 0 <= ((#[trigger] cand[c]).idx as int) < bs.len(),
    ensures
        wont_cert(sts, bs, cand, k) ==> wont_cert(sts.update(kk, upd), bs, cand, k),
        forall|r: int|
            #[trigger] resolved_cert(sts, bs, cand, k, r) ==> resolved_cert(
                sts.update(kk, upd),
                bs,
                cand,
                k,
                r,
            ),
{
    let sts2 = sts.update(kk, upd);
    if wont_cert(sts, bs, cand, k) {
        assert forall|c: int| 0 <= c < cand.len() implies candidate_passed(
            sts2,
            bs,
            ((#[trigger] cand[c]).idx as int),
            k,
        ) by {
            lemma_passed_preserved(sts, upd, kk, bs, cand[c].idx as int, k);
        }
    }
    assert forall|r: int| #[trigger] resolved_cert(sts, bs, cand, k, r) implies resolved_cert(
        sts2,
        bs,
        cand,
        k,
        r,
    ) by {
        let c = choose|c: int|
            0 <= c < cand.len() && ((#[trigger] cand[c]).idx as int) == r && (forall|c2: int|
                0 <= c2 < c ==> candidate_passed(sts, bs, ((#[trigger] cand[c2]).idx as int), k));
        assert forall|c2: int| 0 <= c2 < c implies candidate_passed(
            sts2,
            bs,
            ((#[trigger] cand[c2]).idx as int),
            k,
        ) by {
            lemma_passed_preserved(sts, upd, kk, bs, cand[c2].idx as int, k);
        }
        assert(resolved_cert(sts2, bs, cand, k, r));
    }
}

/// A passed candidate is out of reach once the decisions are applied.
proof fn lemma_passed_to_out_of_reach(
    sts: Seq<TrackerStatus>,
    pre: Seq<Tracker>,
    post: Seq<Tracker>,
    bs: Seq<ScoreBucket>,
    fidx: int,
    nrec: int,
    r: int,
    k: int,
)
    requires
        applied_ok(pre, post, sts, fidx, nrec),
        buckets_wf(bs, sts.len() as int),
        0 <= r < bs.len(),
        candidate_passed(sts, bs, r, k),
    ensures
        out_of_reach(pre, post, bs, r, k),
{
    if exists|p: int|
        0 <= p < bs[r].scores@.len() && ((sts[(#[trigger] bs[r].scores@[p]).1 as int])
            matches TrackerStatus::Resolved(rr) && rr as int == r) && (forall|pk: int|
            0 <= pk < bs[r].scores@.len() && ((#[trigger] bs[r].scores@[pk]).1 as int) == k
                ==> pk > p) {
        let p = choose|p: int|
            0 <= p < bs[r].scores@.len() && ((sts[(#[trigger] bs[r].scores@[p]).1 as int])
                matches TrackerStatus::Resolved(rr) && rr as int == r) && (forall|pk: int|
                0 <= pk < bs[r].scores@.len() && ((#[trigger] bs[r].scores@[pk]).1 as int) == k
                    ==> pk > p);
        let x = bs[r].scores@[p].1 as int;
        match sts[x] {
            TrackerStatus::Resolved(rx) => {
                assert(matched_rec(pre[x], post[x]) == Some(rx as int));
            },
            _ => {
                assert(false);
            },
        }
        assert(out_of_reach(pre, post, bs, r, k));
    }
}

/// Marking a waiting tracker as unresolvable preserves the history and the
/// injectivity.
proof fn lemma_decide_wont(sts: Seq<TrackerStatus>, bs: Seq<ScoreBucket>, k: int)
    requires
        hist_ok(sts, bs),
        statuses_injective(sts),
        0 <= k < sts.len(),
        sts[k] is StandBy,
    ensures
        hist_ok(sts.update(k, TrackerStatus::WontResolve), bs),
        statuses_injective(sts.update(k, TrackerStatus::WontResolve)),
{
    let sts2 = sts.update(k, TrackerStatus::WontResolve);
    assert forall|kk: int| 0 <= kk < sts2.len() implies #[trigger] hist_ok_at(sts2, bs, kk) by {
        if kk != k {
            assert(hist_ok_at(sts, bs, kk));
            match sts2[kk] {
                TrackerStatus::Resolved(r) => {
                    let p = choose|p: int| #[trigger] cleared_prefix(sts, bs, r as int, kk, p);
                    assert forall|q: int| 0 <= q < p implies decided_not(
                        sts2,
                        bs[r as int].scores@[q].1 as int,
                        r as int,
                    ) by {
                        assert(decided_not(sts, bs[r as int].scores@[q].1 as int, r as int));
                    }
                    assert(cleared_prefix(sts2, bs, r as int, kk, p));
                    assert(hist_ok_at(sts2, bs, kk));
                },
                _ => {},
            }
        }
    }
}

/// Resolving a waiting tracker to a record it heads (after every earlier
/// bucket entry declined) preserves the history and the injectivity.
proof fn lemma_decide_resolved(
    sts: Seq<TrackerStatus>,
    bs: Seq<ScoreBucket>,
    k: int,
    r: int,
    p: int,
)
    requires
        hist_ok(sts, bs),
        statuses_injective(sts),
        0 <= k < sts.len(),
        sts[k] is StandBy,
        0 <= r < bs.len(),
        r <= usize::MAX,
        cleared_prefix(sts, bs, r, k, p),
    ensures
        hist_ok(sts.update(k, TrackerStatus::Resolved(r as usize)), bs),
        statuses_injective(sts.update(k, TrackerStatus::Resolved(r as usize))),
{
    let sts2 = sts.update(k, TrackerStatus::Resolved(r as usize));

    // No other tracker already holds this record.
    assert forall|k3: int|
        0 <= k3 < sts.len() && k3 != k implies !(sts[k3] == TrackerStatus::Resolved(
        r as usize,
    )) by {
        if sts[k3] == TrackerStatus::Resolved(r as usize) {
            assert(hist_ok_at(sts, bs, k3));
            let p3 = choose|p3: int| #[trigger] cleared_prefix(sts, bs, r, k3, p3);
            assert(cleared_prefix(sts, bs, r, k3, p3));
            if p3 < p {
                assert(decided_not(sts, bs[r].scores@[p3].1 as int, r));
                assert(false);
            } else if p < p3 {
                assert(decided_not(sts, bs[r].scores@[p].1 as int, r));
                assert(false);
            } else {
                assert(k3 == k);
                assert(false);
            }
        }
    }

    assert forall|kk: int| 0 <= kk < sts2.len() implies #[trigger] hist_ok_at(sts2, bs, kk) by {
        if kk == k {
            assert forall|q: int| 0 <= q < p implies decided_not(
                sts2,
                bs[r].scores@[q].1 as int,
                r,
            ) by {
                assert(decided_not(sts, bs[r].scores@[q].1 as int, r));
            }
            assert(cleared_prefix(sts2, bs, r, kk, p));
            assert(hist_ok_at(sts2, bs, kk));
        } else {
            assert(hist_ok_at(sts, bs, kk));
            match sts2[kk] {
                TrackerStatus::Resolved(rr) => {
                    let pp = choose|pp: int| #[trigger] cleared_prefix(sts, bs, rr as int, kk, pp);
                    assert(cleared_prefix(sts, bs, rr as int, kk, pp));
                    assert forall|q: int| 0 <= q < pp implies decided_not(
                        sts2,
                        bs[rr as int].scores@[q].1 as int,
                        rr as int,
                    ) by {
                        assert(decided_not(sts, bs[rr as int].scores@[q].1 as int, rr as int));
                    }
                    assert(cleared_prefix(sts2, bs, rr as int, kk, pp));
                    assert(hist_ok_at(sts2, bs, kk));
                },
                _ => {},
            }
        }
    }

    assert forall|k1: int, k2: int|
        0 <= k1 < k2 < sts2.len() implies match (#[trigger] sts2[k1], #[trigger] sts2[k2]) {
        (TrackerStatus::Resolved(r1), TrackerStatus::Resolved(r2)) => r1 != r2,
        _ => true,
    } by {
        if k1 != k && k2 != k {
            assert(sts2[k1] == sts[k1] && sts2[k2] == sts[k2]);
        }
    }
}

/// Walks one tracker's candidates. The tracker resolves to the first record
/// whose bucket it heads once every earlier entry has declined; it stands by
/// as soon as an undecided competitor blocks it; it will not resolve if every
/// candidate is exhausted.
fn resolve_tracker(
    statuses: &Vec<TrackerStatus>,
    tracker_scores: &Vec<RecordScore>,
    buckets: &Vec<ScoreBucket>,
    k: usize,
) -> (st: TrackerStatus)
    requires
        buckets_wf(buckets@, statuses@.len() as int),
        forall|q: int|
            0 <= q < tracker_scores@.len() ==> ((#[trigger] tracker_scores@[q]).idx as int)
                < buckets@.len(),
    ensures
        match st {
            TrackerStatus::Resolved(r) => (r as int) < buckets@.len() && (exists|p: int|
                #[trigger] cleared_prefix(statuses@, buckets@, r as int, k as int, p))
                && resolved_cert(statuses@, buckets@, tracker_scores@, k as int, r as int),
            TrackerStatus::WontResolve => wont_cert(
                statuses@,
                buckets@,
                tracker_scores@,
                k as int,
            ),
            TrackerStatus::StandBy => standby_cert(
                statuses@,
                buckets@,
                tracker_scores@,
                k as int,
            ),
        },
{
    let mut c: usize = 0;
    while c < tracker_scores.len()
        invariant
            buckets_wf(buckets@, statuses@.len() as int),
            forall|q: int|
                0 <= q < tracker_scores@.len() ==> ((#[trigger] tracker_scores@[q]).idx as int)
                    < buckets@.len(),
            c <= tracker_scores@.len(),
            forall|c2: int|
                0 <= c2 < c ==> candidate_passed(
                    statuses@,
                    buckets@,
                    ((#[trigger] tracker_scores@[c2]).idx as int),
                    k as int,
                ),
        decreases tracker_scores@.len() - c,
    {
        let r = tracker_scores[c].idx;
        let bucket = &buckets[r];
        let ghost bsc = buckets@[r as int].scores@;
        let mut p: usize = 0;
        loop
            invariant
                buckets_wf(buckets@, statuses@.len() as int),
                (r as int) < buckets@.len(),
                bucket.scores@ == bsc,
                bsc == buckets@[r as int].scores@,
                p <= bsc.len(),
                c < tracker_scores@.len(),
                tracker_scores@[c as int].idx == r,
                forall|c2: int|
                    0 <= c2 < c ==> candidate_passed(
                        statuses@,
                        buckets@,
                        ((#[trigger] tracker_scores@[c2]).idx as int),
                        k as int,
                    ),
                forall|q: int| 0 <= q < p ==> decided_not(statuses@, bsc[q].1 as int, r as int),
                forall|q: int| 0 <= q < p ==> ((#[trigger] bsc[q]).1 as int) != k as int,
            ensures
                candidate_passed(statuses@, buckets@, r as int, k as int),
            decreases bsc.len() - p,
        {
            if p >= bucket.scores.len() {
                proof {
                    assert(forall|q: int|
                        0 <= q < bsc.len() ==> ((#[trigger] bsc[q]).1 as int) != k as int);
                    assert(candidate_passed(statuses@, buckets@, r as int, k as int));
                }
                break ;
            }
            let entry = bucket.scores[p];
            if entry.1 == k {
                proof {
                    assert(buckets@[r as int].scores@[p as int].1 as int == k);
                    assert(cleared_prefix(statuses@, buckets@, r as int, k as int, p as int));
                    assert(tracker_scores@[c as int].idx as int == r as int);
                    assert(resolved_cert(statuses@, buckets@, tracker_scores@, k as int, r as int));
                }
                return TrackerStatus::Resolved(r);
            }
            proof {
                assert(bsc[p as int] == entry);
            }
            match statuses[entry.1] {
                TrackerStatus::Resolved(rr) => {
                    if rr == r {
                        proof {
                            assert((statuses@[bsc[p as int].1 as int])
                                matches TrackerStatus::Resolved(r2) && r2 as int == r as int);
                            assert(forall|pk: int|
                                0 <= pk < bsc.len() && ((#[trigger] bsc[pk]).1 as int) == k as int
                                    ==> pk > p as int);
                            assert(candidate_passed(statuses@, buckets@, r as int, k as int));
                        }
                        break ;
                    }
                },
                TrackerStatus::WontResolve => {},
                TrackerStatus::StandBy => {
                    proof {
                        assert(statuses@[bsc[p as int].1 as int] is StandBy);
                        assert(tracker_scores@[c as int].idx as int == r as int);
                        assert(forall|pk: int|
                            0 <= pk < bsc.len() && ((#[trigger] bsc[pk]).1 as int) == k as int
                                ==> pk > p as int);
                        assert(standby_cert(statuses@, buckets@, tracker_scores@, k as int));
                    }
                    return TrackerStatus::StandBy;
                },
            }
            p += 1;
        }
        c += 1;
    }
    proof {
        assert(wont_cert(statuses@, buckets@, tracker_scores@, k as int));
    }
    TrackerStatus::WontResolve
}

/// The decisions were applied: each tracker's chain outcome mirrors its
/// status, and identities stand.
pub open spec fn applied_ok(
    pre: Seq<Tracker>,
    post: Seq<Tracker>,
    sts: Seq<TrackerStatus>,
    fidx: int,
    nrec: int,
) -> bool {
    &&& post.len() == pre.len()
    &&& sts.len() == pre.len()
    &&& forall|k: int|
        0 <= k < pre.len() ==> same_identity(#[trigger] pre[k], post[k]) && post[k].wf()
    &&& forall|k: int|
        0 <= k < pre.len() ==> ((#[trigger] post[k]).chain@ == pre[k].chain@ || (post[k].chain@
            == pre[k].chain@.push(post[k].chain@.last()) && post[k].chain@.last().frame_idx == fidx
            && post[k].chain@.last().record_idx < nrec))
    &&& forall|k: int|
        0 <= k < pre.len() ==> matched_rec(pre[k], #[trigger] post[k]) == match sts[k] {
            TrackerStatus::Resolved(r) => Some(r as int),
            _ => None::<int>,
        }
    &&& forall|k: int|
        0 <= k < pre.len() && sts[k] is WontResolve ==> dropped_out(pre[k], #[trigger] post[k])
    &&& forall|k: int| 0 <= k < pre.len() && sts[k] is StandBy ==> #[trigger] post[k] == pre[k]
}

/// Record `r` is beyond tracker `k` in the final state: a competitor placed
/// before every entry of `k` in `r`'s bucket matched it, or `k` has no entry
/// in that bucket at all.
pub open spec fn out_of_reach(
    pre: Seq<Tracker>,
    post: Seq<Tracker>,
    bs: Seq<ScoreBucket>,
    r: int,
    k: int,
) -> bool {
    ||| exists|p: int|
        0 <= p < bs[r].scores@.len() && matched_rec(
            pre[(#[trigger] bs[r].scores@[p]).1 as int],
            post[bs[r].scores@[p].1 as int],
        ) == Some(r) && (forall|pk: int|
            0 <= pk < bs[r].scores@.len() && ((#[trigger] bs[r].scores@[pk]).1 as int) == k
                ==> pk > p)
    ||| forall|p: int|
        0 <= p < bs[r].scores@.len() ==> ((#[trigger] bs[r].scores@[p]).1 as int) != k
}

/// Every candidate of `k` is beyond it: the tracker rightly received the
/// no-match signal.
pub open spec fn all_out_of_reach(
    pre: Seq<Tracker>,
    post: Seq<Tracker>,
    bs: Seq<ScoreBucket>,
    cand: Seq<RecordScore>,
    k: int,
) -> bool {
    forall|c: int|
        0 <= c < cand.len() ==> out_of_reach(pre, post, bs, ((#[trigger] cand[c]).idx as int), k)
}

/// Some candidate bucket holds a competitor placed before every entry of `k`
/// that itself ended the frame untouched and unmatched: `k` belongs to a
/// mutually waiting group.
pub open spec fn blocked_in_bucket(
    pre: Seq<Tracker>,
    post: Seq<Tracker>,
    bs: Seq<ScoreBucket>,
    cand: Seq<RecordScore>,
    k: int,
) -> bool {
    exists|c: int, p: int|
        0 <= c < cand.len() && (forall|c2: int|
            0 <= c2 < c ==> out_of_reach(pre, post, bs, ((#[trigger] cand[c2]).idx as int), k))
            && 0 <= p < bs[cand[c].idx as int].scores@.len() && post[(#[trigger] bs[cand[c].idx
            as int].scores@[p]).1 as int] == pre[bs[cand[c].idx as int].scores@[p].1 as int]
            && matched_rec(
            pre[bs[cand[c].idx as int].scores@[p].1 as int],
            post[bs[cand[c].idx as int].scores@[p].1 as int],
        ) is None && (bs[cand[c].idx as int].scores@[p].1 as int) != k && (forall|pk: int|
            0 <= pk < bs[cand[c].idx as int].scores@.len() && ((#[trigger] bs[cand[c].idx
                as int].scores@[pk]).1 as int) == k ==> pk > p)
}

/// The tracker took the first candidate still within reach: every candidate
/// listed before the matched one went to a competitor placed ahead of it.
pub open spec fn matched_first_reachable(
    pre: Seq<Tracker>,
    post: Seq<Tracker>,
    bs: Seq<ScoreBucket>,
    cand: Seq<RecordScore>,
    k: int,
    r: int,
) -> bool {
    exists|c: int|
        0 <= c < cand.len() && ((#[trigger] cand[c]).idx as int) == r && (forall|c2: int|
            0 <= c2 < c ==> out_of_reach(pre, post, bs, ((#[trigger] cand[c2]).idx as int), k))
}

/// The best-match policy: no record is shared, no tracker is matched twice,
/// and unclaimed records each spawn one fresh tracker.
pub struct BestMatchResolvingStrategy {}

impl BestMatchResolvingStrategy {
    pub fn resolve(
        &self,
        frame: &Frame,
        tracker_config: &InternalTrackerConfig,
        id_gen: &mut IdGen,
        trackers: &mut Vec<Tracker>,
        buckets: &Vec<ScoreBucket>,
        trackers_scores: &Vec<Vec<RecordScore>>,
    ) -> (new_trackers: Vec<Tracker>)
        requires
            frame.wf(),
            trackers_ready(old(trackers)@, frame.spec_idx(), frame.cols().len() as int),
            trackers_scores@.len() == old(trackers)@.len(),
            buckets@.len() == frame.spec_num_records(),
            buckets_wf(buckets@, old(trackers)@.len() as int),
            forall|k: int, q: int|
                0 <= k < trackers_scores@.len() && 0 <= q < (#[trigger] trackers_scores@[k])@.len()
                    ==> ((#[trigger] trackers_scores@[k]@[q]).idx as int)
                    < frame.spec_num_records(),
            cfg_wf(*tracker_config, frame.cols().len() as int),
        ensures
            resolve_outcome(
                old(trackers)@,
                final(trackers)@,
                frame.spec_idx(),
                frame.spec_num_records(),
            ),
            matches_injective(old(trackers)@, final(trackers)@),
            spawned_ok(
                new_trackers@,
                frame.spec_idx(),
                frame.spec_num_records(),
                frame.cols().len() as int,
            ),
            spawn_covers(
                old(trackers)@,
                final(trackers)@,
                new_trackers@,
                frame.spec_num_records(),
            ),
            forall|k: int|
                0 <= k < old(trackers)@.len() ==> ((#[trigger] matched_rec(
                    old(trackers)@[k],
                    final(trackers)@[k],
                )) matches Some(r) ==> 0 <= r < buckets@.len() && (exists|p: int|
                    0 <= p < buckets@[r].scores@.len() && ((#[trigger] buckets@[r].scores@[p]).1
                        as int) == k && (forall|q2: int|
                        0 <= q2 < p ==> outcome_decided(
                            old(trackers)@,
                            final(trackers)@,
                            buckets@[r].scores@[q2].1 as int,
                            r,
                        )))),
            forall|k: int|
                0 <= k < old(trackers)@.len() && matched_rec(
                    old(trackers)@[k],
                    #[trigger] final(trackers)@[k],
                ) is None ==> ((dropped_out(old(trackers)@[k], final(trackers)@[k])
                    && all_out_of_reach(
                    old(trackers)@,
                    final(trackers)@,
                    buckets@,
                    trackers_scores@[k]@,
                    k,
                )) || (final(trackers)@[k] == old(trackers)@[k] && blocked_in_bucket(
                    old(trackers)@,
                    final(trackers)@,
                    buckets@,
                    trackers_scores@[k]@,
                    k,
                ))),
            forall|k: int|
                0 <= k < old(trackers)@.len() ==> ((#[trigger] matched_rec(
                    old(trackers)@[k],
                    final(trackers)@[k],
                )) matches Some(r) ==> matched_first_reachable(
                    old(trackers)@,
                    final(trackers)@,
                    buckets@,
                    trackers_scores@[k]@,
                    k,
                    r,
                )),
    {
        let n = trackers.len();
        let nrec = frame.num_records();
        let fidx = frame.idx();

        // Iterative stabilisation over the waiting trackers.
        let mut statuses: Vec<TrackerStatus> = Vec::new();
        let mut i: usize = 0;
        while i < n
            invariant
                i <= n,
                statuses@.len() == i,
                forall|q: int| 0 <= q < i ==> statuses@[q] is StandBy,
            decreases n - i,
        {
            statuses.push(TrackerStatus::StandBy);
            i += 1;
        }
        let mut pending: Vec<usize> = Vec::new();
        let mut i: usize = 0;
        while i < n
            invariant
                i <= n,
                pending@.len() == i,
                forall|q: int| 0 <= q < i ==> (#[trigger] pending@[q]) == q,
            decreases n - i,
        {
            pending.push(i);
            i += 1;
        }
        proof {
            assert forall|k2: int|
                0 <= k2 < n && statuses@[k2] is StandBy implies (exists|q: int|
                0 <= q < pending@.len() && ((#[trigger] pending@[q]) as int) == k2) by {
                assert(pending@[k2] as int == k2);
            }
        }

        loop
            invariant_except_break
                forall|q: int|
                    0 <= q < pending@.len() ==> ((#[trigger] pending@[q]) as int) < n
                        && statuses@[pending@[q] as int] is StandBy,
                forall|q1: int, q2: int|
                    0 <= q1 < q2 < pending@.len() ==> pending@[q1] != pending@[q2],
            invariant
                statuses@.len() == n,
                n == old(trackers)@.len(),
                trackers_scores@.len() == n,
                buckets@.len() == nrec,
                nrec == frame.spec_num_records(),
                buckets_wf(buckets@, n as int),
                forall|kk: int, q: int|
                    0 <= kk < n && 0 <= q < (#[trigger] trackers_scores@[kk])@.len() ==> ((
                    #[trigger] trackers_scores@[kk]@[q]).idx as int) < nrec,
                hist_ok(statuses@, buckets@),
                statuses_injective(statuses@),
                forall|k2: int|
                    0 <= k2 < n && (#[trigger] statuses@[k2]) is WontResolve ==> wont_cert(
                        statuses@,
                        buckets@,
                        trackers_scores@[k2]@,
                        k2,
                    ),
                forall|k2: int|
                    0 <= k2 < n ==> ((#[trigger] statuses@[k2])
                        matches TrackerStatus::Resolved(rr) ==> resolved_cert(
                        statuses@,
                        buckets@,
                        trackers_scores@[k2]@,
                        k2,
                        rr as int,
                    )),
                forall|k2: int|
                    0 <= k2 < n && (#[trigger] statuses@[k2]) is StandBy ==> (exists|q: int|
                        0 <= q < pending@.len() && ((#[trigger] pending@[q]) as int) == k2),
            ensures
                statuses@.len() == n,
                hist_ok(statuses@, buckets@),
                statuses_injective(statuses@),
                forall|k2: int|
                    0 <= k2 < n && (#[trigger] statuses@[k2]) is WontResolve ==> wont_cert(
                        statuses@,
                        buckets@,
                        trackers_scores@[k2]@,
                        k2,
                    ),
                forall|k2: int|
                    0 <= k2 < n ==> ((#[trigger] statuses@[k2])
                        matches TrackerStatus::Resolved(rr) ==> resolved_cert(
                        statuses@,
                        buckets@,
                        trackers_scores@[k2]@,
                        k2,
                        rr as int,
                    )),
                forall|k2: int|
                    0 <= k2 < n && (#[trigger] statuses@[k2]) is StandBy ==> standby_cert(
                        statuses@,
                        buckets@,
                        trackers_scores@[k2]@,
                        k2,
                    ),
            decreases pending@.len(),
        {
            if pending.len() == 0 {
                proof {
                    assert forall|k2: int|
                        0 <= k2 < n implies !((#[trigger] statuses@[k2]) is StandBy) by {
                        if statuses@[k2] is StandBy {
                            let q = choose|q: int|
                                0 <= q < pending@.len() && ((#[trigger] pending@[q]) as int) == k2;
                            assert(false);
                        }
                    }
                }
                break ;
            }
            let mut next_pending: Vec<usize> = Vec::new();
            let m = pending.len();
            let ghost pass_sts = statuses@;
            let mut j: usize = 0;
            while j < m
                invariant
                    statuses@.len() == n,
                    n == old(trackers)@.len(),
                    trackers_scores@.len() == n,
                    buckets@.len() == nrec,
                    buckets_wf(buckets@, n as int),
                    forall|kk: int, q: int|
                        0 <= kk < n && 0 <= q < (#[trigger] trackers_scores@[kk])@.len() ==> ((
                        #[trigger] trackers_scores@[kk]@[q]).idx as int) < nrec,
                    m == pending@.len(),
                    j <= m,
                    hist_ok(statuses@, buckets@),
                    statuses_injective(statuses@),
                    forall|k2: int|
                        0 <= k2 < n && (#[trigger] statuses@[k2]) is WontResolve ==> wont_cert(
                            statuses@,
                            buckets@,
                            trackers_scores@[k2]@,
                            k2,
                        ),
                    forall|k2: int|
                        0 <= k2 < n ==> ((#[trigger] statuses@[k2])
                            matches TrackerStatus::Resolved(rr) ==> resolved_cert(
                            statuses@,
                            buckets@,
                            trackers_scores@[k2]@,
                            k2,
                            rr as int,
                        )),
                    forall|k2: int|
                        0 <= k2 < n && (#[trigger] statuses@[k2]) is StandBy ==> (exists|q: int|
                            0 <= q < pending@.len() && ((#[trigger] pending@[q]) as int) == k2),
                    next_pending@.len() == j ==> (statuses@ == pass_sts && (forall|q: int|
                        0 <= q < j ==> standby_cert(
                            statuses@,
                            buckets@,
                            trackers_scores@[(#[trigger] pending@[q]) as int]@,
                            pending@[q] as int,
                        ))),
                    forall|q: int|
                        0 <= q < j && statuses@[(#[trigger] pending@[q]) as int] is StandBy ==> (
                        exists|q2: int|
                            0 <= q2 < next_pending@.len() && (#[trigger] next_pending@[q2])
                                == pending@[q]),
                    forall|q: int|
                        0 <= q < pending@.len() ==> ((#[trigger] pending@[q]) as int) < n,
                    forall|q: int|
                        j <= q < pending@.len() ==> statuses@[(#[trigger] pending@[q]) as int]
                            is StandBy,
                    forall|q1: int, q2: int|
                        0 <= q1 < q2 < pending@.len() ==> pending@[q1] != pending@[q2],
                    next_pending@.len() <= j,
                    forall|q: int|
                        0 <= q < next_pending@.len() ==> ((#[trigger] next_pending@[q]) as int) < n
                            && statuses@[next_pending@[q] as int] is StandBy,
                    forall|q1: int, q2: int|
                        0 <= q1 < q2 < next_pending@.len() ==> next_pending@[q1]
                            != next_pending@[q2],
                    forall|q1: int, q2: int|
                        0 <= q1 < next_pending@.len() && j <= q2 < pending@.len() ==> next_pending@[q1]
                            != pending@[q2],
                decreases m - j,
            {
                let k = pending[j];
                let st = resolve_tracker(&statuses, &trackers_scores[k], buckets, k);
                let ghost pre_sts = statuses@;
                match st {
                    TrackerStatus::Resolved(r) => {
                        proof {
                            let p = choose|p: int|
                                #[trigger] cleared_prefix(
                                    statuses@,
                                    buckets@,
                                    r as int,
                                    k as int,
                                    p,
                                );
                            lemma_decide_resolved(
                                statuses@,
                                buckets@,
                                k as int,
                                r as int,
                                p,
                            );
                        }
                        statuses.set(k, TrackerStatus::Resolved(r));
                        proof {
                            let upd = TrackerStatus::Resolved(r);
                            assert(statuses@ == pre_sts.update(k as int, upd));
                            assert forall|k2: int|
                                0 <= k2 < n && (#[trigger] statuses@[k2])
                                    is WontResolve implies wont_cert(
                                statuses@,
                                buckets@,
                                trackers_scores@[k2]@,
                                k2,
                            ) by {
                                assert(pre_sts[k2] is WontResolve);
                                lemma_certs_preserved(
                                    pre_sts,
                                    upd,
                                    k as int,
                                    buckets@,
                                    trackers_scores@[k2]@,
                                    k2,
                                );
                            }
                            assert forall|k2: int| 0 <= k2 < n implies ((#[trigger] statuses@[k2])
                                matches TrackerStatus::Resolved(rr) ==> resolved_cert(
                                statuses@,
                                buckets@,
                                trackers_scores@[k2]@,
                                k2,
                                rr as int,
                            )) by {
                                match statuses@[k2] {
                                    TrackerStatus::Resolved(rr) => {
                                        lemma_certs_preserved(
                                            pre_sts,
                                            upd,
                                            k as int,
                                            buckets@,
                                            trackers_scores@[k2]@,
                                            k2,
                                        );
                                        if k2 == k as int {
                                            assert(rr == r);
                                            assert(resolved_cert(
                                                pre_sts,
                                                buckets@,
                                                trackers_scores@[k2]@,
                                                k2,
                                                rr as int,
                                            ));
                                        } else {
                                            assert(pre_sts[k2]
                                                == TrackerStatus::Resolved(rr));
                                            assert(resolved_cert(
                                                pre_sts,
                                                buckets@,
                                                trackers_scores@[k2]@,
                                                k2,
                                                rr as int,
                                            ));
                                        }
                                    },
                                    _ => {},
                                }
                            }
                            assert forall|k2: int|
                                0 <= k2 < n && (#[trigger] statuses@[k2]) is StandBy implies (
                            exists|q: int|
                                0 <= q < pending@.len() && ((#[trigger] pending@[q]) as int)
                                    == k2) by {
                                assert(pre_sts[k2] is StandBy);
                            }
                            assert forall|q: int|
                                0 <= q < j + 1 && statuses@[(#[trigger] pending@[q]) as int]
                                    is StandBy implies (exists|q2: int|
                                0 <= q2 < next_pending@.len() && (#[trigger] next_pending@[q2])
                                    == pending@[q]) by {
                                if q == j as int {
                                    assert(pending@[q] == k);
                                    assert(!(statuses@[k as int] is StandBy));
                                } else {
                                    assert(pending@[q] != pending@[j as int]);
                                    assert(pre_sts[pending@[q] as int] is StandBy);
                                }
                            }
                        }
                    },
                    TrackerStatus::StandBy => {
                        let ghost pre_np = next_pending@;
                        next_pending.push(k);
                        proof {
                            if next_pending@.len() == j + 1 {
                                assert(standby_cert(
                                    statuses@,
                                    buckets@,
                                    trackers_scores@[k as int]@,
                                    k as int,
                                ));
                                assert forall|q: int| 0 <= q < j + 1 implies standby_cert(
                                    statuses@,
                                    buckets@,
                                    trackers_scores@[(#[trigger] pending@[q]) as int]@,
                                    pending@[q] as int,
                                ) by {
                                    if q == j {
                                        assert(pending@[q] == k);
                                    }
                                }
                            }
                            assert forall|q: int|
                                0 <= q < j + 1 && statuses@[(#[trigger] pending@[q]) as int]
                                    is StandBy implies (exists|q2: int|
                                0 <= q2 < next_pending@.len() && (#[trigger] next_pending@[q2])
                                    == pending@[q]) by {
                                if q == j as int {
                                    assert(pending@[q] == k);
                                    assert(next_pending@[next_pending@.len() - 1] == k);
                                } else {
                                    let q2 = choose|q2: int|
                                        0 <= q2 < pre_np.len() && (#[trigger] pre_np[q2])
                                            == pending@[q];
                                    assert(next_pending@[q2] == pending@[q]);
                                }
                            }
                        }
                    },
                    TrackerStatus::WontResolve => {
                        proof {
                            lemma_decide_wont(statuses@, buckets@, k as int);
                        }
                        statuses.set(k, TrackerStatus::WontResolve);
                        proof {
                            let upd = TrackerStatus::WontResolve;
                            assert(statuses@ == pre_sts.update(k as int, upd));
                            assert forall|k2: int|
                                0 <= k2 < n && (#[trigger] statuses@[k2])
                                    is WontResolve implies wont_cert(
                                statuses@,
                                buckets@,
                                trackers_scores@[k2]@,
                                k2,
                            ) by {
                                lemma_certs_preserved(
                                    pre_sts,
                                    upd,
                                    k as int,
                                    buckets@,
                                    trackers_scores@[k2]@,
                                    k2,
                                );
                                if k2 == k as int {
                                    assert(wont_cert(
                                        pre_sts,
                                        buckets@,
                                        trackers_scores@[k2]@,
                                        k2,
                                    ));
                                } else {
                                    assert(pre_sts[k2] is WontResolve);
                                    assert(wont_cert(
                                        pre_sts,
                                        buckets@,
                                        trackers_scores@[k2]@,
                                        k2,
                                    ));
                                }
                            }
                            assert forall|k2: int| 0 <= k2 < n implies ((#[trigger] statuses@[k2])
                                matches TrackerStatus::Resolved(rr) ==> resolved_cert(
                                statuses@,
                                buckets@,
                                trackers_scores@[k2]@,
                                k2,
                                rr as int,
                            )) by {
                                match statuses@[k2] {
                                    TrackerStatus::Resolved(rr) => {
                                        assert(k2 != k as int);
                                        assert(pre_sts[k2] == TrackerStatus::Resolved(rr));
                                        lemma_certs_preserved(
                                            pre_sts,
                                            upd,
                                            k as int,
                                            buckets@,
                                            trackers_scores@[k2]@,
                                            k2,
                                        );
                                        assert(resolved_cert(
                                            pre_sts,
                                            buckets@,
                                            trackers_scores@[k2]@,
                                            k2,
                                            rr as int,
                                        ));
                                    },
                                    _ => {},
                                }
                            }
                            assert forall|k2: int|
                                0 <= k2 < n && (#[trigger] statuses@[k2]) is StandBy implies (
                            exists|q: int|
                                0 <= q < pending@.len() && ((#[trigger] pending@[q]) as int)
                                    == k2) by {
                                assert(pre_sts[k2] is StandBy);
                            }
                            assert forall|q: int|
                                0 <= q < j + 1 && statuses@[(#[trigger] pending@[q]) as int]
                                    is StandBy implies (exists|q2: int|
                                0 <= q2 < next_pending@.len() && (#[trigger] next_pending@[q2])
                                    == pending@[q]) by {
                                if q == j as int {
                                    assert(pending@[q] == k);
                                    assert(!(statuses@[k as int] is StandBy));
                                } else {
                                    assert(pending@[q] != pending@[j as int]);
                                    assert(pre_sts[pending@[q] as int] is StandBy);
                                }
                            }
                        }
                    },
                }
                j += 1;
            }
            if next_pending.len() == m {
                proof {
                    assert forall|k2: int|
                        0 <= k2 < n && (#[trigger] statuses@[k2]) is StandBy implies standby_cert(
                        statuses@,
                        buckets@,
                        trackers_scores@[k2]@,
                        k2,
                    ) by {
                        let q = choose|q: int|
                            0 <= q < pending@.len() && ((#[trigger] pending@[q]) as int) == k2;
                        assert(standby_cert(
                            statuses@,
                            buckets@,
                            trackers_scores@[pending@[q] as int]@,
                            pending@[q] as int,
                        ));
                    }
                }
                break ;
            }
            proof {
                assert forall|k2: int|
                    0 <= k2 < n && (#[trigger] statuses@[k2]) is StandBy implies (exists|q: int|
                        0 <= q < next_pending@.len() && ((#[trigger] next_pending@[q]) as int)
                            == k2) by {
                    let q = choose|q: int|
                        0 <= q < pending@.len() && ((#[trigger] pending@[q]) as int) == k2;
                    let q2 = choose|q2: int|
                        0 <= q2 < next_pending@.len() && (#[trigger] next_pending@[q2])
                            == pending@[q];
                    assert(next_pending@[q2] as int == k2);
                }
            }
            pending = next_pending;
        }

        // Apply the decisions to the trackers.
        let mut updated: Vec<Tracker> = Vec::new();
        let mut k: usize = 0;
        while k < n
            invariant
                frame.wf(),
                n == old(trackers)@.len(),
                statuses@.len() == n,
                nrec == frame.spec_num_records(),
                fidx == frame.spec_idx(),
                trackers_ready(old(trackers)@, frame.spec_idx(), frame.cols().len() as int),
                hist_ok(statuses@, buckets@),
                statuses_injective(statuses@),
                buckets@.len() == nrec,
                k <= n,
                trackers@ =~= old(trackers)@.skip(k as int),
                updated@.len() == k,
                forall|i2: int|
                    0 <= i2 < k ==> same_identity(old(trackers)@[i2], #[trigger] updated@[i2])
                        && updated@[i2].wf(),
                forall|i2: int|
                    0 <= i2 < k ==> ((#[trigger] updated@[i2]).chain@ == old(trackers)@[i2].chain@
                        || (updated@[i2].chain@ == old(trackers)@[i2].chain@.push(
                        updated@[i2].chain@.last(),
                    ) && updated@[i2].chain@.last().frame_idx == frame.spec_idx()
                        && updated@[i2].chain@.last().record_idx < nrec)),
                forall|i2: int|
                    0 <= i2 < k ==> matched_rec(old(trackers)@[i2], #[trigger] updated@[i2])
                        == match statuses@[i2] {
                        TrackerStatus::Resolved(r) => Some(r as int),
                        _ => None::<int>,
                    },
                forall|i2: int|
                    0 <= i2 < k && statuses@[i2] is WontResolve ==> dropped_out(
                        old(trackers)@[i2],
                        #[trigger] updated@[i2],
                    ),
                forall|i2: int|
                    0 <= i2 < k && statuses@[i2] is StandBy ==> #[trigger] updated@[i2] == old(
                        trackers,
                    )@[i2],
            decreases n - k,
        {
            let mut t = trackers.remove(0);
            proof {
                assert(old(trackers)@.skip(k as int)[0] == old(trackers)@[k as int]);
                assert(trackers@ =~= old(trackers)@.skip(k + 1));
            }
            match statuses[k] {
                TrackerStatus::Resolved(r) => {
                    proof {
                        assert(hist_ok_at(statuses@, buckets@, k as int));
                    }
                    t.signal_matching_node(ChainNode::new(fidx, r), frame.record(r));
                },
                TrackerStatus::WontResolve => {
                    t.signal_no_matching_node();
                },
                TrackerStatus::StandBy => {},
            }
            updated.push(t);
            k += 1;
        }
        proof {
            assert(old(trackers)@.skip(n as int) =~= Seq::<Tracker>::empty());
        }
        *trackers = updated;

        proof {
            assert(applied_ok(old(trackers)@, trackers@, statuses@, fidx as int, nrec as int));
            let pre = old(trackers)@;
            let post = trackers@;
            assert forall|k: int|
                0 <= k < pre.len() && matched_rec(pre[k], post[k]) is Some implies {
                let r = matched_rec(pre[k], post[k])->Some_0;
                0 <= r < buckets@.len() && (exists|p: int|
                    0 <= p < buckets@[r].scores@.len() && ((#[trigger] buckets@[r].scores@[p]).1
                        as int) == k && (forall|q2: int|
                        0 <= q2 < p ==> outcome_decided(
                            pre,
                            post,
                            buckets@[r].scores@[q2].1 as int,
                            r,
                        )))
            } by {
                let r = matched_rec(pre[k], post[k])->Some_0;
                match statuses@[k] {
                    TrackerStatus::Resolved(ru) => {
                        assert(ru as int == r);
                        assert(hist_ok_at(statuses@, buckets@, k));
                        let p = choose|p: int|
                            #[trigger] cleared_prefix(statuses@, buckets@, ru as int, k, p);
                        assert forall|q2: int| 0 <= q2 < p implies outcome_decided(
                            pre,
                            post,
                            buckets@[r].scores@[q2].1 as int,
                            r,
                        ) by {
                            let k2 = buckets@[r].scores@[q2].1 as int;
                            assert(decided_not(statuses@, k2, r));
                            match statuses@[k2] {
                                TrackerStatus::Resolved(rr) => {
                                    assert(matched_rec(pre[k2], post[k2]) == Some(rr as int));
                                },
                                TrackerStatus::WontResolve => {
                                    assert(dropped_out(pre[k2], post[k2]));
                                },
                                TrackerStatus::StandBy => {},
                            }
                        }
                        assert(buckets@[r].scores@[p].1 as int == k);
                    },
                    _ => {
                        assert(false);
                    },
                }
            }
            // Progress: every unmatched tracker either rightly dropped out -
            // each of its candidates went to a competitor placed ahead of it -
            // or stands untouched in a mutually waiting group.
            assert forall|k: int|
                0 <= k < pre.len() && matched_rec(pre[k], post[k]) is None implies ((dropped_out(
                pre[k],
                post[k],
            ) && all_out_of_reach(pre, post, buckets@, trackers_scores@[k]@, k)) || (post[k]
                == pre[k] && blocked_in_bucket(pre, post, buckets@, trackers_scores@[k]@, k))) by {
                match statuses@[k] {
                    TrackerStatus::Resolved(ru) => {
                        assert(false);
                    },
                    TrackerStatus::WontResolve => {
                        assert(wont_cert(statuses@, buckets@, trackers_scores@[k]@, k));
                        assert forall|c: int|
                            0 <= c < trackers_scores@[k]@.len() implies out_of_reach(
                            pre,
                            post,
                            buckets@,
                            ((#[trigger] trackers_scores@[k]@[c]).idx as int),
                            k,
                        ) by {
                            lemma_passed_to_out_of_reach(
                                statuses@,
                                pre,
                                post,
                                buckets@,
                                fidx as int,
                                nrec as int,
                                trackers_scores@[k]@[c].idx as int,
                                k,
                            );
                        }
                    },
                    TrackerStatus::StandBy => {
                        assert(post[k] == pre[k]);
                        assert(standby_cert(statuses@, buckets@, trackers_scores@[k]@, k));
                        let (c, p) = choose|c: int, p: int|
                            0 <= c < trackers_scores@[k]@.len() && (forall|c2: int|
                                0 <= c2 < c ==> candidate_passed(
                                    statuses@,
                                    buckets@,
                                    ((#[trigger] trackers_scores@[k]@[c2]).idx as int),
                                    k,
                                )) && 0 <= p < buckets@[trackers_scores@[k]@[c].idx
                                as int].scores@.len() && statuses@[(#[trigger] buckets@[
                            trackers_scores@[k]@[c].idx as int].scores@[p]).1 as int] is StandBy
                                && (buckets@[trackers_scores@[k]@[c].idx as int].scores@[p].1
                                as int) != k && (forall|pk: int|
                                0 <= pk < buckets@[trackers_scores@[k]@[c].idx
                                    as int].scores@.len() && ((
                                #[trigger] buckets@[trackers_scores@[k]@[c].idx
                                    as int].scores@[pk]).1 as int) == k ==> pk > p);
                        let x = buckets@[trackers_scores@[k]@[c].idx as int].scores@[p].1 as int;
                        assert(post[x] == pre[x]);
                        assert(matched_rec(pre[x], post[x]) is None);
                        assert forall|c2: int| 0 <= c2 < c implies out_of_reach(
                            pre,
                            post,
                            buckets@,
                            ((#[trigger] trackers_scores@[k]@[c2]).idx as int),
                            k,
                        ) by {
                            lemma_passed_to_out_of_reach(
                                statuses@,
                                pre,
                                post,
                                buckets@,
                                fidx as int,
                                nrec as int,
                                trackers_scores@[k]@[c2].idx as int,
                                k,
                            );
                        }
                        assert(blocked_in_bucket(pre, post, buckets@, trackers_scores@[k]@, k));
                    },
                }
            }
            // Greediness: a matched tracker took its first candidate still
            // within reach.
            assert forall|k: int| 0 <= k < pre.len() implies ((#[trigger] matched_rec(
                pre[k],
                post[k],
            )) matches Some(r) ==> matched_first_reachable(
                pre,
                post,
                buckets@,
                trackers_scores@[k]@,
                k,
                r,
            )) by {
                match statuses@[k] {
                    TrackerStatus::Resolved(ru) => {
                        assert(resolved_cert(
                            statuses@,
                            buckets@,
                            trackers_scores@[k]@,
                            k,
                            ru as int,
                        ));
                        let c = choose|c: int|
                            0 <= c < trackers_scores@[k]@.len() && ((
                            #[trigger] trackers_scores@[k]@[c]).idx as int) == ru as int && (
                            forall|c2: int|
                                0 <= c2 < c ==> candidate_passed(
                                    statuses@,
                                    buckets@,
                                    ((#[trigger] trackers_scores@[k]@[c2]).idx as int),
                                    k,
                                ));
                        assert forall|c2: int| 0 <= c2 < c implies out_of_reach(
                            pre,
                            post,
                            buckets@,
                            ((#[trigger] trackers_scores@[k]@[c2]).idx as int),
                            k,
                        ) by {
                            lemma_passed_to_out_of_reach(
                                statuses@,
                                pre,
                                post,
                                buckets@,
                                fidx as int,
                                nrec as int,
                                trackers_scores@[k]@[c2].idx as int,
                                k,
                            );
                        }
                        assert(matched_first_reachable(
                            pre,
                            post,
                            buckets@,
                            trackers_scores@[k]@,
                            k,
                            ru as int,
                        ));
                    },
                    _ => {},
                }
            }
        }

        // Which records found a tracker.
        let mut records_match: Vec<bool> = Vec::new();
        let mut r: usize = 0;
        while r < nrec
            invariant
                r <= nrec,
                records_match@.len() == r,
                forall|q: int| 0 <= q < r ==> (#[trigger] records_match@[q]) == false,
            decreases nrec - r,
        {
            records_match.push(false);
            r += 1;
        }
        let mut k: usize = 0;
        while k < n
            invariant
                statuses@.len() == n,
                n == old(trackers)@.len(),
                buckets@.len() == nrec,
                hist_ok(statuses@, buckets@),
                statuses_injective(statuses@),
                applied_ok(old(trackers)@, trackers@, statuses@, fidx as int, nrec as int),
                k <= n,
                records_match@.len() == nrec,
                forall|rr: int|
                    0 <= rr < nrec ==> ((#[trigger] records_match@[rr]) <==> exists|k2: int|
                        0 <= k2 < k && statuses@[k2] == TrackerStatus::Resolved(rr as usize)),
            decreases n - k,
        {
            match statuses[k] {
                TrackerStatus::Resolved(r) => {
                    proof {
                        assert(hist_ok_at(statuses@, buckets@, k as int));
                    }
                    let ghost pre = records_match@;
                    records_match.set(r, true);
                    proof {
                        assert forall|rr: int|
                            0 <= rr < nrec implies ((#[trigger] records_match@[rr]) <==> exists|
                            k2: int,
                        |
                            0 <= k2 < k + 1 && statuses@[k2] == TrackerStatus::Resolved(
                                rr as usize,
                            )) by {
                            if rr == r as int {
                                assert(statuses@[k as int] == TrackerStatus::Resolved(r));
                            } else {
                                assert(records_match@[rr] == pre[rr]);
                            }
                        }
                    }
                },
                _ => {
                    proof {
                        assert forall|rr: int|
                            0 <= rr < nrec implies ((#[trigger] records_match@[rr]) <==> exists|
                            k2: int,
                        |
                            0 <= k2 < k + 1 && statuses@[k2] == TrackerStatus::Resolved(
                                rr as usize,
                            )) by {}
                    }
                },
            }
            k += 1;
        }

        // Spawn a fresh tracker for every unclaimed record.
        let nf = frame.num_features();
        let mut new_trackers: Vec<Tracker> = Vec::new();
        let mut r: usize = 0;
        while r < nrec
            invariant
                frame.wf(),
                nrec == frame.spec_num_records(),
                nf == frame.cols().len() as int,
                fidx == frame.spec_idx(),
                cfg_wf(*tracker_config, frame.cols().len() as int),
                statuses@.len() == n,
                n == old(trackers)@.len(),
                statuses_injective(statuses@),
                applied_ok(old(trackers)@, trackers@, statuses@, fidx as int, nrec as int),
                records_match@.len() == nrec,
                forall|rr: int|
                    0 <= rr < nrec ==> ((#[trigger] records_match@[rr]) <==> exists|k2: int|
                        0 <= k2 < n && statuses@[k2] == TrackerStatus::Resolved(rr as usize)),
                r <= nrec,
                forall|i2: int|
                    0 <= i2 < new_trackers@.len() ==> (#[trigger] new_trackers@[i2]).wf()
                        && new_trackers@[i2].chain@.len() == 1
                        && new_trackers@[i2].chain@[0].frame_idx == fidx
                        && (new_trackers@[i2].chain@[0].record_idx as int) < r
                        && new_trackers@[i2].memories@.len() == nf && records_match@[
                        new_trackers@[i2].chain@[0].record_idx as int] == false,
                forall|i2: int, j2: int|
                    0 <= i2 < j2 < new_trackers@.len() ==> (
                    #[trigger] new_trackers@[i2]).chain@[0].record_idx < (
                    #[trigger] new_trackers@[j2]).chain@[0].record_idx,
                forall|rr: int|
                    0 <= rr < r && records_match@[rr] == false ==> exists|i2: int|
                        0 <= i2 < new_trackers@.len() && ((
                        #[trigger] new_trackers@[i2]).chain@[0].record_idx as int) == rr,
            decreases nrec - r,
        {
            if !records_match[r] {
                let cfg = clone_config(tracker_config);
                proof {
                    crate::trackers::tracker::lemma_cfg_eq_wf(
                        *tracker_config,
                        cfg,
                        frame.cols().len() as int,
                    );
                    assert(frame.cols().len() > 0);
                }
                let mut t = Tracker::new(cfg, nf, id_gen.next());
                t.signal_matching_node(ChainNode::new(fidx, r), frame.record(r));
                let ghost tv = t;
                let ghost pre_news = new_trackers@;
                new_trackers.push(t);
                proof {
                    let last = new_trackers@.len() - 1;
                    assert(new_trackers@[last] == tv);
                    assert(tv.chain@.len() == 1);
                    assert(new_trackers@[last].chain@.len() == 1);
                    assert(new_trackers@[last].chain@[0].frame_idx == fidx);
                    assert(new_trackers@[last].chain@[0].record_idx == r);
                    assert forall|rr: int|
                        0 <= rr < r + 1 && records_match@[rr] == false implies exists|i2: int|
                        0 <= i2 < new_trackers@.len() && ((
                        #[trigger] new_trackers@[i2]).chain@[0].record_idx as int) == rr by {
                        if rr < r {
                            let i2 = choose|i2: int|
                                0 <= i2 < pre_news.len() && ((
                                #[trigger] pre_news[i2]).chain@[0].record_idx as int) == rr;
                            assert(new_trackers@[i2] == pre_news[i2]);
                            assert(((new_trackers@[i2]).chain@[0].record_idx as int) == rr);
                        } else {
                            assert(((new_trackers@[last]).chain@[0].record_idx as int) == rr);
                        }
                    }
                }
            }
            r += 1;
        }

        proof {
            // The per-tracker outcomes follow the statuses, which are
            // injective, and every record is matched or spawned, never both.
            assert forall|k1: int, k2: int|
                0 <= k1 < k2 < old(trackers)@.len() && #[trigger] matched_rec(
                    old(trackers)@[k1],
                    trackers@[k1],
                ) is Some && #[trigger] matched_rec(old(trackers)@[k2], trackers@[k2])
                    is Some implies matched_rec(old(trackers)@[k1], trackers@[k1]) != matched_rec(
                old(trackers)@[k2],
                trackers@[k2],
            ) by {
                assert(statuses@[k1] is Resolved && statuses@[k2] is Resolved);
            }
            assert forall|rr: int| 0 <= rr < nrec implies (#[trigger] record_matched(
                old(trackers)@,
                trackers@,
                rr,
            ) <==> !record_spawned(new_trackers@, rr)) by {
                if record_matched(old(trackers)@, trackers@, rr) {
                    let k2 = choose|k2: int|
                        0 <= k2 < old(trackers)@.len() && #[trigger] matched_rec(
                            old(trackers)@[k2],
                            trackers@[k2],
                        ) == Some(rr);
                    assert(statuses@[k2] == TrackerStatus::Resolved(rr as usize));
                    assert(records_match@[rr]);
                    assert forall|i2: int|
                        0 <= i2 < new_trackers@.len() implies ((
                    #[trigger] new_trackers@[i2]).chain@[0].record_idx as int) != rr by {}
                } else {
                    assert forall|k2: int|
                        0 <= k2 < n implies !(statuses@[k2] == TrackerStatus::Resolved(
                        rr as usize,
                    )) by {
                        if statuses@[k2] == TrackerStatus::Resolved(rr as usize) {
                            assert(matched_rec(old(trackers)@[k2], trackers@[k2]) == Some(rr));
                            assert(record_matched(old(trackers)@, trackers@, rr));
                        }
                    }
                    assert(!records_match@[rr]);
                    assert(record_spawned(new_trackers@, rr));
                }
            }
        }
        new_trackers
    }
}

} // verus!
