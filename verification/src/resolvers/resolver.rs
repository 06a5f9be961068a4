//! The resolver: builds one score bucket per record from all trackers'
//! candidate lists and applies the configured resolving strategy.

use vstd::prelude::*;
use crate::frame::Frame;
use crate::id::IdGen;
use crate::trackers::tracker::{InternalTrackerConfig, RecordScore, Tracker};

verus! {

/// The per-record list of `(score, tracker index)` pairs, kept in descending
/// score order; trackers with equal scores stay in insertion order.
pub struct ScoreBucket {
    pub scores: Vec<(u64, usize)>,
}

/// Entries in descending score order.
pub open spec fn bucket_sorted(s: Seq<(u64, usize)>) -> bool {
    forall|k: int, l: int| 0 <= k < l < s.len() ==> (#[trigger] s[k]).0 >= (#[trigger] s[l]).0
}

/// Entries with equal scores keep insertion order, which is ascending tracker
/// order when trackers are inserted in index order.
pub open spec fn bucket_tie_ordered(s: Seq<(u64, usize)>) -> bool {
    forall|p1: int, p2: int|
        0 <= p1 < p2 < s.len() && (#[trigger] s[p1]).0 == (#[trigger] s[p2]).0 ==> s[p1].1
            <= s[p2].1
}

/// Stable insertion into a descending bucket: the new pair goes after every
/// entry scoring at least as high, so ties keep insertion order.
pub open spec fn bucket_insert(s: Seq<(u64, usize)>, score: u64, id: usize) -> Seq<(u64, usize)>
    decreases s.len(),
{
    if s.len() == 0 {
        seq![(score, id)]
    } else if s[0].0 >= score {
        seq![s[0]] + bucket_insert(s.drop_first(), score, id)
    } else {
        seq![(score, id)] + s
    }
}

/// Inserting at the position the exec search finds is the stable insertion.
proof fn lemma_bucket_insert_split(s: Seq<(u64, usize)>, score: u64, id: usize, pos: int)
    requires
        0 <= pos <= s.len(),
        forall|j: int| 0 <= j < pos ==> (#[trigger] s[j]).0 >= score,
        pos < s.len() ==> s[pos].0 < score,
    ensures
        bucket_insert(s, score, id) =~= s.take(pos) + seq![(score, id)] + s.skip(pos),
    decreases s.len(),
{
    if pos == 0 {
        if s.len() == 0 {
            assert(bucket_insert(s, score, id) =~= seq![(score, id)]);
        }
    } else {
        let rest = s.drop_first();
        assert forall|j: int| 0 <= j < pos - 1 implies (#[trigger] rest[j]).0 >= score by {
            assert(rest[j] == s[j + 1]);
        }
        lemma_bucket_insert_split(rest, score, id, pos - 1);
    }
}

/// Old entries stay members of the bucket after an insertion.
proof fn lemma_bucket_insert_contains(s: Seq<(u64, usize)>, score: u64, id: usize, e: (u64, usize))
    requires
        s.contains(e),
    ensures
        bucket_insert(s, score, id).contains(e),
    decreases s.len(),
{
    if s.len() > 0 && s[0].0 >= score {
        let out = seq![s[0]] + bucket_insert(s.drop_first(), score, id);
        if e == s[0] {
            assert(out[0] == e);
        } else {
            let q = choose|q: int| 0 <= q < s.len() && s[q] == e;
            assert(s.drop_first()[q - 1] == e);
            lemma_bucket_insert_contains(s.drop_first(), score, id, e);
            let q2 = choose|q2: int|
                0 <= q2 < bucket_insert(s.drop_first(), score, id).len() && bucket_insert(
                    s.drop_first(),
                    score,
                    id,
                )[q2] == e;
            assert(out[q2 + 1] == e);
        }
    } else if s.len() > 0 {
        let out = seq![(score, id)] + s;
        let q = choose|q: int| 0 <= q < s.len() && s[q] == e;
        assert(out[q + 1] == e);
    }
}

impl ScoreBucket {
    pub fn new() -> (b: ScoreBucket)
        ensures
            b.scores@.len() == 0,
    {
        ScoreBucket { scores: Vec::new() }
    }

    /// Inserts the pair after every entry scoring at least as high: exactly
    /// the stable insertion, so the list stays descending, ties keep
    /// insertion order, and every old entry survives.
    pub fn push(&mut self, score: u64, tracker_idx: usize)
        ensures
            final(self).scores@ == bucket_insert(old(self).scores@, score, tracker_idx),
            final(self).scores@.len() == old(self).scores@.len() + 1,
            forall|q: int|
                0 <= q < final(self).scores@.len() ==> (old(self).scores@.contains(
                    #[trigger] final(self).scores@[q],
                ) || final(self).scores@[q] == (score, tracker_idx)),
            final(self).scores@.contains((score, tracker_idx)),
            forall|e: (u64, usize)|
                #[trigger] old(self).scores@.contains(e) ==> final(self).scores@.contains(e),
            bucket_sorted(old(self).scores@) ==> bucket_sorted(final(self).scores@),
            (bucket_sorted(old(self).scores@) && bucket_tie_ordered(old(self).scores@) && (forall|
                q: int,
            |
                0 <= q < old(self).scores@.len() ==> ((#[trigger] old(self).scores@[q]).1)
                    <= tracker_idx)) ==> bucket_tie_ordered(final(self).scores@),
    {
        let mut pos: usize = 0;
        while pos < self.scores.len() && self.scores[pos].0 >= score
            invariant
                pos <= self.scores@.len(),
                *self == *old(self),
                forall|j: int| 0 <= j < pos ==> (#[trigger] self.scores@[j]).0 >= score,
            decreases self.scores@.len() - pos,
        {
            pos += 1;
        }
        let ghost pre = self.scores@;
        let ghost p = pos as int;
        self.scores.insert(pos, (score, tracker_idx));
        proof {
            assert(self.scores@ =~= pre.take(p) + seq![(score, tracker_idx)] + pre.skip(p));
            lemma_bucket_insert_split(pre, score, tracker_idx, p);
            assert forall|e: (u64, usize)| #[trigger] pre.contains(e) implies self.scores@.contains(
                e,
            ) by {
                lemma_bucket_insert_contains(pre, score, tracker_idx, e);
            }
            assert forall|q: int|
                0 <= q < self.scores@.len() implies (pre.contains(#[trigger] self.scores@[q])
                || self.scores@[q] == (score, tracker_idx)) by {
                if q < p {
                    assert(self.scores@[q] == pre[q]);
                } else if q > p {
                    assert(self.scores@[q] == pre[q - 1]);
                }
            }
            assert(self.scores@[p] == (score, tracker_idx));
            if bucket_sorted(pre) {
                assert forall|k: int, l: int|
                    0 <= k < l < self.scores@.len() implies (#[trigger] self.scores@[k]).0 >= (
                #[trigger] self.scores@[l]).0 by {
                    if k < p && l > p {
                        assert(self.scores@[k] == pre[k]);
                        assert(self.scores@[l] == pre[l - 1]);
                    } else if k == p && l > p {
                        assert(self.scores@[l] == pre[l - 1]);
                        assert(pre[l - 1].0 < score || l - 1 >= p);
                    } else if l == p && k < p {
                        assert(self.scores@[k] == pre[k]);
                    }
                }
            }
            if bucket_sorted(pre) && bucket_tie_ordered(pre) && (forall|q: int|
                0 <= q < pre.len() ==> ((#[trigger] pre[q]).1) <= tracker_idx) {
                assert forall|p1: int, p2: int|
                    0 <= p1 < p2 < self.scores@.len() && (#[trigger] self.scores@[p1]).0 == (
                #[trigger] self.scores@[p2]).0 implies self.scores@[p1].1 <= self.scores@[p2].1 by {
                    if p1 < p && p2 < p {
                        assert(self.scores@[p1] == pre[p1] && self.scores@[p2] == pre[p2]);
                    } else if p1 < p && p2 == p {
                        assert(self.scores@[p1] == pre[p1]);
                    } else if p1 < p && p2 > p {
                        assert(self.scores@[p1] == pre[p1] && self.scores@[p2] == pre[p2 - 1]);
                    } else if p1 == p && p2 > p {
                        assert(self.scores@[p2] == pre[p2 - 1]);
                        assert(pre[p2 - 1].0 < score);
                    } else {
                        assert(self.scores@[p1] == pre[p1 - 1] && self.scores@[p2] == pre[p2 - 1]);
                    }
                }
            }
        }
    }
}

/// Trackers keep their identity, and a frame either leaves a tracker's chain
/// alone or extends it by exactly one node of the current frame.
pub open spec fn same_identity(pre: Tracker, post: Tracker) -> bool {
    &&& post.id == pre.id
    &&& post.config == pre.config
    &&& post.record_scorer == pre.record_scorer
    &&& post.memories@.len() == pre.memories@.len()
}

/// What the frame did to one tracker's chain.
pub open spec fn matched_rec(pre: Tracker, post: Tracker) -> Option<int> {
    if post.chain@.len() == pre.chain@.len() + 1 {
        Some(post.chain@.last().record_idx as int)
    } else {
        None
    }
}

/// The per-tracker outcome of one resolution step.
pub open spec fn resolve_outcome(pre: Seq<Tracker>, post: Seq<Tracker>, fidx: int, nrec: int) -> bool {
    &&& post.len() == pre.len()
    &&& forall|k: int|
        0 <= k < pre.len() ==> same_identity(#[trigger] pre[k], post[k]) && post[k].wf()
    &&& forall|k: int|
        0 <= k < pre.len() ==> ((#[trigger] post[k]).chain@ == pre[k].chain@ || (post[k].chain@
            == pre[k].chain@.push(post[k].chain@.last()) && post[k].chain@.last().frame_idx == fidx
            && post[k].chain@.last().record_idx < nrec))
}

/// No two trackers were assigned the same record.
pub open spec fn matches_injective(pre: Seq<Tracker>, post: Seq<Tracker>) -> bool {
    forall|k1: int, k2: int|
        0 <= k1 < k2 < pre.len() && #[trigger] matched_rec(pre[k1], post[k1]) is Some
            && #[trigger] matched_rec(pre[k2], post[k2]) is Some ==> matched_rec(pre[k1], post[k1])
            != matched_rec(pre[k2], post[k2])
}

/// Fresh trackers each hold exactly one node of the current frame, with
/// strictly ascending record positions.
pub open spec fn spawned_ok(news: Seq<Tracker>, fidx: int, nrec: int, nf: int) -> bool {
    &&& forall|i: int|
        0 <= i < news.len() ==> (#[trigger] news[i]).wf() && news[i].chain@.len() == 1
            && news[i].chain@[0].frame_idx == fidx && news[i].chain@[0].record_idx < nrec
            && news[i].memories@.len() == nf
    &&& forall|i: int, j: int|
        0 <= i < j < news.len() ==> (#[trigger] news[i]).chain@[0].record_idx < (
        #[trigger] news[j]).chain@[0].record_idx
}

/// Some surviving tracker was assigned the record.
pub open spec fn record_matched(pre: Seq<Tracker>, post: Seq<Tracker>, r: int) -> bool {
    exists|k: int| 0 <= k < pre.len() && #[trigger] matched_rec(pre[k], post[k]) == Some(r)
}

/// Some fresh tracker starts at the record.
pub open spec fn record_spawned(news: Seq<Tracker>, r: int) -> bool {
    exists|i: int| 0 <= i < news.len() && ((#[trigger] news[i]).chain@[0].record_idx as int) == r
}

/// Every record of the frame was either assigned to exactly one surviving
/// tracker or spawned exactly one fresh tracker, never both.
pub open spec fn spawn_covers(
    pre: Seq<Tracker>,
    post: Seq<Tracker>,
    news: Seq<Tracker>,
    nrec: int,
) -> bool {
    forall|r: int|
        0 <= r < nrec ==> (#[trigger] record_matched(pre, post, r) <==> !record_spawned(news, r))
}

/// The preconditions a resolution step places on the tracker list.
pub open spec fn trackers_ready(trackers: Seq<Tracker>, fidx: int, nf: int) -> bool {
    forall|k: int|
        0 <= k < trackers.len() ==> (#[trigger] trackers[k]).wf() && trackers[k].memories@.len()
            == nf && crate::trackers::tracker::nodes_below(trackers[k].chain@, fidx)
}

/// The tracker assigned the record some score in its candidate list.
pub open spec fn has_score(cand: Seq<RecordScore>, r: int, s: u64) -> bool {
    exists|q: int| 0 <= q < cand.len() && ((#[trigger] cand[q]).idx as int) == r && cand[q].score == s
}

/// The score strictly beats every score the tracker gave the record.
pub open spec fn beats_all(cand: Seq<RecordScore>, r: int, s: u64) -> bool {
    forall|q: int|
        0 <= q < cand.len() && ((#[trigger] cand[q]).idx as int) == r ==> cand[q].score < s
}

/// The tracker ran out of usable candidates this frame: its chain stands and
/// its no-match streak grew.
pub open spec fn dropped_out(pre: Tracker, post: Tracker) -> bool {
    &&& post.chain@ == pre.chain@
    &&& post.no_match_streak == if pre.no_match_streak == usize::MAX {
        usize::MAX as int
    } else {
        pre.no_match_streak + 1
    }
}

/// Tracker `k` is known not to hold record `r`: it matched another record or
/// dropped out.
pub open spec fn outcome_decided(pre: Seq<Tracker>, post: Seq<Tracker>, k: int, r: int) -> bool {
    &&& 0 <= k < pre.len()
    &&& ((matched_rec(pre[k], post[k]) matches Some(rr) && rr != r) || dropped_out(pre[k], post[k]))
}

/// The defining goal of best-match resolution, over the candidate scores: a
/// record never stays with one tracker while a competitor that scored it
/// strictly higher than every score of the winner is neither matched
/// somewhere nor dropped.
pub open spec fn best_match_optimal(
    pre: Seq<Tracker>,
    post: Seq<Tracker>,
    scores: Seq<Seq<RecordScore>>,
) -> bool {
    forall|k1: int, k2: int, r: int, s2: u64|
        0 <= k1 < pre.len() && 0 <= k2 < pre.len() && k1 != k2 && #[trigger] matched_rec(
            pre[k1],
            post[k1],
        ) == Some(r) && #[trigger] has_score(scores[k2], r, s2) && beats_all(scores[k1], r, s2)
            ==> matched_rec(pre[k2], post[k2]) is Some || dropped_out(pre[k2], post[k2])
}

/// Bucket precedence over candidate scores: a strictly higher score, or an
/// equal score from an earlier tracker - buckets keep equal scores in
/// insertion order, which is tracker order.
pub open spec fn bucket_precedes(s2: u64, k2: int, s1: u64, k1: int) -> bool {
    s2 > s1 || (s2 == s1 && k2 < k1)
}

/// Record `r` went to a competitor ranked ahead of `k`.
pub open spec fn taken_ahead(
    pre: Seq<Tracker>,
    post: Seq<Tracker>,
    sv: Seq<Seq<RecordScore>>,
    r: int,
    k: int,
) -> bool {
    exists|k2: int, s2: u64, s1: u64|
        0 <= k2 < pre.len() && k2 != k && #[trigger] matched_rec(pre[k2], post[k2]) == Some(r)
            && #[trigger] has_score(sv[k2], r, s2) && #[trigger] has_score(sv[k], r, s1)
            && bucket_precedes(s2, k2, s1, k)
}

/// Candidate `c` of tracker `k` is held by a competitor ranked ahead of it
/// that itself ended the frame untouched and unmatched.
pub open spec fn blocked_entry(
    pre: Seq<Tracker>,
    post: Seq<Tracker>,
    sv: Seq<Seq<RecordScore>>,
    k: int,
    c: int,
) -> bool {
    exists|k2: int, s2: u64|
        0 <= k2 < pre.len() && k2 != k && post[k2] == pre[k2] && matched_rec(pre[k2], post[k2])
            is None && #[trigger] has_score(sv[k2], (sv[k][c].idx as int), s2) && bucket_precedes(
            s2,
            k2,
            sv[k][c].score,
            k,
        )
}

/// Tracker `k` is blocked: its walk passed its first candidates - each taken
/// by a competitor ranked ahead of it - and then hit a candidate held by an
/// undecided competitor ranked ahead of it.
pub open spec fn blocked_ahead(
    pre: Seq<Tracker>,
    post: Seq<Tracker>,
    sv: Seq<Seq<RecordScore>>,
    k: int,
) -> bool {
    exists|c: int|
        0 <= c < sv[k].len() && #[trigger] blocked_entry(pre, post, sv, k, c) && (forall|c2: int|
            0 <= c2 < c ==> taken_ahead(pre, post, sv, ((#[trigger] sv[k][c2]).idx as int), k))
}

/// Progress of the best-match policy: every tracker is decided - matched, or
/// dropped out with each of its candidates taken by a competitor ranked ahead
/// of it - unless a mutually waiting group blocks it, in which case it ends
/// the frame untouched.
pub open spec fn best_match_progress(
    pre: Seq<Tracker>,
    post: Seq<Tracker>,
    sv: Seq<Seq<RecordScore>>,
) -> bool {
    forall|k: int|
        0 <= k < pre.len() && #[trigger] matched_rec(pre[k], post[k]) is None ==> ((dropped_out(
            pre[k],
            post[k],
        ) && (forall|c: int|
            0 <= c < sv[k].len() ==> taken_ahead(
                pre,
                post,
                sv,
                ((#[trigger] sv[k][c]).idx as int),
                k,
            ))) || (post[k] == pre[k] && blocked_ahead(pre, post, sv, k)))
}

/// Greediness of the best-match policy: a matched tracker took the first
/// candidate of its descending list that no competitor ranked ahead of it had
/// taken.
pub open spec fn best_match_greedy(
    pre: Seq<Tracker>,
    post: Seq<Tracker>,
    sv: Seq<Seq<RecordScore>>,
) -> bool {
    forall|k: int|
        0 <= k < pre.len() ==> ((#[trigger] matched_rec(pre[k], post[k])) matches Some(r) ==> (
        exists|c: int|
            0 <= c < sv[k].len() && ((#[trigger] sv[k][c]).idx as int) == r && (forall|c2: int|
                0 <= c2 < c ==> taken_ahead(
                    pre,
                    post,
                    sv,
                    ((#[trigger] sv[k][c2]).idx as int),
                    k,
                ))))
}

/// The bucket holds an entry with this score for this tracker.
pub open spec fn bucket_has(b: Seq<(u64, usize)>, s: u64, k: int) -> bool {
    exists|q: int| 0 <= q < b.len() && (#[trigger] b[q]).0 == s && (b[q].1 as int) == k
}

/// The views of the candidate lists.
pub open spec fn cand_views(ts: Seq<Vec<RecordScore>>) -> Seq<Seq<RecordScore>> {
    ts.map_values(|v: Vec<RecordScore>| v@)
}

/// The buckets are exactly the candidate lists, redistributed per record:
/// descending, ties in tracker order, sound and complete.
pub open spec fn buckets_of_scores(
    bs: Seq<ScoreBucket>,
    sv: Seq<Seq<RecordScore>>,
    n: int,
    nrec: int,
) -> bool {
    &&& sv.len() == n
    &&& bs.len() == nrec
    &&& forall|rr: int| 0 <= rr < nrec ==> bucket_sorted((#[trigger] bs[rr]).scores@)
    &&& forall|rr: int| 0 <= rr < nrec ==> bucket_tie_ordered((#[trigger] bs[rr]).scores@)
    &&& forall|rr: int, qq: int|
        0 <= rr < nrec && 0 <= qq < bs[rr].scores@.len() ==> ((
        #[trigger] bs[rr].scores@[qq]).1 as int) < n && has_score(
            sv[bs[rr].scores@[qq].1 as int],
            rr,
            bs[rr].scores@[qq].0,
        )
    &&& forall|kk: int, qq: int|
        0 <= kk < n && 0 <= qq < sv[kk].len() ==> 0 <= ((#[trigger] sv[kk][qq]).idx as int) < nrec
            && bucket_has(bs[sv[kk][qq].idx as int].scores@, sv[kk][qq].score, kk)
}

/// A record out of a tracker's reach, in bucket terms, went to a competitor
/// ranked ahead of it, in score terms.
proof fn lemma_out_of_reach_taken(
    pre: Seq<Tracker>,
    post: Seq<Tracker>,
    sv: Seq<Seq<RecordScore>>,
    bs: Seq<ScoreBucket>,
    n: int,
    nrec: int,
    k: int,
    c: int,
)
    requires
        buckets_of_scores(bs, sv, n, nrec),
        pre.len() == n,
        post.len() == n,
        0 <= k < n,
        0 <= c < sv[k].len(),
        crate::resolvers::best_match_resolving_strategy::out_of_reach(
            pre,
            post,
            bs,
            (sv[k][c].idx as int),
            k,
        ),
    ensures
        taken_ahead(pre, post, sv, (sv[k][c].idx as int), k),
{
    let r = sv[k][c].idx as int;
    let s1c = sv[k][c].score;
    assert(bucket_has(bs[r].scores@, s1c, k));
    let pk = choose|pk: int|
        0 <= pk < bs[r].scores@.len() && (#[trigger] bs[r].scores@[pk]).0 == s1c && (
        bs[r].scores@[pk].1 as int) == k;
    if forall|p: int|
        0 <= p < bs[r].scores@.len() ==> ((#[trigger] bs[r].scores@[p]).1 as int) != k {
        assert(false);
    }
    let p = choose|p: int|
        0 <= p < bs[r].scores@.len() && matched_rec(
            pre[(#[trigger] bs[r].scores@[p]).1 as int],
            post[bs[r].scores@[p].1 as int],
        ) == Some(r) && (forall|pk2: int|
            0 <= pk2 < bs[r].scores@.len() && ((#[trigger] bs[r].scores@[pk2]).1 as int) == k
                ==> pk2 > p);
    let k2 = bs[r].scores@[p].1 as int;
    let s2 = bs[r].scores@[p].0;
    assert(pk > p);
    assert(s2 >= s1c);
    assert(k2 != k);
    if s2 == s1c {
        assert(bs[r].scores@[p].1 <= bs[r].scores@[pk].1);
    }
    assert(bucket_precedes(s2, k2, s1c, k));
    assert(has_score(sv[k2], r, s2));
    assert(has_score(sv[k], r, s1c));
    assert(taken_ahead(pre, post, sv, r, k));
}

/// The strategy's bucket-level progress and greediness, restated over the
/// candidate scores.
proof fn lemma_progress_scores(
    pre: Seq<Tracker>,
    post: Seq<Tracker>,
    sv: Seq<Seq<RecordScore>>,
    bs: Seq<ScoreBucket>,
    n: int,
    nrec: int,
)
    requires
        buckets_of_scores(bs, sv, n, nrec),
        pre.len() == n,
        post.len() == n,
        forall|k: int|
            0 <= k < n && matched_rec(pre[k], #[trigger] post[k]) is None ==> ((dropped_out(
                pre[k],
                post[k],
            ) && crate::resolvers::best_match_resolving_strategy::all_out_of_reach(
                pre,
                post,
                bs,
                sv[k],
                k,
            )) || (post[k] == pre[k]
                && crate::resolvers::best_match_resolving_strategy::blocked_in_bucket(
                pre,
                post,
                bs,
                sv[k],
                k,
            ))),
        forall|k: int|
            0 <= k < n ==> ((#[trigger] matched_rec(pre[k], post[k])) matches Some(r)
                ==> crate::resolvers::best_match_resolving_strategy::matched_first_reachable(
                pre,
                post,
                bs,
                sv[k],
                k,
                r,
            )),
    ensures
        best_match_progress(pre, post, sv),
        best_match_greedy(pre, post, sv),
{
    assert forall|k: int|
        0 <= k < pre.len() && #[trigger] matched_rec(pre[k], post[k]) is None implies ((
    dropped_out(pre[k], post[k]) && (forall|c: int|
        0 <= c < sv[k].len() ==> taken_ahead(pre, post, sv, ((#[trigger] sv[k][c]).idx as int), k)))
        || (post[k] == pre[k] && blocked_ahead(pre, post, sv, k))) by {
        if dropped_out(pre[k], post[k])
            && crate::resolvers::best_match_resolving_strategy::all_out_of_reach(
            pre,
            post,
            bs,
            sv[k],
            k,
        ) {
            assert forall|c: int| 0 <= c < sv[k].len() implies taken_ahead(
                pre,
                post,
                sv,
                ((#[trigger] sv[k][c]).idx as int),
                k,
            ) by {
                assert(crate::resolvers::best_match_resolving_strategy::out_of_reach(
                    pre,
                    post,
                    bs,
                    ((sv[k][c].idx) as int),
                    k,
                ));
                lemma_out_of_reach_taken(pre, post, sv, bs, n, nrec, k, c);
            }
        } else {
            assert(post[k] == pre[k]
                && crate::resolvers::best_match_resolving_strategy::blocked_in_bucket(
                pre,
                post,
                bs,
                sv[k],
                k,
            ));
            let (c, p) = choose|c: int, p: int|
                0 <= c < sv[k].len() && (forall|c2: int|
                    0 <= c2 < c ==> crate::resolvers::best_match_resolving_strategy::out_of_reach(
                        pre,
                        post,
                        bs,
                        ((#[trigger] sv[k][c2]).idx as int),
                        k,
                    )) && 0 <= p < bs[sv[k][c].idx as int].scores@.len() && post[(
                #[trigger] bs[sv[k][c].idx as int].scores@[p]).1 as int] == pre[bs[sv[k][c].idx
                    as int].scores@[p].1 as int] && matched_rec(
                    pre[bs[sv[k][c].idx as int].scores@[p].1 as int],
                    post[bs[sv[k][c].idx as int].scores@[p].1 as int],
                ) is None && (bs[sv[k][c].idx as int].scores@[p].1 as int) != k && (forall|pk: int|
                    0 <= pk < bs[sv[k][c].idx as int].scores@.len() && ((#[trigger] bs[sv[k][c].idx
                        as int].scores@[pk]).1 as int) == k ==> pk > p);
            let r = sv[k][c].idx as int;
            let k2 = bs[r].scores@[p].1 as int;
            let s2 = bs[r].scores@[p].0;
            let s1c = sv[k][c].score;
            assert(bucket_has(bs[r].scores@, s1c, k));
            let pk = choose|pk: int|
                0 <= pk < bs[r].scores@.len() && (#[trigger] bs[r].scores@[pk]).0 == s1c && (
                bs[r].scores@[pk].1 as int) == k;
            assert(pk > p);
            assert(s2 >= s1c);
            if s2 == s1c {
                assert(bs[r].scores@[p].1 <= bs[r].scores@[pk].1);
            }
            assert(bucket_precedes(s2, k2, s1c, k));
            assert(has_score(sv[k2], r, s2));
            assert(has_score(sv[k], r, s1c));
            assert(blocked_entry(pre, post, sv, k, c));
            assert forall|c2: int| 0 <= c2 < c implies taken_ahead(
                pre,
                post,
                sv,
                ((#[trigger] sv[k][c2]).idx as int),
                k,
            ) by {
                lemma_out_of_reach_taken(pre, post, sv, bs, n, nrec, k, c2);
            }
            assert(blocked_ahead(pre, post, sv, k));
        }
    }
    assert forall|k: int| 0 <= k < pre.len() implies ((#[trigger] matched_rec(pre[k], post[k]))
        matches Some(r) ==> (exists|c: int|
        0 <= c < sv[k].len() && ((#[trigger] sv[k][c]).idx as int) == r && (forall|c2: int|
            0 <= c2 < c ==> taken_ahead(
                pre,
                post,
                sv,
                ((#[trigger] sv[k][c2]).idx as int),
                k,
            )))) by {
        match matched_rec(pre[k], post[k]) {
            Some(r) => {
                assert(crate::resolvers::best_match_resolving_strategy::matched_first_reachable(
                    pre,
                    post,
                    bs,
                    sv[k],
                    k,
                    r,
                ));
                let c = choose|c: int|
                    0 <= c < sv[k].len() && ((#[trigger] sv[k][c]).idx as int) == r && (forall|
                        c2: int,
                    |
                        0 <= c2 < c
                            ==> crate::resolvers::best_match_resolving_strategy::out_of_reach(
                            pre,
                            post,
                            bs,
                            ((#[trigger] sv[k][c2]).idx as int),
                            k,
                        ));
                assert forall|c2: int| 0 <= c2 < c implies taken_ahead(
                    pre,
                    post,
                    sv,
                    ((#[trigger] sv[k][c2]).idx as int),
                    k,
                ) by {
                    lemma_out_of_reach_taken(pre, post, sv, bs, n, nrec, k, c2);
                }
            },
            None => {},
        }
    }
}

/// The strategy that decides which tracker gets which record.
pub enum ResolvingStrategy {
    Simple(crate::resolvers::simple_resolving_strategy::SimpleResolvingStrategy),
    BestMatch(crate::resolvers::best_match_resolving_strategy::BestMatchResolvingStrategy),
}

/// Applies the configured resolving strategy to the trackers' scores.
pub struct Resolver {
    pub resolving_strategy: ResolvingStrategy,
}

impl Resolver {
    pub fn new(resolving_strategy: ResolvingStrategy) -> (r: Resolver)
        ensures
            r.resolving_strategy == resolving_strategy,
    {
        Resolver { resolving_strategy }
    }

    /// Builds the per-record buckets from the trackers' candidate lists and
    /// resolves the frame. Under the best-match strategy the assignment is
    /// injective and unclaimed records spawn fresh trackers, one each.
    #[verifier::rlimit(60)]
    pub fn resolve(
        &mut self,
        frame: &Frame,
        tracker_config: &InternalTrackerConfig,
        id_gen: &mut IdGen,
        trackers: &mut Vec<Tracker>,
        trackers_scores: &Vec<Vec<RecordScore>>,
    ) -> (new_trackers: Vec<Tracker>)
        requires
            frame.wf(),
            trackers_ready(old(trackers)@, frame.spec_idx(), frame.cols().len() as int),
            trackers_scores@.len() == old(trackers)@.len(),
            forall|k: int, q: int|
                0 <= k < trackers_scores@.len() && 0 <= q < (#[trigger] trackers_scores@[k])@.len()
                    ==> ((#[trigger] trackers_scores@[k]@[q]).idx as int)
                    < frame.spec_num_records(),
            crate::trackers::tracker::cfg_wf(*tracker_config, frame.cols().len() as int),
        ensures
            *final(self) == *old(self),
            resolve_outcome(
                old(trackers)@,
                final(trackers)@,
                frame.spec_idx(),
                frame.spec_num_records(),
            ),
            old(self).resolving_strategy is BestMatch ==> matches_injective(
                old(trackers)@,
                final(trackers)@,
            ) && spawned_ok(
                new_trackers@,
                frame.spec_idx(),
                frame.spec_num_records(),
                frame.cols().len() as int,
            ) && spawn_covers(
                old(trackers)@,
                final(trackers)@,
                new_trackers@,
                frame.spec_num_records(),
            ),
            old(self).resolving_strategy is BestMatch ==> best_match_optimal(
                old(trackers)@,
                final(trackers)@,
                cand_views(trackers_scores@),
            ),
            old(self).resolving_strategy is BestMatch ==> best_match_progress(
                old(trackers)@,
                final(trackers)@,
                cand_views(trackers_scores@),
            ) && best_match_greedy(
                old(trackers)@,
                final(trackers)@,
                cand_views(trackers_scores@),
            ),
            old(self).resolving_strategy is Simple ==> new_trackers@.len() == 0 && (forall|k: int|
                0 <= k < old(trackers)@.len()
                    ==> crate::resolvers::simple_resolving_strategy::simple_step(
                    old(trackers)@[k],
                    #[trigger] final(trackers)@[k],
                    trackers_scores@[k]@,
                    frame.cols(),
                    frame.spec_idx(),
                )),
    {
        let nrec = frame.num_records();
        let mut buckets: Vec<ScoreBucket> = Vec::new();
        let mut r: usize = 0;
        while r < nrec
            invariant
                r <= nrec,
                buckets@.len() == r,
                forall|q: int| 0 <= q < r ==> (#[trigger] buckets@[q]).scores@.len() == 0,
            decreases nrec - r,
        {
            buckets.push(ScoreBucket::new());
            r += 1;
        }

        let n = trackers.len();
        let mut k: usize = 0;
        while k < n
            invariant
                n == trackers@.len(),
                trackers_scores@.len() == n,
                k <= n,
                buckets@.len() == nrec,
                nrec == frame.spec_num_records(),
                frame.wf(),
                forall|kk: int, q: int|
                    0 <= kk < n && 0 <= q < (#[trigger] trackers_scores@[kk])@.len() ==> ((
                    #[trigger] trackers_scores@[kk]@[q]).idx as int) < frame.spec_num_records(),
                forall|rr: int, q: int|
                    0 <= rr < nrec && 0 <= q < (#[trigger] buckets@[rr]).scores@.len() ==> ((
                    #[trigger] buckets@[rr].scores@[q]).1 as int) < n,
                forall|rr: int| 0 <= rr < nrec ==> bucket_sorted((#[trigger] buckets@[rr]).scores@),
                forall|rr: int|
                    0 <= rr < nrec ==> bucket_tie_ordered((#[trigger] buckets@[rr]).scores@),
                forall|rr: int, qq: int|
                    0 <= rr < nrec && 0 <= qq < buckets@[rr].scores@.len() ==> ((
                    #[trigger] buckets@[rr].scores@[qq]).1) <= k,
                forall|rr: int, qq: int|
                    0 <= rr < nrec && 0 <= qq < buckets@[rr].scores@.len() ==> has_score(
                        trackers_scores@[(#[trigger] buckets@[rr].scores@[qq]).1 as int]@,
                        rr,
                        buckets@[rr].scores@[qq].0,
                    ),
                forall|kk: int, qq: int|
                    0 <= kk < k && 0 <= qq < trackers_scores@[kk]@.len() ==> bucket_has(
                        buckets@[(#[trigger] trackers_scores@[kk]@[qq]).idx as int].scores@,
                        trackers_scores@[kk]@[qq].score,
                        kk,
                    ),
            decreases n - k,
        {
            let scores = &trackers_scores[k];
            let mut q: usize = 0;
            while q < scores.len()
                invariant
                    n == trackers@.len(),
                    trackers_scores@.len() == n,
                    k < n,
                    scores == &trackers_scores@[k as int],
                    q <= scores@.len(),
                    buckets@.len() == nrec,
                    nrec == frame.spec_num_records(),
                    frame.wf(),
                    forall|kk: int, qq: int|
                        0 <= kk < n && 0 <= qq < (#[trigger] trackers_scores@[kk])@.len() ==> ((
                        #[trigger] trackers_scores@[kk]@[qq]).idx as int)
                            < frame.spec_num_records(),
                    forall|rr: int, qq: int|
                        0 <= rr < nrec && 0 <= qq < (#[trigger] buckets@[rr]).scores@.len() ==> ((
                        #[trigger] buckets@[rr].scores@[qq]).1 as int) < n,
                    forall|rr: int|
                        0 <= rr < nrec ==> bucket_sorted((#[trigger] buckets@[rr]).scores@),
                    forall|rr: int|
                        0 <= rr < nrec ==> bucket_tie_ordered((#[trigger] buckets@[rr]).scores@),
                    forall|rr: int, qq: int|
                        0 <= rr < nrec && 0 <= qq < buckets@[rr].scores@.len() ==> ((
                        #[trigger] buckets@[rr].scores@[qq]).1) <= k,
                    forall|rr: int, qq: int|
                        0 <= rr < nrec && 0 <= qq < buckets@[rr].scores@.len() ==> has_score(
                            trackers_scores@[(#[trigger] buckets@[rr].scores@[qq]).1 as int]@,
                            rr,
                            buckets@[rr].scores@[qq].0,
                        ),
                    forall|kk: int, qq: int|
                        0 <= kk < k && 0 <= qq < trackers_scores@[kk]@.len() ==> bucket_has(
                            buckets@[(#[trigger] trackers_scores@[kk]@[qq]).idx as int].scores@,
                            trackers_scores@[kk]@[qq].score,
                            kk,
                        ),
                    forall|qq: int|
                        0 <= qq < q ==> bucket_has(
                            buckets@[(#[trigger] trackers_scores@[k as int]@[qq]).idx as int].scores@,
                            trackers_scores@[k as int]@[qq].score,
                            k as int,
                        ),
                decreases scores@.len() - q,
            {
                let sc = scores[q];
                let ghost pre_buckets = buckets@;
                let mut b = buckets.remove(sc.idx);
                b.push(sc.score, k);
                buckets.insert(sc.idx, b);
                proof {
                    assert(buckets@ =~= pre_buckets.update(sc.idx as int, b));
                    assert forall|rr: int|
                        0 <= rr < nrec implies bucket_tie_ordered(
                        (#[trigger] buckets@[rr]).scores@,
                    ) by {
                        if rr != sc.idx as int {
                            assert(buckets@[rr] == pre_buckets[rr]);
                        }
                    }
                    assert forall|rr: int, qq: int|
                        0 <= rr < nrec && 0 <= qq < (#[trigger] buckets@[rr]).scores@.len() implies ((
                    #[trigger] buckets@[rr].scores@[qq]).1 as int) < n && ((
                    buckets@[rr].scores@[qq]).1) <= k && has_score(
                        trackers_scores@[buckets@[rr].scores@[qq].1 as int]@,
                        rr,
                        buckets@[rr].scores@[qq].0,
                    ) by {
                        if rr == sc.idx as int {
                            if !pre_buckets[rr].scores@.contains(buckets@[rr].scores@[qq]) {
                                assert(buckets@[rr].scores@[qq] == (sc.score, k));
                                assert(trackers_scores@[k as int]@[q as int] == sc);
                                assert(has_score(trackers_scores@[k as int]@, rr, sc.score));
                            } else {
                                let w = choose|w: int|
                                    0 <= w < pre_buckets[rr].scores@.len() && pre_buckets[rr].scores@[w]
                                        == buckets@[rr].scores@[qq];
                            }
                        } else {
                            assert(buckets@[rr] == pre_buckets[rr]);
                        }
                    }
                    // Entries recorded so far survive the insertion.
                    assert forall|kk: int, qq: int|
                        (0 <= kk < k || (kk == k && 0 <= qq < q + 1)) && 0 <= qq
                            < trackers_scores@[kk]@.len() implies bucket_has(
                        buckets@[(#[trigger] trackers_scores@[kk]@[qq]).idx as int].scores@,
                        trackers_scores@[kk]@[qq].score,
                        kk,
                    ) by {
                        let rr = trackers_scores@[kk]@[qq].idx as int;
                        let ss = trackers_scores@[kk]@[qq].score;
                        if kk == k as int && qq == q as int {
                            assert(buckets@[rr].scores@.contains((sc.score, k)));
                            let w = choose|w: int|
                                0 <= w < buckets@[rr].scores@.len() && buckets@[rr].scores@[w] == (
                                sc.score,
                                k,
                            );
                        } else {
                            assert(bucket_has(pre_buckets[rr].scores@, ss, kk));
                            let w = choose|w: int|
                                0 <= w < pre_buckets[rr].scores@.len() && (
                                #[trigger] pre_buckets[rr].scores@[w]).0 == ss
                                    && (pre_buckets[rr].scores@[w].1 as int) == kk;
                            if rr == sc.idx as int {
                                assert(pre_buckets[rr].scores@.contains(
                                    pre_buckets[rr].scores@[w],
                                ));
                                assert(b.scores@.contains(pre_buckets[rr].scores@[w]));
                                let w2 = choose|w2: int|
                                    0 <= w2 < b.scores@.len() && b.scores@[w2]
                                        == pre_buckets[rr].scores@[w];
                            } else {
                                assert(buckets@[rr] == pre_buckets[rr]);
                            }
                        }
                    }
                }
                q += 1;
            }
            k += 1;
        }

        match &self.resolving_strategy {
            ResolvingStrategy::Simple(strategy) => {
                strategy.resolve(frame, trackers, trackers_scores);
                Vec::new()
            },
            ResolvingStrategy::BestMatch(strategy) => {
                let result = strategy.resolve(
                    frame,
                    tracker_config,
                    id_gen,
                    trackers,
                    &buckets,
                    trackers_scores,
                );
                proof {
                    let pre = old(trackers)@;
                    let post = trackers@;
                    let sv = cand_views(trackers_scores@);
                    assert forall|k1: int, k2: int, r: int, s2: u64|
                        0 <= k1 < pre.len() && 0 <= k2 < pre.len() && k1 != k2
                            && #[trigger] matched_rec(pre[k1], post[k1]) == Some(r)
                            && #[trigger] has_score(sv[k2], r, s2) && beats_all(
                            sv[k1],
                            r,
                            s2,
                        ) implies matched_rec(pre[k2], post[k2]) is Some || dropped_out(
                        pre[k2],
                        post[k2],
                    ) by {
                        let p = choose|p: int|
                            0 <= p < buckets@[r].scores@.len() && ((
                            #[trigger] buckets@[r].scores@[p]).1 as int) == k1 && (forall|q2: int|
                                0 <= q2 < p ==> outcome_decided(
                                    pre,
                                    post,
                                    buckets@[r].scores@[q2].1 as int,
                                    r,
                                ));
                        // The winner's entry carries one of its own scores,
                        // which the competitor's score strictly beats.
                        assert(has_score(trackers_scores@[k1]@, r, buckets@[r].scores@[p].0));
                        assert(buckets@[r].scores@[p].0 < s2);
                        // The competitor's entry sits in the same bucket.
                        let qq = choose|qq: int|
                            0 <= qq < sv[k2].len() && ((#[trigger] sv[k2][qq]).idx as int) == r
                                && sv[k2][qq].score == s2;
                        assert(bucket_has(
                            buckets@[trackers_scores@[k2]@[qq].idx as int].scores@,
                            trackers_scores@[k2]@[qq].score,
                            k2,
                        ));
                        let q = choose|q: int|
                            0 <= q < buckets@[r].scores@.len() && (
                            #[trigger] buckets@[r].scores@[q]).0 == s2 && (buckets@[r].scores@[q].1
                                as int) == k2;
                        // A strictly higher score sorts strictly earlier.
                        assert(q < p);
                        assert(outcome_decided(pre, post, k2, r));
                    }
                    // Restate progress and greediness over the candidate
                    // scores.
                    assert forall|kk: int, qq: int|
                        0 <= kk < n && 0 <= qq < sv[kk].len() implies 0 <= ((
                    #[trigger] sv[kk][qq]).idx as int) < nrec && bucket_has(
                        buckets@[sv[kk][qq].idx as int].scores@,
                        sv[kk][qq].score,
                        kk,
                    ) by {
                        assert(sv[kk] == trackers_scores@[kk]@);
                        assert(trackers_scores@[kk]@[qq] == sv[kk][qq]);
                    }
                    assert forall|rr: int, qq: int|
                        0 <= rr < nrec && 0 <= qq < buckets@[rr].scores@.len() implies ((
                    #[trigger] buckets@[rr].scores@[qq]).1 as int) < n && has_score(
                        sv[buckets@[rr].scores@[qq].1 as int],
                        rr,
                        buckets@[rr].scores@[qq].0,
                    ) by {
                        assert(sv[buckets@[rr].scores@[qq].1 as int] == trackers_scores@[
                        buckets@[rr].scores@[qq].1 as int]@);
                    }
                    assert(buckets_of_scores(buckets@, sv, n as int, nrec as int));
                    assert forall|k: int|
                        0 <= k < n as int && matched_rec(pre[k], #[trigger] post[k])
                            is None implies ((dropped_out(pre[k], post[k])
                        && crate::resolvers::best_match_resolving_strategy::all_out_of_reach(
                        pre,
                        post,
                        buckets@,
                        sv[k],
                        k,
                    )) || (post[k] == pre[k]
                        && crate::resolvers::best_match_resolving_strategy::blocked_in_bucket(
                        pre,
                        post,
                        buckets@,
                        sv[k],
                        k,
                    ))) by {
                        assert(sv[k] == trackers_scores@[k]@);
                    }
                    assert forall|k: int| 0 <= k < n as int implies ((#[trigger] matched_rec(
                        pre[k],
                        post[k],
                    )) matches Some(r)
                        ==> crate::resolvers::best_match_resolving_strategy::matched_first_reachable(
                        pre,
                        post,
                        buckets@,
                        sv[k],
                        k,
                        r,
                    )) by {
                        assert(sv[k] == trackers_scores@[k]@);
                    }
                    lemma_progress_scores(pre, post, sv, buckets@, n as int, nrec as int);
                    assert(best_match_progress(pre, post, sv));
                    assert(best_match_greedy(pre, post, sv));
                }
                result
            },
        }
    }
}

} // verus!
