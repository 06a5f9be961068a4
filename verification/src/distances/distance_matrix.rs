//! A symmetric store of similarities keyed by pairs of raw strings. Lookups
//! ignore the orientation of the pair, so the store behaves the same whichever
//! way a pair was inserted.

use vstd::prelude::*;

verus! {

/// One stored pair of raw strings with its similarity.
pub open spec fn entry_matches(e: (Seq<char>, Seq<char>, u64), k1: Seq<char>, k2: Seq<char>) -> bool {
    (e.0 == k1 && e.1 == k2) || (e.0 == k2 && e.1 == k1)
}

/// Some entry stands for the unordered pair.
pub open spec fn pair_present(v: Seq<(Seq<char>, Seq<char>, u64)>, k1: Seq<char>, k2: Seq<char>) -> bool {
    exists|i: int| 0 <= i < v.len() && entry_matches(#[trigger] v[i], k1, k2)
}

/// No two entries stand for the same unordered pair.
pub open spec fn pair_unique(v: Seq<(Seq<char>, Seq<char>, u64)>) -> bool {
    forall|i: int, j: int|
        0 <= i < j < v.len() ==> !entry_matches(#[trigger] v[i], (#[trigger] v[j]).0, v[j].1)
}

/// Two entries matching the same unordered pair match each other's keys.
proof fn lemma_match_same_pair(
    e: (Seq<char>, Seq<char>, u64),
    f: (Seq<char>, Seq<char>, u64),
    k1: Seq<char>,
    k2: Seq<char>,
)
    requires
        entry_matches(e, k1, k2),
        entry_matches(f, k1, k2),
    ensures
        entry_matches(e, f.0, f.1),
{
}

/// Symmetric similarity store. The distance it caches must be symmetric for
/// lookups in either orientation to agree.
pub struct DistanceMatrix {
    pub entries: Vec<(String, String, u64)>,
}

impl DistanceMatrix {
    /// The stored triples as abstract values.
    pub open spec fn entries_view(self) -> Seq<(Seq<char>, Seq<char>, u64)> {
        self.entries@.map_values(|e: (String, String, u64)| (e.0@, e.1@, e.2))
    }

    pub fn new() -> (m: DistanceMatrix)
        ensures
            m.entries_view().len() == 0,
    {
        DistanceMatrix { entries: Vec::new() }
    }

    /// Drops every stored pair.
    pub fn clear(&mut self)
        ensures
            final(self).entries_view().len() == 0,
    {
        self.entries.clear();
    }

    /// The number of stored pairs.
    pub fn size(&self) -> (n: usize)
        ensures
            n == self.entries_view().len(),
    {
        self.entries.len()
    }

    /// Stores the similarity of a pair, replacing the entry for the same pair
    /// if one exists. Afterwards the pair is present with the new value,
    /// entries of other pairs are preserved, and a store without duplicate
    /// pairs stays that way, every entry for this pair carrying the new value.
    pub fn set(&mut self, v1: &String, v2: &String, dist: u64)
        ensures
            final(self).entries_view().len() == old(self).entries_view().len()
                || final(self).entries_view().len() == old(self).entries_view().len() + 1,
            exists|i: int|
                0 <= i < final(self).entries_view().len() && entry_matches(
                    #[trigger] final(self).entries_view()[i],
                    v1@,
                    v2@,
                ) && final(self).entries_view()[i].2 == dist,
            forall|i: int|
                0 <= i < final(self).entries_view().len() ==> (old(self).entries_view().contains(
                    #[trigger] final(self).entries_view()[i],
                ) || (entry_matches(final(self).entries_view()[i], v1@, v2@)
                    && final(self).entries_view()[i].2 == dist)),
            forall|e: (Seq<char>, Seq<char>, u64)|
                #[trigger] old(self).entries_view().contains(e) && !entry_matches(e, v1@, v2@)
                    ==> final(self).entries_view().contains(e),
            pair_unique(old(self).entries_view()) ==> pair_unique(final(self).entries_view()) && (
            forall|i: int|
                0 <= i < final(self).entries_view().len() && entry_matches(
                    #[trigger] final(self).entries_view()[i],
                    v1@,
                    v2@,
                ) ==> final(self).entries_view()[i].2 == dist),
            pair_present(old(self).entries_view(), v1@, v2@) ==> final(self).entries_view().len()
                == old(self).entries_view().len(),
            !pair_present(old(self).entries_view(), v1@, v2@) ==> final(self).entries_view().len()
                == old(self).entries_view().len() + 1,
    {
        let n = self.entries.len();
        let mut i: usize = 0;
        while i < n
            invariant
                n == self.entries@.len(),
                i <= n,
                *self == *old(self),
                forall|k: int|
                    0 <= k < i ==> !entry_matches(
                        #[trigger] old(self).entries_view()[k],
                        v1@,
                        v2@,
                    ),
            decreases n - i,
        {
            let hit = (self.entries[i].0 == *v1 && self.entries[i].1 == *v2) || (self.entries[i].0
                == *v2 && self.entries[i].1 == *v1);
            if hit {
                let k1 = self.entries[i].0.clone();
                let k2 = self.entries[i].1.clone();
                self.entries.set(i, (k1, k2, dist));
                proof {
                    let pre = old(self).entries_view();
                    let post = self.entries_view();
                    assert(post.len() == pre.len());
                    assert forall|k: int| 0 <= k < post.len() && k != i implies pre.contains(
                        #[trigger] post[k],
                    ) by {
                        assert(post[k] == pre[k]);
                    }
                    assert(post[i as int].0 == pre[i as int].0 && post[i as int].1
                        == pre[i as int].1);
                    assert(entry_matches(post[i as int], v1@, v2@));
                    assert(entry_matches(pre[i as int], v1@, v2@));
                    assert(pair_present(pre, v1@, v2@));
                    assert forall|e: (Seq<char>, Seq<char>, u64)|
                        #[trigger] pre.contains(e) && !entry_matches(e, v1@, v2@) implies post.contains(
                        e,
                    ) by {
                        let k = choose|k: int| 0 <= k < pre.len() && pre[k] == e;
                        assert(k != i);
                        assert(post[k] == e);
                    }
                    if pair_unique(pre) {
                        assert forall|i2: int, j2: int|
                            0 <= i2 < j2 < post.len() implies !entry_matches(
                            #[trigger] post[i2],
                            (#[trigger] post[j2]).0,
                            post[j2].1,
                        ) by {
                            assert(post[i2].0 == pre[i2].0 && post[i2].1 == pre[i2].1);
                            assert(post[j2].0 == pre[j2].0 && post[j2].1 == pre[j2].1);
                            assert(!entry_matches(pre[i2], pre[j2].0, pre[j2].1));
                        }
                        assert forall|m: int|
                            0 <= m < post.len() && entry_matches(#[trigger] post[m], v1@, v2@)
                                implies post[m].2 == dist by {
                            if m != i {
                                assert(entry_matches(pre[m], v1@, v2@));
                                assert(entry_matches(pre[i as int], v1@, v2@));
                                if m < i {
                                    lemma_match_same_pair(pre[m], pre[i as int], v1@, v2@);
                                } else {
                                    lemma_match_same_pair(pre[i as int], pre[m], v1@, v2@);
                                }
                                assert(false);
                            }
                        }
                    }
                }
                return ;
            }
            i += 1;
        }
        self.entries.push((v1.clone(), v2.clone(), dist));
        proof {
            let pre = old(self).entries_view();
            assert(!pair_present(pre, v1@, v2@));
            let post = self.entries_view();
            let n2 = post.len();
            assert forall|k: int| 0 <= k < n2 - 1 implies pre.contains(#[trigger] post[k]) by {
                assert(post[k] == pre[k]);
            }
            assert(entry_matches(post[n2 - 1], v1@, v2@));
            assert forall|e: (Seq<char>, Seq<char>, u64)|
                #[trigger] pre.contains(e) && !entry_matches(e, v1@, v2@) implies post.contains(
                e,
            ) by {
                let k = choose|k: int| 0 <= k < pre.len() && pre[k] == e;
                assert(post[k] == e);
            }
            if pair_unique(pre) {
                assert forall|i2: int, j2: int|
                    0 <= i2 < j2 < n2 implies !entry_matches(
                    #[trigger] post[i2],
                    (#[trigger] post[j2]).0,
                    post[j2].1,
                ) by {
                    if j2 < n2 - 1 {
                        assert(post[i2] == pre[i2] && post[j2] == pre[j2]);
                    } else {
                        assert(post[i2] == pre[i2]);
                        assert(!entry_matches(pre[i2], v1@, v2@));
                    }
                }
                assert forall|m: int|
                    0 <= m < n2 && entry_matches(#[trigger] post[m], v1@, v2@) implies post[m].2
                    == dist by {
                    if m < n2 - 1 {
                        assert(entry_matches(pre[m], v1@, v2@));
                        assert(false);
                    }
                }
            }
        }
    }

    /// Looks the pair up in either orientation. A hit returns the value of a
    /// matching entry; a miss means no entry matches.
    pub fn get(&self, v1: &String, v2: &String) -> (r: Option<u64>)
        ensures
            match r {
                Some(d) => exists|i: int|
                    0 <= i < self.entries_view().len() && entry_matches(
                        #[trigger] self.entries_view()[i],
                        v1@,
                        v2@,
                    ) && self.entries_view()[i].2 == d,
                None => forall|i: int|
                    0 <= i < self.entries_view().len() ==> !entry_matches(
                        #[trigger] self.entries_view()[i],
                        v1@,
                        v2@,
                    ),
            },
    {
        let n = self.entries.len();
        let mut i: usize = 0;
        while i < n
            invariant
                n == self.entries@.len(),
                i <= n,
                forall|k: int|
                    0 <= k < i ==> !entry_matches(#[trigger] self.entries_view()[k], v1@, v2@),
            decreases n - i,
        {
            let hit = (self.entries[i].0 == *v1 && self.entries[i].1 == *v2) || (self.entries[i].0
                == *v2 && self.entries[i].1 == *v1);
            if hit {
                proof {
                    assert(entry_matches(self.entries_view()[i as int], v1@, v2@));
                }
                return Some(self.entries[i].2);
            }
            i += 1;
        }
        None
    }
}

} // verus!
