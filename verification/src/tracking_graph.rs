//! The tracking graph: a frame-by-record matrix of nodes, each holding the
//! chain edges that enter and leave the position, plus a synthetic root whose
//! outgoing edges mark the first node of every chain.

use vstd::prelude::*;
use crate::frame::Frame;
use crate::id::ID;

verus! {

/// A reference to one record in one frame.
#[derive(Clone, Copy, Debug, PartialEq, Eq, Structural)]
pub struct ChainNode {
    pub frame_idx: usize,
    pub record_idx: usize,
}

impl ChainNode {
    pub fn new(frame_idx: usize, record_idx: usize) -> (n: ChainNode)
        ensures
            n.frame_idx == frame_idx,
            n.record_idx == record_idx,
    {
        ChainNode { frame_idx, record_idx }
    }
}

/// A node of the tracking graph: the chain edges in and out of one position.
/// Each edge carries the identifier of its chain and the neighbouring node.
#[derive(Debug)]
pub struct GraphNode {
    pub ins: Vec<(ID, ChainNode)>,
    pub outs: Vec<(ID, ChainNode)>,
}

impl GraphNode {
    pub fn new() -> (n: GraphNode)
        ensures
            n.ins@.len() == 0,
            n.outs@.len() == 0,
    {
        GraphNode { ins: Vec::new(), outs: Vec::new() }
    }
}

/// The tracking graph over all frames.
#[derive(Debug)]
pub struct TrackingGraph {
    pub root: GraphNode,
    pub matrix: Vec<Vec<GraphNode>>,
}

/// Chain `c`'s consecutive pair number `t` (for `t >= 1`) runs from `e.1`
/// into `pos` under the chain's identifier `e.0`.
pub open spec fn ins_edge(
    chains: Seq<crate::trackers::tracker::TrackingChain>,
    c: int,
    t: int,
    e: (ID, ChainNode),
    pos: ChainNode,
) -> bool {
    &&& 0 <= c < chains.len()
    &&& 1 <= t < chains[c].nodes@.len()
    &&& chains[c].id == e.0
    &&& chains[c].nodes@[t - 1] == e.1
    &&& chains[c].nodes@[t] == pos
}

/// Chain `c`'s consecutive pair number `t` runs from `pos` out to `e.1`.
pub open spec fn outs_edge(
    chains: Seq<crate::trackers::tracker::TrackingChain>,
    c: int,
    t: int,
    e: (ID, ChainNode),
    pos: ChainNode,
) -> bool {
    &&& 0 <= c < chains.len()
    &&& 1 <= t < chains[c].nodes@.len()
    &&& chains[c].id == e.0
    &&& chains[c].nodes@[t - 1] == pos
    &&& chains[c].nodes@[t] == e.1
}

/// Pair `(c2, t2)` comes before pair `(c, t)` in build order.
pub open spec fn lex_before(c2: int, t2: int, c: int, t: int) -> bool {
    c2 < c || (c2 == c && t2 < t)
}

/// The matrix node standing for a frame and record position.
pub open spec fn cell_pos(i: int, rn: int) -> ChainNode {
    ChainNode { frame_idx: i as usize, record_idx: rn as usize }
}

/// The incoming and outgoing edges of every cell are exactly the chain pairs
/// built so far (those lexicographically before `(cut_c, cut_t)`).
pub open spec fn cells_encode_upto(
    m: Seq<Vec<GraphNode>>,
    chains: Seq<crate::trackers::tracker::TrackingChain>,
    cut_c: int,
    cut_t: int,
) -> bool {
    forall|i: int, rn: int, e: (ID, ChainNode)|
        #![trigger m[i]@[rn].ins@.contains(e)]
        #![trigger m[i]@[rn].outs@.contains(e)]
        0 <= i < m.len() && 0 <= rn < m[i]@.len() ==> ((m[i]@[rn].ins@.contains(e))
            <==> exists|c: int, t: int|
            lex_before(c, t, cut_c, cut_t) && #[trigger] ins_edge(chains, c, t, e, cell_pos(i, rn)))
            && ((m[i]@[rn].outs@.contains(e)) <==> exists|c: int, t: int|
            lex_before(c, t, cut_c, cut_t) && #[trigger] outs_edge(
                chains,
                c,
                t,
                e,
                cell_pos(i, rn),
            ))
}

/// The cells of the matrix encode exactly the edges of all chains.
pub open spec fn cells_encode(
    m: Seq<Vec<GraphNode>>,
    chains: Seq<crate::trackers::tracker::TrackingChain>,
) -> bool {
    cells_encode_upto(m, chains, chains.len() as int, 1)
}

/// Reads the encoding property at one cell.
proof fn lemma_cells_at(
    m: Seq<Vec<GraphNode>>,
    chains: Seq<crate::trackers::tracker::TrackingChain>,
    cut_c: int,
    cut_t: int,
    i: int,
    rn: int,
    e: (ID, ChainNode),
)
    requires
        cells_encode_upto(m, chains, cut_c, cut_t),
        0 <= i < m.len(),
        0 <= rn < m[i]@.len(),
    ensures
        m[i]@[rn].ins@.contains(e) <==> exists|c: int, t: int|
            lex_before(c, t, cut_c, cut_t) && #[trigger] ins_edge(chains, c, t, e, cell_pos(i, rn)),
        m[i]@[rn].outs@.contains(e) <==> exists|c: int, t: int|
            lex_before(c, t, cut_c, cut_t) && #[trigger] outs_edge(
                chains,
                c,
                t,
                e,
                cell_pos(i, rn),
            ),
{
}

/// The root's outgoing edges: each non-empty chain's identifier with its
/// first node, in chain order.
pub open spec fn firsts(chains: Seq<crate::trackers::tracker::TrackingChain>) -> Seq<(ID, ChainNode)>
    decreases chains.len(),
{
    if chains.len() == 0 {
        Seq::empty()
    } else {
        firsts(chains.drop_last()) + if chains.last().nodes@.len() > 0 {
            seq![(chains.last().id, chains.last().nodes@[0])]
        } else {
            Seq::<(ID, ChainNode)>::empty()
        }
    }
}

/// Membership in a sequence extended by one element.
proof fn lemma_push_contains<A>(s: Seq<A>, x: A, e: A)
    ensures
        s.push(x).contains(e) <==> (s.contains(e) || e == x),
{
    if s.push(x).contains(e) {
        let i = choose|i: int| 0 <= i < s.push(x).len() && s.push(x)[i] == e;
        if i < s.len() {
            assert(s[i] == e);
        }
    }
    if s.contains(e) {
        let i = choose|i: int| 0 <= i < s.len() && s[i] == e;
        assert(s.push(x)[i] == e);
    }
    if e == x {
        assert(s.push(x)[s.len() as int] == e);
    }
}

/// Appends an incoming edge at one cell, leaving every other cell and every
/// outgoing list untouched.
fn push_ins(matrix: &mut Vec<Vec<GraphNode>>, fi: usize, ri: usize, e: (ID, ChainNode))
    requires
        (fi as int) < old(matrix)@.len(),
        (ri as int) < old(matrix)@[fi as int]@.len(),
    ensures
        final(matrix)@.len() == old(matrix)@.len(),
        forall|i: int|
            0 <= i < old(matrix)@.len() ==> (#[trigger] final(matrix)@[i])@.len()
                == old(matrix)@[i]@.len(),
        forall|i: int, rn: int|
            0 <= i < old(matrix)@.len() && 0 <= rn < old(matrix)@[i]@.len() ==> (
            #[trigger] final(matrix)@[i]@[rn]).outs@ == old(matrix)@[i]@[rn].outs@,
        forall|i: int, rn: int|
            0 <= i < old(matrix)@.len() && 0 <= rn < old(matrix)@[i]@.len() && !(i == fi as int
                && rn == ri as int) ==> (#[trigger] final(matrix)@[i]@[rn]).ins@
                == old(matrix)@[i]@[rn].ins@,
        final(matrix)@[fi as int]@[ri as int].ins@ == old(matrix)@[fi as int]@[ri as int].ins@.push(
            e,
        ),
{
    let mut row = matrix.remove(fi);
    let mut node = row.remove(ri);
    node.ins.push(e);
    let ghost rowpre = old(matrix)@[fi as int]@;
    row.insert(ri, node);
    proof {
        assert(row@ =~= rowpre.update(ri as int, row@[ri as int]));
    }
    matrix.insert(fi, row);
    proof {
        assert(matrix@ =~= old(matrix)@.update(fi as int, matrix@[fi as int]));
    }
}

/// Appends an outgoing edge at one cell, leaving every other cell and every
/// incoming list untouched.
fn push_outs(matrix: &mut Vec<Vec<GraphNode>>, fi: usize, ri: usize, e: (ID, ChainNode))
    requires
        (fi as int) < old(matrix)@.len(),
        (ri as int) < old(matrix)@[fi as int]@.len(),
    ensures
        final(matrix)@.len() == old(matrix)@.len(),
        forall|i: int|
            0 <= i < old(matrix)@.len() ==> (#[trigger] final(matrix)@[i])@.len()
                == old(matrix)@[i]@.len(),
        forall|i: int, rn: int|
            0 <= i < old(matrix)@.len() && 0 <= rn < old(matrix)@[i]@.len() ==> (
            #[trigger] final(matrix)@[i]@[rn]).ins@ == old(matrix)@[i]@[rn].ins@,
        forall|i: int, rn: int|
            0 <= i < old(matrix)@.len() && 0 <= rn < old(matrix)@[i]@.len() && !(i == fi as int
                && rn == ri as int) ==> (#[trigger] final(matrix)@[i]@[rn]).outs@
                == old(matrix)@[i]@[rn].outs@,
        final(matrix)@[fi as int]@[ri as int].outs@ == old(
            matrix,
        )@[fi as int]@[ri as int].outs@.push(e),
{
    let mut row = matrix.remove(fi);
    let mut node = row.remove(ri);
    node.outs.push(e);
    let ghost rowpre = old(matrix)@[fi as int]@;
    row.insert(ri, node);
    proof {
        assert(row@ =~= rowpre.update(ri as int, row@[ri as int]));
    }
    matrix.insert(fi, row);
    proof {
        assert(matrix@ =~= old(matrix)@.update(fi as int, matrix@[fi as int]));
    }
}

impl TrackingGraph {
    /// Folds the finished chains into the frame-by-record matrix: each
    /// consecutive chain pair becomes one outgoing edge at its earlier node
    /// and one incoming edge at its later node, and the root points at every
    /// chain's first node. The matrix encodes exactly those edges.
    pub fn from_tracking_chains(
        frames: &Vec<Frame>,
        chains: Vec<crate::trackers::tracker::TrackingChain>,
    ) -> (g: TrackingGraph)
        requires
            forall|i: int| 0 <= i < frames@.len() ==> (#[trigger] frames@[i]).shape_ok(),
            forall|c: int|
                0 <= c < chains@.len() ==> crate::tracking_engine::chain_in_frames(
                    (#[trigger] chains@[c]).nodes@,
                    frames@,
                ),
        ensures
            g.matrix@.len() == frames@.len(),
            forall|i: int|
                0 <= i < frames@.len() ==> (#[trigger] g.matrix@[i])@.len()
                    == frames@[i].spec_num_records(),
            g.root.ins@.len() == 0,
            g.root.outs@ == firsts(chains@),
            cells_encode(g.matrix@, chains@),
    {
        let mut matrix: Vec<Vec<GraphNode>> = Vec::new();
        let nframes = frames.len();
        let mut fi: usize = 0;
        while fi < nframes
            invariant
                forall|i: int| 0 <= i < frames@.len() ==> (#[trigger] frames@[i]).shape_ok(),
                nframes == frames@.len(),
                fi <= nframes,
                matrix@.len() == fi,
                forall|i: int|
                    0 <= i < fi ==> (#[trigger] matrix@[i])@.len()
                        == frames@[i].spec_num_records(),
                forall|i: int| 0 <= i < fi ==> (#[trigger] matrix@[i])@.len() <= usize::MAX,
                forall|i: int, rn: int|
                    0 <= i < fi && 0 <= rn < matrix@[i]@.len() ==> (
                    #[trigger] matrix@[i]@[rn]).ins@.len() == 0 && matrix@[i]@[rn].outs@.len()
                        == 0,
            decreases nframes - fi,
        {
            let nrec = frames[fi].num_records();
            let mut column: Vec<GraphNode> = Vec::new();
            let mut rn: usize = 0;
            while rn < nrec
                invariant
                    rn <= nrec,
                    column@.len() == rn,
                    forall|q: int|
                        0 <= q < rn ==> (#[trigger] column@[q]).ins@.len() == 0
                            && column@[q].outs@.len() == 0,
                decreases nrec - rn,
            {
                column.push(GraphNode::new());
                rn += 1;
            }
            matrix.push(column);
            fi += 1;
        }

        let mut root = GraphNode::new();
        let ncs = chains.len();
        let mut c: usize = 0;
        while c < ncs
            invariant
                forall|i: int| 0 <= i < frames@.len() ==> (#[trigger] frames@[i]).shape_ok(),
                forall|cc: int|
                    0 <= cc < chains@.len() ==> crate::tracking_engine::chain_in_frames(
                        (#[trigger] chains@[cc]).nodes@,
                        frames@,
                    ),
                ncs == chains@.len(),
                c <= ncs,
                matrix@.len() == frames@.len(),
                matrix@.len() <= usize::MAX,
                forall|i: int| 0 <= i < matrix@.len() ==> (#[trigger] matrix@[i])@.len() <= usize::MAX,
                forall|i: int|
                    0 <= i < frames@.len() ==> (#[trigger] matrix@[i])@.len()
                        == frames@[i].spec_num_records(),
                root.ins@.len() == 0,
                root.outs@ == firsts(chains@.take(c as int)),
                cells_encode_upto(matrix@, chains@, c as int, 1),
            decreases ncs - c,
        {
            let nnodes = chains[c].nodes.len();
            if nnodes > 0 {
                let first = chains[c].nodes[0];
                let cid = chains[c].id;
                root.outs.push((cid, first));
            }
            proof {
                assert(chains@.take(c + 1).drop_last() =~= chains@.take(c as int));
                assert(chains@.take(c + 1).last() == chains@[c as int]);
                assert(root.outs@ =~= firsts(chains@.take(c + 1)));
            }
            let mut t: usize = 1;
            while t < nnodes
                invariant
                    forall|i: int| 0 <= i < frames@.len() ==> (#[trigger] frames@[i]).shape_ok(),
                    forall|cc: int|
                        0 <= cc < chains@.len() ==> crate::tracking_engine::chain_in_frames(
                            (#[trigger] chains@[cc]).nodes@,
                            frames@,
                        ),
                    ncs == chains@.len(),
                    c < ncs,
                    nnodes == chains@[c as int].nodes@.len(),
                    1 <= t <= nnodes || (nnodes == 0 && t == 1),
                    matrix@.len() == frames@.len(),
                    matrix@.len() <= usize::MAX,
                    forall|i: int|
                        0 <= i < matrix@.len() ==> (#[trigger] matrix@[i])@.len() <= usize::MAX,
                    forall|i: int|
                        0 <= i < frames@.len() ==> (#[trigger] matrix@[i])@.len()
                            == frames@[i].spec_num_records(),
                    cells_encode_upto(matrix@, chains@, c as int, t as int),
                decreases nnodes - t,
            {
                let prev = chains[c].nodes[t - 1];
                let cur = chains[c].nodes[t];
                let cid = chains[c].id;
                let ghost m0 = matrix@;
                push_outs(&mut matrix, prev.frame_idx, prev.record_idx, (cid, cur));
                let ghost m1 = matrix@;
                push_ins(&mut matrix, cur.frame_idx, cur.record_idx, (cid, prev));
                proof {
                    lemma_edges_step(
                        m0,
                        m1,
                        matrix@,
                        chains@,
                        c as int,
                        t as int,
                        prev,
                        cur,
                        cid,
                    );
                }
                t += 1;
            }
            proof {
                assert forall|i: int, rn: int, e: (ID, ChainNode)|
                    0 <= i < matrix@.len() && 0 <= rn < matrix@[i]@.len() implies ((
                #[trigger] matrix@[i]@[rn].ins@.contains(e)) <==> exists|c2: int, t2: int|
                    lex_before(c2, t2, c + 1, 1) && #[trigger] ins_edge(
                        chains@,
                        c2,
                        t2,
                        e,
                        cell_pos(i, rn),
                    )) && ((#[trigger] matrix@[i]@[rn].outs@.contains(e)) <==> exists|
                    c2: int,
                    t2: int,
                |
                    lex_before(c2, t2, c + 1, 1) && #[trigger] outs_edge(
                        chains@,
                        c2,
                        t2,
                        e,
                        cell_pos(i, rn),
                    )) by {
                    lemma_cut_shift(matrix@, chains@, c as int, i, rn, e);
                }
            }
            c += 1;
        }
        proof {
            assert(chains@.take(ncs as int) =~= chains@);
        }
        TrackingGraph { root, matrix }
    }

    /// Follows a chain through the graph from the root, collecting its nodes
    /// in order. Traversal stops after visiting at most one node per frame,
    /// so a malformed graph cannot make it wander forever.
    /// The nodes reached from `cur` by following the first out-edge carrying
    /// `id` at each visited cell, for at most `fuel` steps; a node outside
    /// the matrix ends the walk.
    pub open spec fn follow_from(self, id: ID, cur: Option<ChainNode>, fuel: nat) -> Seq<ChainNode>
        decreases fuel,
    {
        match cur {
            None => Seq::empty(),
            Some(node) => {
                if fuel == 0 {
                    Seq::empty()
                } else if (node.frame_idx as int) < self.matrix@.len() && (node.record_idx as int)
                    < self.matrix@[node.frame_idx as int]@.len() {
                    seq![node] + self.follow_from(
                        id,
                        edge_lookup(
                            self.matrix@[node.frame_idx as int]@[node.record_idx as int].outs@,
                            id,
                        ),
                        (fuel - 1) as nat,
                    )
                } else {
                    seq![node]
                }
            },
        }
    }

    /// Follows the chain of `id` from the root: the nodes are exactly the
    /// walk along the graph's out-edges, bounded by one node per frame.
    pub fn build_tracking_chain(&self, id: ID) -> (r: crate::trackers::tracker::TrackingChain)
        ensures
            r.id == id,
            r.nodes@ == self.follow_from(
                id,
                edge_lookup(self.root.outs@, id),
                self.matrix@.len() as nat,
            ),
    {
        let ghost total = self.follow_from(
            id,
            edge_lookup(self.root.outs@, id),
            self.matrix@.len() as nat,
        );
        let mut nodes: Vec<ChainNode> = Vec::new();
        let mut fuel: usize = self.matrix.len();
        let mut next: Option<ChainNode> = find_edge(&self.root.outs, id);
        loop
            invariant_except_break
                total == nodes@ + self.follow_from(id, next, fuel as nat),
            invariant
                fuel <= self.matrix@.len(),
            ensures
                nodes@ == total,
            decreases fuel,
        {
            match next {
                Some(node) => {
                    if fuel == 0 {
                        proof {
                            assert(self.follow_from(id, next, 0) =~= Seq::<ChainNode>::empty());
                            assert(total =~= nodes@);
                        }
                        break ;
                    }
                    fuel = fuel - 1;
                    let ghost pre_nodes = nodes@;
                    nodes.push(node);
                    if (node.frame_idx as usize) < self.matrix.len() && (
                    node.record_idx as usize) < self.matrix[node.frame_idx].len() {
                        next = find_edge(&self.matrix[node.frame_idx][node.record_idx].outs, id);
                        proof {
                            assert(self.follow_from(id, Some(node), (fuel + 1) as nat)
                                == seq![node] + self.follow_from(id, next, fuel as nat));
                            assert(total =~= nodes@ + self.follow_from(id, next, fuel as nat));
                        }
                    } else {
                        proof {
                            assert(self.follow_from(id, Some(node), (fuel + 1) as nat)
                                =~= seq![node]);
                            assert(total =~= nodes@);
                        }
                        break ;
                    }
                },
                None => {
                    proof {
                        assert(self.follow_from(id, next, fuel as nat)
                            =~= Seq::<ChainNode>::empty());
                        assert(total =~= nodes@);
                    }
                    break ;
                },
            }
        }
        crate::trackers::tracker::TrackingChain::new(id, nodes)
    }
}

/// The successor the first edge with the given identifier points at, if any.
/// The successor the first edge carrying `id` points at, if any.
pub open spec fn edge_lookup(edges: Seq<(ID, ChainNode)>, id: ID) -> Option<ChainNode>
    decreases edges.len(),
{
    if edges.len() == 0 {
        None
    } else if edges[0].0 == id {
        Some(edges[0].1)
    } else {
        edge_lookup(edges.drop_first(), id)
    }
}

fn find_edge(edges: &Vec<(ID, ChainNode)>, id: ID) -> (r: Option<ChainNode>)
    ensures
        r == edge_lookup(edges@, id),
        r matches Some(n) ==> exists|q: int|
            0 <= q < edges@.len() && (#[trigger] edges@[q]) == (id, n),
{
    let mut q: usize = 0;
    proof {
        assert(edges@.skip(0) =~= edges@);
    }
    while q < edges.len()
        invariant
            q <= edges@.len(),
            edge_lookup(edges@, id) == edge_lookup(edges@.skip(q as int), id),
        decreases edges@.len() - q,
    {
        let e = edges[q];
        proof {
            assert(edges@.skip(q as int)[0] == edges@[q as int]);
            assert(edges@.skip(q as int).drop_first() =~= edges@.skip(q + 1));
        }
        if e.0.0 == id.0 && e.0.1 == id.1 {
            proof {
                assert(edges@[q as int] == (id, e.1));
                assert(edge_lookup(edges@.skip(q as int), id) == Some(e.1));
            }
            return Some(e.1);
        }
        proof {
            assert(edges@[q as int].0 != id);
        }
        q += 1;
    }
    proof {
        assert(edges@.skip(edges@.len() as int) =~= Seq::<(ID, ChainNode)>::empty());
    }
    None
}

/// After chain `c` is fully built (or holds fewer than two nodes), the edges
/// built so far are exactly those before the next chain's first pair.
proof fn lemma_cut_shift(
    m: Seq<Vec<GraphNode>>,
    chains: Seq<crate::trackers::tracker::TrackingChain>,
    c: int,
    i: int,
    rn: int,
    e: (ID, ChainNode),
)
    requires
        0 <= c < chains.len(),
        0 <= i < m.len(),
        0 <= rn < m[i]@.len(),
        m.len() <= usize::MAX,
        m[i]@.len() <= usize::MAX,
        cells_encode_upto(m, chains, c, if chains[c].nodes@.len() >= 1 {
            chains[c].nodes@.len() as int
        } else {
            1
        }),
    ensures
        (m[i]@[rn].ins@.contains(e) <==> exists|c2: int, t2: int|
            lex_before(c2, t2, c + 1, 1) && #[trigger] ins_edge(chains, c2, t2, e, cell_pos(i, rn))),
        (m[i]@[rn].outs@.contains(e) <==> exists|c2: int, t2: int|
            lex_before(c2, t2, c + 1, 1) && #[trigger] outs_edge(
                chains,
                c2,
                t2,
                e,
                cell_pos(i, rn),
            )),
{
    let cut_t: int = if chains[c].nodes@.len() >= 1 {
        chains[c].nodes@.len() as int
    } else {
        1
    };
    let pos = cell_pos(i, rn);
    lemma_cells_at(m, chains, c, cut_t, i, rn, e);

    if m[i]@[rn].ins@.contains(e) {
        let (c2, t2) = choose|c2: int, t2: int|
            lex_before(c2, t2, c, cut_t) && #[trigger] ins_edge(chains, c2, t2, e, pos);
        assert(lex_before(c2, t2, c + 1, 1));
        assert(ins_edge(chains, c2, t2, e, pos));
    }
    if exists|c2: int, t2: int|
        lex_before(c2, t2, c + 1, 1) && #[trigger] ins_edge(chains, c2, t2, e, pos) {
        let (c2, t2) = choose|c2: int, t2: int|
            lex_before(c2, t2, c + 1, 1) && #[trigger] ins_edge(chains, c2, t2, e, pos);
        if c2 == c {
            assert(t2 < chains[c].nodes@.len());
        }
        assert(lex_before(c2, t2, c, cut_t));
        assert(m[i]@[rn].ins@.contains(e));
    }

    if m[i]@[rn].outs@.contains(e) {
        let (c2, t2) = choose|c2: int, t2: int|
            lex_before(c2, t2, c, cut_t) && #[trigger] outs_edge(chains, c2, t2, e, pos);
        assert(lex_before(c2, t2, c + 1, 1));
        assert(outs_edge(chains, c2, t2, e, pos));
    }
    if exists|c2: int, t2: int|
        lex_before(c2, t2, c + 1, 1) && #[trigger] outs_edge(chains, c2, t2, e, pos) {
        let (c2, t2) = choose|c2: int, t2: int|
            lex_before(c2, t2, c + 1, 1) && #[trigger] outs_edge(chains, c2, t2, e, pos);
        if c2 == c {
            assert(t2 < chains[c].nodes@.len());
        }
        assert(lex_before(c2, t2, c, cut_t));
        assert(m[i]@[rn].outs@.contains(e));
    }
}

/// One chain pair adds exactly one outgoing edge at its earlier node and one
/// incoming edge at its later node.
proof fn lemma_edges_step(
    m0: Seq<Vec<GraphNode>>,
    m1: Seq<Vec<GraphNode>>,
    m2: Seq<Vec<GraphNode>>,
    chains: Seq<crate::trackers::tracker::TrackingChain>,
    c: int,
    t: int,
    prev: ChainNode,
    cur: ChainNode,
    cid: ID,
)
    requires
        0 <= c < chains.len(),
        1 <= t < chains[c].nodes@.len(),
        prev == chains[c].nodes@[t - 1],
        cur == chains[c].nodes@[t],
        cid == chains[c].id,
        cells_encode_upto(m0, chains, c, t),
        m0.len() <= usize::MAX,
        forall|i: int| 0 <= i < m0.len() ==> (#[trigger] m0[i])@.len() <= usize::MAX,
        (prev.frame_idx as int) < m0.len(),
        (prev.record_idx as int) < m0[prev.frame_idx as int]@.len(),
        (cur.frame_idx as int) < m0.len(),
        (cur.record_idx as int) < m0[cur.frame_idx as int]@.len(),
        // effect of the outgoing push
        m1.len() == m0.len(),
        forall|i: int| 0 <= i < m0.len() ==> (#[trigger] m1[i])@.len() == m0[i]@.len(),
        forall|i: int, rn: int|
            0 <= i < m0.len() && 0 <= rn < m0[i]@.len() ==> (#[trigger] m1[i]@[rn]).ins@
                == m0[i]@[rn].ins@,
        forall|i: int, rn: int|
            0 <= i < m0.len() && 0 <= rn < m0[i]@.len() && !(i == prev.frame_idx as int && rn
                == prev.record_idx as int) ==> (#[trigger] m1[i]@[rn]).outs@ == m0[i]@[rn].outs@,
        m1[prev.frame_idx as int]@[prev.record_idx as int].outs@ == m0[prev.frame_idx as int]@[prev.record_idx as int].outs@.push(
            (cid, cur),
        ),
        // effect of the incoming push
        m2.len() == m1.len(),
        forall|i: int| 0 <= i < m1.len() ==> (#[trigger] m2[i])@.len() == m1[i]@.len(),
        forall|i: int, rn: int|
            0 <= i < m1.len() && 0 <= rn < m1[i]@.len() ==> (#[trigger] m2[i]@[rn]).outs@
                == m1[i]@[rn].outs@,
        forall|i: int, rn: int|
            0 <= i < m1.len() && 0 <= rn < m1[i]@.len() && !(i == cur.frame_idx as int && rn
                == cur.record_idx as int) ==> (#[trigger] m2[i]@[rn]).ins@ == m1[i]@[rn].ins@,
        m2[cur.frame_idx as int]@[cur.record_idx as int].ins@ == m1[cur.frame_idx as int]@[cur.record_idx as int].ins@.push(
            (cid, prev),
        ),
    ensures
        cells_encode_upto(m2, chains, c, t + 1),
{
    assert forall|i: int, rn: int, e: (ID, ChainNode)|
        #![trigger m2[i]@[rn].ins@.contains(e)]
        #![trigger m2[i]@[rn].outs@.contains(e)]
        0 <= i < m2.len() && 0 <= rn < m2[i]@.len() implies ((m2[i]@[rn].ins@.contains(
        e,
    )) <==> exists|c2: int, t2: int|
        lex_before(c2, t2, c, t + 1) && #[trigger] ins_edge(chains, c2, t2, e, cell_pos(i, rn)))
        && ((m2[i]@[rn].outs@.contains(e)) <==> exists|c2: int, t2: int|
        lex_before(c2, t2, c, t + 1) && #[trigger] outs_edge(chains, c2, t2, e, cell_pos(i, rn)))
        by {
        let pos = cell_pos(i, rn);
        assert(m1[i]@.len() == m0[i]@.len());
        assert(m2[i]@.len() == m1[i]@.len());
        assert(m1[i]@[rn].ins@ == m0[i]@[rn].ins@);
        assert(m2[i]@[rn].outs@ == m1[i]@[rn].outs@);
        lemma_cells_at(m0, chains, c, t, i, rn, e);

        // Incoming side.
        if i == cur.frame_idx as int && rn == cur.record_idx as int {
            lemma_push_contains(m0[i]@[rn].ins@, (cid, prev), e);
            assert(m2[i]@[rn].ins@ == m0[i]@[rn].ins@.push((cid, prev)));
            if m2[i]@[rn].ins@.contains(e) {
                if e == (cid, prev) {
                    assert(pos == cur);
                    assert(ins_edge(chains, c, t, e, pos));
                    assert(lex_before(c, t, c, t + 1));
                } else {
                    assert(m0[i]@[rn].ins@.contains(e));
                }
            }
            if exists|c2: int, t2: int|
                lex_before(c2, t2, c, t + 1) && #[trigger] ins_edge(chains, c2, t2, e, pos) {
                let (c2, t2) = choose|c2: int, t2: int|
                    lex_before(c2, t2, c, t + 1) && #[trigger] ins_edge(chains, c2, t2, e, pos);
                if lex_before(c2, t2, c, t) {
                    assert(m0[i]@[rn].ins@.contains(e));
                } else {
                    assert(c2 == c && t2 == t);
                    assert(e == (cid, prev));
                }
                assert(m2[i]@[rn].ins@.contains(e));
            }
        } else {
            assert(m2[i]@[rn].ins@ == m0[i]@[rn].ins@);
            if exists|c2: int, t2: int|
                lex_before(c2, t2, c, t + 1) && #[trigger] ins_edge(chains, c2, t2, e, pos) {
                let (c2, t2) = choose|c2: int, t2: int|
                    lex_before(c2, t2, c, t + 1) && #[trigger] ins_edge(chains, c2, t2, e, pos);
                if c2 == c && t2 == t {
                    assert(pos == cur);
                    assert(pos.frame_idx as int == i && pos.record_idx as int == rn);
                    assert(false);
                } else {
                    assert(lex_before(c2, t2, c, t));
                }
            }
        }

        // Outgoing side.
        if i == prev.frame_idx as int && rn == prev.record_idx as int {
            lemma_push_contains(m0[i]@[rn].outs@, (cid, cur), e);
            assert(m2[i]@[rn].outs@ == m0[i]@[rn].outs@.push((cid, cur)));
            if m2[i]@[rn].outs@.contains(e) {
                if e == (cid, cur) {
                    assert(pos == prev);
                    assert(outs_edge(chains, c, t, e, pos));
                    assert(lex_before(c, t, c, t + 1));
                } else {
                    assert(m0[i]@[rn].outs@.contains(e));
                }
            }
            if exists|c2: int, t2: int|
                lex_before(c2, t2, c, t + 1) && #[trigger] outs_edge(chains, c2, t2, e, pos) {
                let (c2, t2) = choose|c2: int, t2: int|
                    lex_before(c2, t2, c, t + 1) && #[trigger] outs_edge(chains, c2, t2, e, pos);
                if lex_before(c2, t2, c, t) {
                    assert(m0[i]@[rn].outs@.contains(e));
                } else {
                    assert(c2 == c && t2 == t);
                    assert(e == (cid, cur));
                }
                assert(m2[i]@[rn].outs@.contains(e));
            }
        } else {
            assert(m2[i]@[rn].outs@ == m0[i]@[rn].outs@);
            if exists|c2: int, t2: int|
                lex_before(c2, t2, c, t + 1) && #[trigger] outs_edge(chains, c2, t2, e, pos) {
                let (c2, t2) = choose|c2: int, t2: int|
                    lex_before(c2, t2, c, t + 1) && #[trigger] outs_edge(chains, c2, t2, e, pos);
                if c2 == c && t2 == t {
                    assert(pos == prev);
                    assert(false);
                } else {
                    assert(lex_before(c2, t2, c, t));
                }
            }
        }
    }
}

} // verus!
