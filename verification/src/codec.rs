//! A length-prefixed binary encoding of the tracking graph. Every count and
//! identifier half becomes one little-endian 64-bit word; the byte stream is
//! the concatenation of those words. Decoding checks the layout and, when it
//! succeeds, re-encoding the result reproduces the input bytes exactly.

use vstd::prelude::*;
use crate::id::ID;
use crate::tracking_graph::{ChainNode, GraphNode, TrackingGraph};
use crate::word::byte_span;

verus! {

/// The `n` little-endian base-256 digits of a value.
pub open spec fn le_bytes(v: int, n: nat) -> Seq<u8>
    decreases n,
{
    if n == 0 {
        Seq::empty()
    } else {
        seq![(v % 256) as u8] + le_bytes(v / 256, (n - 1) as nat)
    }
}

/// The value the digits stand for.
pub open spec fn digits_value(bs: Seq<u8>) -> int
    decreases bs.len(),
{
    if bs.len() == 0 {
        0
    } else {
        bs[0] + 256 * digits_value(bs.drop_first())
    }
}

/// The bytes of one 64-bit word.
pub open spec fn word_bytes(v: u64) -> Seq<u8> {
    le_bytes(v as int, 8)
}

/// The bytes of a word sequence.
pub open spec fn words_bytes(ws: Seq<u64>) -> Seq<u8>
    decreases ws.len(),
{
    if ws.len() == 0 {
        Seq::empty()
    } else {
        word_bytes(ws[0]) + words_bytes(ws.drop_first())
    }
}

/// One edge as four words: the identifier halves, the frame, the record.
pub open spec fn edge_words(e: (ID, ChainNode)) -> Seq<u64> {
    seq![e.0.0, e.0.1, e.1.frame_idx as u64, e.1.record_idx as u64]
}

/// An edge list as words, without its length prefix.
pub open spec fn edges_words(es: Seq<(ID, ChainNode)>) -> Seq<u64>
    decreases es.len(),
{
    if es.len() == 0 {
        Seq::empty()
    } else {
        edge_words(es[0]) + edges_words(es.drop_first())
    }
}

/// One graph node: each edge list behind its length.
pub open spec fn node_words_of(n: GraphNode) -> Seq<u64> {
    seq![n.ins@.len() as u64] + edges_words(n.ins@) + seq![n.outs@.len() as u64] + edges_words(
        n.outs@,
    )
}

/// The cells of one matrix row.
pub open spec fn row_nodes_words(ns: Seq<GraphNode>) -> Seq<u64>
    decreases ns.len(),
{
    if ns.len() == 0 {
        Seq::empty()
    } else {
        node_words_of(ns[0]) + row_nodes_words(ns.drop_first())
    }
}

/// The matrix rows, each behind its record count.
pub open spec fn rows_words(rows: Seq<Vec<GraphNode>>) -> Seq<u64>
    decreases rows.len(),
{
    if rows.len() == 0 {
        Seq::empty()
    } else {
        seq![rows[0]@.len() as u64] + row_nodes_words(rows[0]@) + rows_words(rows.drop_first())
    }
}

/// The whole graph: the root node, then the frame count, then the rows.
pub open spec fn graph_words(g: TrackingGraph) -> Seq<u64> {
    node_words_of(g.root) + seq![g.matrix@.len() as u64] + rows_words(g.matrix@)
}

/// The byte encoding of the whole graph.
pub open spec fn graph_bytes(g: TrackingGraph) -> Seq<u8> {
    words_bytes(graph_words(g))
}

/// Whether `count` edges can be read at `pos`, and where they end.
pub open spec fn sd_edges(ws: Seq<u64>, pos: int, count: int) -> Option<int>
    decreases count,
{
    if count <= 0 {
        Some(pos)
    } else if pos + 4 > ws.len() || ws[pos + 2] > usize::MAX as u64 || ws[pos + 3] > usize::MAX
        as u64 {
        None
    } else {
        sd_edges(ws, pos + 4, count - 1)
    }
}

/// Whether a node can be read at `pos`, and where it ends.
pub open spec fn sd_node(ws: Seq<u64>, pos: int) -> Option<int> {
    if pos < 0 || pos >= ws.len() {
        None
    } else {
        match sd_edges(ws, pos + 1, ws[pos] as int) {
            None => None,
            Some(pos2) => if pos2 >= ws.len() {
                None
            } else {
                sd_edges(ws, pos2 + 1, ws[pos2] as int)
            },
        }
    }
}

/// Whether `count` row cells can be read at `pos`.
pub open spec fn sd_cells(ws: Seq<u64>, pos: int, count: int) -> Option<int>
    decreases count,
{
    if count <= 0 {
        Some(pos)
    } else {
        match sd_node(ws, pos) {
            None => None,
            Some(np) => sd_cells(ws, np, count - 1),
        }
    }
}

/// Whether `nrows` rows can be read at `pos`, each a record count and that
/// many cells.
pub open spec fn sd_rows(ws: Seq<u64>, pos: int, nrows: int) -> Option<int>
    decreases nrows,
{
    if nrows <= 0 {
        Some(pos)
    } else if pos < 0 || pos >= ws.len() || ws[pos] > usize::MAX as u64 {
        None
    } else {
        match sd_cells(ws, pos + 1, ws[pos] as int) {
            None => None,
            Some(c) => sd_rows(ws, c, nrows - 1),
        }
    }
}

/// The words lay out as a graph end to end: a root node, a row count within
/// range, that many rows, and nothing after them.
pub open spec fn words_decodable(ws: Seq<u64>) -> bool {
    match sd_node(ws, 0) {
        None => false,
        Some(pos1) => pos1 < ws.len() && ws[pos1] <= usize::MAX as u64 && sd_rows(
            ws,
            pos1 + 1,
            ws[pos1] as int,
        ) == Some(ws.len() as int),
    }
}

/// The word spelled by the eight bytes at word index `k`.
pub open spec fn word_of_bytes_at(bs: Seq<u8>, k: int) -> u64 {
    digits_value(bs.subrange(8 * k, 8 * k + 8)) as u64
}

/// The words of a byte string, eight bytes each.
pub open spec fn words_of_bytes(bs: Seq<u8>) -> Seq<u64> {
    Seq::new(bs.len() / 8, |k: int| word_of_bytes_at(bs, k))
}

/// The byte strings that decode to a graph: a whole number of words that lay
/// out as a graph. `from_bytes` succeeds on exactly these, and every encoded
/// graph is among them.
pub open spec fn decodable(bs: Seq<u8>) -> bool {
    bs.len() % 8 == 0 && words_decodable(words_of_bytes(bs))
}

/// The digits of a value within range spell that value back.
proof fn lemma_digits_of_le(v: int, n: nat)
    requires
        0 <= v < byte_span(n),
    ensures
        digits_value(le_bytes(v, n)) == v,
    decreases n,
{
    if n == 0 {
        assert(le_bytes(v, 0) =~= Seq::<u8>::empty());
    } else {
        vstd::arithmetic::div_mod::lemma_fundamental_div_mod(v, 256);
        vstd::arithmetic::div_mod::lemma_mod_bound(v, 256);
        assert(v / 256 < byte_span((n - 1) as nat)) by (nonlinear_arith)
            requires
                256 * (v / 256) <= v,
                v < 256 * byte_span((n - 1) as nat),
        ;
        assert(0 <= v / 256) by (nonlinear_arith)
            requires
                0 <= v,
                256 * (v / 256) + v % 256 == v,
                0 <= v % 256 < 256,
        ;
        lemma_digits_of_le(v / 256, (n - 1) as nat);
        let bs = le_bytes(v, n);
        assert(bs == seq![(v % 256) as u8] + le_bytes(v / 256, (n - 1) as nat));
        assert(bs.drop_first() =~= le_bytes(v / 256, (n - 1) as nat));
        assert(bs[0] == (v % 256) as u8);
        lemma_le_len(v / 256, (n - 1) as nat);
        assert(digits_value(bs) == v % 256 + 256 * (v / 256));
    }
}

/// Appending an edge extends the word encoding at the end.
proof fn lemma_edges_words_push(es: Seq<(ID, ChainNode)>, e: (ID, ChainNode))
    ensures
        edges_words(es.push(e)) == edges_words(es) + edge_words(e),
    decreases es.len(),
{
    let s = es.push(e);
    if es.len() == 0 {
        assert(s[0] == e);
        assert(s.drop_first() =~= Seq::<(ID, ChainNode)>::empty());
        assert(edges_words(s.drop_first()) == Seq::<u64>::empty());
        assert(edges_words(s) == edge_words(e) + edges_words(s.drop_first()));
        assert(edges_words(es) == Seq::<u64>::empty());
        assert(edges_words(s) =~= edges_words(es) + edge_words(e));
    } else {
        assert(s.drop_first() =~= es.drop_first().push(e));
        assert(s[0] == es[0]);
        lemma_edges_words_push(es.drop_first(), e);
        assert(edges_words(s) == edge_words(es[0]) + edges_words(s.drop_first()));
        assert(edges_words(es) == edge_words(es[0]) + edges_words(es.drop_first()));
        assert(edges_words(s) =~= edges_words(es) + edge_words(e));
    }
}

/// Appending a cell extends the row encoding at the end.
proof fn lemma_row_nodes_push(ns: Seq<GraphNode>, n: GraphNode)
    ensures
        row_nodes_words(ns.push(n)) == row_nodes_words(ns) + node_words_of(n),
    decreases ns.len(),
{
    let s = ns.push(n);
    if ns.len() == 0 {
        assert(s[0] == n);
        assert(s.drop_first() =~= Seq::<GraphNode>::empty());
        assert(row_nodes_words(s.drop_first()) == Seq::<u64>::empty());
        assert(row_nodes_words(s) == node_words_of(n) + row_nodes_words(s.drop_first()));
        assert(row_nodes_words(ns) == Seq::<u64>::empty());
        assert(row_nodes_words(s) =~= row_nodes_words(ns) + node_words_of(n));
    } else {
        assert(s.drop_first() =~= ns.drop_first().push(n));
        assert(s[0] == ns[0]);
        lemma_row_nodes_push(ns.drop_first(), n);
        assert(row_nodes_words(s) == node_words_of(ns[0]) + row_nodes_words(s.drop_first()));
        assert(row_nodes_words(ns) == node_words_of(ns[0]) + row_nodes_words(ns.drop_first()));
        assert(row_nodes_words(s) =~= row_nodes_words(ns) + node_words_of(n));
    }
}

/// Appending a row extends the matrix encoding at the end.
proof fn lemma_rows_words_push(rows: Seq<Vec<GraphNode>>, row: Vec<GraphNode>)
    ensures
        rows_words(rows.push(row)) == rows_words(rows) + seq![row@.len() as u64]
            + row_nodes_words(row@),
    decreases rows.len(),
{
    let s = rows.push(row);
    if rows.len() == 0 {
        assert(s[0] == row);
        assert(s.drop_first() =~= Seq::<Vec<GraphNode>>::empty());
        assert(rows_words(s.drop_first()) == Seq::<u64>::empty());
        assert(rows_words(s) == seq![row@.len() as u64] + row_nodes_words(row@) + rows_words(
            s.drop_first(),
        ));
        assert(rows_words(rows) == Seq::<u64>::empty());
        assert(rows_words(s) =~= rows_words(rows) + seq![row@.len() as u64] + row_nodes_words(
            row@,
        ));
    } else {
        assert(s.drop_first() =~= rows.drop_first().push(row));
        assert(s[0] == rows[0]);
        lemma_rows_words_push(rows.drop_first(), row);
        assert(rows_words(s) == seq![rows[0]@.len() as u64] + row_nodes_words(rows[0]@)
            + rows_words(s.drop_first()));
        assert(rows_words(rows) == seq![rows[0]@.len() as u64] + row_nodes_words(rows[0]@)
            + rows_words(rows.drop_first()));
        assert(rows_words(s) =~= rows_words(rows) + seq![row@.len() as u64] + row_nodes_words(
            row@,
        ));
    }
}

/// Appending a word extends the byte encoding at the end.
proof fn lemma_words_bytes_push(ws: Seq<u64>, w: u64)
    ensures
        words_bytes(ws.push(w)) == words_bytes(ws) + word_bytes(w),
    decreases ws.len(),
{
    let s = ws.push(w);
    if ws.len() == 0 {
        assert(s[0] == w);
        assert(s.drop_first() =~= Seq::<u64>::empty());
        assert(words_bytes(s.drop_first()) == Seq::<u8>::empty());
        assert(words_bytes(s) == word_bytes(w) + words_bytes(s.drop_first()));
        assert(words_bytes(ws) == Seq::<u8>::empty());
        lemma_le_len(w as int, 8);
        assert(words_bytes(s) =~= words_bytes(ws) + word_bytes(w));
    } else {
        assert(s.drop_first() =~= ws.drop_first().push(w));
        assert(s[0] == ws[0]);
        lemma_words_bytes_push(ws.drop_first(), w);
        assert(words_bytes(s) == word_bytes(ws[0]) + words_bytes(s.drop_first()));
        assert(words_bytes(ws) == word_bytes(ws[0]) + words_bytes(ws.drop_first()));
        assert(words_bytes(s) =~= words_bytes(ws) + word_bytes(w));
    }
}

/// Eight base-256 digits encode exactly the value they spell.
proof fn lemma_le_of_digits(bs: Seq<u8>)
    ensures
        0 <= digits_value(bs) < byte_span(bs.len()),
        le_bytes(digits_value(bs), bs.len()) == bs,
    decreases bs.len(),
{
    if bs.len() == 0 {
        assert(le_bytes(0, 0) =~= bs);
    } else {
        lemma_le_of_digits(bs.drop_first());
        let rest = digits_value(bs.drop_first());
        let v = bs[0] + 256 * rest;
        assert(0 <= v < 256 * byte_span((bs.len() - 1) as nat)) by (nonlinear_arith)
            requires
                0 <= bs[0] < 256,
                0 <= rest < byte_span((bs.len() - 1) as nat),
                v == bs[0] + 256 * rest,
        ;
        assert(v % 256 == bs[0] && v / 256 == rest) by (nonlinear_arith)
            requires
                0 <= bs[0] < 256,
                0 <= rest,
                v == bs[0] + 256 * rest,
        ;
        assert(le_bytes(v, bs.len()) =~= bs);
    }
}

/// Writes one word as eight little-endian bytes.
fn push_word(out: &mut Vec<u8>, v: u64)
    ensures
        final(out)@ == old(out)@ + word_bytes(v),
{
    let ghost pre = out@;
    let mut x: u64 = v;
    let mut k: usize = 0;
    while k < 8
        invariant
            k <= 8,
            out@ == pre + le_bytes(v as int, 8).take(k as int),
            le_bytes(v as int, 8) == le_bytes(v as int, k as nat) + le_bytes(x as int, (8 - k) as nat),
            x == le_shift(v as int, k as nat),
        decreases 8 - k,
    {
        proof {
            lemma_le_step(v as int, x as int, k as nat);
        }
        out.push((x % 256) as u8);
        x = x / 256;
        k += 1;
        proof {
            assert(out@ =~= pre + le_bytes(v as int, 8).take(k as int));
        }
    }
    proof {
        lemma_le_len(v as int, 8);
        assert(le_bytes(v as int, 8).take(8) =~= le_bytes(v as int, 8));
    }
}

/// The value left after dropping `k` low digits.
pub open spec fn le_shift(v: int, k: nat) -> int
    decreases k,
{
    if k == 0 {
        v
    } else {
        le_shift(v, (k - 1) as nat) / 256
    }
}

/// One digit step of the little-endian split.
proof fn lemma_le_step(v: int, x: int, k: nat)
    requires
        k < 8,
        x == le_shift(v, k),
        le_bytes(v, 8) == le_bytes(v, k) + le_bytes(x, (8 - k) as nat),
    ensures
        le_bytes(v, 8).take((k + 1) as int) == le_bytes(v, 8).take(k as int).push((x % 256) as u8),
        le_bytes(v, 8) == le_bytes(v, (k + 1) as nat) + le_bytes(x / 256, (7 - k) as nat),
        x / 256 == le_shift(v, (k + 1) as nat),
        le_bytes(v, 8)[k as int] == (x % 256) as u8,
    decreases 8 - k,
{
    lemma_le_len(v, k);
    lemma_le_len(v, (k + 1) as nat);
    lemma_le_len(x, (8 - k) as nat);
    lemma_le_len(x / 256, (7 - k) as nat);
    lemma_le_prefix(v, k);
    lemma_le_prefix(v, (k + 1) as nat);
    assert(le_bytes(x, (8 - k) as nat) == seq![(x % 256) as u8] + le_bytes(x / 256, (7 - k) as nat));
    assert(le_bytes(v, 8) =~= le_bytes(v, k) + seq![(x % 256) as u8] + le_bytes(
        x / 256,
        (7 - k) as nat,
    ));
    assert(le_bytes(v, (k + 1) as nat) =~= le_bytes(v, 8).take((k + 1) as int));
    assert(le_bytes(v, (k + 1) as nat) =~= le_bytes(v, k) + seq![(x % 256) as u8]);
    assert(le_bytes(v, 8) =~= le_bytes(v, (k + 1) as nat) + le_bytes(x / 256, (7 - k) as nat));
    assert(le_bytes(v, 8).take((k + 1) as int) =~= le_bytes(v, 8).take(k as int).push(
        (x % 256) as u8,
    ));
}

/// Short digit runs are prefixes of longer ones.
proof fn lemma_le_prefix(v: int, k: nat)
    requires
        k <= 8,
    ensures
        le_bytes(v, 8).take(k as int) == le_bytes(v, k),
        le_bytes(v, 8).len() == 8,
    decreases k,
{
    lemma_le_len(v, 8);
    lemma_le_len(v, k);
    lemma_le_prefix_rec(v, k, 8);
}

proof fn lemma_le_len(v: int, n: nat)
    ensures
        le_bytes(v, n).len() == n,
    decreases n,
{
    if n > 0 {
        lemma_le_len(v / 256, (n - 1) as nat);
    }
}

proof fn lemma_le_prefix_rec(v: int, k: nat, n: nat)
    requires
        k <= n,
    ensures
        le_bytes(v, n).take(k as int) == le_bytes(v, k),
    decreases k,
{
    lemma_le_len(v, n);
    lemma_le_len(v, k);
    if k == 0 {
        assert(le_bytes(v, n).take(0) =~= le_bytes(v, 0));
    } else {
        lemma_le_prefix_rec(v / 256, (k - 1) as nat, (n - 1) as nat);
        lemma_le_len(v / 256, (n - 1) as nat);
        lemma_le_len(v / 256, (k - 1) as nat);
        assert(le_bytes(v, n) == seq![(v % 256) as u8] + le_bytes(v / 256, (n - 1) as nat));
        assert(le_bytes(v, k) == seq![(v % 256) as u8] + le_bytes(v / 256, (k - 1) as nat));
        assert(le_bytes(v, n).take(k as int) =~= le_bytes(v, k));
    }
}

/// Reads one word from eight little-endian bytes.
fn read_word(bytes: &[u8], pos: usize) -> (r: u64)
    requires
        pos + 8 <= bytes@.len(),
    ensures
        word_bytes(r) == bytes@.subrange(pos as int, pos + 8),
{
    let ghost chunk = bytes@.subrange(pos as int, pos + 8);
    let n = bytes.len();
    let mut acc: u64 = 0;
    let mut k: usize = 8;
    while k > 0
        invariant
            k <= 8,
            n == bytes@.len(),
            pos + 8 <= n,
            chunk == bytes@.subrange(pos as int, pos + 8),
            acc == digits_value(chunk.skip(k as int)),
            acc < byte_span((8 - k) as nat),
        decreases k,
    {
        proof {
            lemma_le_of_digits(chunk.skip(k as int));
            crate::word::lemma_byte_span_monotone((8 - k) as nat, 7);
            assert(byte_span(7) == 0x100000000000000) by {
                reveal_with_fuel(byte_span, 8);
            }
            assert(chunk.skip(k - 1)[0] == chunk[k - 1]);
            assert(chunk.skip(k - 1).drop_first() =~= chunk.skip(k as int));
            assert(digits_value(chunk.skip(k - 1)) == chunk[k - 1] + 256 * digits_value(
                chunk.skip(k as int),
            ));
        }
        let b = bytes[pos + (k - 1)];
        proof {
            assert(bytes@[pos + k - 1] == chunk[k - 1]);
            assert(acc < 0x100000000000000);
            assert(256 * (acc as int) + (b as int) < 0x10000000000000000);
        }
        acc = (b as u64) + 256 * acc;
        k -= 1;
        proof {
            lemma_le_of_digits(chunk.skip(k as int));
        }
    }
    proof {
        assert(chunk.skip(0) =~= chunk);
        lemma_le_of_digits(chunk);
        assert(word_bytes(acc) == le_bytes(digits_value(chunk), 8));
        lemma_le_len(digits_value(chunk), 8);
        assert(chunk.len() == 8);
    }
    acc
}

/// Writes an edge list, each edge as four words.
fn encode_edges(out: &mut Vec<u64>, edges: &Vec<(ID, ChainNode)>)
    ensures
        final(out)@ == old(out)@ + edges_words(edges@),
{
    let ghost pre = out@;
    let mut q: usize = 0;
    while q < edges.len()
        invariant
            q <= edges@.len(),
            out@ == pre + edges_words(edges@.take(q as int)),
        decreases edges@.len() - q,
    {
        let e = edges[q];
        out.push(e.0.0);
        out.push(e.0.1);
        out.push(e.1.frame_idx as u64);
        out.push(e.1.record_idx as u64);
        proof {
            assert(edges@.take(q + 1).drop_last() =~= edges@.take(q as int));
            lemma_edges_words_take_step(edges@, q as int);
            assert(out@ =~= pre + edges_words(edges@.take(q + 1)));
        }
        q += 1;
    }
    proof {
        assert(edges@.take(edges@.len() as int) =~= edges@);
    }
}

/// Taking one more edge appends its four words.
proof fn lemma_edges_words_take_step(es: Seq<(ID, ChainNode)>, q: int)
    requires
        0 <= q < es.len(),
    ensures
        edges_words(es.take(q + 1)) == edges_words(es.take(q)) + edge_words(es[q]),
{
    assert(es.take(q + 1) =~= es.take(q).push(es[q]));
    lemma_edges_words_push(es.take(q), es[q]);
}

/// Writes one node: the two edge lists, each behind its length.
fn encode_node(out: &mut Vec<u64>, node: &GraphNode)
    ensures
        final(out)@ == old(out)@ + node_words_of(*node),
{
    out.push(node.ins.len() as u64);
    encode_edges(out, &node.ins);
    out.push(node.outs.len() as u64);
    encode_edges(out, &node.outs);
    proof {
        assert(out@ =~= old(out)@ + node_words_of(*node));
    }
}

/// Parses `count` edges starting at `pos`.
fn parse_edges(words: &Vec<u64>, pos: usize, count: u64) -> (r: Option<(Vec<(ID, ChainNode)>, usize)>)
    requires
        pos <= words@.len(),
    ensures
        r matches Some(p) ==> pos <= p.1 <= words@.len() && p.0@.len() == count
            && words@.subrange(pos as int, p.1 as int) == edges_words(p.0@),
        r is Some <==> sd_edges(words@, pos as int, count as int) is Some,
        r matches Some(p) ==> sd_edges(words@, pos as int, count as int) == Some(p.1 as int),
{
    let mut edges: Vec<(ID, ChainNode)> = Vec::new();
    let mut cur = pos;
    let mut left = count;
    while left > 0
        invariant
            pos <= cur <= words@.len(),
            left <= count,
            edges@.len() == count - left,
            words@.subrange(pos as int, cur as int) == edges_words(edges@),
            sd_edges(words@, pos as int, count as int) == sd_edges(
                words@,
                cur as int,
                left as int,
            ),
        decreases left,
    {
        if words.len() - cur < 4 {
            proof {
                assert(sd_edges(words@, cur as int, left as int) is None);
            }
            return None;
        }
        let w0 = words[cur];
        let w1 = words[cur + 1];
        let w2 = words[cur + 2];
        let w3 = words[cur + 3];
        if w2 > usize::MAX as u64 || w3 > usize::MAX as u64 {
            proof {
                assert(sd_edges(words@, cur as int, left as int) is None);
            }
            return None;
        }
        let node = ChainNode { frame_idx: w2 as usize, record_idx: w3 as usize };
        let ghost pre = edges@;
        edges.push(((w0, w1), node));
        proof {
            lemma_edges_words_push(pre, ((w0, w1), node));
            assert(edge_words(((w0, w1), node)) =~= words@.subrange(cur as int, cur + 4));
            assert(words@.subrange(pos as int, cur + 4) =~= words@.subrange(pos as int, cur as int)
                + words@.subrange(cur as int, cur + 4));
            assert(sd_edges(words@, cur as int, left as int) == sd_edges(
                words@,
                cur + 4,
                left - 1,
            ));
        }
        cur = cur + 4;
        left = left - 1;
    }
    proof {
        assert(sd_edges(words@, cur as int, 0) == Some(cur as int));
    }
    Some((edges, cur))
}

/// Parses one node starting at `pos`.
fn parse_node(words: &Vec<u64>, pos: usize) -> (r: Option<(GraphNode, usize)>)
    requires
        pos <= words@.len(),
    ensures
        r matches Some(p) ==> pos <= p.1 <= words@.len() && words@.subrange(pos as int, p.1 as int)
            == node_words_of(p.0),
        r is Some <==> sd_node(words@, pos as int) is Some,
        r matches Some(p) ==> sd_node(words@, pos as int) == Some(p.1 as int),
{
    if pos >= words.len() {
        return None;
    }
    let nins = words[pos];
    let (ins, pos2) = match parse_edges(words, pos + 1, nins) {
        Some(p) => p,
        None => {
            proof {
                assert(sd_node(words@, pos as int) is None);
            }
            return None;
        },
    };
    if pos2 >= words.len() {
        proof {
            assert(sd_node(words@, pos as int) is None);
        }
        return None;
    }
    let nouts = words[pos2];
    let (outs, pos3) = match parse_edges(words, pos2 + 1, nouts) {
        Some(p) => p,
        None => {
            proof {
                assert(sd_node(words@, pos as int) is None);
            }
            return None;
        },
    };
    let node = GraphNode { ins, outs };
    proof {
        assert(words@.subrange(pos as int, pos3 as int) =~= seq![words@[pos as int]]
            + words@.subrange(pos + 1, pos2 as int) + seq![words@[pos2 as int]] + words@.subrange(
            pos2 + 1,
            pos3 as int,
        ));
        assert(node_words_of(node) =~= words@.subrange(pos as int, pos3 as int));
        assert(sd_node(words@, pos as int) == Some(pos3 as int));
    }
    Some((node, pos3))
}

impl TrackingGraph {
    /// Serializes the graph to its length-prefixed byte encoding.
    pub fn to_bytes(&self) -> (r: Vec<u8>)
        ensures
            r@ == graph_bytes(*self),
    {
        let mut words: Vec<u64> = Vec::new();
        encode_node(&mut words, &self.root);
        words.push(self.matrix.len() as u64);
        let ghost head = words@;
        let mut i: usize = 0;
        while i < self.matrix.len()
            invariant
                i <= self.matrix@.len(),
                head == node_words_of(self.root) + seq![self.matrix@.len() as u64],
                words@ == head + rows_words(self.matrix@.take(i as int)),
            decreases self.matrix@.len() - i,
        {
            let row = &self.matrix[i];
            words.push(row.len() as u64);
            let ghost mid = words@;
            let mut rn: usize = 0;
            while rn < row.len()
                invariant
                    rn <= row@.len(),
                    row == &self.matrix@[i as int],
                    words@ == mid + row_nodes_words(row@.take(rn as int)),
                decreases row@.len() - rn,
            {
                encode_node(&mut words, &row[rn]);
                proof {
                    assert(row@.take(rn + 1).drop_last() =~= row@.take(rn as int));
                    assert(row@.take(rn + 1) =~= row@.take(rn as int).push(row@[rn as int]));
                    lemma_row_nodes_push(row@.take(rn as int), row@[rn as int]);
                    assert(words@ =~= mid + row_nodes_words(row@.take(rn + 1)));
                }
                rn += 1;
            }
            proof {
                assert(row@.take(row@.len() as int) =~= row@);
                assert(self.matrix@.take(i + 1) =~= self.matrix@.take(i as int).push(
                    self.matrix@[i as int],
                ));
                lemma_rows_words_push(self.matrix@.take(i as int), self.matrix@[i as int]);
                assert(words@ =~= head + rows_words(self.matrix@.take(i + 1)));
            }
            i += 1;
        }
        proof {
            assert(self.matrix@.take(self.matrix@.len() as int) =~= self.matrix@);
            assert(words@ =~= graph_words(*self));
        }

        let mut bytes: Vec<u8> = Vec::new();
        let mut k: usize = 0;
        while k < words.len()
            invariant
                k <= words@.len(),
                words@ == graph_words(*self),
                bytes@ == words_bytes(words@.take(k as int)),
            decreases words@.len() - k,
        {
            push_word(&mut bytes, words[k]);
            proof {
                assert(words@.take(k + 1) =~= words@.take(k as int).push(words@[k as int]));
                lemma_words_bytes_push(words@.take(k as int), words@[k as int]);
            }
            k += 1;
        }
        proof {
            assert(words@.take(words@.len() as int) =~= words@);
        }
        bytes
    }

    /// Deserializes a graph from bytes. On success, serializing the result
    /// gives back exactly the input bytes; a failure means the bytes are not
    /// the encoding of any graph at all.
    pub fn from_bytes(bytes: &[u8]) -> (r: Option<TrackingGraph>)
        ensures
            r matches Some(g) ==> graph_bytes(g) == bytes@,
            r is Some <==> decodable(bytes@),
    {
        if bytes.len() % 8 != 0 {
            return None;
        }
        let nwords = bytes.len() / 8;
        proof {
            vstd::arithmetic::div_mod::lemma_fundamental_div_mod(bytes@.len() as int, 8);
        }
        let mut words: Vec<u64> = Vec::new();
        let mut k: usize = 0;
        while k < nwords
            invariant
                k <= nwords,
                nwords * 8 == bytes@.len(),
                bytes@.len() <= usize::MAX,
                words@.len() == k,
                words_bytes(words@) == bytes@.subrange(0, 8 * k as int),
                forall|j: int| 0 <= j < k ==> #[trigger] words@[j] == word_of_bytes_at(bytes@, j),
            decreases nwords - k,
        {
            proof {
                assert(8 * (k as int) + 8 <= 8 * (nwords as int)) by (nonlinear_arith)
                    requires
                        (k as int) < (nwords as int),
                ;
            }
            let w = read_word(bytes, 8 * k);
            let ghost pre = words@;
            words.push(w);
            proof {
                lemma_words_bytes_push(pre, w);
                assert(bytes@.subrange(0, 8 * (k + 1) as int) =~= bytes@.subrange(0, 8 * k as int)
                    + bytes@.subrange(8 * k as int, 8 * k + 8));
                assert(words_bytes(words@) =~= bytes@.subrange(0, 8 * (k + 1) as int));
                assert(byte_span(8) == 0x10000000000000000) by {
                    reveal_with_fuel(byte_span, 9);
                }
                lemma_digits_of_le(w as int, 8);
                assert(digits_value(bytes@.subrange(8 * k as int, 8 * k + 8)) == w as int);
                assert(word_of_bytes_at(bytes@, k as int) == w);
            }
            k += 1;
        }

        proof {
            assert(words@ =~= words_of_bytes(bytes@));
        }

        let (root, pos1) = match parse_node(&words, 0) {
            Some(p) => p,
            None => {
                proof {
                    assert(!words_decodable(words@));
                }
                return None;
            },
        };
        if pos1 >= words.len() {
            proof {
                assert(!words_decodable(words@));
            }
            return None;
        }
        let nrows64 = words[pos1];
        if nrows64 > usize::MAX as u64 {
            proof {
                assert(!words_decodable(words@));
            }
            return None;
        }
        let nrows = nrows64 as usize;
        let mut matrix: Vec<Vec<GraphNode>> = Vec::new();
        let mut pos = pos1 + 1;
        let mut i: usize = 0;
        while i < nrows
            invariant
                i <= nrows,
                pos1 + 1 <= pos <= words@.len(),
                matrix@.len() == i,
                words@.subrange(pos1 + 1, pos as int) == rows_words(matrix@),
                words@ == words_of_bytes(bytes@),
                bytes@.len() % 8 == 0,
                sd_node(words@, 0) == Some(pos1 as int),
                pos1 < words@.len(),
                words@[pos1 as int] == nrows64,
                nrows64 <= usize::MAX as u64,
                nrows == nrows64,
                sd_rows(words@, pos1 as int + 1, nrows as int) == sd_rows(
                    words@,
                    pos as int,
                    (nrows - i) as int,
                ),
            decreases nrows - i,
        {
            if pos >= words.len() {
                proof {
                    assert(sd_rows(words@, pos as int, (nrows - i) as int) is None);
                    assert(!words_decodable(words@));
                }
                return None;
            }
            let nrec64 = words[pos];
            if nrec64 > usize::MAX as u64 {
                proof {
                    assert(sd_rows(words@, pos as int, (nrows - i) as int) is None);
                    assert(!words_decodable(words@));
                }
                return None;
            }
            let nrec = nrec64 as usize;
            let mut row: Vec<GraphNode> = Vec::new();
            let mut cur = pos + 1;
            let mut rn: usize = 0;
            while rn < nrec
                invariant
                    rn <= nrec,
                    pos + 1 <= cur <= words@.len(),
                    row@.len() == rn,
                    words@.subrange(pos + 1, cur as int) == row_nodes_words(row@),
                    words@ == words_of_bytes(bytes@),
                    bytes@.len() % 8 == 0,
                    sd_node(words@, 0) == Some(pos1 as int),
                    pos1 < words@.len(),
                    words@[pos1 as int] == nrows64,
                    nrows64 <= usize::MAX as u64,
                    nrows == nrows64,
                    i < nrows,
                    pos < words@.len(),
                    words@[pos as int] == nrec64,
                    nrec64 <= usize::MAX as u64,
                    nrec == nrec64,
                    sd_rows(words@, pos1 as int + 1, nrows as int) == sd_rows(
                        words@,
                        pos as int,
                        (nrows - i) as int,
                    ),
                    sd_cells(words@, pos as int + 1, nrec as int) == sd_cells(
                        words@,
                        cur as int,
                        (nrec - rn) as int,
                    ),
                decreases nrec - rn,
            {
                let (node, np) = match parse_node(&words, cur) {
                    Some(p) => p,
                    None => {
                        proof {
                            assert(sd_cells(words@, cur as int, (nrec - rn) as int) is None);
                            assert(sd_rows(words@, pos as int, (nrows - i) as int) is None);
                            assert(!words_decodable(words@));
                        }
                        return None;
                    },
                };
                let ghost prerow = row@;
                row.push(node);
                proof {
                    lemma_row_nodes_push(prerow, node);
                    assert(words@.subrange(pos + 1, np as int) =~= words@.subrange(
                        pos + 1,
                        cur as int,
                    ) + words@.subrange(cur as int, np as int));
                }
                proof {
                    assert(sd_cells(words@, cur as int, (nrec - rn) as int) == sd_cells(
                        words@,
                        np as int,
                        (nrec - rn) as int - 1,
                    ));
                }
                cur = np;
                rn += 1;
            }
            proof {
                assert(sd_cells(words@, cur as int, 0) == Some(cur as int));
                assert(sd_rows(words@, pos as int, (nrows - i) as int) == sd_rows(
                    words@,
                    cur as int,
                    (nrows - i) as int - 1,
                ));
            }
            let ghost premat = matrix@;
            let ghost rowv = row@;
            matrix.push(row);
            proof {
                lemma_rows_words_push(premat, matrix@[matrix@.len() - 1]);
                assert(matrix@[matrix@.len() - 1]@ == rowv);
                assert(words@.subrange(pos1 + 1, cur as int) =~= words@.subrange(
                    pos1 + 1,
                    pos as int,
                ) + seq![words@[pos as int]] + words@.subrange(pos + 1, cur as int));
                assert(words@.subrange(pos1 + 1, cur as int) =~= rows_words(matrix@));
            }
            pos = cur;
            i += 1;
        }
        proof {
            assert(sd_rows(words@, pos as int, 0) == Some(pos as int));
        }
        if pos != words.len() {
            proof {
                assert(!words_decodable(words@));
            }
            return None;
        }
        let g = TrackingGraph { root, matrix };
        proof {
            assert(words@ =~= words@.subrange(0, pos1 as int) + seq![words@[pos1 as int]]
                + words@.subrange(pos1 + 1, pos as int));
            assert(graph_words(g) =~= words@);
            assert(words@.subrange(0, 8 * (words@.len() as int)) =~= words@.subrange(
                0,
                bytes@.len() as int,
            ));
            assert(bytes@.subrange(0, bytes@.len() as int) =~= bytes@);
            assert(words_decodable(words@));
            assert(decodable(bytes@));
        }
        Some(g)
    }
}

/// The byte encoding of words is eight bytes per word.
proof fn lemma_words_bytes_len(ws: Seq<u64>)
    ensures
        words_bytes(ws).len() == 8 * ws.len(),
    decreases ws.len(),
{
    if ws.len() > 0 {
        lemma_le_len(ws[0] as int, 8);
        lemma_words_bytes_len(ws.drop_first());
    }
}

/// Reading the bytes of a word list back gives the same words.
proof fn lemma_words_of_bytes_inverse(ws: Seq<u64>)
    ensures
        words_of_bytes(words_bytes(ws)) == ws,
    decreases ws.len(),
{
    let bs = words_bytes(ws);
    lemma_words_bytes_len(ws);
    if ws.len() == 0 {
        assert(words_of_bytes(bs) =~= ws);
    } else {
        let rest = words_bytes(ws.drop_first());
        lemma_words_bytes_len(ws.drop_first());
        lemma_le_len(ws[0] as int, 8);
        lemma_words_of_bytes_inverse(ws.drop_first());
        assert(byte_span(8) == 0x10000000000000000) by {
            reveal_with_fuel(byte_span, 9);
        }
        lemma_digits_of_le(ws[0] as int, 8);
        assert forall|k: int| 0 <= k < ws.len() implies word_of_bytes_at(bs, k) == ws[k] by {
            if k == 0 {
                assert(bs.subrange(0, 8) =~= word_bytes(ws[0]));
            } else {
                assert(bs.subrange(8 * k, 8 * k + 8) =~= rest.subrange(
                    8 * (k - 1),
                    8 * (k - 1) + 8,
                ));
                assert(words_of_bytes(rest)[k - 1] == ws.drop_first()[k - 1]);
                assert(word_of_bytes_at(rest, k - 1) == ws.drop_first()[k - 1]);
                assert(ws.drop_first()[k - 1] == ws[k]);
            }
        }
        assert(words_of_bytes(bs) =~= ws);
    }
}

/// Four words per edge.
proof fn lemma_edges_words_len(es: Seq<(ID, ChainNode)>)
    ensures
        edges_words(es).len() == 4 * es.len(),
    decreases es.len(),
{
    if es.len() > 0 {
        lemma_edges_words_len(es.drop_first());
    }
}

/// Pointwise view of a subrange equation.
proof fn lemma_subrange_points(ws: Seq<u64>, pos: int, s: Seq<u64>)
    requires
        0 <= pos,
        pos + s.len() <= ws.len(),
        ws.subrange(pos, pos + s.len() as int) == s,
    ensures
        forall|j: int| 0 <= j < s.len() ==> ws[pos + j] == #[trigger] s[j],
{
    assert forall|j: int| 0 <= j < s.len() implies ws[pos + j] == #[trigger] s[j] by {
        assert(ws.subrange(pos, pos + s.len() as int)[j] == s[j]);
    }
}

/// An encoded edge list always parses, ending right after its words.
proof fn lemma_sd_edges_of(ws: Seq<u64>, pos: int, es: Seq<(ID, ChainNode)>)
    requires
        0 <= pos,
        pos + edges_words(es).len() <= ws.len(),
        ws.subrange(pos, pos + edges_words(es).len()) == edges_words(es),
    ensures
        sd_edges(ws, pos, es.len() as int) == Some(pos + edges_words(es).len()),
    decreases es.len(),
{
    lemma_edges_words_len(es);
    if es.len() > 0 {
        let ew = edges_words(es);
        let rest = edges_words(es.drop_first());
        lemma_edges_words_len(es.drop_first());
        assert(ew == edge_words(es[0]) + rest);
        lemma_subrange_points(ws, pos, ew);
        assert(ws[pos + 2] == ew[2] && ew[2] == es[0].1.frame_idx as u64);
        assert(ws[pos + 3] == ew[3] && ew[3] == es[0].1.record_idx as u64);
        assert(ws.subrange(pos + 4, pos + 4 + rest.len() as int) =~= rest) by {
            assert forall|j: int|
                0 <= j < rest.len() implies ws.subrange(pos + 4, pos + 4 + rest.len() as int)[j]
                == rest[j] by {
                assert(ew[4 + j] == rest[j]);
                assert(ws[pos + (4 + j)] == ew[4 + j]);
            }
        }
        lemma_sd_edges_of(ws, pos + 4, es.drop_first());
    }
}

/// An encoded node always parses, ending right after its words.
proof fn lemma_sd_node_of(ws: Seq<u64>, pos: int, n: GraphNode)
    requires
        0 <= pos,
        pos + node_words_of(n).len() <= ws.len(),
        ws.subrange(pos, pos + node_words_of(n).len()) == node_words_of(n),
    ensures
        sd_node(ws, pos) == Some(pos + node_words_of(n).len() as int),
{
    lemma_edges_words_len(n.ins@);
    lemma_edges_words_len(n.outs@);
    vstd::std_specs::vec::axiom_spec_len(&n.ins);
    vstd::std_specs::vec::axiom_spec_len(&n.outs);
    let ni = n.ins@.len() as int;
    let no = n.outs@.len() as int;
    let nw = node_words_of(n);
    let ein = edges_words(n.ins@);
    let eout = edges_words(n.outs@);
    assert(nw == seq![n.ins@.len() as u64] + ein + seq![n.outs@.len() as u64] + eout);
    assert(nw.len() == 2 + 4 * ni + 4 * no);
    lemma_subrange_points(ws, pos, nw);
    assert(ws[pos + 0] == nw[0] && nw[0] == n.ins@.len() as u64);
    assert(ws[pos] as int == ni);
    assert(ws.subrange(pos + 1, pos + 1 + 4 * ni) =~= ein) by {
        assert forall|j: int|
            0 <= j < ein.len() implies ws.subrange(pos + 1, pos + 1 + 4 * ni)[j] == ein[j] by {
            assert(nw[1 + j] == ein[j]);
            assert(ws[pos + (1 + j)] == nw[1 + j]);
        }
    }
    lemma_sd_edges_of(ws, pos + 1, n.ins@);
    let pos2 = pos + 1 + 4 * ni;
    assert(ws[pos + (1 + 4 * ni)] == nw[1 + 4 * ni] && nw[1 + 4 * ni] == n.outs@.len() as u64);
    assert(ws[pos2] as int == no);
    assert(ws.subrange(pos2 + 1, pos2 + 1 + 4 * no) =~= eout) by {
        assert forall|j: int|
            0 <= j < eout.len() implies ws.subrange(pos2 + 1, pos2 + 1 + 4 * no)[j] == eout[j] by {
            assert(nw[2 + 4 * ni + j] == eout[j]);
            assert(ws[pos + (2 + 4 * ni + j)] == nw[2 + 4 * ni + j]);
        }
    }
    lemma_sd_edges_of(ws, pos2 + 1, n.outs@);
    assert(pos2 < ws.len());
}

/// An encoded run of row cells always parses.
proof fn lemma_sd_cells_of(ws: Seq<u64>, pos: int, row: Seq<GraphNode>)
    requires
        0 <= pos,
        pos + row_nodes_words(row).len() <= ws.len(),
        ws.subrange(pos, pos + row_nodes_words(row).len()) == row_nodes_words(row),
    ensures
        sd_cells(ws, pos, row.len() as int) == Some(pos + row_nodes_words(row).len() as int),
    decreases row.len(),
{
    if row.len() > 0 {
        let rw = row_nodes_words(row);
        let n0w = node_words_of(row[0]);
        let rest = row_nodes_words(row.drop_first());
        let n0 = n0w.len() as int;
        assert(rw == n0w + rest);
        lemma_subrange_points(ws, pos, rw);
        assert(ws.subrange(pos, pos + n0) =~= n0w) by {
            assert forall|j: int|
                0 <= j < n0w.len() implies ws.subrange(pos, pos + n0)[j] == n0w[j] by {
                assert(rw[j] == n0w[j]);
                assert(ws[pos + j] == rw[j]);
            }
        }
        lemma_sd_node_of(ws, pos, row[0]);
        assert(ws.subrange(pos + n0, pos + n0 + rest.len() as int) =~= rest) by {
            assert forall|j: int|
                0 <= j < rest.len() implies ws.subrange(pos + n0, pos + n0 + rest.len() as int)[j]
                == rest[j] by {
                assert(rw[n0 + j] == rest[j]);
                assert(ws[pos + (n0 + j)] == rw[n0 + j]);
            }
        }
        lemma_sd_cells_of(ws, pos + n0, row.drop_first());
    }
}

/// An encoded run of rows always parses.
proof fn lemma_sd_rows_of(ws: Seq<u64>, pos: int, rows: Seq<Vec<GraphNode>>)
    requires
        0 <= pos,
        pos + rows_words(rows).len() <= ws.len(),
        ws.subrange(pos, pos + rows_words(rows).len()) == rows_words(rows),
    ensures
        sd_rows(ws, pos, rows.len() as int) == Some(pos + rows_words(rows).len() as int),
    decreases rows.len(),
{
    if rows.len() > 0 {
        let rw = rows_words(rows);
        let r0 = rows[0];
        vstd::std_specs::vec::axiom_spec_len(&r0);
        let row0 = row_nodes_words(rows[0]@);
        let rest = rows_words(rows.drop_first());
        let rn = row0.len() as int;
        assert(rw == seq![rows[0]@.len() as u64] + row0 + rest);
        lemma_subrange_points(ws, pos, rw);
        assert(ws[pos + 0] == rw[0] && rw[0] == rows[0]@.len() as u64);
        assert(ws[pos] <= usize::MAX as u64);
        assert(ws[pos] as int == rows[0]@.len() as int);
        assert(ws.subrange(pos + 1, pos + 1 + rn) =~= row0) by {
            assert forall|j: int|
                0 <= j < row0.len() implies ws.subrange(pos + 1, pos + 1 + rn)[j] == row0[j] by {
                assert(rw[1 + j] == row0[j]);
                assert(ws[pos + (1 + j)] == rw[1 + j]);
            }
        }
        lemma_sd_cells_of(ws, pos + 1, rows[0]@);
        assert(ws.subrange(pos + 1 + rn, pos + 1 + rn + rest.len() as int) =~= rest) by {
            assert forall|j: int|
                0 <= j < rest.len() implies ws.subrange(
                pos + 1 + rn,
                pos + 1 + rn + rest.len() as int,
            )[j] == rest[j] by {
                assert(rw[1 + rn + j] == rest[j]);
                assert(ws[pos + (1 + rn + j)] == rw[1 + rn + j]);
            }
        }
        lemma_sd_rows_of(ws, pos + 1 + rn, rows.drop_first());
        assert(pos < ws.len());
    }
}

/// Every encoded graph decodes: a failure of `from_bytes` on some bytes means
/// no graph at all encodes to them.
pub proof fn lemma_encoding_decodable(g: TrackingGraph)
    ensures
        decodable(graph_bytes(g)),
{
    let ws = graph_words(g);
    let bs = graph_bytes(g);
    lemma_words_bytes_len(ws);
    vstd::arithmetic::div_mod::lemma_mod_multiples_basic(ws.len() as int, 8);
    assert(bs.len() % 8 == 0);
    lemma_words_of_bytes_inverse(ws);
    let p1 = node_words_of(g.root).len() as int;
    assert(ws.subrange(0, p1) =~= node_words_of(g.root));
    lemma_sd_node_of(ws, 0, g.root);
    vstd::std_specs::vec::axiom_spec_len(&g.matrix);
    assert(ws[p1] == g.matrix@.len() as u64);
    assert(ws[p1] <= usize::MAX as u64);
    let rl = rows_words(g.matrix@).len() as int;
    assert(ws.subrange(p1 + 1, p1 + 1 + rl) =~= rows_words(g.matrix@));
    lemma_sd_rows_of(ws, p1 + 1, g.matrix@);
    assert(sd_rows(ws, p1 + 1, ws[p1] as int) == Some(ws.len() as int));
    assert(words_decodable(ws));
    assert(decodable(bs));
}

} // verus!

