//! Words: raw strings paired with a packed grapheme-cluster representation.
//!
//! A string is segmented into grapheme clusters; each cluster is packed into a
//! 64-bit big-endian code so that the edit-distance inner loops can compare
//! clusters in constant time. Clusters longer than 8 bytes are truncated to
//! their first 8 bytes, so two distinct oversize clusters may share a code.

use vstd::prelude::*;
use vstd::utf8::encode_utf8;
use unicode_segmentation::UnicodeSegmentation;

verus! {

/// The grapheme clusters of a string, as the segmenter yields them.
pub uninterp spec fn grapheme_split(s: Seq<char>) -> Seq<Seq<char>>;

/// Relies on unicode_segmentation's `graphemes` (extended clusters): it yields
/// the grapheme clusters of the input in order; the clusters are non-empty
/// substrings whose concatenation is the input.
#[verifier::external_body]
pub(crate) fn split_graphemes(s: &str) -> (parts: Vec<String>)
    ensures
        parts@.map_values(|p: String| p@) == grapheme_split(s@),
        parts@.map_values(|p: String| p@).flatten() == s@,
        forall|i: int| 0 <= i < parts@.len() ==> (#[trigger] parts@[i])@.len() > 0,
{
    s.graphemes(true).map(|g| g.to_string()).collect()
}

/// Big-endian packing of a byte sequence: each byte shifts the accumulator by
/// one byte position.
pub open spec fn pack_be(bs: Seq<u8>) -> int
    decreases bs.len(),
{
    if bs.len() == 0 {
        0
    } else {
        pack_be(bs.drop_last()) * 256 + bs.last()
    }
}

/// A byte sequence cut down to at most its first 8 bytes.
pub open spec fn clip8(bs: Seq<u8>) -> Seq<u8> {
    if bs.len() <= 8 {
        bs
    } else {
        bs.take(8)
    }
}

/// The 64-bit code of one grapheme cluster: its UTF-8 bytes, truncated to 8,
/// packed big-endian.
pub open spec fn pack_cluster(cs: Seq<char>) -> int {
    pack_be(clip8(encode_utf8(cs)))
}

/// The number of values a big-endian packing of `n` bytes can take.
pub open spec fn byte_span(n: nat) -> int
    decreases n,
{
    if n == 0 {
        1
    } else {
        256 * byte_span((n - 1) as nat)
    }
}

pub proof fn lemma_pack_be_bound(bs: Seq<u8>)
    ensures
        0 <= pack_be(bs) < byte_span(bs.len()),
    decreases bs.len(),
{
    if bs.len() == 0 {
    } else {
        lemma_pack_be_bound(bs.drop_last());
        let p = pack_be(bs.drop_last());
        let b = bs.last();
        assert(p * 256 + b < 256 * byte_span((bs.len() - 1) as nat)) by (nonlinear_arith)
            requires
                0 <= p < byte_span((bs.len() - 1) as nat),
                0 <= b < 256,
        ;
    }
}

pub proof fn lemma_byte_span_monotone(m: nat, n: nat)
    requires
        m <= n,
    ensures
        byte_span(m) <= byte_span(n),
    decreases n,
{
    if m < n {
        lemma_byte_span_monotone(m, (n - 1) as nat);
        lemma_byte_span_positive((n - 1) as nat);
        assert(byte_span((n - 1) as nat) <= 256 * byte_span((n - 1) as nat)) by (nonlinear_arith)
            requires
                byte_span((n - 1) as nat) >= 1,
        ;
    }
}

pub proof fn lemma_byte_span_positive(n: nat)
    ensures
        byte_span(n) >= 1,
    decreases n,
{
    if n > 0 {
        lemma_byte_span_positive((n - 1) as nat);
        assert(256 * byte_span((n - 1) as nat) >= byte_span((n - 1) as nat)) by (nonlinear_arith)
            requires
                byte_span((n - 1) as nat) >= 1,
        ;
    }
}

/// A word: the raw string and its packed grapheme-cluster codes.
#[derive(Debug)]
pub struct Word {
    pub raw: String,
    pub graphemes: Vec<u64>,
}

impl View for Word {
    type V = Seq<char>;

    open spec fn view(&self) -> Seq<char> {
        self.raw@
    }
}

impl Word {
    /// The packed codes match the grapheme clusters of the raw string.
    pub open spec fn wf(self) -> bool {
        let parts = grapheme_split(self.raw@);
        &&& self.graphemes@.len() == parts.len()
        &&& forall|i: int|
            0 <= i < parts.len() ==> self.graphemes@[i] == pack_cluster(#[trigger] parts[i])
        &&& parts.flatten() == self.raw@
        &&& forall|i: int| 0 <= i < parts.len() ==> (#[trigger] parts[i]).len() > 0
    }

    pub fn new(raw: String) -> (w: Word)
        ensures
            w.raw@ == raw@,
            w.wf(),
    {
        let parts = split_graphemes(raw.as_str());
        let ghost gparts = grapheme_split(raw@);
        let mut graphemes: Vec<u64> = Vec::new();
        let mut i: usize = 0;
        while i < parts.len()
            invariant
                parts@.map_values(|p: String| p@) == gparts,
                i <= parts.len(),
                graphemes@.len() == i,
                forall|k: int| 0 <= k < i ==> graphemes@[k] == pack_cluster(#[trigger] gparts[k]),
            decreases parts.len() - i,
        {
            let code = Self::pack_big_endian(parts[i].as_str().as_bytes());
            assert(parts@[i as int]@ == gparts[i as int]);
            graphemes.push(code);
            i += 1;
        }
        Word { raw, graphemes }
    }

    /// Packs up to the first 8 bytes of a slice into a big-endian 64-bit code.
    pub fn pack_big_endian(bytes: &[u8]) -> (r: u64)
        ensures
            r == pack_be(clip8(bytes@)),
    {
        let n: usize = if bytes.len() > 8 {
            8
        } else {
            bytes.len()
        };
        assert(clip8(bytes@).len() == n);
        let mut acc: u64 = 0;
        let mut i: usize = 0;
        while i < n
            invariant
                n <= bytes@.len(),
                n <= 8,
                clip8(bytes@).len() == n,
                i <= n,
                acc == pack_be(clip8(bytes@).take(i as int)),
            decreases n - i,
        {
            let ghost pre = clip8(bytes@).take(i as int);
            let ghost cur = clip8(bytes@).take(i + 1);
            proof {
                lemma_pack_be_bound(pre);
                lemma_byte_span_monotone(pre.len(), 7);
                assert(byte_span(7) == 0x100000000000000) by {
                    reveal_with_fuel(byte_span, 8);
                }
                assert(cur.drop_last() =~= pre);
                assert(clip8(bytes@)[i as int] == bytes@[i as int]);
            }
            acc = acc * 256 + (bytes[i] as u64);
            i += 1;
        }
        assert(clip8(bytes@).take(n as int) =~= clip8(bytes@));
        acc
    }
}

/// A fresh copy of a word, equal to the original in raw text and codes.
pub fn clone_word(w: &Word) -> (r: Word)
    ensures
        r.raw@ == w.raw@,
        r.graphemes@ == w.graphemes@,
        w.wf() ==> r.wf(),
{
    let raw = w.raw.clone();
    let graphemes = w.graphemes.clone();
    assert(graphemes@ =~= w.graphemes@);
    Word { raw, graphemes }
}

} // verus!
