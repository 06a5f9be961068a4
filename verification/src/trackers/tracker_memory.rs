//! Tracker memories: per-field recollection of the elements a tracker has
//! matched. Each policy chooses what to hold the next frame's records
//! against: everything seen, the most frequent value, the median word, or a
//! long-term memory paired with the latest match.

use vstd::prelude::*;
use crate::distances::median_word::{compute_median_word, is_median};
use crate::frame::{clone_element, element_eq, ElemV, Element};
use crate::word::Word;

verus! {

/// How many cells of a sequence hold the given value.
pub open spec fn count_in(s: Seq<ElemV>, v: ElemV) -> nat
    decreases s.len(),
{
    if s.len() == 0 {
        0
    } else {
        count_in(s.drop_last(), v) + if s.last() == v {
            1nat
        } else {
            0nat
        }
    }
}

/// The words among a sequence of cells, as raw strings.
pub open spec fn words_of(s: Seq<ElemV>) -> Seq<Seq<char>>
    decreases s.len(),
{
    if s.len() == 0 {
        Seq::empty()
    } else {
        words_of(s.drop_last()) + match s.last() {
            ElemV::Word(w) => seq![w],
            _ => Seq::<Seq<char>>::empty(),
        }
    }
}

/// All cells are well formed and none is missing.
pub open spec fn mem_cells_ok(es: Seq<Element>) -> bool {
    forall|i: int|
        0 <= i < es.len() ==> (#[trigger] es[i]).wf() && !(es[i]@ matches ElemV::Missing)
}

/// Clones a vector of memory cells.
fn clone_cells(es: &Vec<Element>) -> (r: Vec<Element>)
    ensures
        r@.map_values(|e: Element| e@) == es@.map_values(|e: Element| e@),
        mem_cells_ok(es@) ==> mem_cells_ok(r@),
{
    let mut out: Vec<Element> = Vec::new();
    let mut i: usize = 0;
    while i < es.len()
        invariant
            i <= es@.len(),
            out@.len() == i,
            forall|k: int| 0 <= k < i ==> (#[trigger] out@[k])@ == es@[k]@,
            forall|k: int| 0 <= k < i ==> (es@[k].wf() ==> (#[trigger] out@[k]).wf()),
        decreases es@.len() - i,
    {
        out.push(clone_element(&es[i]));
        i += 1;
    }
    proof {
        assert(out@.map_values(|e: Element| e@) =~= es@.map_values(|e: Element| e@));
    }
    out
}

/// Holds every matched element and returns them all.
pub struct BruteForceMemory {
    pub elements: Vec<Element>,
}

impl BruteForceMemory {
    pub open spec fn view_elems(self) -> Seq<ElemV> {
        self.elements@.map_values(|e: Element| e@)
    }

    pub open spec fn wf(self) -> bool {
        mem_cells_ok(self.elements@)
    }

    /// What this memory offers for scoring: everything it has seen.
    pub open spec fn remembered(self) -> Seq<ElemV> {
        self.view_elems()
    }

    pub fn new() -> (m: Self)
        ensures
            m.wf(),
            m.remembered() == Seq::<ElemV>::empty(),
    {
        let m = Self { elements: Vec::new() };
        proof {
            assert(m.remembered() =~= Seq::<ElemV>::empty());
        }
        m
    }

    pub fn signal_no_matching_element(&mut self)
        ensures
            *final(self) == *old(self),
    {
    }

    pub fn signal_matching_element(&mut self, element: Element)
        requires
            old(self).wf(),
            element.wf(),
        ensures
            final(self).wf(),
            element@ matches ElemV::Missing ==> *final(self) == *old(self),
            !(element@ matches ElemV::Missing) ==> final(self).view_elems() == old(
                self,
            ).view_elems().push(element@),
    {
        if element.is_none() {
            return ;
        }
        self.elements.push(element);
        proof {
            assert(self.view_elems() =~= old(self).view_elems().push(
                self.elements@.last()@,
            ));
        }
    }

    pub fn get_elements(&self) -> (r: Vec<Element>)
        requires
            self.wf(),
        ensures
            r@.map_values(|e: Element| e@) == self.remembered(),
            mem_cells_ok(r@),
    {
        clone_cells(&self.elements)
    }
}

/// Holds every matched element but returns only those whose value reached the
/// highest occurrence count, keeping every index that reached the top.
pub struct MostFrequentMemory {
    pub mf_count: usize,
    pub elements: Vec<Element>,
    pub mf_indexes: Vec<usize>,
}

/// How one matched (non-missing) element steps a most-frequent memory: the
/// element is appended; if its occurrence count now beats the best, it alone
/// holds the top spot; if it ties the best, its position joins the recorded
/// ones; otherwise the record stands.
pub open spec fn mf_step(pre: MostFrequentMemory, post: MostFrequentMemory, v: ElemV) -> bool {
    let newv = pre.view_elems().push(v);
    let c = count_in(newv, v);
    let n = pre.elements@.len() as int;
    &&& post.view_elems() == newv
    &&& (c > pre.mf_count ==> post.mf_count == c && post.mf_indexes@.len() == 1
        && post.mf_indexes@[0] == n)
    &&& (c == pre.mf_count ==> post.mf_count == pre.mf_count && post.mf_indexes@.len()
        == pre.mf_indexes@.len() + 1 && post.mf_indexes@.last() == n && (forall|k: int|
        0 <= k < pre.mf_indexes@.len() ==> post.mf_indexes@[k] == pre.mf_indexes@[k]))
    &&& (c < pre.mf_count ==> post.mf_count == pre.mf_count && post.mf_indexes@
        == pre.mf_indexes@)
}

impl MostFrequentMemory {
    pub open spec fn view_elems(self) -> Seq<ElemV> {
        self.elements@.map_values(|e: Element| e@)
    }

    pub open spec fn wf(self) -> bool {
        &&& mem_cells_ok(self.elements@)
        &&& forall|k: int|
            0 <= k < self.mf_indexes@.len() ==> (#[trigger] self.mf_indexes@[k])
                < self.elements@.len()
    }

    /// What this memory offers for scoring: the elements at the recorded
    /// top-count positions.
    pub open spec fn remembered(self) -> Seq<ElemV> {
        self.mf_indexes@.map_values(|i: usize| self.view_elems()[i as int])
    }

    pub fn new() -> (m: Self)
        ensures
            m.wf(),
            m.remembered() == Seq::<ElemV>::empty(),
            m.mf_count == 0,
            m.view_elems() == Seq::<ElemV>::empty(),
    {
        let m = Self { mf_count: 0, elements: Vec::new(), mf_indexes: Vec::new() };
        proof {
            assert(m.remembered() =~= Seq::<ElemV>::empty());
            assert(m.view_elems() =~= Seq::<ElemV>::empty());
        }
        m
    }

    pub fn signal_no_matching_element(&mut self)
        ensures
            *final(self) == *old(self),
    {
    }

    pub fn signal_matching_element(&mut self, element: Element)
        requires
            old(self).wf(),
            element.wf(),
        ensures
            final(self).wf(),
            element@ matches ElemV::Missing ==> *final(self) == *old(self),
            !(element@ matches ElemV::Missing) ==> mf_step(*old(self), *final(self), element@),
    {
        if element.is_none() {
            return ;
        }
        let idx = self.elements.len();
        self.elements.push(element);
        let ghost newv = self.view_elems();
        let ghost target = self.elements@.last()@;
        proof {
            assert(target == element@);
            assert(newv =~= old(self).view_elems().push(element@));
            assert(mem_cells_ok(self.elements@));
        }

        let mut count: usize = 0;
        let n = self.elements.len();
        let mut k: usize = 0;
        while k < n
            invariant
                n == self.elements@.len(),
                n >= 1,
                k <= n,
                count <= k,
                self.mf_count == old(self).mf_count,
                self.mf_indexes@ == old(self).mf_indexes@,
                mem_cells_ok(self.elements@),
                newv == self.view_elems(),
                newv == old(self).view_elems().push(target),
                target == self.elements@.last()@,
                idx == old(self).elements@.len(),
                self.elements@.len() == idx + 1,
                count == count_in(newv.take(k as int), target),
            decreases n - k,
        {
            proof {
                assert(newv.take(k + 1).drop_last() =~= newv.take(k as int));
                assert(newv.take(k + 1).last() == newv[k as int]);
            }
            let last_idx = n - 1;
            let hit = element_eq(&self.elements[k], &self.elements[last_idx]);
            if hit {
                count = count + 1;
            }
            k += 1;
        }
        proof {
            assert(newv.take(n as int) =~= newv);
        }
        if count > self.mf_count {
            self.mf_count = count;
            let mut fresh: Vec<usize> = Vec::new();
            fresh.push(idx);
            self.mf_indexes = fresh;
        } else if count == self.mf_count {
            self.mf_indexes.push(idx);
        }
    }

    pub fn get_elements(&self) -> (r: Vec<Element>)
        requires
            self.wf(),
        ensures
            r@.map_values(|e: Element| e@) == self.remembered(),
            mem_cells_ok(r@),
    {
        let mut out: Vec<Element> = Vec::new();
        let mut i: usize = 0;
        while i < self.mf_indexes.len()
            invariant
                self.wf(),
                i <= self.mf_indexes@.len(),
                out@.len() == i,
                forall|k: int| 0 <= k < i ==> (#[trigger] out@[k])@ == self.remembered()[k],
                forall|k: int| 0 <= k < i ==> (#[trigger] out@[k]).wf() && !(out@[k]@ matches
                    ElemV::Missing),
            decreases self.mf_indexes@.len() - i,
        {
            let j = self.mf_indexes[i];
            out.push(clone_element(&self.elements[j]));
            i += 1;
        }
        proof {
            assert(out@.map_values(|e: Element| e@) =~= self.remembered());
        }
        out
    }
}

/// Holds every matched word and returns the single median word.
pub struct MedianWordMemory {
    pub elements: Vec<Element>,
    pub median_word: Option<Element>,
}

impl MedianWordMemory {
    pub open spec fn view_elems(self) -> Seq<ElemV> {
        self.elements@.map_values(|e: Element| e@)
    }

    /// The held median is exactly the median of the words seen so far.
    pub open spec fn median_ok(self) -> bool {
        match self.median_word {
            None => words_of(self.view_elems()).len() == 0,
            Some(e) => e.wf() && match e@ {
                ElemV::Word(s) => exists|i: int|
                    #[trigger] is_median(words_of(self.view_elems()), i) && s == words_of(
                        self.view_elems(),
                    )[i],
                _ => false,
            },
        }
    }

    pub open spec fn wf(self) -> bool {
        &&& mem_cells_ok(self.elements@)
        &&& self.median_ok()
    }

    /// What this memory offers for scoring: the median word alone.
    pub open spec fn remembered(self) -> Seq<ElemV> {
        match self.median_word {
            Some(e) => seq![e@],
            None => Seq::<ElemV>::empty(),
        }
    }

    pub fn new() -> (m: Self)
        ensures
            m.wf(),
            m.remembered() == Seq::<ElemV>::empty(),
            m.view_elems() == Seq::<ElemV>::empty(),
    {
        let m = Self { elements: Vec::new(), median_word: None };
        proof {
            assert(m.view_elems() =~= Seq::<ElemV>::empty());
            assert(m.remembered() =~= Seq::<ElemV>::empty());
        }
        m
    }

    pub fn signal_no_matching_element(&mut self)
        ensures
            *final(self) == *old(self),
    {
    }

    pub fn signal_matching_element(&mut self, element: Element)
        requires
            old(self).wf(),
            element.wf(),
        ensures
            final(self).wf(),
            element@ matches ElemV::Missing ==> *final(self) == *old(self),
            !(element@ matches ElemV::Missing) ==> final(self).view_elems() == old(
                self,
            ).view_elems().push(element@),
    {
        if element.is_none() {
            return ;
        }
        self.elements.push(element);
        proof {
            assert(self.elements@.last() == element);
            assert(self.view_elems() =~= old(self).view_elems().push(element@));
            assert(mem_cells_ok(self.elements@));
        }
        let words = collect_words(&self.elements);
        let ghost ws = words_of(self.view_elems());
        proof {
            assert(crate::distances::median_word::raws_of(words@) == ws);
        }
        let median = compute_median_word(&words);
        match median {
            Some(w) => {
                let ghost wv = w.raw@;
                let ghost wit = choose|i: int|
                    #[trigger] is_median(crate::distances::median_word::raws_of(words@), i)
                        && wv == crate::distances::median_word::raws_of(words@)[i];
                proof {
                    assert(is_median(ws, wit) && wv == ws[wit]);
                }
                self.median_word = Some(Element::Word(w));
                proof {
                    assert(words_of(self.view_elems()) == ws);
                    assert(is_median(words_of(self.view_elems()), wit) && wv == words_of(
                        self.view_elems(),
                    )[wit]);
                    assert(self.median_ok());
                }
            },
            None => {
                proof {
                    assert(words@.len() == 0);
                    assert(ws.len() == 0);
                }
                self.median_word = None;
            },
        }
    }

    pub fn get_elements(&self) -> (r: Vec<Element>)
        requires
            self.wf(),
        ensures
            r@.map_values(|e: Element| e@) == self.remembered(),
            mem_cells_ok(r@),
    {
        let mut out: Vec<Element> = Vec::new();
        match &self.median_word {
            Some(e) => {
                out.push(clone_element(e));
            },
            None => {},
        }
        proof {
            assert(out@.map_values(|e: Element| e@) =~= self.remembered());
        }
        out
    }
}

/// The word elements of the cells, in order.
fn collect_words(es: &Vec<Element>) -> (r: Vec<Word>)
    requires
        mem_cells_ok(es@),
    ensures
        crate::distances::median_word::raws_of(r@) == words_of(
            es@.map_values(|e: Element| e@),
        ),
        forall|i: int| 0 <= i < r@.len() ==> (#[trigger] r@[i]).wf(),
{
    let ghost ev = es@.map_values(|e: Element| e@);
    let mut out: Vec<Word> = Vec::new();
    let mut i: usize = 0;
    while i < es.len()
        invariant
            ev == es@.map_values(|e: Element| e@),
            mem_cells_ok(es@),
            i <= es@.len(),
            crate::distances::median_word::raws_of(out@) == words_of(ev.take(i as int)),
            forall|k: int| 0 <= k < out@.len() ==> (#[trigger] out@[k]).wf(),
        decreases es@.len() - i,
    {
        proof {
            assert(ev.take(i + 1).drop_last() =~= ev.take(i as int));
            assert(ev.take(i + 1).last() == ev[i as int]);
        }
        match &es[i] {
            Element::Word(w) => {
                out.push(crate::word::clone_word(w));
                proof {
                    assert(crate::distances::median_word::raws_of(out@) =~= words_of(
                        ev.take(i + 1),
                    ));
                }
            },
            _ => {
                proof {
                    assert(crate::distances::median_word::raws_of(out@) =~= words_of(
                        ev.take(i + 1),
                    ));
                }
            },
        }
        i += 1;
    }
    proof {
        assert(ev.take(es@.len() as int) =~= ev);
    }
    out
}

/// A long-term memory that one of the simple policies manages.
pub enum InnerMemory {
    BruteForce(BruteForceMemory),
    MostFrequent(MostFrequentMemory),
    Median(MedianWordMemory),
}

/// How one matched (non-missing) element steps a long-term memory.
pub open spec fn inner_step(pre: InnerMemory, post: InnerMemory, v: ElemV) -> bool {
    match (pre, post) {
        (InnerMemory::BruteForce(a), InnerMemory::BruteForce(b)) => b.view_elems()
            == a.view_elems().push(v) && b.wf(),
        (InnerMemory::MostFrequent(a), InnerMemory::MostFrequent(b)) => mf_step(a, b, v) && b.wf(),
        (InnerMemory::Median(a), InnerMemory::Median(b)) => b.view_elems() == a.view_elems().push(
            v,
        ) && b.wf(),
        _ => false,
    }
}

impl InnerMemory {
    pub open spec fn wf(self) -> bool {
        match self {
            InnerMemory::BruteForce(m) => m.wf(),
            InnerMemory::MostFrequent(m) => m.wf(),
            InnerMemory::Median(m) => m.wf(),
        }
    }

    pub open spec fn remembered(self) -> Seq<ElemV> {
        match self {
            InnerMemory::BruteForce(m) => m.remembered(),
            InnerMemory::MostFrequent(m) => m.remembered(),
            InnerMemory::Median(m) => m.remembered(),
        }
    }

    pub fn signal_no_matching_element(&mut self)
        ensures
            *final(self) == *old(self),
    {
        match self {
            InnerMemory::BruteForce(m) => m.signal_no_matching_element(),
            InnerMemory::MostFrequent(m) => m.signal_no_matching_element(),
            InnerMemory::Median(m) => m.signal_no_matching_element(),
        }
    }

    pub fn signal_matching_element(&mut self, element: Element)
        requires
            old(self).wf(),
            element.wf(),
        ensures
            final(self).wf(),
            element@ matches ElemV::Missing ==> *final(self) == *old(self),
            !(element@ matches ElemV::Missing) ==> inner_step(*old(self), *final(self), element@),
    {
        match self {
            InnerMemory::BruteForce(m) => m.signal_matching_element(element),
            InnerMemory::MostFrequent(m) => m.signal_matching_element(element),
            InnerMemory::Median(m) => m.signal_matching_element(element),
        }
    }

    pub fn get_elements(&self) -> (r: Vec<Element>)
        requires
            self.wf(),
        ensures
            r@.map_values(|e: Element| e@) == self.remembered(),
            mem_cells_ok(r@),
    {
        match self {
            InnerMemory::BruteForce(m) => m.get_elements(),
            InnerMemory::MostFrequent(m) => m.get_elements(),
            InnerMemory::Median(m) => m.get_elements(),
        }
    }
}

/// A long-term memory paired with the latest matched element: the latest
/// match is offered alongside the long-term view and only slides into the
/// long-term memory when the next match arrives.
pub struct LongShortTermMemory {
    pub long_memory: InnerMemory,
    pub latest_element: Option<Element>,
}

impl LongShortTermMemory {
    pub open spec fn wf(self) -> bool {
        &&& self.long_memory.wf()
        &&& match self.latest_element {
            Some(e) => e.wf() && !(e@ matches ElemV::Missing),
            None => true,
        }
    }

    /// What this memory offers for scoring: the long-term elements, then the
    /// latest match.
    pub open spec fn remembered(self) -> Seq<ElemV> {
        self.long_memory.remembered() + match self.latest_element {
            Some(e) => seq![e@],
            None => Seq::<ElemV>::empty(),
        }
    }

    pub fn new(long_memory: InnerMemory) -> (m: Self)
        requires
            long_memory.wf(),
        ensures
            m.wf(),
            m.long_memory == long_memory,
            m.latest_element is None,
    {
        Self { long_memory, latest_element: None }
    }

    pub fn signal_no_matching_element(&mut self)
        ensures
            *final(self) == *old(self),
    {
        self.long_memory.signal_no_matching_element();
    }

    pub fn signal_matching_element(&mut self, element: Element)
        requires
            old(self).wf(),
            element.wf(),
        ensures
            final(self).wf(),
            element@ matches ElemV::Missing ==> *final(self) == *old(self),
            !(element@ matches ElemV::Missing) ==> match final(self).latest_element {
                Some(e) => e@ == element@,
                None => false,
            },
            !(element@ matches ElemV::Missing) ==> match old(self).latest_element {
                Some(x) => inner_step(old(self).long_memory, final(self).long_memory, x@),
                None => final(self).long_memory == old(self).long_memory,
            },
    {
        if element.is_none() {
            return ;
        }
        let mut slot = Some(element);
        core::mem::swap(&mut self.latest_element, &mut slot);
        if let Some(prev) = slot {
            self.long_memory.signal_matching_element(prev);
        }
    }

    pub fn get_elements(&self) -> (r: Vec<Element>)
        requires
            self.wf(),
        ensures
            r@.map_values(|e: Element| e@) == self.remembered(),
            mem_cells_ok(r@),
    {
        let mut out = self.long_memory.get_elements();
        match &self.latest_element {
            Some(e) => {
                out.push(clone_element(e));
            },
            None => {},
        }
        proof {
            assert(out@.map_values(|e: Element| e@) =~= self.remembered());
        }
        out
    }
}

/// How one matched element steps a tracker memory: a missing element leaves
/// it untouched; otherwise each policy updates its state exactly as its
/// definition says — everything seen is appended, the top-count record is
/// maintained, the median is recomputed, or the latest match slides into the
/// long-term memory.
pub open spec fn mem_step(pre: TrackerMemory, post: TrackerMemory, v: ElemV) -> bool {
    if (v matches ElemV::Missing) {
        post == pre
    } else {
        match (pre, post) {
            (TrackerMemory::BruteForce(a), TrackerMemory::BruteForce(b)) => b.view_elems()
                == a.view_elems().push(v) && b.wf(),
            (TrackerMemory::MostFrequent(a), TrackerMemory::MostFrequent(b)) => mf_step(a, b, v)
                && b.wf(),
            (TrackerMemory::Median(a), TrackerMemory::Median(b)) => b.view_elems()
                == a.view_elems().push(v) && b.wf(),
            (TrackerMemory::LongShortTerm(a), TrackerMemory::LongShortTerm(b)) => {
                &&& b.wf()
                &&& match b.latest_element {
                    Some(e) => e@ == v,
                    None => false,
                }
                &&& match a.latest_element {
                    Some(x) => inner_step(a.long_memory, b.long_memory, x@),
                    None => b.long_memory == a.long_memory,
                }
            },
            _ => false,
        }
    }
}

/// A tracker's memory for one field, under one of the configured policies.
pub enum TrackerMemory {
    BruteForce(BruteForceMemory),
    MostFrequent(MostFrequentMemory),
    Median(MedianWordMemory),
    LongShortTerm(LongShortTermMemory),
}

impl TrackerMemory {
    pub open spec fn wf(self) -> bool {
        match self {
            TrackerMemory::BruteForce(m) => m.wf(),
            TrackerMemory::MostFrequent(m) => m.wf(),
            TrackerMemory::Median(m) => m.wf(),
            TrackerMemory::LongShortTerm(m) => m.wf(),
        }
    }

    /// What this memory offers the scorer for the next frame. Missing cells
    /// never appear here.
    pub open spec fn remembered(self) -> Seq<ElemV> {
        match self {
            TrackerMemory::BruteForce(m) => m.remembered(),
            TrackerMemory::MostFrequent(m) => m.remembered(),
            TrackerMemory::Median(m) => m.remembered(),
            TrackerMemory::LongShortTerm(m) => m.remembered(),
        }
    }

    /// Signals that this field found no match in the current frame; the
    /// memory is left as it is.
    pub fn signal_no_matching_element(&mut self)
        ensures
            *final(self) == *old(self),
    {
        match self {
            TrackerMemory::BruteForce(m) => m.signal_no_matching_element(),
            TrackerMemory::MostFrequent(m) => m.signal_no_matching_element(),
            TrackerMemory::Median(m) => m.signal_no_matching_element(),
            TrackerMemory::LongShortTerm(m) => m.signal_no_matching_element(),
        }
    }

    /// Feeds the matched element into the memory, exactly as the policy's
    /// step relation says; a missing element leaves the memory unchanged.
    pub fn signal_matching_element(&mut self, element: Element)
        requires
            old(self).wf(),
            element.wf(),
        ensures
            final(self).wf(),
            mem_step(*old(self), *final(self), element@),
    {
        match self {
            TrackerMemory::BruteForce(m) => m.signal_matching_element(element),
            TrackerMemory::MostFrequent(m) => m.signal_matching_element(element),
            TrackerMemory::Median(m) => m.signal_matching_element(element),
            TrackerMemory::LongShortTerm(m) => m.signal_matching_element(element),
        }
    }

    /// The elements to score against, exactly as `remembered` describes them.
    pub fn get_elements(&self) -> (r: Vec<Element>)
        requires
            self.wf(),
        ensures
            r@.map_values(|e: Element| e@) == self.remembered(),
            mem_cells_ok(r@),
    {
        match self {
            TrackerMemory::BruteForce(m) => m.get_elements(),
            TrackerMemory::MostFrequent(m) => m.get_elements(),
            TrackerMemory::Median(m) => m.get_elements(),
            TrackerMemory::LongShortTerm(m) => m.get_elements(),
        }
    }
}

} // verus!
