//! Frames, records and elements: the tabular data the engine links across
//! time. A frame stores its records column by column; all columns have the
//! same length and follow the record schema's field order.

use vstd::prelude::*;
use crate::word::{clone_word, Word};

verus! {

/// The abstract value of an element: the text it holds, if any.
pub enum ElemV {
    Word(Seq<char>),
    MultiWords(Seq<Seq<char>>),
    Missing,
}

/// A cell of a record: one word, several words, or nothing. A missing element
/// never takes part in similarity scoring.
pub enum Element {
    Word(Word),
    MultiWords(Vec<Word>),
    Missing,
}

impl View for Element {
    type V = ElemV;

    open spec fn view(&self) -> ElemV {
        match self {
            Element::Word(w) => ElemV::Word(w.raw@),
            Element::MultiWords(ws) => ElemV::MultiWords(ws@.map_values(|w: Word| w.raw@)),
            Element::Missing => ElemV::Missing,
        }
    }
}

impl Element {
    /// Every word carried by the element is well formed.
    pub open spec fn wf(self) -> bool {
        match self {
            Element::Word(w) => w.wf(),
            Element::MultiWords(ws) => forall|i: int|
                0 <= i < ws@.len() ==> (#[trigger] ws@[i]).wf(),
            Element::Missing => true,
        }
    }

    pub fn is_none(&self) -> (r: bool)
        ensures
            r == (self@ matches ElemV::Missing),
    {
        match self {
            Element::Missing => true,
            _ => false,
        }
    }
}

/// A fresh element equal in value to the given one.
pub fn clone_element(e: &Element) -> (r: Element)
    ensures
        r@ == e@,
        e.wf() ==> r.wf(),
{
    match e {
        Element::Word(w) => Element::Word(clone_word(w)),
        Element::MultiWords(ws) => {
            let mut out: Vec<Word> = Vec::new();
            let mut i: usize = 0;
            while i < ws.len()
                invariant
                    i <= ws.len(),
                    out@.len() == i,
                    forall|k: int| 0 <= k < i ==> (#[trigger] out@[k]).raw@ == ws@[k].raw@,
                    forall|k: int| 0 <= k < i ==> ws@[k].wf() ==> (#[trigger] out@[k]).wf(),
                decreases ws.len() - i,
            {
                out.push(clone_word(&ws[i]));
                i += 1;
            }
            proof {
                assert(out@.map_values(|w: Word| w.raw@) =~= ws@.map_values(|w: Word| w.raw@));
            }
            Element::MultiWords(out)
        },
        Element::Missing => Element::Missing,
    }
}

/// Whether two elements hold the same value.
pub fn element_eq(a: &Element, b: &Element) -> (r: bool)
    ensures
        r == (a@ == b@),
{
    match (a, b) {
        (Element::Word(w1), Element::Word(w2)) => w1.raw == w2.raw,
        (Element::MultiWords(ws1), Element::MultiWords(ws2)) => {
            let ghost m1 = ws1@.map_values(|w: Word| w.raw@);
            let ghost m2 = ws2@.map_values(|w: Word| w.raw@);
            if ws1.len() != ws2.len() {
                proof {
                    assert(m1.len() != m2.len());
                    assert(a@ != b@);
                }
                return false;
            }
            let mut i: usize = 0;
            while i < ws1.len()
                invariant
                    i <= ws1.len(),
                    ws1@.len() == ws2@.len(),
                    m1 == ws1@.map_values(|w: Word| w.raw@),
                    m2 == ws2@.map_values(|w: Word| w.raw@),
                    a@ == ElemV::MultiWords(m1),
                    b@ == ElemV::MultiWords(m2),
                    forall|k: int| 0 <= k < i ==> (#[trigger] ws1@[k]).raw@ == ws2@[k].raw@,
                decreases ws1.len() - i,
            {
                if !substr_eq(&ws1[i].raw, &ws2[i].raw) {
                    proof {
                        assert(m1[i as int] != m2[i as int]);
                        assert(a@ != b@);
                    }
                    return false;
                }
                i += 1;
            }
            proof {
                assert(m1 =~= m2);
            }
            true
        },
        (Element::Missing, Element::Missing) => true,
        _ => {
            proof {
                assert(a@ != b@);
            }
            false
        },
    }
}

/// Whether two strings hold the same text.
fn substr_eq(s1: &String, s2: &String) -> (r: bool)
    ensures
        r == (s1@ == s2@),
{
    *s1 == *s2
}

/// A row of a frame: one element per schema field.
pub struct Record {
    pub elements: Vec<Element>,
}

impl View for Record {
    type V = Seq<ElemV>;

    open spec fn view(&self) -> Seq<ElemV> {
        self.elements@.map_values(|e: Element| e@)
    }
}

impl Record {
    pub open spec fn wf(self) -> bool {
        forall|i: int| 0 <= i < self.elements@.len() ==> (#[trigger] self.elements@[i]).wf()
    }

    pub fn new(elements: Vec<Element>) -> (r: Record)
        ensures
            r@ == elements@.map_values(|e: Element| e@),
            (forall|i: int| 0 <= i < elements@.len() ==> (#[trigger] elements@[i]).wf())
                ==> r.wf(),
    {
        Record { elements }
    }

    /// The number of fields of the record.
    pub fn size(&self) -> (n: usize)
        ensures
            n == self@.len(),
    {
        self.elements.len()
    }

    /// The element at a field position.
    pub fn element(&self, idx: usize) -> (e: &Element)
        requires
            idx < self@.len(),
        ensures
            e@ == self@[idx as int],
            self.wf() ==> e.wf(),
    {
        &self.elements[idx]
    }
}

/// An ordered snapshot of records at one time index, stored column by column.
pub struct Frame {
    pub idx: usize,
    pub columns: Vec<Vec<Element>>,
}

impl Frame {
    /// The frame's position in the sequence of frames.
    pub open spec fn spec_idx(self) -> int {
        self.idx as int
    }

    /// The columns as abstract values, one sequence of cells per field.
    pub open spec fn cols(self) -> Seq<Seq<ElemV>> {
        self.columns@.map_values(|c: Vec<Element>| c@.map_values(|e: Element| e@))
    }

    /// There is at least one column and all columns have the same length.
    pub open spec fn shape_ok(self) -> bool {
        &&& self.columns@.len() > 0
        &&& forall|i: int|
            0 <= i < self.columns@.len() ==> (#[trigger] self.columns@[i])@.len()
                == self.columns@[0]@.len()
    }

    /// Every element of the frame is well formed.
    pub open spec fn elems_wf(self) -> bool {
        forall|i: int, j: int|
            0 <= i < self.columns@.len() && 0 <= j < self.columns@[i]@.len() ==> (
            #[trigger] self.columns@[i]@[j]).wf()
    }

    /// All columns have the same length, there is at least one column, and
    /// every element is well formed.
    pub open spec fn wf(self) -> bool {
        &&& self.shape_ok()
        &&& self.elems_wf()
    }

    /// Checks the column shape of the frame at run time.
    pub fn check_shape(&self) -> (r: bool)
        ensures
            r == self.shape_ok(),
    {
        if self.columns.len() == 0 {
            return false;
        }
        let n = self.columns[0].len();
        let mut i: usize = 0;
        while i < self.columns.len()
            invariant
                i <= self.columns@.len(),
                self.columns@.len() > 0,
                n == self.columns@[0]@.len(),
                forall|k: int| 0 <= k < i ==> (#[trigger] self.columns@[k])@.len() == n,
            decreases self.columns@.len() - i,
        {
            if self.columns[i].len() != n {
                return false;
            }
            i += 1;
        }
        true
    }

    /// The number of records in a well-formed frame.
    pub open spec fn spec_num_records(self) -> int {
        self.cols()[0].len() as int
    }

    pub fn new(idx: usize, columns: Vec<Vec<Element>>) -> (f: Frame)
        ensures
            f.spec_idx() == idx,
            f.cols() == columns@.map_values(|c: Vec<Element>| c@.map_values(|e: Element| e@)),
            f.columns@ == columns@,
    {
        Frame { idx, columns }
    }

    pub fn idx(&self) -> (i: usize)
        ensures
            i == self.spec_idx(),
    {
        self.idx
    }

    pub fn num_records(&self) -> (n: usize)
        requires
            self.shape_ok(),
        ensures
            n == self.spec_num_records(),
    {
        self.columns[0].len()
    }

    pub fn num_features(&self) -> (n: usize)
        ensures
            n == self.cols().len(),
    {
        self.columns.len()
    }

    pub fn column(&self, idx: usize) -> (c: &Vec<Element>)
        requires
            idx < self.cols().len(),
        ensures
            c@.map_values(|e: Element| e@) == self.cols()[idx as int],
            self.wf() ==> forall|j: int| 0 <= j < c@.len() ==> (#[trigger] c@[j]).wf(),
            self.wf() ==> c@.len() == self.spec_num_records(),
    {
        &self.columns[idx]
    }

    /// The record at the given position, assembled from every column.
    pub fn record(&self, idx: usize) -> (r: Record)
        requires
            self.wf(),
            idx < self.spec_num_records(),
        ensures
            r@ == Seq::new(self.cols().len(), |f: int| self.cols()[f][idx as int]),
            r.wf(),
            r@.len() == self.cols().len(),
    {
        let mut elements: Vec<Element> = Vec::new();
        let mut f: usize = 0;
        while f < self.columns.len()
            invariant
                self.wf(),
                idx < self.spec_num_records(),
                f <= self.columns@.len(),
                elements@.len() == f,
                forall|k: int| 0 <= k < f ==> (#[trigger] elements@[k])@ == self.cols()[k][idx as int],
                forall|k: int| 0 <= k < f ==> (#[trigger] elements@[k]).wf(),
            decreases self.columns@.len() - f,
        {
            assert(self.columns@[f as int]@.len() == self.columns@[0]@.len());
            elements.push(clone_element(&self.columns[f][idx]));
            f += 1;
        }
        let r = Record::new(elements);
        proof {
            assert(r@ =~= Seq::new(self.cols().len(), |ff: int| self.cols()[ff][idx as int]));
        }
        r
    }
}

} // verus!
