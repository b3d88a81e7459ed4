use vstd::prelude::*;

verus! {

/// A single node of the incidence lattice: the indices of its
/// subelements, which live one rank below it.
#[derive(Debug, Clone)]
pub struct Element {
    /// Indices into the element list one rank below.
    pub subs: Vec<usize>,
}

impl Element {
    /// A minimal element: no subelements.
    pub fn min() -> (r: Element)
        ensures
            r.subs@ == Seq::<usize>::empty(),
    {
        Element { subs: Vec::new() }
    }

    /// An element with the same subelements.
    pub fn duplicate(&self) -> (r: Element)
        ensures
            r.subs@ == self.subs@,
    {
        let subs = self.subs.clone();
        assert(subs@ =~= self.subs@);
        Element { subs }
    }

    /// A maximal element adjacent to the given number of facets:
    /// its subelements are `0 .. facet_count` in order.
    pub fn max(facet_count: usize) -> (r: Element)
        ensures
            r.subs@.len() == facet_count,
            forall|i: int| 0 <= i < facet_count ==> r.subs@[i] == i,
    {
        let mut subs: Vec<usize> = Vec::new();
        for i in 0..facet_count
            invariant
                subs@.len() == i,
                forall|j: int| 0 <= j < i ==> subs@[j] == j,
        {
            subs.push(i);
        }
        Element { subs }
    }
}

/// The elements of one rank, in insertion order; an element's index in
/// this list is its only identity.
#[derive(Debug, Clone)]
pub struct ElementList(pub Vec<Element>);

impl ElementList {
    /// The sequence of subelement lists of this rank's elements.
    pub open spec fn subs_seq(self) -> Seq<Seq<usize>> {
        self.0@.map_values(|e: Element| e.subs@)
    }

    /// A list with the same elements.
    pub fn duplicate(&self) -> (r: ElementList)
        ensures
            r.subs_seq() == self.subs_seq(),
            r.0@.len() == self.0@.len(),
    {
        let mut v: Vec<Element> = Vec::new();
        let n = self.0.len();
        for i in 0..n
            invariant
                n == self.0@.len(),
                v@.len() == i,
                forall|j: int| 0 <= j < i ==> v@[j].subs@ == self.0@[j].subs@,
        {
            v.push(self.0[i].duplicate());
        }
        let r = ElementList(v);
        assert(r.subs_seq() =~= self.subs_seq());
        r
    }

    /// An empty list.
    pub fn new() -> (r: ElementList)
        ensures
            r.0@.len() == 0,
    {
        ElementList(Vec::new())
    }

    /// The layer holding the single minimal element.
    pub fn min() -> (r: ElementList)
        ensures
            r.0@.len() == 1,
            r.0@[0].subs@ == Seq::<usize>::empty(),
    {
        let mut v: Vec<Element> = Vec::new();
        v.push(Element::min());
        ElementList(v)
    }

    /// The layer holding the single maximal element over `facet_count` facets.
    pub fn max(facet_count: usize) -> (r: ElementList)
        ensures
            r.0@.len() == 1,
            r.0@[0].subs@.len() == facet_count,
            forall|i: int| 0 <= i < facet_count ==> r.0@[0].subs@[i] == i,
    {
        let mut v: Vec<Element> = Vec::new();
        v.push(Element::max(facet_count));
        ElementList(v)
    }

    /// The layer of `vertex_count` vertices, each lying over the single
    /// minimal element (index 0).
    pub fn vertices(vertex_count: usize) -> (r: ElementList)
        ensures
            r.0@.len() == vertex_count,
            forall|i: int| 0 <= i < vertex_count ==> r.0@[i].subs@ == seq![0usize],
    {
        let mut v: Vec<Element> = Vec::new();
        for i in 0..vertex_count
            invariant
                v@.len() == i,
                forall|j: int| 0 <= j < i ==> v@[j].subs@ == seq![0usize],
        {
            let mut subs: Vec<usize> = Vec::new();
            subs.push(0);
            let e = Element { subs };
            assert(e.subs@ =~= seq![0usize]);
            v.push(e);
        }
        ElementList(v)
    }
}

} // verus!
