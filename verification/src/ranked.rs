use vstd::prelude::*;

verus! {

/// A sequence logically indexed by rank, an integer starting at −1
/// (the rank of the nullitope).  Slot `r` of the container is stored at
/// position `r + 1` of the underlying vector; this type hides that
/// offset.
#[derive(Debug, Clone)]
pub struct RankVec<T>(pub Vec<T>);

impl<T> RankVec<T> {
    /// The greatest rank stored: the length minus 2, so that a container
    /// holding only the rank −1 slot has rank −1.
    pub open spec fn spec_rank(self) -> int {
        self.0@.len() - 2
    }

    /// The stored slots fit the signed indices used by callers.
    pub open spec fn bounded(self) -> bool {
        self.0@.len() <= isize::MAX as int
    }

    /// The slot at rank `r`, as a spec value.
    pub open spec fn at(self, r: int) -> T {
        self.0@[r + 1]
    }

    pub fn new() -> (r: RankVec<T>)
        ensures
            r.0@.len() == 0,
    {
        RankVec(Vec::new())
    }

    /// The greatest rank stored in the container.
    pub fn rank(&self) -> (r: isize)
        requires
            self.bounded(),
        ensures
            r == self.spec_rank(),
    {
        (self.0.len() as isize) - 2
    }

    /// A reference to the slot at rank `r`, or `None` when no such rank
    /// is stored.
    pub fn get(&self, r: isize) -> (res: Option<&T>)
        requires
            self.bounded(),
        ensures
            match res {
                Some(t) => -1 <= r <= self.spec_rank() && *t == self.at(r as int),
                None => r < -1 || r > self.spec_rank(),
            },
    {
        if r < -1 {
            None
        } else {
            let n: usize = self.0.len();
            if r >= (n as isize) - 1 {
                None
            } else {
                Some(&self.0[(r + 1) as usize])
            }
        }
    }

    /// A reference to the slot at rank `r`, which must be stored.
    pub fn index(&self, r: isize) -> (res: &T)
        requires
            self.bounded(),
            -1 <= r <= self.spec_rank(),
        ensures
            *res == self.at(r as int),
    {
        let idx: usize = (r + 1) as usize;
        &self.0[idx]
    }

    /// Appends a slot at the next free rank.
    pub fn push(&mut self, t: T)
        requires
            old(self).0@.len() < usize::MAX,
        ensures
            final(self).0@ == old(self).0@.push(t),
    {
        self.0.push(t);
    }

    /// Replaces the slot at rank `r`.
    pub fn set(&mut self, r: isize, t: T)
        requires
            old(self).bounded(),
            -1 <= r <= old(self).spec_rank(),
        ensures
            final(self).0@ == old(self).0@.update(r + 1, t),
    {
        let idx: usize = (r + 1) as usize;
        self.0.set(idx, t);
    }

    /// Exchanges the slots at ranks `a` and `b`.
    pub fn swap(&mut self, a: isize, b: isize)
        requires
            old(self).bounded(),
            -1 <= a <= old(self).spec_rank(),
            -1 <= b <= old(self).spec_rank(),
        ensures
            final(self).0@ == old(self).0@.update(a + 1, old(self).at(b as int)).update(
                b + 1,
                old(self).at(a as int),
            ),
    {
        let ia: usize = (a + 1) as usize;
        let ib: usize = (b + 1) as usize;
        if ia != ib {
            let (lo, hi) = if ia < ib {
                (ia, ib)
            } else {
                (ib, ia)
            };
            let t_hi = self.0.remove(hi);
            let t_lo = self.0.remove(lo);
            self.0.insert(lo, t_hi);
            self.0.insert(hi, t_lo);
            assert(self.0@ =~= old(self).0@.update(a + 1, old(self).at(b as int)).update(
                b + 1,
                old(self).at(a as int),
            ));
        } else {
            assert(self.0@ =~= old(self).0@.update(a + 1, old(self).at(b as int)).update(
                b + 1,
                old(self).at(a as int),
            ));
        }
    }

    /// Inserts a slot at rank `r`, moving the slots at `r` and above one
    /// rank up.
    pub fn insert(&mut self, r: isize, t: T)
        requires
            old(self).bounded(),
            -1 <= r <= old(self).spec_rank() + 1,
            old(self).0@.len() < usize::MAX,
        ensures
            final(self).0@ == old(self).0@.insert(r + 1, t),
    {
        let idx: usize = (r + 1) as usize;
        self.0.insert(idx, t);
    }
}

} // verus!
