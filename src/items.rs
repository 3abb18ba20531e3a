//! An in-memory sequence producer.

use vstd::prelude::*;

use crate::dataset::Dataset;

verus! {

/// Hands out the items of a vector, front to back.
pub struct Items<T> {
    /// The items not yet handed out, the next one last.
    pub(crate) pending: Vec<T>,
    /// All the items, in order.
    pub(crate) all: Ghost<Seq<T>>,
}

impl<T> Items<T> {
    /// The whole sequence this producer hands out.
    pub open(crate) spec fn items(&self) -> Seq<T> {
        self.all@
    }

    /// A producer that hands out the items of `v` in order.
    pub fn new(v: Vec<T>) -> (r: Self)
        ensures
            r.wf(),
            r.items() == v@,
            r.produced() == Seq::<T>::empty(),
            r.left() == v@.len(),
    {
        let ghost all = v@;
        let mut v = v;
        let mut pending: Vec<T> = Vec::new();
        while v.len() > 0
            invariant
                v@.len() + pending@.len() == all.len(),
                v@ == all.take(v@.len() as int),
                forall|i: int|
                    0 <= i < pending@.len() ==> pending@[i] == all[all.len() - 1 - i],
            decreases v@.len(),
        {
            let x = v.pop().unwrap();
            pending.push(x);
        }
        let r = Items { pending, all: Ghost(all) };
        assert(r.produced() =~= Seq::<T>::empty());
        r
    }
}

impl<T> Dataset for Items<T> {
    type Item = T;

    open(crate) spec fn produced(&self) -> Seq<T> {
        self.all@.take(self.all@.len() - self.pending@.len())
    }

    open(crate) spec fn left(&self) -> nat {
        self.pending@.len()
    }

    open(crate) spec fn wf(&self) -> bool {
        &&& self.pending@.len() <= self.all@.len()
        &&& forall|i: int|
            0 <= i < self.pending@.len() ==> self.pending@[i] == self.all@[self.all@.len() - 1 - i]
    }

    open(crate) spec fn continued_by(&self, later: Self) -> bool {
        self.all@ == later.all@
    }

    proof fn lemma_continued_refl(a: Self) {
    }

    proof fn lemma_continued_trans(a: Self, b: Self, c: Self) {
    }

    fn next(&mut self) -> (r: Option<T>)
        ensures
            final(self).items() == old(self).items(),
            r matches Some(x) ==> x == old(self).items()[old(self).produced().len() as int],
    {
        let r = self.pending.pop();
        proof {
            if r is Some {
                assert(self.produced() =~= old(self).produced().push(r->0));
            }
        }
        r
    }
}

} // verus!
