//! The sequence-producer interface that every operator consumes and offers.

use vstd::prelude::*;

use crate::batch::{Batch, DatasetError};
use crate::shuffle::Shuffle;

verus! {

/// A stateful cursor over an ordered sequence of items.
///
/// Each call of `next` either hands out exactly one item or reports
/// exhaustion; exhaustion is terminal: once `next` has returned `None`,
/// it keeps returning `None`.
pub trait Dataset: Sized {
    type Item;

    /// Every item handed out so far, in the order it was handed out.
    spec fn produced(&self) -> Seq<Self::Item>;

    /// How many items are still to come.
    spec fn left(&self) -> nat;

    /// The producer's internal invariant.
    spec fn wf(&self) -> bool;

    /// Whether `later` is this producer further along the same stream: its
    /// configuration and its source are the same.
    spec fn continued_by(&self, later: Self) -> bool;

    /// Every producer continues itself.
    proof fn lemma_continued_refl(a: Self)
        ensures
            a.continued_by(a),
    ;

    /// Continuing a continuation continues the original.
    proof fn lemma_continued_trans(a: Self, b: Self, c: Self)
        requires
            a.continued_by(b),
            b.continued_by(c),
        ensures
            a.continued_by(c),
    ;

    /// Hands out the next item, or `None` once the producer is exhausted.
    fn next(&mut self) -> (r: Option<Self::Item>)
        requires
            old(self).wf(),
        ensures
            final(self).wf(),
            old(self).continued_by(*final(self)),
            r is None <==> old(self).left() == 0,
            r is None ==> final(self).produced() == old(self).produced() && final(self).left()
                == 0,
            r matches Some(x) ==> final(self).produced() == old(self).produced().push(x)
                && final(self).left() == old(self).left() - 1,
    ;
}

/// Pulls every item still to come out of `d`, in order.
pub fn drain<D: Dataset>(d: &mut D) -> (r: Vec<D::Item>)
    requires
        old(d).wf(),
    ensures
        final(d).wf(),
        old(d).continued_by(*final(d)),
        final(d).left() == 0,
        final(d).produced() == old(d).produced() + r@,
        r@.len() == old(d).left(),
{
    let ghost d0 = *d;
    proof {
        D::lemma_continued_refl(*d);
    }
    let mut out: Vec<D::Item> = Vec::new();
    loop
        invariant
            d.wf(),
            d0.continued_by(*d),
            d.produced() == d0.produced() + out@,
            out@.len() + d.left() == d0.left(),
        ensures
            d.left() == 0,
        decreases d.left(),
    {
        let ghost before = *d;
        let x = d.next();
        proof {
            D::lemma_continued_trans(d0, before, *d);
        }
        match x {
            Some(x) => {
                out.push(x);
                assert(d.produced() =~= d0.produced() + out@);
            },
            None => break,
        }
    }
    out
}

/// Shuffles the items of `source` through a window of `buffer_size` items,
/// in an order fixed by `seed`.
pub fn shuffle<D: Dataset>(source: D, buffer_size: usize, seed: u64) -> (r: Shuffle<D>)
    requires
        source.wf(),
    ensures
        r.wf(),
        r.capacity() == buffer_size,
        r.base() == source.produced().len(),
        r.produced() == Seq::<D::Item>::empty(),
        r.pulled() == r.live(),
        r.first_window() == r.live(),
        r.draws() == Seq::<int>::empty(),
        source.continued_by(r.source()),
        r.source().produced() == source.produced() + r.live(),
        r.source().left() == source.left() - r.live().len(),
        r.live().len() == if buffer_size <= source.left() {
            buffer_size as nat
        } else {
            source.left()
        },
        buffer_size == 0 ==> r.source() == source,
        buffer_size == 0 ==> r.left() == 0,
        buffer_size > 0 ==> r.left() == source.left(),
{
    Shuffle::new(source, buffer_size, seed)
}

/// Groups the items of `source` into batches of `batch_size`; fails when
/// `batch_size` is zero.
pub fn batch<D: Dataset>(source: D, batch_size: usize, drop_remainder: bool) -> (r: Result<
    Batch<D>,
    DatasetError,
>)
    requires
        source.wf(),
    ensures
        batch_size == 0 <==> r is Err,
        r matches Err(e) ==> e == DatasetError::InvalidBatchSize,
        r matches Ok(b) ==> {
            &&& b.wf()
            &&& b.source() == source
            &&& b.base() == source.produced().len()
            &&& b.size() == batch_size
            &&& b.drops_remainder() == drop_remainder
            &&& b.produced() == Seq::<Vec<D::Item>>::empty()
        },
{
    Batch::new(source, batch_size, drop_remainder)
}

} // verus!
