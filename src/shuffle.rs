//! The windowed shuffle: a bounded-memory, single-pass streaming shuffle.

use vstd::multiset::Multiset;
use vstd::prelude::*;

use rand_xorshift::XorShiftRng;

use crate::dataset::Dataset;
use crate::rng::{draw_index, entropy_rng, seeded_rng};

verus! {

broadcast use {vstd::multiset::group_multiset_axioms, vstd::seq_lib::group_to_multiset_ensures};

/// Removing slot `i` by moving the last item into it leaves the same items as
/// removing slot `i` outright.
proof fn lemma_swap_remove_multiset<T>(s: Seq<T>, i: int)
    requires
        0 <= i < s.len(),
    ensures
        s.update(i, s.last()).drop_last().to_multiset() == s.to_multiset().remove(s[i]),
{
    let u = s.update(i, s.last());
    if i == s.len() - 1 {
        assert(u =~= s);
        assert(u.drop_last() =~= s.remove(i));
    } else {
        assert(u.drop_last() =~= u.remove(s.len() - 1));
        vstd::seq_lib::to_multiset_remove(u, s.len() - 1);
        vstd::seq_lib::to_multiset_update(s, i, s.last());
        assert(u.to_multiset().remove(s.last()) =~= s.to_multiset().remove(s[i]));
    }
}

/// One step of the windowed shuffle on window `w`: the item in slot `d` leaves;
/// `incoming`, when there is one, takes its slot, else the last item does.
/// Returns the item that left and the new window.
pub open spec fn shuffle_step<T>(w: Seq<T>, d: int, incoming: Option<T>) -> (T, Seq<T>) {
    let s = match incoming {
        Some(y) => w.push(y),
        None => w,
    };
    (s[d], s.update(d, s.last()).drop_last())
}

/// A step of the windowed shuffle neither creates, duplicates nor loses an
/// item: the item that leaves and the new window hold the old window and the
/// incoming item.
pub proof fn lemma_step_keeps_items<T>(w: Seq<T>, d: int, incoming: Option<T>)
    requires
        0 <= d < w.len(),
    ensures
        seq![shuffle_step(w, d, incoming).0].to_multiset().add(
            shuffle_step(w, d, incoming).1.to_multiset(),
        ) == match incoming {
            Some(y) => w.push(y).to_multiset(),
            None => w.to_multiset(),
        },
        shuffle_step(w, d, incoming).1.len() == match incoming {
            Some(_) => w.len(),
            None => (w.len() - 1) as nat,
        },
{
    let s = match incoming {
        Some(y) => w.push(y),
        None => w,
    };
    lemma_swap_remove_multiset(s, d);
    let x = s[d];
    assert(s.to_multiset().count(x) > 0);
    assert(seq![x].to_multiset() =~= Multiset::empty().insert(x)) by {
        assert(seq![x] =~= Seq::<T>::empty().push(x));
    }
    assert(seq![x].to_multiset().add(s.to_multiset().remove(x)) =~= s.to_multiset());
}

/// What a windowed shuffle emits, and the window it is left with, starting
/// from `window`, pulling the items of `incoming` one per step while they
/// last, and taking slot `draws[j]` at step `j`.
pub open spec fn replay<T>(window: Seq<T>, incoming: Seq<T>, draws: Seq<int>) -> (Seq<T>, Seq<T>)
    decreases draws.len(),
{
    if draws.len() == 0 {
        (Seq::empty(), window)
    } else {
        let prev = replay(window, incoming, draws.drop_last());
        let j = draws.len() - 1;
        let step = shuffle_step(
            prev.1,
            draws.last(),
            if j < incoming.len() {
                Some(incoming[j])
            } else {
                None
            },
        );
        (prev.0.push(step.0), step.1)
    }
}

/// Items pulled after the steps so far do not change what those steps did.
proof fn lemma_replay_extend<T>(window: Seq<T>, incoming: Seq<T>, y: T, draws: Seq<int>)
    requires
        incoming.len() >= draws.len(),
    ensures
        replay(window, incoming.push(y), draws) == replay(window, incoming, draws),
    decreases draws.len(),
{
    if draws.len() > 0 {
        lemma_replay_extend(window, incoming, y, draws.drop_last());
    }
}

/// Yields the items of its upstream in an order drawn at random from a sliding
/// window of at most `buffer_size` items.
pub struct Shuffle<D: Dataset> {
    pub(crate) upstream: D,
    /// The window's size as requested.
    pub(crate) buffer_size: usize,
    /// The live items; their count is the effective window size.
    pub(crate) window: Vec<D::Item>,
    pub(crate) rng: XorShiftRng,
    /// How many items the upstream had handed out before this shuffle took it.
    pub(crate) base: Ghost<nat>,
    /// Everything this shuffle handed out so far.
    pub(crate) out: Ghost<Seq<D::Item>>,
    /// The window as first filled.
    pub(crate) start: Ghost<Seq<D::Item>>,
    /// The slot drawn at each step so far.
    pub(crate) draws: Ghost<Seq<int>>,
}

impl<D: Dataset> Shuffle<D> {
    /// The upstream producer.
    pub open(crate) spec fn source(&self) -> D {
        self.upstream
    }

    /// The items this shuffle has pulled from its upstream.
    pub open(crate) spec fn pulled(&self) -> Seq<D::Item> {
        self.upstream.produced().skip(self.base@ as int)
    }

    /// How many items the upstream had handed out before this shuffle took it.
    pub open(crate) spec fn base(&self) -> nat {
        self.base@
    }

    /// The window as first filled.
    pub open(crate) spec fn first_window(&self) -> Seq<D::Item> {
        self.start@
    }

    /// The items pulled from upstream after the window was first filled.
    pub open(crate) spec fn incoming(&self) -> Seq<D::Item> {
        self.pulled().skip(self.start@.len() as int)
    }

    /// The slot drawn at each step so far.
    pub open(crate) spec fn draws(&self) -> Seq<int> {
        self.draws@
    }

    /// The live window.
    pub open(crate) spec fn live(&self) -> Seq<D::Item> {
        self.window@
    }

    /// The window's size as requested.
    pub open(crate) spec fn capacity(&self) -> nat {
        self.buffer_size as nat
    }

    /// Fills the window from `upstream` and sets up `rng`.
    fn fill(upstream: D, buffer_size: usize, rng: XorShiftRng) -> (r: Self)
        requires
            upstream.wf(),
        ensures
            r.wf(),
            r.capacity() == buffer_size,
            r.base() == upstream.produced().len(),
            r.produced() == Seq::<D::Item>::empty(),
            r.pulled() == r.live(),
            r.first_window() == r.live(),
            r.draws() == Seq::<int>::empty(),
            upstream.continued_by(r.source()),
            r.source().produced() == upstream.produced() + r.live(),
            r.source().left() == upstream.left() - r.live().len(),
            r.live().len() == if buffer_size <= upstream.left() {
                buffer_size as nat
            } else {
                upstream.left()
            },
            buffer_size == 0 ==> r.source() == upstream,
            buffer_size == 0 ==> r.left() == 0,
            buffer_size > 0 ==> r.left() == upstream.left(),
    {
        let ghost start = upstream.produced();
        let ghost start_left = upstream.left();
        let ghost start_up = upstream;
        proof {
            D::lemma_continued_refl(upstream);
        }
        let mut upstream = upstream;
        let mut window: Vec<D::Item> = Vec::new();
        let mut exhausted = false;
        while !exhausted && window.len() < buffer_size
            invariant
                upstream.wf(),
                window@.len() <= buffer_size,
                upstream.produced() == start + window@,
                upstream.left() + window@.len() == start_left,
                exhausted ==> upstream.left() == 0,
                start_up.continued_by(upstream),
                window@.len() == 0 && !exhausted ==> upstream == start_up,
                buffer_size == 0 ==> !exhausted,
            decreases buffer_size - window@.len(), if exhausted { 0int } else { 1int },
        {
            let ghost before = upstream;
            match upstream.next() {
                Some(x) => window.push(x),
                None => exhausted = true,
            }
            proof {
                D::lemma_continued_trans(start_up, before, upstream);
            }
        }
        let r = Shuffle {
            upstream,
            buffer_size,
            window,
            rng,
            base: Ghost(start.len()),
            out: Ghost(Seq::empty()),
            start: Ghost(window@),
            draws: Ghost(Seq::empty()),
        };
        assert(r.pulled() =~= r.live());
        assert(r.pulled().take(r.start@.len() as int) =~= r.start@);
        assert(r.incoming() =~= Seq::<D::Item>::empty());
        assert(r.out@.to_multiset() =~= Multiset::empty());
        assert(r.out@.to_multiset().add(r.window@.to_multiset()) =~= r.pulled().to_multiset());
        r
    }

    /// A shuffle whose order is fixed by `seed`: the same seed over the same
    /// upstream sequence gives the same output.
    pub fn new(upstream: D, buffer_size: usize, seed: u64) -> (r: Self)
        requires
            upstream.wf(),
        ensures
            r.wf(),
            r.capacity() == buffer_size,
            r.base() == upstream.produced().len(),
            r.produced() == Seq::<D::Item>::empty(),
            r.pulled() == r.live(),
            r.first_window() == r.live(),
            r.draws() == Seq::<int>::empty(),
            upstream.continued_by(r.source()),
            r.source().produced() == upstream.produced() + r.live(),
            r.source().left() == upstream.left() - r.live().len(),
            r.live().len() == if buffer_size <= upstream.left() {
                buffer_size as nat
            } else {
                upstream.left()
            },
            buffer_size == 0 ==> r.source() == upstream,
            buffer_size == 0 ==> r.left() == 0,
            buffer_size > 0 ==> r.left() == upstream.left(),
    {
        Self::fill(upstream, buffer_size, seeded_rng(seed))
    }

    /// A shuffle seeded from the operating system: its order is not
    /// reproducible. `None`, before anything is pulled, when the operating
    /// system's random source fails.
    pub fn unseeded(upstream: D, buffer_size: usize) -> (r: Option<Self>)
        requires
            upstream.wf(),
        ensures
            r matches Some(r) ==> {
                &&& r.wf()
                &&& r.capacity() == buffer_size
                &&& r.base() == upstream.produced().len()
                &&& r.produced() == Seq::<D::Item>::empty()
                &&& r.pulled() == r.live()
                &&& r.first_window() == r.live()
                &&& r.draws() == Seq::<int>::empty()
                &&& upstream.continued_by(r.source())
                &&& r.source().produced() == upstream.produced() + r.live()
                &&& r.source().left() == upstream.left() - r.live().len()
                &&& r.live().len() == if buffer_size <= upstream.left() {
                    buffer_size as nat
                } else {
                    upstream.left()
                }
                &&& buffer_size == 0 ==> r.source() == upstream
                &&& buffer_size == 0 ==> r.left() == 0
                &&& buffer_size > 0 ==> r.left() == upstream.left()
            },
    {
        match entropy_rng() {
            Some(rng) => Some(Self::fill(upstream, buffer_size, rng)),
            None => None,
        }
    }
}

impl<D: Dataset> Dataset for Shuffle<D> {
    type Item = D::Item;

    open(crate) spec fn produced(&self) -> Seq<D::Item> {
        self.out@
    }

    open(crate) spec fn left(&self) -> nat {
        if self.window@.len() == 0 {
            0
        } else {
            self.window@.len() + self.upstream.left()
        }
    }

    open(crate) spec fn continued_by(&self, later: Self) -> bool {
        &&& self.base@ == later.base@
        &&& self.buffer_size == later.buffer_size
        &&& self.start@ == later.start@
        &&& self.upstream.continued_by(later.upstream)
    }

    proof fn lemma_continued_refl(a: Self) {
        D::lemma_continued_refl(a.upstream);
    }

    proof fn lemma_continued_trans(a: Self, b: Self, c: Self) {
        D::lemma_continued_trans(a.upstream, b.upstream, c.upstream);
    }

    open(crate) spec fn wf(&self) -> bool {
        &&& self.upstream.wf()
        &&& self.window@.len() <= self.buffer_size
        &&& self.window@.len() < self.buffer_size ==> self.upstream.left() == 0
        &&& self.base@ <= self.upstream.produced().len()
        &&& self.out@.to_multiset().add(self.window@.to_multiset()) == self.pulled().to_multiset()
        &&& self.start@.len() <= self.pulled().len()
        &&& self.pulled().take(self.start@.len() as int) == self.start@
        &&& self.start@.len() <= self.buffer_size
        &&& self.start@.len() < self.buffer_size ==> self.incoming().len() == 0
            && self.upstream.left() == 0
        &&& self.incoming().len() <= self.draws@.len()
        &&& self.incoming().len() < self.draws@.len() ==> self.upstream.left() == 0
        &&& replay(self.start@, self.incoming(), self.draws@) == (self.out@, self.window@)
    }

    fn next(&mut self) -> (r: Option<D::Item>)
        ensures
            final(self).base() == old(self).base(),
            final(self).capacity() == old(self).capacity(),
            final(self).first_window() == old(self).first_window(),
            old(self).live().len() == 0 ==> r is None && *final(self) == *old(self),
            old(self).live().len() > 0 ==> {
                let i = final(self).draws().last();
                let pulled = if final(self).source().produced().len() > old(
                    self,
                ).source().produced().len() {
                    Some(final(self).source().produced().last())
                } else {
                    None
                };
                &&& final(self).draws() == old(self).draws().push(i)
                &&& 0 <= i < old(self).live().len()
                &&& (pulled is None <==> old(self).source().left() == 0)
                &&& final(self).source().produced() == match pulled {
                    Some(y) => old(self).source().produced().push(y),
                    None => old(self).source().produced(),
                }
                &&& r == Some(old(self).live()[i])
                &&& r == Some(shuffle_step(old(self).live(), i, pulled).0)
                &&& final(self).live() == shuffle_step(old(self).live(), i, pulled).1
                &&& final(self).live().len() == old(self).live().len() - (if pulled is None {
                    1int
                } else {
                    0int
                })
            },
    {
        let n = self.window.len();
        if n == 0 {
            proof {
                Self::lemma_continued_refl(*self);
            }
            return None;
        }
        let index = draw_index(&mut self.rng, n);
        let ghost w0 = self.window@;
        let ghost p0 = self.pulled();
        let ghost o0 = self.out@;
        let ghost i0 = self.incoming();
        let ghost d0 = self.draws@;
        let incoming = self.upstream.next();
        let item = match incoming {
            Some(y) => {
                self.window.push(y);
                let x = self.window.swap_remove(index);
                proof {
                    let s = w0.push(y);
                    lemma_swap_remove_multiset(s, index as int);
                    assert(self.pulled() =~= p0.push(y));
                    assert(self.incoming() =~= i0.push(y));
                    lemma_replay_extend(self.start@, i0, y, d0);
                    assert(s.to_multiset().count(x) > 0) by {
                        assert(s[index as int] == x);
                    }
                    assert(o0.push(x).to_multiset().add(self.window@.to_multiset())
                        =~= self.pulled().to_multiset());
                }
                x
            },
            None => {
                let x = self.window.swap_remove(index);
                proof {
                    lemma_swap_remove_multiset(w0, index as int);
                    assert(self.pulled() =~= p0);
                    assert(self.incoming() =~= i0);
                    assert(w0.to_multiset().count(x) > 0) by {
                        assert(w0[index as int] == x);
                    }
                    assert(o0.push(x).to_multiset().add(self.window@.to_multiset())
                        =~= self.pulled().to_multiset());
                }
                x
            },
        };
        proof {
            self.out@ = self.out@.push(item);
            self.draws@ = d0.push(index as int);
            assert(self.draws@.drop_last() =~= d0);
            assert(self.pulled().take(self.start@.len() as int) =~= self.start@);
        }
        Some(item)
    }
}

} // verus!
