//! Laws that relate the operators to one another and to their sources.

use vstd::multiset::Multiset;
use vstd::prelude::*;

use crate::batch::{batches_of, lemma_batch_counts, lemma_batch_order, lemma_chunks_flatten, Batch};
use crate::dataset::Dataset;
use crate::items::Items;
use crate::shuffle::Shuffle;

verus! {

broadcast use {vstd::multiset::group_multiset_axioms, vstd::seq_lib::group_to_multiset_ensures};

/// Once an in-memory source is drained, it has handed out all its items, in order.
proof fn lemma_items_drained<T>(src: Items<T>)
    requires
        src.wf(),
        src.left() == 0,
    ensures
        src.produced() == src.items(),
{
    assert(src.produced() =~= src.items());
}

/// A shuffle with a window of size zero has nothing to emit, whatever its
/// upstream holds.
pub proof fn lemma_shuffle_zero_window<D: Dataset>(sh: Shuffle<D>)
    requires
        sh.wf(),
        sh.capacity() == 0,
    ensures
        sh.left() == 0,
{
}

/// A drained shuffle with a window of at least one item, over any source, has
/// emitted exactly the items it took from its source, each as often as it
/// took it, and has drained that source.
pub proof fn lemma_shuffle_permutes_pulled<D: Dataset>(sh: Shuffle<D>)
    requires
        sh.wf(),
        sh.capacity() > 0,
        sh.left() == 0,
    ensures
        sh.produced().to_multiset() == sh.pulled().to_multiset(),
        sh.produced().len() == sh.pulled().len(),
        sh.source().left() == 0,
{
    assert(sh.live().len() == 0);
    assert(sh.live().to_multiset() =~= Multiset::empty());
    assert(sh.produced().to_multiset() =~= sh.pulled().to_multiset());
    vstd::seq_lib::to_multiset_len(sh.produced());
    vstd::seq_lib::to_multiset_len(sh.pulled());
}

/// Once its source, whatever it is, is drained, a batcher has emitted the
/// batches of `k` consecutive items it took, in the order it took them:
/// `n / k` full batches, then one of `n % k` items when `k` does not divide
/// `n` and the remainder is kept.
pub proof fn lemma_batch_drained<D: Dataset>(b: Batch<D>)
    requires
        b.wf(),
        b.source().left() == 0,
    ensures
        b.batches() == batches_of(b.pulled(), b.size(), b.drops_remainder()),
        b.batches().len() == b.pulled().len() / b.size() + (if b.pulled().len() % b.size() != 0
            && !b.drops_remainder() {
            1int
        } else {
            0int
        }),
        forall|i: int|
            0 <= i < b.pulled().len() / b.size() ==> (#[trigger] b.batches()[i]).len() == b.size(),
        b.pulled().len() % b.size() != 0 && !b.drops_remainder() ==> b.batches()[(
        b.pulled().len() / b.size()) as int].len() == b.pulled().len() % b.size(),
        b.batches().flatten() == if b.drops_remainder() {
            b.pulled().take(((b.pulled().len() / b.size()) * b.size()) as int)
        } else {
            b.pulled()
        },
{
    lemma_batch_counts(b.pulled(), b.size(), b.drops_remainder());
    lemma_batch_order(b.pulled(), b.size(), b.drops_remainder());
}

/// Shuffling any finite source and then batching by `k`, keeping the
/// remainder, gives `ceil(n / k)` batches for the `n` items taken from the
/// source, which together hold those items, each as often as it was taken.
pub proof fn lemma_shuffle_then_batch_pulled<D: Dataset>(b: Batch<Shuffle<D>>)
    requires
        b.wf(),
        b.base() == 0,
        !b.drops_remainder(),
        b.left() == 0,
        b.source().capacity() > 0,
    ensures
        b.batches().len() == (b.source().pulled().len() + b.size() - 1) as nat / b.size(),
        b.batches().flatten().to_multiset() == b.source().pulled().to_multiset(),
        b.source().source().left() == 0,
{
    let sh = b.source();
    let k = b.size() as int;
    let l = sh.left() as int;
    assert(l == 0) by (nonlinear_arith)
        requires
            k > 0,
            l >= 0,
            (l + k - 1) / k == 0,
    ;
    lemma_shuffle_permutes_pulled(sh);
    assert(b.pulled() =~= sh.produced());
    lemma_chunks_flatten(b.pulled(), b.size());
}

/// A drained shuffle over `n` items with a window of at least one item has
/// emitted exactly `n` items, each item of the source as often as the
/// source holds it.
pub proof fn lemma_shuffle_permutes<T>(sh: Shuffle<Items<T>>)
    requires
        sh.wf(),
        sh.base() == 0,
        sh.capacity() > 0,
        sh.left() == 0,
    ensures
        sh.produced().to_multiset() == sh.source().items().to_multiset(),
        sh.produced().len() == sh.source().items().len(),
{
    lemma_items_drained(sh.source());
    assert(sh.pulled() =~= sh.source().items());
    assert(sh.live().len() == 0);
    assert(sh.live().to_multiset() =~= Multiset::empty());
    assert(sh.produced().to_multiset() =~= sh.pulled().to_multiset());
    vstd::seq_lib::to_multiset_len(sh.produced());
    vstd::seq_lib::to_multiset_len(sh.source().items());
}

/// Two shuffles with the same window size over the same items that drew the
/// same slots have emitted the same items in the same order, and hold the
/// same window.
pub proof fn lemma_shuffle_deterministic<T>(a: Shuffle<Items<T>>, b: Shuffle<Items<T>>)
    requires
        a.wf(),
        b.wf(),
        a.base() == 0,
        b.base() == 0,
        a.capacity() == b.capacity(),
        a.source().items() == b.source().items(),
        a.draws() == b.draws(),
    ensures
        a.produced() == b.produced(),
        a.live() == b.live(),
{
    let n = a.source().items().len() as int;
    let ga = a.source().produced();
    let gb = b.source().produced();
    assert(ga =~= a.source().items().take(ga.len() as int));
    assert(gb =~= b.source().items().take(gb.len() as int));
    assert(a.pulled() =~= ga);
    assert(b.pulled() =~= gb);
    assert(ga.len() + a.source().left() == n);
    assert(gb.len() + b.source().left() == n);
    let sa = a.first_window().len() as int;
    let sb = b.first_window().len() as int;
    let cap = a.capacity() as int;
    assert(a.pulled().len() == sa + a.incoming().len());
    assert(b.pulled().len() == sb + b.incoming().len());
    assert(sa == if cap <= n { cap } else { n });
    assert(sb == if cap <= n { cap } else { n });
    let d = a.draws().len() as int;
    assert(a.incoming().len() == if d <= n - sa { d } else { n - sa });
    assert(b.incoming().len() == if d <= n - sb { d } else { n - sb });
    assert(ga.len() == gb.len());
    assert(ga == gb);
    assert(a.first_window() =~= b.first_window());
    assert(a.incoming() =~= b.incoming());
}

/// Shuffling `n` items and then batching them by `k`, keeping the remainder,
/// gives `ceil(n / k)` batches that together hold the source's items, each as
/// often as the source holds it.
pub proof fn lemma_shuffle_then_batch<T>(b: Batch<Shuffle<Items<T>>>)
    requires
        b.wf(),
        b.base() == 0,
        !b.drops_remainder(),
        b.left() == 0,
        b.source().base() == 0,
        b.source().capacity() > 0,
    ensures
        b.batches().len() == (b.source().source().items().len() + b.size() - 1) as nat / b.size(),
        b.batches().flatten().to_multiset() == b.source().source().items().to_multiset(),
{
    let sh = b.source();
    let k = b.size() as int;
    let l = sh.left() as int;
    assert(l == 0) by (nonlinear_arith)
        requires
            k > 0,
            l >= 0,
            (l + k - 1) / k == 0,
    ;
    lemma_shuffle_permutes(sh);
    assert(b.pulled() =~= sh.produced());
    lemma_chunks_flatten(b.pulled(), b.size());
}

/// Once its in-memory source is drained, a batcher has emitted exactly the
/// batches of `k` consecutive source items, the last one short or dropped.
pub proof fn lemma_batch_items<T>(b: Batch<Items<T>>)
    requires
        b.wf(),
        b.base() == 0,
        b.source().left() == 0,
    ensures
        b.batches() == batches_of(b.source().items(), b.size(), b.drops_remainder()),
{
    lemma_items_drained(b.source());
    assert(b.pulled() =~= b.source().items());
}

} // verus!
