//! The batcher: groups consecutive items into fixed-size batches.

use vstd::prelude::*;

use crate::dataset::Dataset;

verus! {

/// Why an operator could not be built.
#[derive(Debug, PartialEq, Eq, Structural)]
pub enum DatasetError {
    /// A batch size of zero was asked for.
    InvalidBatchSize,
}

/// `s` cut into consecutive pieces of `k` items, the last one possibly shorter.
pub open spec fn chunks<T>(s: Seq<T>, k: nat) -> Seq<Seq<T>>
    recommends
        k > 0,
{
    Seq::new(
        ((s.len() + k - 1) / k as int) as nat,
        |i: int| s.subrange(i * k, vstd::math::min(i * k + k, s.len() as int)),
    )
}

/// The batches of `k` items that a batcher emits over `s`: a final short
/// batch is kept, or left out when `drop_remainder` holds.
pub open spec fn batches_of<T>(s: Seq<T>, k: nat, drop_remainder: bool) -> Seq<Seq<T>>
    recommends
        k > 0,
{
    if drop_remainder {
        chunks(s.take(((s.len() / k) * k) as int), k)
    } else {
        chunks(s, k)
    }
}

/// One less than a positive divisor gives a zero quotient.
proof fn lemma_pred_div(k: int)
    requires
        k > 0,
    ensures
        (k - 1) / k == 0,
{
    assert((k - 1) / k == 0) by (nonlinear_arith)
        requires
            k > 0,
    ;
}

/// Appending a batch of at most `k` items to whole batches appends one chunk.
proof fn lemma_chunks_push<T>(s: Seq<T>, v: Seq<T>, k: nat)
    requires
        k > 0,
        s.len() % k == 0,
        1 <= v.len() <= k,
    ensures
        chunks(s + v, k) == chunks(s, k).push(v),
{
    let n = s.len() as int;
    let m = n / (k as int);
    let l = v.len() as int;
    let ki = k as int;
    assert(n == m * ki) by (nonlinear_arith)
        requires
            n % ki == 0,
            m == n / ki,
            ki > 0,
    ;
    assert((n + ki - 1) / ki == m) by (nonlinear_arith)
        requires
            n == m * ki,
            ki > 0,
            m >= 0,
    ;
    assert((n + l + ki - 1) / ki == m + 1) by (nonlinear_arith)
        requires
            n == m * ki,
            ki > 0,
            1 <= l <= ki,
            m >= 0,
    ;
    let a = chunks(s + v, k);
    let b = chunks(s, k).push(v);
    assert forall|i: int| 0 <= i < a.len() implies a[i] == b[i] by {
        if i < m {
            assert(i * ki + ki <= m * ki) by (nonlinear_arith)
                requires
                    i < m,
                    ki > 0,
            ;
            assert(0 <= i * ki) by (nonlinear_arith)
                requires
                    0 <= i,
                    ki > 0,
            ;
            assert(a[i] =~= b[i]);
        } else {
            assert(i == m);
            assert(a[i] =~= v);
        }
    }
    assert(a =~= b);
}

/// Whole batches followed by a short one: with `drop_remainder`, the short one
/// adds nothing.
proof fn lemma_drop_partial<T>(s: Seq<T>, v: Seq<T>, k: nat)
    requires
        k > 0,
        s.len() % k == 0,
        1 <= v.len() < k,
    ensures
        batches_of(s + v, k, true) == batches_of(s, k, true),
        (s + v).len() % k != 0,
{
    let n = s.len() as int;
    let m = n / (k as int);
    let ki = k as int;
    let l = v.len() as int;
    assert(n == m * ki) by (nonlinear_arith)
        requires
            n % ki == 0,
            m == n / ki,
            ki > 0,
    ;
    assert((n + l) / ki == m && (n + l) % ki == l) by (nonlinear_arith)
        requires
            n == m * ki,
            ki > 0,
            1 <= l < ki,
            m >= 0,
    ;
    assert((s + v).take(m * ki) =~= s);
    assert(s.take(m * ki) =~= s);
}

/// A whole batch appended to whole batches is kept with `drop_remainder`.
proof fn lemma_drop_whole<T>(s: Seq<T>, v: Seq<T>, k: nat)
    requires
        k > 0,
        s.len() % k == 0,
        v.len() == k,
    ensures
        batches_of(s + v, k, true) == batches_of(s, k, true).push(v),
{
    let n = s.len() as int;
    let m = n / (k as int);
    let ki = k as int;
    assert(n == m * ki) by (nonlinear_arith)
        requires
            n % ki == 0,
            m == n / ki,
            ki > 0,
    ;
    assert((n + ki) / ki == m + 1) by (nonlinear_arith)
        requires
            n == m * ki,
            ki > 0,
            m >= 0,
    ;
    assert((m + 1) * ki == n + ki) by (nonlinear_arith)
        requires
            n == m * ki,
    ;
    assert((s + v).take((m + 1) * ki) =~= s + v);
    assert(s.take(m * ki) =~= s);
    lemma_chunks_push(s, v, k);
}

/// How the count of batches still to come moves when `l` items are pulled.
proof fn lemma_batch_count_step(left0: int, l: int, k: int)
    requires
        k > 0,
        1 <= l <= k,
        l <= left0,
        l < k ==> left0 == l,
    ensures
        (left0 + k - 1) / k >= 1,
        (left0 - l + k - 1) / k == (left0 + k - 1) / k - 1,
        l == k ==> (left0 - l) / k == left0 / k - 1 && left0 / k >= 1,
        l < k ==> left0 / k == 0,
{
    if l == k {
        assert((left0 - k + k - 1) / k == (left0 + k - 1) / k - 1) by (nonlinear_arith)
            requires
                k > 0,
                left0 >= k,
        ;
        assert((left0 - k) / k == left0 / k - 1 && left0 / k >= 1) by (nonlinear_arith)
            requires
                k > 0,
                left0 >= k,
        ;
        assert((left0 + k - 1) / k >= 1) by (nonlinear_arith)
            requires
                k > 0,
                left0 >= k,
        ;
    } else {
        assert((left0 + k - 1) / k == 1) by (nonlinear_arith)
            requires
                k > 0,
                1 <= left0 < k,
        ;
        lemma_pred_div(k);
        assert(left0 / k == 0) by (nonlinear_arith)
            requires
                k > 0,
                0 <= left0 < k,
        ;
    }
}

/// Cutting `s` into chunks of `k` and joining them again gives back `s`.
pub(crate) proof fn lemma_chunks_flatten<T>(s: Seq<T>, k: nat)
    requires
        k > 0,
    ensures
        chunks(s, k).flatten() == s,
    decreases s.len(),
{
    let n = s.len() as int;
    let ki = k as int;
    if n == 0 {
        lemma_pred_div(ki);
        assert(chunks(s, k) =~= Seq::<Seq<T>>::empty());
        assert(s =~= Seq::<T>::empty());
    } else {
        let q = (n - 1) / ki;
        let c = q * ki;
        assert(0 <= c && c < n && n - c <= ki && c % ki == 0) by (nonlinear_arith)
            requires
                n >= 1,
                ki > 0,
                q == (n - 1) / ki,
                c == q * ki,
        ;
        let t = s.take(c);
        let v = s.skip(c);
        assert(s =~= t + v);
        lemma_chunks_push(t, v, k);
        lemma_chunks_flatten(t, k);
        chunks(t, k).lemma_flatten_push(v);
    }
}

/// Counts: over `n` items, a batcher emits `n / k` full batches of `k` items;
/// when `k` does not divide `n`, one more batch of `n % k` items follows,
/// unless `drop_remainder` holds.
pub proof fn lemma_batch_counts<T>(s: Seq<T>, k: nat, drop_remainder: bool)
    requires
        k > 0,
    ensures
        batches_of(s, k, drop_remainder).len() == s.len() / k + (if s.len() % k != 0
            && !drop_remainder {
            1int
        } else {
            0int
        }),
        forall|i: int|
            0 <= i < s.len() / k ==> (#[trigger] batches_of(s, k, drop_remainder)[i]).len() == k,
        s.len() % k != 0 && !drop_remainder ==> batches_of(s, k, drop_remainder)[(s.len()
            / k) as int].len() == s.len() % k,
{
    let n = s.len() as int;
    let ki = k as int;
    let m = n / ki;
    let r = n % ki;
    assert(n == m * ki + r && 0 <= r < ki && m >= 0) by (nonlinear_arith)
        requires
            ki > 0,
            n >= 0,
            m == n / ki,
            r == n % ki,
    ;
    assert((n + ki - 1) / ki == m + (if r != 0 {
        1int
    } else {
        0int
    })) by (nonlinear_arith)
        requires
            ki > 0,
            n == m * ki + r,
            0 <= r < ki,
            m >= 0,
    ;
    assert((m * ki + ki - 1) / ki == m && (m * ki) / ki == m) by (nonlinear_arith)
        requires
            ki > 0,
            m >= 0,
    ;
    let b = batches_of(s, k, drop_remainder);
    assert forall|i: int| 0 <= i < m implies (#[trigger] b[i]).len() == k by {
        assert(0 <= i * ki && i * ki + ki <= m * ki) by (nonlinear_arith)
            requires
                0 <= i < m,
                ki > 0,
        ;
    }
    if drop_remainder {
        let t = s.take(m * ki);
        assert(t.len() == m * ki);
    }
}

/// Order: joined together, the batches are the upstream items in the order
/// they came, up to the dropped remainder.
pub proof fn lemma_batch_order<T>(s: Seq<T>, k: nat, drop_remainder: bool)
    requires
        k > 0,
    ensures
        batches_of(s, k, drop_remainder).flatten() == if drop_remainder {
            s.take(((s.len() / k) * k) as int)
        } else {
            s
        },
{
    let n = s.len() as int;
    let ki = k as int;
    assert(0 <= (n / ki) * ki <= n) by (nonlinear_arith)
        requires
            ki > 0,
            n >= 0,
    ;
    if drop_remainder {
        lemma_chunks_flatten(s.take(((s.len() / k) * k) as int), k);
    } else {
        lemma_chunks_flatten(s, k);
    }
}

/// Groups the items of its upstream into batches of `batch_size` items.
pub struct Batch<D: Dataset> {
    pub(crate) upstream: D,
    pub(crate) batch_size: usize,
    pub(crate) drop_remainder: bool,
    /// How many items the upstream had handed out before this batcher took it.
    pub(crate) base: Ghost<nat>,
    /// Every batch emitted so far.
    pub(crate) out: Ghost<Seq<Vec<D::Item>>>,
}

impl<D: Dataset> Batch<D> {
    /// The upstream producer.
    pub open(crate) spec fn source(&self) -> D {
        self.upstream
    }

    /// How many items the upstream had handed out before this batcher took it.
    pub open(crate) spec fn base(&self) -> nat {
        self.base@
    }

    /// The items this batcher has pulled from its upstream.
    pub open(crate) spec fn pulled(&self) -> Seq<D::Item> {
        self.upstream.produced().skip(self.base@ as int)
    }

    /// The batches emitted so far, as sequences.
    pub open(crate) spec fn batches(&self) -> Seq<Seq<D::Item>> {
        self.out@.map_values(|v: Vec<D::Item>| v@)
    }

    /// The number of items per batch.
    pub open(crate) spec fn size(&self) -> nat {
        self.batch_size as nat
    }

    /// Whether a final short batch is left out.
    pub open(crate) spec fn drops_remainder(&self) -> bool {
        self.drop_remainder
    }

    /// A batcher over `upstream`; fails, before pulling anything, when
    /// `batch_size` is zero.
    pub fn new(upstream: D, batch_size: usize, drop_remainder: bool) -> (r: Result<
        Self,
        DatasetError,
    >)
        requires
            upstream.wf(),
        ensures
            batch_size == 0 <==> r is Err,
            r matches Err(e) ==> e == DatasetError::InvalidBatchSize,
            r matches Ok(b) ==> {
                &&& b.wf()
                &&& b.source() == upstream
                &&& b.base() == upstream.produced().len()
                &&& b.size() == batch_size
                &&& b.drops_remainder() == drop_remainder
                &&& b.produced() == Seq::<Vec<D::Item>>::empty()
            },
    {
        if batch_size == 0 {
            return Err(DatasetError::InvalidBatchSize);
        }
        let ghost base = upstream.produced().len();
        let b = Batch {
            upstream,
            batch_size,
            drop_remainder,
            base: Ghost(base),
            out: Ghost(Seq::empty()),
        };
        proof {
            let ki = batch_size as int;
            lemma_pred_div(ki);
            assert(0int / ki == 0 && (0int + ki - 1) / ki == 0) by (nonlinear_arith)
                requires
                    ki > 0,
            ;
            assert(b.pulled() =~= Seq::<D::Item>::empty());
            assert(b.pulled().take(0) =~= b.pulled());
            assert(chunks(b.pulled(), b.size()) =~= Seq::<Seq<D::Item>>::empty());
            assert(b.pulled().take(0) =~= Seq::<D::Item>::empty());
            assert(b.batches() =~= batches_of(b.pulled(), b.size(), drop_remainder));
        }
        Ok(b)
    }
}

impl<D: Dataset> Dataset for Batch<D> {
    type Item = Vec<D::Item>;

    open(crate) spec fn produced(&self) -> Seq<Vec<D::Item>> {
        self.out@
    }

    open(crate) spec fn left(&self) -> nat {
        let k = self.batch_size as nat;
        if self.drop_remainder {
            self.upstream.left() / k
        } else {
            ((self.upstream.left() + k - 1) as nat) / k
        }
    }

    open(crate) spec fn continued_by(&self, later: Self) -> bool {
        &&& self.base@ == later.base@
        &&& self.batch_size == later.batch_size
        &&& self.drop_remainder == later.drop_remainder
        &&& self.upstream.continued_by(later.upstream)
    }

    proof fn lemma_continued_refl(a: Self) {
        D::lemma_continued_refl(a.upstream);
    }

    proof fn lemma_continued_trans(a: Self, b: Self, c: Self) {
        D::lemma_continued_trans(a.upstream, b.upstream, c.upstream);
    }

    open(crate) spec fn wf(&self) -> bool {
        &&& self.upstream.wf()
        &&& self.batch_size > 0
        &&& self.base@ <= self.upstream.produced().len()
        &&& self.pulled().len() % self.size() != 0 ==> self.upstream.left() == 0
        &&& self.batches() == batches_of(self.pulled(), self.size(), self.drop_remainder)
    }

    fn next(&mut self) -> (r: Option<Vec<D::Item>>)
        ensures
            final(self).size() == old(self).size(),
            final(self).drops_remainder() == old(self).drops_remainder(),
            final(self).base() == old(self).base(),
            final(self).pulled().len() == old(self).pulled().len() + if old(self).source().left()
                < old(self).size() {
                old(self).source().left()
            } else {
                old(self).size()
            },
            final(self).pulled().take(old(self).pulled().len() as int) == old(self).pulled(),
            final(self).source().left() == old(self).source().left() - (final(self).pulled().len()
                - old(self).pulled().len()),
            r is None ==> final(self).source().left() == 0,
            r matches Some(v) ==> {
                &&& v@ == final(self).pulled().skip(old(self).pulled().len() as int)
                &&& 1 <= v@.len() <= old(self).size()
                &&& v@.len() < old(self).size() ==> !old(self).drops_remainder()
                    && final(self).source().left() == 0
            },
    {
        let ghost p0 = self.pulled();
        let ghost b0 = self.batches();
        let ghost s0 = *self;
        let ghost u0 = self.upstream;
        proof {
            D::lemma_continued_refl(u0);
        }
        let ghost left0 = self.upstream.left();
        proof {
            let ki = self.batch_size as int;
            lemma_pred_div(ki);
            assert(left0 > 0 ==> p0.len() % self.size() == 0);
        }
        let first = self.upstream.next();
        let x = match first {
            None => {
                proof {
                    assert(self.pulled() =~= p0);
                    assert(self.pulled().take(p0.len() as int) =~= p0);
                }
                return None;
            },
            Some(x) => x,
        };
        assert(left0 > 0);
        let mut v: Vec<D::Item> = Vec::new();
        v.push(x);
        let mut exhausted = false;
        while !exhausted && v.len() < self.batch_size
            invariant
                self.upstream.wf(),
                self.batch_size == s0.batch_size,
                self.drop_remainder == s0.drop_remainder,
                self.base == s0.base,
                self.out == s0.out,
                self.batch_size > 0,
                self.base@ <= self.upstream.produced().len(),
                1 <= v@.len() <= self.batch_size,
                self.pulled() == p0 + v@,
                self.upstream.left() + v@.len() == left0,
                exhausted ==> self.upstream.left() == 0,
                u0.continued_by(self.upstream),
            decreases self.batch_size - v@.len(), if exhausted { 0int } else { 1int },
        {
            let ghost pb = self.pulled();
            let ghost ub = self.upstream;
            match self.upstream.next() {
                Some(y) => {
                    v.push(y);
                    proof {
                        assert(self.pulled() =~= pb.push(y));
                    }
                },
                None => {
                    proof {
                        assert(self.pulled() =~= pb);
                    }
                    exhausted = true;
                },
            }
            proof {
                D::lemma_continued_trans(u0, ub, self.upstream);
            }
        }
        let ghost k = self.batch_size as nat;
        proof {
            assert(p0.len() % k == 0);
            assert(self.pulled().len() == p0.len() + v@.len());
            assert(self.pulled().take(p0.len() as int) =~= p0);
            assert(self.pulled().skip(p0.len() as int) =~= v@);
            lemma_batch_count_step(left0 as int, v@.len() as int, k as int);
            let n0 = p0.len() as int;
            let ki = k as int;
            if v@.len() == k {
                assert((n0 + ki) % ki == 0) by (nonlinear_arith)
                    requires
                        n0 % ki == 0,
                        ki > 0,
                        n0 >= 0,
                ;
            }
        }
        if v.len() < self.batch_size && self.drop_remainder {
            proof {
                lemma_drop_partial(p0, v@, k);
            }
            None
        } else {
            proof {
                lemma_chunks_push(p0, v@, k);
                if self.drop_remainder {
                    lemma_drop_whole(p0, v@, k);
                }
                let o0 = self.out@;
                self.out@ = self.out@.push(v);
                assert(self.batches() =~= b0.push(v@)) by {
                    assert(forall|i: int| 0 <= i < o0.len() ==> self.out@[i] == o0[i]);
                }
            }
            Some(v)
        }
    }
}

} // verus!
