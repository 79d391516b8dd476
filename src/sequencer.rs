//! The reorder buffer: entries arrive keyed by sequence number in any order
//! and leave strictly in order, one stride apart.
//!
//! An entry is `Some(item)` for a completed item, or `None` for a sequence
//! number whose item failed: a `None` entry closes its gap without emitting
//! anything, so a failed item never stalls the ones after it.
use vstd::prelude::*;

verus! {

/// Why an entry was refused.
#[derive(Clone, Copy, Debug, PartialEq, Eq, Structural)]
pub enum SequenceError {
    /// Its sequence number is below the next one expected: it was already
    /// released or skipped.
    Stale,
    /// Its sequence number is not a whole number of strides past the next
    /// one expected: it would never be released.
    OffStride,
    /// An entry with the same sequence number is already waiting.
    Duplicate,
}

/// The `i`-th sequence number from `next` on, `step` apart.
pub open spec fn grid(next: int, step: int, i: int) -> int {
    next + i * step
}

/// The sequence numbers `next`, `next + step`, ... below `d` steps.
pub open spec fn grid_keys(next: int, step: int, d: nat) -> Set<int> {
    Set::new(|k: int| exists|i: int| 0 <= i < d && k == #[trigger] grid(next, step, i))
}

/// Exactly the first `d` grid points from `next` on are present in `q`.
pub open spec fn chain<T>(q: Map<int, Option<T>>, next: int, step: int, d: nat) -> bool {
    &&& forall|i: int| 0 <= i < d ==> q.contains_key(#[trigger] grid(next, step, i))
    &&& !q.contains_key(grid(next, step, d as int))
}

/// How many consecutive grid points from `next` on `q` holds.
pub open spec fn chain_len<T>(q: Map<int, Option<T>>, next: int, step: int) -> nat {
    choose|d: nat| chain(q, next, step, d)
}

/// The entries of `q` at the first `d` grid points from `next` on.
pub open spec fn chain_values<T>(q: Map<int, Option<T>>, next: int, step: int, d: nat) -> Seq<
    Option<T>,
> {
    Seq::new(d, |i: int| q[grid(next, step, i)])
}

/// The items of `s`, in order, leaving out each `None`.
pub open spec fn somes<T>(s: Seq<Option<T>>) -> Seq<T>
    decreases s.len(),
{
    if s.len() == 0 {
        Seq::empty()
    } else {
        let rest = somes(s.drop_last());
        match s.last() {
            Some(t) => rest.push(t),
            None => rest,
        }
    }
}

/// `key` is a whole number of strides at or past `next`.
pub open spec fn on_stride(next: int, step: int, key: int) -> bool {
    key >= next && (key - next) % step == 0
}

/// Whether an entry keyed `key` is taken when `next` is expected and `p`
/// is waiting.
pub open spec fn accepts<T>(p: Map<int, Option<T>>, next: int, step: int, key: int) -> bool {
    on_stride(next, step, key) && !p.contains_key(key)
}

/// Why the reorder buffer refuses an entry keyed `key`, if it does.
pub open spec fn refusal<T>(p: Map<int, Option<T>>, next: int, step: int, key: int) -> Option<
    SequenceError,
> {
    if key < next {
        Some(SequenceError::Stale)
    } else if !on_stride(next, step, key) {
        Some(SequenceError::OffStride)
    } else if p.contains_key(key) {
        Some(SequenceError::Duplicate)
    } else {
        None
    }
}

/// What offering entry `e` under `key` does: the items released in order,
/// the entries left waiting, and the next sequence number expected. A
/// refused entry changes nothing.
pub open spec fn after_push<T>(
    p: Map<int, Option<T>>,
    next: int,
    step: int,
    key: int,
    e: Option<T>,
) -> (Seq<T>, Map<int, Option<T>>, int) {
    if accepts(p, next, step, key) {
        let q = p.insert(key, e);
        let d = chain_len(q, next, step);
        (
            somes(chain_values(q, next, step, d)),
            q.remove_keys(grid_keys(next, step, d)),
            grid(next, step, d as int),
        )
    } else {
        (Seq::empty(), p, next)
    }
}

/// Offering each of `entries` in turn: everything released, in order, then
/// the entries left waiting and the next sequence number expected.
pub open spec fn push_all<T>(
    p: Map<int, Option<T>>,
    next: int,
    step: int,
    entries: Seq<(int, Option<T>)>,
) -> (Seq<T>, Map<int, Option<T>>, int)
    decreases entries.len(),
{
    if entries.len() == 0 {
        (Seq::empty(), p, next)
    } else {
        let (out, p1, n1) = push_all(p, next, step, entries.drop_last());
        let (o2, p2, n2) = after_push(p1, n1, step, entries.last().0, entries.last().1);
        (out + o2, p2, n2)
    }
}

/// Keys strictly increasing along `v`.
pub open spec fn sorted_keys<T>(v: Seq<(i64, Option<T>)>) -> bool {
    forall|i: int, j: int| 0 <= i < j < v.len() ==> #[trigger] v[i].0 < #[trigger] v[j].0
}

/// The entries of `v` as a map from key to entry.
pub open spec fn map_of<T>(v: Seq<(i64, Option<T>)>) -> Map<int, Option<T>> {
    Map::new(
        |k: int| exists|i: int| 0 <= i < v.len() && #[trigger] v[i].0 as int == k,
        |k: int| v[choose|i: int| 0 <= i < v.len() && #[trigger] v[i].0 as int == k].1,
    )
}

/// A reorder buffer. Entries wait, sorted by sequence number, until every
/// number before them has arrived; `next_expected` then moves on by `step`
/// for each one released.
pub struct Sequencer<T> {
    pending: Vec<(i64, Option<T>)>,
    next_expected: i128,
    step: i64,
    high_water: usize,
}

impl<T> Sequencer<T> {
    #[verifier::type_invariant]
    spec fn inv(&self) -> bool {
        &&& self.step > 0
        &&& sorted_keys(self.pending@)
        &&& forall|i: int|
            0 <= i < self.pending@.len() ==> #[trigger] self.pending@[i].0 > self.next_expected
                && on_stride(self.next_expected as int, self.step as int, self.pending@[i].0 as int)
        &&& i64::MIN <= self.next_expected <= 2 * (i64::MAX as int)
        &&& self.high_water >= self.pending@.len()
    }

    /// The entries waiting, by sequence number.
    pub closed spec fn pending(&self) -> Map<int, Option<T>> {
        map_of(self.pending@)
    }

    /// The number of entries waiting.
    pub closed spec fn pending_count(&self) -> nat {
        self.pending@.len()
    }

    /// The next sequence number to be released.
    pub closed spec fn next(&self) -> int {
        self.next_expected as int
    }

    /// The distance between consecutive sequence numbers.
    pub closed spec fn stride(&self) -> int {
        self.step as int
    }

    /// The largest number of entries that ever waited at once.
    pub closed spec fn high_water(&self) -> nat {
        self.high_water as nat
    }

    /// An empty buffer that expects `first`, then every `step`-th number.
    pub fn new(first: i64, step: i64) -> (r: Sequencer<T>)
        requires
            step > 0,
        ensures
            r.pending() == Map::<int, Option<T>>::empty(),
            r.pending_count() == 0,
            r.next() == first,
            r.stride() == step,
            r.high_water() == 0,
    {
        let r = Sequencer { pending: Vec::new(), next_expected: first as i128, step, high_water: 0 };
        proof {
            assert(r.pending() =~= Map::<int, Option<T>>::empty());
        }
        r
    }

    /// The next sequence number to be released.
    pub fn next_expected(&self) -> (r: i128)
        ensures
            r == self.next(),
    {
        self.next_expected
    }

    /// The distance between consecutive sequence numbers.
    pub fn step(&self) -> (r: i64)
        ensures
            r == self.stride(),
    {
        self.step
    }

    /// The number of entries waiting.
    pub fn pending_len(&self) -> (r: usize)
        ensures
            r == self.pending_count(),
    {
        self.pending.len()
    }

    /// The largest number of entries that ever waited at once: a gap that
    /// never closes shows as a mark that keeps rising.
    pub fn high_water_mark(&self) -> (r: usize)
        ensures
            r == self.high_water(),
    {
        self.high_water
    }

    /// Takes `item` under sequence number `key`, then releases, in order,
    /// every item whose predecessors have all arrived.
    pub fn push_and_drain(&mut self, key: i64, item: T) -> (r: Result<Vec<T>, SequenceError>)
        ensures
            final(self).stride() == old(self).stride(),
            (key < old(self).next()) <==> r == Err::<Vec<T>, SequenceError>(SequenceError::Stale),
            (key >= old(self).next() && !on_stride(old(self).next(), old(self).stride(), key as int))
                <==> r == Err::<Vec<T>, SequenceError>(SequenceError::OffStride),
            (on_stride(old(self).next(), old(self).stride(), key as int) && old(
                self,
            ).pending().contains_key(key as int)) <==> r == Err::<Vec<T>, SequenceError>(
                SequenceError::Duplicate,
            ),
            r.is_ok() <==> accepts(old(self).pending(), old(self).next(), old(self).stride(), key as int),
            r.is_err() ==> *final(self) == *old(self),
            r matches Ok(out) ==> {
                &&& accepts(old(self).pending(), old(self).next(), old(self).stride(), key as int)
                &&& (out@, final(self).pending(), final(self).next()) == after_push(
                    old(self).pending(),
                    old(self).next(),
                    old(self).stride(),
                    key as int,
                    Some(item),
                )
                &&& final(self).pending_count() + chain_len(
                    old(self).pending().insert(key as int, Some(item)),
                    old(self).next(),
                    old(self).stride(),
                ) == old(self).pending_count() + 1
                &&& final(self).high_water() == if old(self).high_water() > old(
                    self,
                ).pending_count() { old(self).high_water() } else { old(self).pending_count() + 1 }
            },
    {
        self.offer(key, Some(item))
    }

    /// Records that the item of sequence number `key` will never come (it
    /// failed), then releases, in order, every item whose predecessors have
    /// all arrived or been skipped.
    pub fn skip_and_drain(&mut self, key: i64) -> (r: Result<Vec<T>, SequenceError>)
        ensures
            final(self).stride() == old(self).stride(),
            (key < old(self).next()) <==> r == Err::<Vec<T>, SequenceError>(SequenceError::Stale),
            (key >= old(self).next() && !on_stride(old(self).next(), old(self).stride(), key as int))
                <==> r == Err::<Vec<T>, SequenceError>(SequenceError::OffStride),
            (on_stride(old(self).next(), old(self).stride(), key as int) && old(
                self,
            ).pending().contains_key(key as int)) <==> r == Err::<Vec<T>, SequenceError>(
                SequenceError::Duplicate,
            ),
            r.is_ok() <==> accepts(old(self).pending(), old(self).next(), old(self).stride(), key as int),
            r.is_err() ==> *final(self) == *old(self),
            r matches Ok(out) ==> {
                &&& accepts(old(self).pending(), old(self).next(), old(self).stride(), key as int)
                &&& (out@, final(self).pending(), final(self).next()) == after_push(
                    old(self).pending(),
                    old(self).next(),
                    old(self).stride(),
                    key as int,
                    None,
                )
                &&& final(self).pending_count() + chain_len(
                    old(self).pending().insert(key as int, None),
                    old(self).next(),
                    old(self).stride(),
                ) == old(self).pending_count() + 1
                &&& final(self).high_water() == if old(self).high_water() > old(
                    self,
                ).pending_count() { old(self).high_water() } else { old(self).pending_count() + 1 }
            },
    {
        self.offer(key, None)
    }

    fn offer(&mut self, key: i64, entry: Option<T>) -> (r: Result<Vec<T>, SequenceError>)
        ensures
            final(self).stride() == old(self).stride(),
            (key < old(self).next()) <==> r == Err::<Vec<T>, SequenceError>(SequenceError::Stale),
            (key >= old(self).next() && !on_stride(old(self).next(), old(self).stride(), key as int))
                <==> r == Err::<Vec<T>, SequenceError>(SequenceError::OffStride),
            (on_stride(old(self).next(), old(self).stride(), key as int) && old(
                self,
            ).pending().contains_key(key as int)) <==> r == Err::<Vec<T>, SequenceError>(
                SequenceError::Duplicate,
            ),
            r.is_ok() <==> accepts(old(self).pending(), old(self).next(), old(self).stride(), key as int),
            r.is_err() ==> *final(self) == *old(self),
            r matches Ok(out) ==> {
                &&& accepts(old(self).pending(), old(self).next(), old(self).stride(), key as int)
                &&& (out@, final(self).pending(), final(self).next()) == after_push(
                    old(self).pending(),
                    old(self).next(),
                    old(self).stride(),
                    key as int,
                    entry,
                )
                &&& final(self).pending_count() + chain_len(
                    old(self).pending().insert(key as int, entry),
                    old(self).next(),
                    old(self).stride(),
                ) == old(self).pending_count() + 1
                &&& final(self).high_water() == if old(self).high_water() > old(
                    self,
                ).pending_count() { old(self).high_water() } else { old(self).pending_count() + 1 }
            },
    {
        proof {
            use_type_invariant(&*self);
        }
        if (key as i128) < self.next_expected {
            return Err(SequenceError::Stale);
        }
        if (key as i128 - self.next_expected) % (self.step as i128) != 0 {
            return Err(SequenceError::OffStride);
        }
        let mut idx: usize = 0;
        while idx < self.pending.len() && self.pending[idx].0 < key
            invariant
                idx <= self.pending@.len(),
                forall|j: int| 0 <= j < idx ==> #[trigger] self.pending@[j].0 < key,
            decreases self.pending@.len() - idx,
        {
            idx += 1;
        }
        if idx < self.pending.len() && self.pending[idx].0 == key {
            proof {
                assert(self.pending().contains_key(key as int)) by {
                    assert(self.pending@[idx as int].0 as int == key as int);
                }
            }
            return Err(SequenceError::Duplicate);
        }
        proof {
            assert(!self.pending().contains_key(key as int)) by {
                if self.pending().contains_key(key as int) {
                    let j = choose|j: int|
                        0 <= j < self.pending@.len() && #[trigger] self.pending@[j].0 as int
                            == key as int;
                    if j < idx {
                    } else if j > idx {
                        assert(self.pending@[idx as int].0 < self.pending@[j].0);
                    }
                }
            }
        }
        let ghost p = self.pending();
        let ghost n0 = self.next();
        let ghost old_count = self.pending@.len();
        let ghost old_hw = self.high_water;
        let mut taken = Sequencer {
            pending: Vec::new(),
            next_expected: self.next_expected,
            step: self.step,
            high_water: self.high_water,
        };
        core::mem::swap(self, &mut taken);
        let Sequencer { pending: mut v, next_expected: mut next, step, high_water: mut hw } = taken;
        let ghost v0 = v@;
        v.insert(idx, (key, entry));
        proof {
            lemma_insert_sorted(v0, idx as int, key, entry);
        }
        if v.len() > hw {
            hw = v.len();
        }
        let ghost q = map_of(v@);
        let ghost len_q = v@.len();
        let mut out: Vec<T> = Vec::new();
        let ghost mut d: nat = 0;
        proof {
            assert(out@ =~= somes(chain_values(q, n0, step as int, 0)));
            assert(q.remove_keys(grid_keys(n0, step as int, 0)) =~= q);
        }
        while v.len() > 0 && v[0].0 as i128 == next
            invariant
                step > 0,
                sorted_keys(v@),
                forall|i: int|
                    0 <= i < v@.len() ==> on_stride(next as int, step as int, #[trigger] v@[i].0 as int),
                i64::MIN <= n0 <= 2 * (i64::MAX as int),
                next as int == grid(n0, step as int, d as int),
                next == n0 || next <= 2 * (i64::MAX as int),
                i64::MIN <= next,
                v@.len() + d == len_q,
                map_of(v@) == q.remove_keys(grid_keys(n0, step as int, d)),
                forall|i: int| 0 <= i < d ==> q.contains_key(#[trigger] grid(n0, step as int, i)),
                out@ == somes(chain_values(q, n0, step as int, d)),
            decreases v@.len(),
        {
            let ghost vb = v@;
            let (k, e) = v.remove(0);
            proof {
                lemma_remove_first(vb);
                lemma_map_at(vb, 0);
                lemma_grid_keys_step(q, n0, step as int, d);
                let cv = chain_values(q, n0, step as int, d + 1);
                assert(cv.drop_last() =~= chain_values(q, n0, step as int, d));
                assert(cv.last() == e);
            }
            match e {
                Some(t) => {
                    out.push(t);
                },
                None => {},
            }
            proof {
                assert forall|i: int| 0 <= i < v@.len() implies on_stride(
                    next + step,
                    step as int,
                    #[trigger] v@[i].0 as int,
                ) by {
                    assert(vb[0].0 < vb[i + 1].0);
                    lemma_stride_next(v@[i].0 - next, step as int);
                }
            }
            next = next + step as i128;
            proof {
                d = d + 1;
                assert(grid(n0, step as int, d as int) == grid(n0, step as int, (d - 1) as int)
                    + step) by (nonlinear_arith);
            }
        }
        proof {
            lemma_grid_injective(n0, step as int);
            assert(!q.contains_key(grid(n0, step as int, d as int))) by {
                let g = grid(n0, step as int, d as int);
                if q.contains_key(g) {
                    assert(!grid_keys(n0, step as int, d).contains(g));
                    assert(map_of(v@).contains_key(g));
                    let j = choose|j: int| 0 <= j < v@.len() && #[trigger] v@[j].0 as int == g;
                    if j > 0 {
                        assert(v@[0].0 < v@[j].0);
                    }
                }
            }
            assert(chain(q, n0, step as int, d));
            lemma_chain_unique(q, n0, step as int, d, chain_len(q, n0, step as int));
            assert(q == p.insert(key as int, entry));
            assert forall|i: int| 0 <= i < v@.len() implies #[trigger] v@[i].0 > next
                && on_stride(next as int, step as int, v@[i].0 as int) by {
                if v@[i].0 == next {
                    if i > 0 {
                        assert(v@[0].0 < v@[i].0);
                    }
                }
            }
        }
        *self = Sequencer { pending: v, next_expected: next, step, high_water: hw };
        Ok(out)
    }
}

proof fn lemma_grid_injective(next: int, step: int)
    requires
        step > 0,
    ensures
        forall|i: int, j: int| #[trigger] grid(next, step, i) == #[trigger] grid(next, step, j) ==> i
            == j,
        forall|i: int, j: int| i < j ==> #[trigger] grid(next, step, i) < #[trigger] grid(next, step, j),
{
    assert forall|i: int, j: int| i < j implies #[trigger] grid(next, step, i) < #[trigger] grid(
        next,
        step,
        j,
    ) by {
        assert(i * step < j * step) by (nonlinear_arith)
            requires
                i < j,
                step > 0,
        ;
    }
    assert forall|i: int, j: int| #[trigger] grid(next, step, i) == #[trigger] grid(
        next,
        step,
        j,
    ) implies i == j by {
        if i < j {
            assert(i * step < j * step) by (nonlinear_arith)
                requires
                    i < j,
                    step > 0,
            ;
        } else if j < i {
            assert(j * step < i * step) by (nonlinear_arith)
                requires
                    j < i,
                    step > 0,
            ;
        }
    }
}

proof fn lemma_stride_next(a: int, s: int)
    requires
        s > 0,
        a > 0,
        a % s == 0,
    ensures
        a >= s,
        (a - s) % s == 0,
{
    vstd::arithmetic::div_mod::lemma_mod_sub_multiples_vanish(a, s);
    vstd::arithmetic::div_mod::lemma_fundamental_div_mod(a, s);
    let q = a / s;
    assert(a == s * q);
    assert(a >= s) by (nonlinear_arith)
        requires
            a == s * q,
            a > 0,
            s > 0,
    ;
}

proof fn lemma_chain_unique<T>(q: Map<int, Option<T>>, next: int, step: int, d1: nat, d2: nat)
    requires
        step > 0,
        chain(q, next, step, d1),
        chain(q, next, step, d2),
    ensures
        d1 == d2,
{
    if d1 < d2 {
        assert(q.contains_key(grid(next, step, d1 as int)));
    } else if d2 < d1 {
        assert(q.contains_key(grid(next, step, d2 as int)));
    }
}

proof fn lemma_grid_keys_step<T>(q: Map<int, Option<T>>, next: int, step: int, d: nat)
    requires
        step > 0,
    ensures
        q.remove_keys(grid_keys(next, step, d)).remove(grid(next, step, d as int)) =~= q.remove_keys(
            grid_keys(next, step, d + 1),
        ),
{
    lemma_grid_injective(next, step);
    assert forall|k: int| grid_keys(next, step, d + 1).contains(k) == (grid_keys(
        next,
        step,
        d,
    ).contains(k) || k == grid(next, step, d as int)) by {
        if grid_keys(next, step, d + 1).contains(k) {
            let i = choose|i: int| 0 <= i < d + 1 && k == #[trigger] grid(next, step, i);
            if i < d {
                assert(grid_keys(next, step, d).contains(k));
            }
        }
        if grid_keys(next, step, d).contains(k) {
            let i = choose|i: int| 0 <= i < d && k == #[trigger] grid(next, step, i);
            assert(0 <= i < d + 1 && k == grid(next, step, i));
        }
        if k == grid(next, step, d as int) {
            assert(0 <= d < d + 1 && k == grid(next, step, d as int));
        }
    }
}

proof fn lemma_map_at<T>(v: Seq<(i64, Option<T>)>, i: int)
    requires
        sorted_keys(v),
        0 <= i < v.len(),
    ensures
        map_of(v).contains_key(v[i].0 as int),
        map_of(v)[v[i].0 as int] == v[i].1,
{
    let k = v[i].0 as int;
    assert(0 <= i < v.len() && v[i].0 as int == k);
    let j = choose|j: int| 0 <= j < v.len() && #[trigger] v[j].0 as int == k;
    if j < i {
        assert(v[j].0 < v[i].0);
    } else if i < j {
        assert(v[i].0 < v[j].0);
    }
}

proof fn lemma_remove_first<T>(v: Seq<(i64, Option<T>)>)
    requires
        sorted_keys(v),
        v.len() > 0,
    ensures
        sorted_keys(v.drop_first()),
        map_of(v.drop_first()) =~= map_of(v).remove(v[0].0 as int),
{
    let w = v.drop_first();
    assert(sorted_keys(w)) by {
        assert forall|i: int, j: int| 0 <= i < j < w.len() implies #[trigger] w[i].0
            < #[trigger] w[j].0 by {
            assert(v[i + 1].0 < v[j + 1].0);
        }
    }
    assert forall|k: int| #[trigger] map_of(w).contains_key(k) == map_of(v).remove(
        v[0].0 as int,
    ).contains_key(k) by {
        if map_of(w).contains_key(k) {
            let j = choose|j: int| 0 <= j < w.len() && #[trigger] w[j].0 as int == k;
            assert(v[j + 1].0 as int == k);
            assert(v[0].0 < v[j + 1].0);
        }
        if map_of(v).remove(v[0].0 as int).contains_key(k) {
            let j = choose|j: int| 0 <= j < v.len() && #[trigger] v[j].0 as int == k;
            assert(j != 0);
            assert(w[j - 1].0 as int == k);
        }
    }
    assert forall|k: int| #[trigger] map_of(w).contains_key(k) implies map_of(w)[k] == map_of(
        v,
    )[k] by {
        let j = choose|j: int| 0 <= j < w.len() && #[trigger] w[j].0 as int == k;
        lemma_map_at(w, j);
        lemma_map_at(v, j + 1);
    }
}

proof fn lemma_insert_sorted<T>(v: Seq<(i64, Option<T>)>, idx: int, key: i64, e: Option<T>)
    requires
        sorted_keys(v),
        0 <= idx <= v.len(),
        forall|j: int| 0 <= j < idx ==> #[trigger] v[j].0 < key,
        idx < v.len() ==> v[idx].0 > key,
    ensures
        sorted_keys(v.insert(idx, (key, e))),
        map_of(v.insert(idx, (key, e))) =~= map_of(v).insert(key as int, e),
{
    let w = v.insert(idx, (key, e));
    assert forall|j: int| idx <= j < v.len() implies #[trigger] v[j].0 > key by {
        if j > idx {
            assert(v[idx].0 < v[j].0);
        }
    }
    assert(sorted_keys(w)) by {
        assert forall|i: int, j: int| 0 <= i < j < w.len() implies #[trigger] w[i].0
            < #[trigger] w[j].0 by {
            if j < idx {
                assert(v[i].0 < v[j].0);
            } else if j == idx {
            } else if i < idx {
                assert(v[i].0 < key);
                assert(key < v[j - 1].0);
            } else if i == idx {
                assert(v[j - 1].0 > key);
            } else {
                assert(v[i - 1].0 < v[j - 1].0);
            }
        }
    }
    assert forall|k: int| #[trigger] map_of(w).contains_key(k) == map_of(v).insert(
        key as int,
        e,
    ).contains_key(k) by {
        if map_of(w).contains_key(k) {
            let j = choose|j: int| 0 <= j < w.len() && #[trigger] w[j].0 as int == k;
            if j < idx {
                assert(v[j].0 as int == k);
            } else if j > idx {
                assert(v[j - 1].0 as int == k);
            }
        }
        if map_of(v).contains_key(k) {
            let j = choose|j: int| 0 <= j < v.len() && #[trigger] v[j].0 as int == k;
            if j < idx {
                assert(w[j].0 as int == k);
            } else {
                assert(w[j + 1].0 as int == k);
            }
        }
        if k == key as int {
            assert(w[idx].0 as int == k);
        }
    }
    assert forall|k: int| #[trigger] map_of(w).contains_key(k) implies map_of(w)[k] == map_of(
        v,
    ).insert(key as int, e)[k] by {
        let j = choose|j: int| 0 <= j < w.len() && #[trigger] w[j].0 as int == k;
        lemma_map_at(w, j);
        if j < idx {
            lemma_map_at(v, j);
        } else if j > idx {
            lemma_map_at(v, j - 1);
        }
    }
}

/// Every key of `entries` is distinct, and the keys are exactly the first
/// `entries.len()` grid points from `first` on: the entries are the grid,
/// in any order.
pub open spec fn is_grid_permutation<T>(entries: Seq<(int, Option<T>)>, first: int, step: int) -> bool {
    &&& forall|j: int, l: int|
        0 <= j < entries.len() && 0 <= l < entries.len() && j != l ==> #[trigger] entries[j].0
            != #[trigger] entries[l].0
    &&& forall|j: int|
        0 <= j < entries.len() ==> exists|i: int|
            0 <= i < entries.len() && #[trigger] entries[j].0 == grid(first, step, i)
    &&& forall|i: int| #![trigger grid(first, step, i)]
        0 <= i < entries.len() ==> exists|j: int|
            0 <= j < entries.len() && #[trigger] entries[j].0 == grid(first, step, i)
}

/// The entry of `entries` keyed `key`.
pub open spec fn entry_at<T>(entries: Seq<(int, Option<T>)>, key: int) -> Option<T> {
    entries[choose|j: int| 0 <= j < entries.len() && #[trigger] entries[j].0 == key].1
}

/// The entries for the first `c` grid points from `first` on, in key order.
pub open spec fn in_key_order<T>(entries: Seq<(int, Option<T>)>, first: int, step: int, c: nat) -> Seq<
    Option<T>,
> {
    Seq::new(c, |i: int| entry_at(entries, grid(first, step, i)))
}

/// Dropping the `None`s of two sequences one after the other.
pub proof fn lemma_somes_concat<T>(a: Seq<Option<T>>, b: Seq<Option<T>>)
    ensures
        somes(a + b) == somes(a) + somes(b),
    decreases b.len(),
{
    if b.len() == 0 {
        assert(a + b =~= a);
        assert(somes(a) + somes(b) =~= somes(a));
    } else {
        lemma_somes_concat(a, b.drop_last());
        assert((a + b).drop_last() =~= a + b.drop_last());
        assert((a + b).last() == b.last());
        match b.last() {
            Some(t) => {
                assert(somes(a) + somes(b.drop_last()).push(t) =~= (somes(a) + somes(
                    b.drop_last(),
                )).push(t));
            },
            None => {},
        }
    }
}

/// A sequence with no `None` keeps every item.
pub proof fn lemma_somes_all<T>(s: Seq<Option<T>>)
    requires
        forall|i: int| 0 <= i < s.len() ==> (#[trigger] s[i]).is_some(),
    ensures
        somes(s).len() == s.len(),
        forall|i: int| 0 <= i < s.len() ==> #[trigger] somes(s)[i] == s[i].unwrap(),
    decreases s.len(),
{
    if s.len() > 0 {
        lemma_somes_all(s.drop_last());
    }
}

proof fn lemma_chain_exists<T>(q: Map<int, Option<T>>, next: int, step: int, b: nat)
    requires
        !q.contains_key(grid(next, step, b as int)),
    ensures
        exists|d: nat| d <= b && chain(q, next, step, d),
    decreases b,
{
    if forall|i: int| 0 <= i < b ==> q.contains_key(#[trigger] grid(next, step, i)) {
        assert(chain(q, next, step, b));
    } else {
        let i = choose|i: int| 0 <= i < b && !q.contains_key(#[trigger] grid(next, step, i));
        lemma_chain_exists(q, next, step, i as nat);
    }
}

/// Entries that arrive in key order, one stride apart, are each released
/// as soon as they arrive: nothing waits for a number between two strides.
pub proof fn lemma_in_order_release<T>(next: int, step: int, item: T)
    requires
        step > 0,
    ensures
        after_push(Map::<int, Option<T>>::empty(), next, step, next, Some(item)) == (
            seq![item],
            Map::<int, Option<T>>::empty(),
            next + step,
        ),
{
    let q = Map::<int, Option<T>>::empty().insert(next, Some(item));
    vstd::arithmetic::div_mod::lemma_mod_multiples_basic(0, step);
    assert((next - next) % step == 0);
    assert(grid(next, step, 0) == next);
    assert(grid(next, step, 1) == next + step);
    assert(chain(q, next, step, 1));
    lemma_chain_unique(q, next, step, 1, chain_len(q, next, step));
    assert(chain_values(q, next, step, 1) =~= seq![Some(item)]);
    assert(seq![Some(item)].drop_last() =~= Seq::<Option<T>>::empty());
    assert(somes(Seq::<Option<T>>::empty()) == Seq::<T>::empty());
    assert(somes(seq![Some(item)]) =~= seq![item]);
    assert(q.remove_keys(grid_keys(next, step, 1)) =~= Map::<int, Option<T>>::empty()) by {
        assert(grid_keys(next, step, 1).contains(next));
    }
}

/// Items pushed in key order from `first` on, one stride apart, come out
/// in the same order, each as it arrives, and nothing is left waiting.
pub proof fn lemma_stride_order<T>(first: int, step: int, items: Seq<T>)
    requires
        step > 0,
    ensures
        push_all(
            Map::<int, Option<T>>::empty(),
            first,
            step,
            Seq::new(items.len(), |i: int| (grid(first, step, i), Some(items[i]))),
        ) == (items, Map::<int, Option<T>>::empty(), grid(first, step, items.len() as int)),
    decreases items.len(),
{
    let entries = Seq::new(items.len(), |i: int| (grid(first, step, i), Some(items[i])));
    if items.len() == 0 {
        assert(grid(first, step, 0) == first);
    } else {
        let k = items.len() - 1;
        let front = items.drop_last();
        lemma_stride_order(first, step, front);
        assert(entries.drop_last() =~= Seq::new(
            front.len(),
            |i: int| (grid(first, step, i), Some(front[i])),
        ));
        lemma_in_order_release(grid(first, step, k), step, items[k]);
        assert(grid(first, step, k) + step == grid(first, step, k + 1)) by (nonlinear_arith);
        assert(front + seq![items[k]] =~= items);
    }
}

proof fn lemma_grid_shift(first: int, step: int, c: int, i: int)
    ensures
        grid(grid(first, step, c), step, i) == grid(first, step, c + i),
{
    assert(first + c * step + i * step == first + (c + i) * step) by (nonlinear_arith);
}

proof fn lemma_grid_aligned(first: int, step: int, c: int, m: int)
    requires
        step > 0,
        c <= m,
    ensures
        on_stride(grid(first, step, c), step, grid(first, step, m)),
{
    lemma_grid_injective(first, step);
    lemma_grid_shift(first, step, c, m - c);
    vstd::arithmetic::div_mod::lemma_mod_multiples_basic(m - c, step);
    assert(grid(first, step, m) - grid(first, step, c) == (m - c) * step) by (nonlinear_arith);
    if c < m {
        assert(grid(first, step, c) < grid(first, step, m));
    }
}

proof fn lemma_entry_at<T>(entries: Seq<(int, Option<T>)>, first: int, step: int, j: int)
    requires
        is_grid_permutation(entries, first, step),
        0 <= j < entries.len(),
    ensures
        entry_at(entries, entries[j].0) == entries[j].1,
{
    let key = entries[j].0;
    assert(0 <= j < entries.len() && entries[j].0 == key);
    let l = choose|l: int| 0 <= l < entries.len() && #[trigger] entries[l].0 == key;
    if l != j {
        assert(entries[l].0 != entries[j].0);
    }
}

/// What holds after the first `k` entries of a grid permutation were pushed.
spec fn prefix_state<T>(
    entries: Seq<(int, Option<T>)>,
    first: int,
    step: int,
    k: int,
    out: Seq<T>,
    p: Map<int, Option<T>>,
    n: int,
    c: int,
) -> bool {
    &&& 0 <= c <= entries.len()
    &&& n == grid(first, step, c)
    &&& forall|i: int| #![trigger grid(first, step, i)]
        0 <= i < c ==> exists|j: int| 0 <= j < k && #[trigger] entries[j].0 == grid(first, step, i)
    &&& forall|key: int|
        p.contains_key(key) <==> (exists|j: int| 0 <= j < k && #[trigger] entries[j].0 == key) && key
            >= n
    &&& forall|key: int| #[trigger] p.contains_key(key) ==> p[key] == entry_at(entries, key)
    &&& forall|j: int| 0 <= j < k ==> #[trigger] entries[j].0 != n
    &&& out == somes(in_key_order(entries, first, step, c as nat))
}

#[verifier::rlimit(100)]
#[verifier::spinoff_prover]
proof fn lemma_prefix<T>(entries: Seq<(int, Option<T>)>, first: int, step: int, k: int)
    requires
        step > 0,
        is_grid_permutation(entries, first, step),
        0 <= k <= entries.len(),
    ensures
        exists|c: int|
            #[trigger] prefix_state(
                entries,
                first,
                step,
                k,
                push_all(Map::<int, Option<T>>::empty(), first, step, entries.take(k)).0,
                push_all(Map::<int, Option<T>>::empty(), first, step, entries.take(k)).1,
                push_all(Map::<int, Option<T>>::empty(), first, step, entries.take(k)).2,
                c,
            ),
    decreases k,
{
    lemma_grid_injective(first, step);
    let empty = Map::<int, Option<T>>::empty();
    if k == 0 {
        assert(entries.take(0) =~= Seq::<(int, Option<T>)>::empty());
        assert(in_key_order(entries, first, step, 0) =~= Seq::<Option<T>>::empty());
        assert(grid(first, step, 0) == first);
        assert(prefix_state(entries, first, step, 0, Seq::empty(), empty, first, 0));
        let r = push_all(empty, first, step, entries.take(0));
        assert(r == (Seq::<T>::empty(), empty, first));
        assert(prefix_state(entries, first, step, 0, r.0, r.1, r.2, 0));
    } else {
        lemma_prefix(entries, first, step, k - 1);
        let (out, p, n) = push_all(empty, first, step, entries.take(k - 1));
        let c = choose|c: int| #[trigger] prefix_state(entries, first, step, k - 1, out, p, n, c);
        assert(entries.take(k).drop_last() =~= entries.take(k - 1));
        let kappa = entries[k - 1].0;
        let v = entries[k - 1].1;
        assert(entries.take(k).last() == entries[k - 1]);
        let m = choose|m: int| 0 <= m < entries.len() && #[trigger] entries[k - 1].0 == grid(
            first,
            step,
            m,
        );
        // the new key is fresh and not behind the next expected number
        assert(m >= c) by {
            if m < c {
                let j = choose|j: int| 0 <= j < k - 1 && #[trigger] entries[j].0 == grid(first, step, m);
                assert(entries[j].0 != entries[k - 1].0);
            }
        }
        lemma_grid_aligned(first, step, c, m);
        assert(!p.contains_key(kappa)) by {
            if p.contains_key(kappa) {
                let j = choose|j: int| 0 <= j < k - 1 && #[trigger] entries[j].0 == kappa;
                assert(entries[j].0 != entries[k - 1].0);
            }
        }
        assert(accepts(p, n, step, kappa));
        let q = p.insert(kappa, v);
        // every key of q is a grid point below the end of the grid
        assert forall|key: int| #[trigger] q.contains_key(key) implies exists|t: int|
            c <= t < entries.len() && key == grid(first, step, t) by {
            if key == kappa {
                assert(c <= m < entries.len() && key == grid(first, step, m));
            } else {
                let j = choose|j: int| 0 <= j < k - 1 && #[trigger] entries[j].0 == key;
                let t = choose|t: int| 0 <= t < entries.len() && #[trigger] entries[j].0 == grid(
                    first,
                    step,
                    t,
                );
                if t < c {
                    assert(grid(first, step, t) < grid(first, step, c));
                }
                assert(c <= t < entries.len() && key == grid(first, step, t));
            }
        }
        let bound = (entries.len() - c) as nat;
        lemma_grid_shift(first, step, c, bound as int);
        assert(!q.contains_key(grid(n, step, bound as int))) by {
            if q.contains_key(grid(n, step, bound as int)) {
                let t = choose|t: int|
                    c <= t < entries.len() && grid(n, step, bound as int) == grid(first, step, t);
            }
        }
        lemma_chain_exists(q, n, step, bound);
        let d0 = choose|d: nat| d <= bound && chain(q, n, step, d);
        lemma_chain_unique(q, n, step, d0, chain_len(q, n, step));
        let d = chain_len(q, n, step);
        let (o2, p2, n2) = after_push(p, n, step, kappa, v);
        assert(o2 == somes(chain_values(q, n, step, d)));
        assert(p2 == q.remove_keys(grid_keys(n, step, d)));
        lemma_grid_shift(first, step, c, d as int);
        assert(n2 == grid(first, step, c + d));
        let c2 = c + d;
        // the released entries are the next ones in key order
        assert(chain_values(q, n, step, d) =~= in_key_order(entries, first, step, c2 as nat).subrange(
            c,
            c2,
        )) by {
            assert forall|i: int| 0 <= i < d implies #[trigger] chain_values(q, n, step, d)[i]
                == in_key_order(entries, first, step, c2 as nat)[c + i] by {
                lemma_grid_shift(first, step, c, i);
                let g = grid(first, step, c + i);
                assert(q.contains_key(grid(n, step, i)));
                if g == kappa {
                    lemma_entry_at(entries, first, step, k - 1);
                }
            }
        }
        assert(in_key_order(entries, first, step, c2 as nat) =~= in_key_order(
            entries,
            first,
            step,
            c as nat,
        ) + in_key_order(entries, first, step, c2 as nat).subrange(c, c2));
        lemma_somes_concat(
            in_key_order(entries, first, step, c as nat),
            in_key_order(entries, first, step, c2 as nat).subrange(c, c2),
        );
        assert(push_all(empty, first, step, entries.take(k)) == (out + o2, p2, n2));
        // c2 stays within the grid
        assert(c2 <= entries.len()) by {
            if d > 0 {
                lemma_grid_shift(first, step, c, d - 1);
                assert(q.contains_key(grid(n, step, d - 1)));
                let t = choose|t: int|
                    c <= t < entries.len() && grid(n, step, d - 1) == grid(first, step, t);
            }
        }
        assert forall|i: int| #![trigger grid(first, step, i)] 0 <= i < c2 implies exists|j: int|
            0 <= j < k && #[trigger] entries[j].0 == grid(first, step, i) by {
            if i < c {
                let j = choose|j: int| 0 <= j < k - 1 && #[trigger] entries[j].0 == grid(first, step, i);
                assert(0 <= j < k && entries[j].0 == grid(first, step, i));
            } else {
                lemma_grid_shift(first, step, c, i - c);
                assert(q.contains_key(grid(n, step, i - c)));
                if grid(first, step, i) == kappa {
                    assert(entries[k - 1].0 == grid(first, step, i));
                } else {
                    let j = choose|j: int| 0 <= j < k - 1 && #[trigger] entries[j].0 == grid(
                        first,
                        step,
                        i,
                    );
                    assert(0 <= j < k && entries[j].0 == grid(first, step, i));
                }
            }
        }
        assert forall|key: int| p2.contains_key(key) <==> (exists|j: int|
            0 <= j < k && #[trigger] entries[j].0 == key) && key >= n2 by {
            if p2.contains_key(key) {
                assert(q.contains_key(key));
                assert(!grid_keys(n, step, d).contains(key));
                let t = choose|t: int| c <= t < entries.len() && key == grid(first, step, t);
                if t < c2 {
                    lemma_grid_shift(first, step, c, t - c);
                    assert(grid_keys(n, step, d).contains(key));
                }
                if t > c2 {
                    assert(grid(first, step, c2) < grid(first, step, t));
                }
                if key == kappa {
                    assert(entries[k - 1].0 == key);
                } else {
                    let j = choose|j: int| 0 <= j < k - 1 && #[trigger] entries[j].0 == key;
                    assert(0 <= j < k && entries[j].0 == key);
                }
            }
            if (exists|j: int| 0 <= j < k && #[trigger] entries[j].0 == key) && key >= n2 {
                let j = choose|j: int| 0 <= j < k && #[trigger] entries[j].0 == key;
                if d > 0 {
                    assert(grid(first, step, c) < grid(first, step, c2));
                }
                if j < k - 1 {
                    assert(p.contains_key(key));
                }
                assert(q.contains_key(key));
                if grid_keys(n, step, d).contains(key) {
                    let i = choose|i: int| 0 <= i < d && key == #[trigger] grid(n, step, i);
                    lemma_grid_shift(first, step, c, i);
                    assert(grid(first, step, c + i) < grid(first, step, c2));
                }
            }
        }
        assert forall|key: int| #[trigger] p2.contains_key(key) implies p2[key] == entry_at(
            entries,
            key,
        ) by {
            if key == kappa {
                lemma_entry_at(entries, first, step, k - 1);
            }
        }
        assert forall|j: int| 0 <= j < k implies #[trigger] entries[j].0 != n2 by {
            lemma_grid_shift(first, step, c, d as int);
            assert(!q.contains_key(grid(n, step, d as int)));
            if entries[j].0 == n2 {
                if j < k - 1 {
                    if d > 0 {
                        assert(grid(first, step, c) < grid(first, step, c2));
                    }
                    assert(p.contains_key(n2));
                }
            }
        }
        assert(prefix_state(entries, first, step, k, out + o2, p2, n2, c2));
        let r = push_all(empty, first, step, entries.take(k));
        assert(prefix_state(entries, first, step, k, r.0, r.1, r.2, c2));
    }
}

/// The order law of the reorder buffer: whatever order the entries of a
/// whole stretch of the grid arrive in, the items come out exactly in key
/// order, each once, with the failed ones (`None`) left out; nothing is
/// left waiting, and the next number expected is the one after the stretch.
pub proof fn lemma_releases_in_key_order<T>(entries: Seq<(int, Option<T>)>, first: int, step: int)
    requires
        step > 0,
        is_grid_permutation(entries, first, step),
    ensures
        push_all(Map::<int, Option<T>>::empty(), first, step, entries) == (
            somes(in_key_order(entries, first, step, entries.len())),
            Map::<int, Option<T>>::empty(),
            grid(first, step, entries.len() as int),
        ),
{
    lemma_grid_injective(first, step);
    let len = entries.len() as int;
    lemma_prefix(entries, first, step, len);
    assert(entries.take(len) =~= entries);
    let (out, p, n) = push_all(Map::<int, Option<T>>::empty(), first, step, entries);
    let c = choose|c: int| #[trigger] prefix_state(entries, first, step, len, out, p, n, c);
    if c < len {
        let j = choose|j: int| 0 <= j < len && #[trigger] entries[j].0 == grid(first, step, c);
        assert(entries[j].0 != n);
    }
    assert(p =~= Map::<int, Option<T>>::empty()) by {
        assert forall|key: int| !p.contains_key(key) by {
            if p.contains_key(key) {
                let j = choose|j: int| 0 <= j < len && #[trigger] entries[j].0 == key;
                let t = choose|t: int| 0 <= t < len && #[trigger] entries[j].0 == grid(first, step, t);
                assert(grid(first, step, t) < grid(first, step, len));
            }
        }
    }
}

/// A failed entry is skipped and nothing else is lost: when exactly the
/// entry at grid position `poison` failed, every other item still comes
/// out, in key order, and the ones after the failure follow directly.
#[verifier::rlimit(100)]
pub proof fn lemma_failure_isolated<T>(
    entries: Seq<(int, Option<T>)>,
    first: int,
    step: int,
    poison: int,
)
    requires
        step > 0,
        is_grid_permutation(entries, first, step),
        0 <= poison < entries.len(),
        entry_at(entries, grid(first, step, poison)) is None,
        forall|i: int|
            0 <= i < entries.len() && i != poison ==> (#[trigger] entry_at(
                entries,
                grid(first, step, i),
            )).is_some(),
    ensures
        ({
            let out = push_all(Map::<int, Option<T>>::empty(), first, step, entries).0;
            &&& out.len() == entries.len() - 1
            &&& forall|i: int|
                0 <= i < poison ==> #[trigger] out[i] == entry_at(
                    entries,
                    grid(first, step, i),
                ).unwrap()
            &&& forall|i: int|
                poison <= i < entries.len() - 1 ==> #[trigger] out[i] == entry_at(
                    entries,
                    grid(first, step, i + 1),
                ).unwrap()
        }),
{
    lemma_releases_in_key_order(entries, first, step);
    let s = in_key_order(entries, first, step, entries.len());
    let a = s.take(poison);
    let b = s.skip(poison + 1);
    assert(s =~= a + seq![s[poison]] + b);
    lemma_somes_concat(a + seq![s[poison]], b);
    lemma_somes_concat(a, seq![s[poison]]);
    assert(s[poison] is None);
    assert(seq![s[poison]].drop_last() =~= Seq::<Option<T>>::empty());
    assert(somes(Seq::<Option<T>>::empty()) == Seq::<T>::empty());
    assert(somes(seq![s[poison]]) =~= Seq::<T>::empty());
    assert(somes(a) + Seq::<T>::empty() =~= somes(a));
    assert forall|i: int| 0 <= i < a.len() implies (#[trigger] a[i]).is_some() by {
        assert(a[i] == entry_at(entries, grid(first, step, i)));
    }
    assert forall|i: int| 0 <= i < b.len() implies (#[trigger] b[i]).is_some() by {
        assert(b[i] == entry_at(entries, grid(first, step, i + poison + 1)));
    }
    lemma_somes_all(a);
    lemma_somes_all(b);
}

} // verus!
