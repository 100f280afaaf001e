//! A queue of values in a fixed ring of slots: the part that the bounded queues share.
//!
//! Producers claim positions one after the other; position `p` lies in slot `p` modulo the number
//! of slots. They fill their slots in any order and mark them as stored, and one consumer takes
//! the stored values in the order of the positions. The ghost field `log` holds every value ever
//! claimed, in that order, and `taken` counts the values that the consumer has taken.
use crate::chain::Slot;
use std::mem::ManuallyDrop;
use vstd::arithmetic::div_mod::{lemma_mod_add_multiples_vanish, lemma_mod_bound, lemma_small_mod};
use vstd::prelude::*;

verus! {

/// The number of values of a counter, one more than its greatest value.
pub open spec fn wrap() -> int {
    usize::MAX + 1
}

/// The slots.
pub struct Ring<T> {
    pub slots: Vec<Slot<T>>,
    /// Every value ever claimed, in the order of the claims.
    pub log: Ghost<Seq<T>>,
    /// How many values the consumer has taken.
    pub taken: Ghost<nat>,
}

/// A position that a producer has claimed and not yet filled.
pub ghost struct Claim<T> {
    pub at: nat,
    pub value: T,
}

/// Positions less than `len` apart lie in different slots.
pub proof fn lemma_apart(p: int, q: int, len: int)
    requires
        0 < len,
        p < q < p + len,
    ensures
        p % len != q % len,
{
    if p % len == q % len {
        vstd::arithmetic::div_mod::lemma_fundamental_div_mod(p, len);
        vstd::arithmetic::div_mod::lemma_fundamental_div_mod(q, len);
        let m = p / len;
        let n = q / len;
        assert(q - p == len * n - len * m);
        assert(len * n - len * m == len * (n - m)) by (nonlinear_arith);
        assert(n - m <= 0 ==> len * (n - m) <= 0) by (nonlinear_arith)
            requires
                0 < len,
        ;
        assert(n - m >= 1 ==> len * (n - m) >= len) by (nonlinear_arith)
            requires
                0 < len,
        ;
    }
}

/// A counter that wraps around finds the same slot as the count, if it has not wrapped yet or the
/// number of slots divides the number of its values.
pub proof fn lemma_counter(p: nat, len: int)
    requires
        0 < len,
        p < wrap() || wrap() % len == 0,
    ensures
        (p as int % wrap()) % len == p as int % len,
{
    if p < wrap() {
        lemma_small_mod(p, wrap() as nat);
    } else {
        let n = wrap() / len;
        vstd::arithmetic::div_mod::lemma_fundamental_div_mod(wrap(), len);
        assert(0 < n) by (nonlinear_arith)
            requires
                wrap() == len * n,
                0 < wrap(),
                0 < len,
        ;
        vstd::arithmetic::div_mod::lemma_mod_mod(p as int, len, n);
    }
}

/// Counts less than a full turn apart have different counters.
pub proof fn lemma_same_counter(p: nat, q: nat)
    requires
        p <= q < p + wrap(),
        p as int % wrap() == q as int % wrap(),
    ensures
        p == q,
{
    if p < q {
        lemma_apart(p as int, q as int, wrap());
    }
}

/// The counter goes on by one with the count.
pub proof fn lemma_count(p: nat, counter: usize)
    requires
        counter == p as int % wrap(),
    ensures
        counter.wrapping_add(1) == (p + 1) as int % wrap(),
{
    vstd::arithmetic::div_mod::lemma_add_mod_noop(p as int, 1, wrap());
    lemma_small_mod(1, wrap() as nat);
    if counter == usize::MAX {
        vstd::arithmetic::div_mod::lemma_mod_self_0(wrap());
    } else {
        lemma_small_mod((counter + 1) as nat, wrap() as nat);
    }
}

impl<T> Ring<T> {
    /// The number of slots.
    pub open spec fn len(self) -> int {
        self.slots@.len() as int
    }

    /// The slot of position `p`.
    pub open spec fn cell(self, p: int) -> Slot<T> {
        self.slots@[p % self.len()]
    }

    /// The values that were claimed and not yet taken.
    pub open spec fn pending(self) -> Seq<T> {
        self.log@.skip(self.taken@ as int)
    }

    /// Some producer has claimed the position.
    pub open spec fn claimed(hs: Map<int, Option<Claim<T>>>, p: int) -> bool {
        exists|i: int| #[trigger] hs.contains_key(i) && hs[i] is Some && hs[i]->0.at == p
    }

    /// A claimed position is open, and its slot is free.
    pub open spec fn claim_ok(self, c: Claim<T>) -> bool {
        &&& self.taken@ <= c.at < self.log@.len()
        &&& self.log@[c.at as int] == c.value
        &&& !self.cell(c.at as int).stored
    }

    /// The invariant of the slots together with the claims of the producers that are under way.
    pub open spec fn inv(self, hs: Map<int, Option<Claim<T>>>) -> bool {
        &&& 0 < self.len()
        &&& self.taken@ <= self.log@.len() <= self.taken@ + self.len()
        &&& forall|p: int|
            self.taken@ <= p < self.taken@ + self.len() && (#[trigger] self.cell(p)).stored ==> p
                < self.log@.len() && self.cell(p).value == Some(self.log@[p])
        &&& forall|i: int| #[trigger]
            hs.contains_key(i) && hs[i] is Some ==> self.claim_ok(hs[i]->0)
        &&& forall|i: int, j: int| #[trigger]
            hs.contains_key(i) && #[trigger] hs.contains_key(j) && i != j && hs[i] is Some
                && hs[j] is Some ==> hs[i]->0.at != hs[j]->0.at
        &&& forall|p: int|
            self.taken@ <= p < self.log@.len() && !(#[trigger] self.cell(p)).stored
                ==> Self::claimed(hs, p)
    }

    /// The next position is claimed for `value`.
    pub open spec fn claim(self, value: T) -> Self {
        Ring { log: Ghost(self.log@.push(value)), ..self }
    }

    /// `value` was put into the slot and marked as stored.
    pub open spec fn stored(self, post: Self, index: int, value: T) -> bool {
        &&& post.slots@ == self.slots@.update(index, Slot { stored: true, value: Some(value) })
        &&& post.log == self.log
        &&& post.taken == self.taken
    }

    /// The consumer took the value of the slot and freed it.
    pub open spec fn took(self, post: Self, index: int) -> bool {
        &&& post.slots@ == self.slots@.update(index, Slot { stored: false, value: None })
        &&& post.log == self.log
        &&& post.taken@ == self.taken@ + 1
    }

    /// Free slots.
    pub fn new(len: usize) -> (ring: Self)
        ensures
            ring.len() == len,
            ring.log@ == Seq::<T>::empty(),
            ring.taken@ == 0,
            forall|s: int|
                0 <= s < len ==> !(#[trigger] ring.slots@[s]).stored && ring.slots@[s].value is None,
            0 < len ==> ring.inv(Map::empty()),
    {
        let mut slots: Vec<Slot<T>> = Vec::with_capacity(len);
        let mut i: usize = 0;
        while i < len
            invariant
                i <= len,
                slots@.len() == i,
                forall|s: int|
                    0 <= s < i ==> !(#[trigger] slots@[s]).stored && slots@[s].value is None,
            decreases len - i,
        {
            slots.push(Slot { stored: false, value: None });
            i = i + 1;
        }
        let ring = Ring { slots, log: Ghost(Seq::empty()), taken: Ghost(0nat) };
        proof {
            assert forall|p: int| 0 < len implies !(#[trigger] ring.cell(p)).stored by {
                lemma_mod_bound(p, len as int);
            }
        }
        ring
    }

    /// Records that the next position is claimed for `value`.
    pub(crate) fn note_claim(&mut self, Ghost(value): Ghost<T>)
        ensures
            *final(self) == old(self).claim(value),
    {
        self.log = Ghost(self.log@.push(value));
    }

    /// Whether the slot is marked as stored.
    pub fn is_stored(&self, index: usize) -> (stored: bool)
        requires
            index < self.len(),
        ensures
            stored == self.slots@[index as int].stored,
    {
        self.slots[index].stored
    }

    /// Fills a slot and marks it as stored.
    pub fn store(&mut self, index: usize, value: T)
        requires
            index < old(self).len(),
        ensures
            old(self).stored(*final(self), index as int, value),
    {
        let mut slot = Slot { stored: true, value: Some(value) };
        // A value that lay in the slot is overwritten without being dropped.
        self.slots.set_and_swap(index, &mut slot);
        let _kept = ManuallyDrop::new(slot);
    }

    /// Takes the value of a stored slot and frees it.
    pub fn take(&mut self, index: usize) -> (value: T)
        requires
            index < old(self).len(),
            old(self).slots@[index as int].value is Some,
        ensures
            old(self).took(*final(self), index as int),
            Some(value) == old(self).slots@[index as int].value,
    {
        let value = self.slots[index].value.take();
        self.slots.set(index, Slot { stored: false, value: None });
        self.taken = Ghost((self.taken@ + 1) as nat);
        assert(self.slots@ =~= old(self).slots@.update(
            index as int,
            Slot { stored: false, value: None },
        ));
        value.unwrap()
    }

    /// The number of slots is a machine number.
    pub proof fn lemma_len(self)
        ensures
            self.len() <= usize::MAX,
    {
        assert(self.slots@.len() == self.slots.len());
    }

    /// When the claim of producer `i` changes, the claims of the others stay.
    proof fn lemma_claims(hs: Map<int, Option<Claim<T>>>, i: int, h: Option<Claim<T>>)
        requires
            hs.contains_key(i),
        ensures
            forall|p: int| #[trigger]
                Self::claimed(hs, p) && !(hs[i] is Some && hs[i]->0.at == p) ==> Self::claimed(
                    hs.insert(i, h),
                    p,
                ),
            h is Some ==> Self::claimed(hs.insert(i, h), h->0.at as int),
    {
        let gs = hs.insert(i, h);
        assert(gs.contains_key(i));
        assert forall|p: int| #[trigger]
            Self::claimed(hs, p) && !(hs[i] is Some && hs[i]->0.at == p) implies Self::claimed(
            gs,
            p,
        ) by {
            let j = choose|j: int| #[trigger]
                hs.contains_key(j) && hs[j] is Some && hs[j]->0.at == p;
            assert(gs.contains_key(j));
        }
    }

    /// A producer without a claim may come in.
    pub proof fn lemma_enter(self, hs: Map<int, Option<Claim<T>>>, i: int)
        requires
            self.inv(hs),
            hs.contains_key(i) ==> hs[i] is None,
        ensures
            self.inv(hs.insert(i, None)),
    {
        let gs = hs.insert(i, None);
        assert forall|p: int| #[trigger] Self::claimed(hs, p) implies Self::claimed(gs, p) by {
            let j = choose|j: int| #[trigger]
                hs.contains_key(j) && hs[j] is Some && hs[j]->0.at == p;
            assert(gs.contains_key(j));
        }
        assert forall|j: int| #[trigger] gs.contains_key(j) && j != i implies hs.contains_key(j) by {}
    }

    /// A producer without a claim may leave.
    pub proof fn lemma_leave(self, hs: Map<int, Option<Claim<T>>>, i: int)
        requires
            self.inv(hs),
            hs.contains_key(i),
            hs[i] is None,
        ensures
            self.inv(hs.remove(i)),
    {
        let gs = hs.remove(i);
        assert forall|p: int| #[trigger] Self::claimed(hs, p) implies Self::claimed(gs, p) by {
            let j = choose|j: int| #[trigger]
                hs.contains_key(j) && hs[j] is Some && hs[j]->0.at == p;
            assert(gs.contains_key(j));
        }
        assert forall|j: int| #[trigger] gs.contains_key(j) implies hs.contains_key(j) by {}
    }

    /// A producer may claim the next position while the ring is not full.
    pub proof fn lemma_claim(self, hs: Map<int, Option<Claim<T>>>, i: int, value: T)
        requires
            self.inv(hs),
            hs.contains_key(i),
            hs[i] is None,
            self.log@.len() < self.taken@ + self.len(),
        ensures
            self.claim(value).inv(hs.insert(i, Some(Claim { at: self.log@.len(), value }))),
    {
        let post = self.claim(value);
        let h = Some(Claim { at: self.log@.len(), value });
        let gs = hs.insert(i, h);
        Self::lemma_claims(hs, i, h);
        assert forall|p: int| #[trigger] post.cell(p) == self.cell(p) by {}
        assert(!self.cell(self.log@.len() as int).stored);
        assert forall|j: int| #[trigger] gs.contains_key(j) && gs[j] is Some implies post.claim_ok(
            gs[j]->0,
        ) by {
            assert(hs.contains_key(j));
        }
        assert forall|p: int|
            post.taken@ <= p < post.log@.len() && !(#[trigger] post.cell(p)).stored implies Self::claimed(
        gs, p) by {
            assert(!self.cell(p).stored);
            if p < self.log@.len() {
                assert(Self::claimed(hs, p));
            }
        }
    }

    /// A producer may fill the slot that it has claimed.
    pub proof fn lemma_store(self, post: Self, hs: Map<int, Option<Claim<T>>>, i: int)
        requires
            self.inv(hs),
            hs.contains_key(i),
            hs[i] is Some,
            self.stored(post, hs[i]->0.at as int % self.len(), hs[i]->0.value),
        ensures
            post.inv(hs.insert(i, None)),
    {
        let c = hs[i]->0;
        let gs = hs.insert(i, None);
        let at = c.at as int;
        assert(self.claim_ok(c));
        lemma_mod_bound(at, self.len());
        Self::lemma_claims(hs, i, None);
        assert forall|p: int|
            self.taken@ <= p < self.taken@ + self.len() && p != at implies #[trigger] post.cell(p)
            == self.cell(p) by {
            lemma_mod_bound(p, self.len());
            if p < at {
                lemma_apart(p, at, self.len());
            } else {
                lemma_apart(at, p, self.len());
            }
        }
        assert(post.cell(at) == Slot { stored: true, value: Some(c.value) });
        assert forall|p: int|
            post.taken@ <= p < post.taken@ + post.len() && (#[trigger] post.cell(p)).stored implies p
            < post.log@.len() && post.cell(p).value == Some(post.log@[p]) by {
            assert(p != at ==> self.cell(p).stored);
        }
        assert forall|j: int| #[trigger] gs.contains_key(j) && gs[j] is Some implies post.claim_ok(
            gs[j]->0,
        ) by {
            assert(hs.contains_key(j));
            assert(self.claim_ok(hs[j]->0));
        }
        assert forall|p: int|
            post.taken@ <= p < post.log@.len() && !(#[trigger] post.cell(p)).stored implies Self::claimed(
        gs, p) by {
            assert(p != at);
            assert(!self.cell(p).stored);
            assert(Self::claimed(hs, p));
        }
    }

    /// The consumer may take the next value once it is stored; the value is the oldest one that
    /// was claimed and not yet taken.
    pub proof fn lemma_take(self, post: Self, hs: Map<int, Option<Claim<T>>>)
        requires
            self.inv(hs),
            self.cell(self.taken@ as int).stored,
            self.took(post, self.taken@ as int % self.len()),
        ensures
            post.inv(hs),
            self.taken@ < self.log@.len(),
            self.cell(self.taken@ as int).value == Some(self.log@[self.taken@ as int]),
            post.pending() == self.pending().skip(1),
            self.pending().len() > 0,
            self.pending()[0] == self.log@[self.taken@ as int],
    {
        let at = self.taken@ as int;
        lemma_mod_bound(at, self.len());
        lemma_mod_add_multiples_vanish(at, self.len());
        assert(post.pending() =~= self.pending().skip(1));
        assert forall|p: int| at < p < at + self.len() implies #[trigger] post.cell(p) == self.cell(
            p,
        ) by {
            lemma_mod_bound(p, self.len());
            lemma_apart(at, p, self.len());
        }
        assert(post.cell(at + self.len()) == Slot::<T> { stored: false, value: None });
        assert forall|p: int|
            post.taken@ <= p < post.taken@ + post.len() && (#[trigger] post.cell(p)).stored implies p
            < post.log@.len() && post.cell(p).value == Some(post.log@[p]) by {
            assert(p < at + self.len());
            assert(self.cell(p).stored);
        }
        assert forall|j: int| #[trigger] hs.contains_key(j) && hs[j] is Some implies post.claim_ok(
            hs[j]->0,
        ) by {
            assert(self.claim_ok(hs[j]->0));
            assert(hs[j]->0.at != at);
        }
        assert forall|p: int|
            post.taken@ <= p < post.log@.len() && !(#[trigger] post.cell(p)).stored implies Self::claimed(
        hs, p) by {
            assert(!self.cell(p).stored);
        }
    }
}

} // verus!
