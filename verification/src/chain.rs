//! A queue of values in a chain of heap blocks: the part that the unbounded queues share.
//!
//! Senders claim slots one after the other, fill them in any order and mark them as stored; one
//! consumer follows the chain and takes the stored values in the order of the claims. The ghost
//! field `log` holds every value ever claimed, in that order, and `base` gives each block of the
//! chain the position in `log` of its first slot.
//!
//! What a sender in the middle of its work owns is its [`Hold`]. The invariant [`Chain::inv`]
//! relates the memory to the holds of all the senders that are under way; each lemma below says
//! that one kind of access to the memory keeps it, whatever the other senders are doing.
use crate::arena::Arena;
use vstd::prelude::*;

verus! {

/// One cell of a block: the value and the flag that says that it can be taken.
pub struct Slot<T> {
    pub stored: bool,
    pub value: Option<T>,
}

/// `SIZE` slots and the address of the block that follows (zero while there is none).
pub struct Block<T> {
    pub slots: Vec<Slot<T>>,
    pub next: usize,
}

/// The chain of blocks and the place where the consumer reads.
pub struct Chain<T, const SIZE: usize, const ALIGN: usize> {
    pub heap: Arena<Block<T>, ALIGN>,
    /// The consumer's block, zero before the first block is linked.
    pub head: usize,
    /// The consumer's next slot in its block.
    pub index: usize,
    /// Every value ever claimed, in the order of the claims.
    pub log: Ghost<Seq<T>>,
    /// The position of the first slot of each block of the chain that is not yet freed. A position
    /// belongs to one block for good, an address may come back with another block.
    pub base: Ghost<Map<usize, nat>>,
    /// The block that was appended last, zero before the first.
    pub last: Ghost<usize>,
}

/// A slot that a sender has claimed and not yet filled.
pub ghost struct Claim<T> {
    pub block: usize,
    pub index: int,
    pub value: T,
}

/// A block that a sender has appended and not yet linked: `next` follows `prev`, or is the first
/// block if `prev` is zero.
pub ghost struct Edge {
    pub prev: usize,
    pub next: usize,
}

/// What a sender in the middle of its work owns: a block of its own (zero for none) in which
/// nothing is stored, or only `ready` in the first slot; a slot to fill; and a link to store.
pub ghost struct Hold<T> {
    pub spare: usize,
    pub ready: Option<T>,
    pub slot: Option<Claim<T>>,
    pub edge: Option<Edge>,
}

/// The hold of a sender that owns nothing.
pub open spec fn idle<T>() -> Hold<T> {
    Hold { spare: 0, ready: None, slot: None, edge: None }
}

impl<T> Block<T> {
    /// Nothing is stored in the block and nothing follows it.
    pub open spec fn blank(self) -> bool {
        &&& self.next == 0
        &&& forall|s: int| 0 <= s < self.slots@.len() ==> !(#[trigger] self.slots@[s]).stored
    }

    /// Nothing follows the block, and nothing but `ready`, in the first slot, is stored in it.
    pub open spec fn primed(self, ready: Option<T>) -> bool {
        &&& self.next == 0
        &&& forall|s: int|
            0 <= s < self.slots@.len() ==> (#[trigger] self.slots@[s]).stored == (s == 0
                && ready is Some)
        &&& ready is Some && self.slots@.len() > 0 ==> self.slots@[0].value == ready
    }

    /// A block of `size` slots with nothing stored.
    pub fn new(size: usize) -> (block: Self)
        ensures
            block.blank(),
            block.slots@.len() == size,
            forall|s: int| 0 <= s < size ==> (#[trigger] block.slots@[s]).value is None,
    {
        let mut slots: Vec<Slot<T>> = Vec::with_capacity(size);
        let mut i: usize = 0;
        while i < size
            invariant
                i <= size,
                slots@.len() == i,
                forall|s: int|
                    0 <= s < i ==> !(#[trigger] slots@[s]).stored && slots@[s].value is None,
            decreases size - i,
        {
            slots.push(Slot { stored: false, value: None });
            i = i + 1;
        }
        Block { slots, next: 0 }
    }
}

impl<T, const SIZE: usize, const ALIGN: usize> Chain<T, SIZE, ALIGN> {
    // ---- what the memory holds ----

    /// Slot `s` of the block at `a`.
    pub open spec fn slot(self, a: usize, s: int) -> Slot<T> {
        self.heap@[a].slots@[s]
    }

    /// The block that follows the block at `a`.
    pub open spec fn next(self, a: usize) -> usize {
        self.heap@[a].next
    }

    /// The block at `a` was appended and not yet freed.
    pub open spec fn linked(self, a: usize) -> bool {
        self.base@.contains_key(a)
    }

    /// The block at `a` is part of the chain, and it is on the heap.
    pub open spec fn live(self, a: usize) -> bool {
        self.linked(a) && self.heap@.contains_key(a)
    }

    /// The position of slot `s` of the block at `a`.
    pub open spec fn at(self, a: usize, s: int) -> int {
        self.base@[a] + s
    }

    /// How many values the consumer has taken.
    pub open spec fn taken(self) -> int {
        if self.head == 0 {
            0
        } else {
            self.base@[self.head] + self.index
        }
    }

    /// The values that were claimed and not yet taken.
    pub open spec fn pending(self) -> Seq<T> {
        self.log@.skip(self.taken())
    }

    // ---- the invariant ----

    /// The consumer has gone on from the block at `a`.
    pub open spec fn behind(self, a: usize) -> bool {
        self.head != 0 && self.base@[a] < self.base@[self.head]
    }

    /// Blocks of the chain: all on the heap, at distinct places in the log, the last one open.
    pub open spec fn inv_order(self) -> bool {
        &&& forall|a: usize| #[trigger]
            self.linked(a) ==> 0 < a && a % ALIGN == 0 && self.heap@.contains_key(a)
        &&& forall|a: usize, b: usize| #[trigger]
            self.linked(a) && #[trigger] self.linked(b) && a != b ==> self.base@[a] + SIZE
                <= self.base@[b] || self.base@[b] + SIZE <= self.base@[a]
        &&& self.last@ == 0 ==> self.log@.len() == 0 && forall|a: usize| !#[trigger] self.linked(a)
        &&& self.last@ != 0 ==> {
            &&& self.linked(self.last@)
            &&& self.base@[self.last@] <= self.log@.len() <= self.base@[self.last@] + SIZE
            &&& forall|a: usize| #[trigger]
                self.linked(a) ==> self.base@[a] <= self.base@[self.last@]
        }
    }

    /// The consumer's place.
    pub open spec fn inv_head(self) -> bool {
        &&& self.head == 0 ==> self.index == 0
        &&& self.head != 0 ==> self.live(self.head) && self.index <= SIZE
        &&& self.taken() <= self.log@.len()
    }

    /// Links point to the block that follows, which may be gone only where the consumer has passed
    /// both; stored slots hold what was claimed for them.
    pub open spec fn inv_slots(self) -> bool {
        &&& forall|a: usize| #[trigger]
            self.heap@.contains_key(a) ==> self.heap@[a].slots@.len() == SIZE
        &&& forall|a: usize| #[trigger]
            self.live(a) && self.next(a) != 0 && !self.behind(a) ==> self.linked(self.next(a))
                && self.base@[self.next(a)] == self.base@[a] + SIZE
        &&& forall|a: usize| #[trigger] self.live(a) && self.behind(a) ==> self.next(a) != 0
        &&& forall|a: usize, s: int|
            self.live(a) && 0 <= s < SIZE ==> {
                let slot = #[trigger] self.slot(a, s);
                &&& slot.stored ==> self.at(a, s) < self.log@.len()
                &&& slot.stored && self.taken() <= self.at(a, s) ==> slot.value == Some(
                    self.log@[self.at(a, s)],
                )
                &&& self.at(a, s) < self.taken() ==> slot.stored
            }
    }

    /// What one sender owns is really its own to use.
    pub open spec fn hold_ok(self, h: Hold<T>) -> bool {
        &&& h.spare != 0 ==> {
            &&& self.heap@.contains_key(h.spare)
            &&& !self.linked(h.spare)
            &&& self.heap@[h.spare].primed(h.ready)
        }
        &&& h.slot matches Some(c) ==> {
            &&& self.live(c.block)
            &&& 0 <= c.index < SIZE
            &&& self.at(c.block, c.index) < self.log@.len()
            &&& self.log@[self.at(c.block, c.index)] == c.value
            &&& !self.slot(c.block, c.index).stored
        }
        &&& h.edge matches Some(e) ==> {
            &&& self.linked(e.next)
            &&& e.prev == 0 ==> self.head == 0 && self.base@[e.next] == 0
            &&& e.prev != 0 ==> self.live(e.prev) && self.next(e.prev) == 0 && self.base@[e.next]
                == self.base@[e.prev] + SIZE
        }
    }

    /// Two senders own nothing in common.
    pub open spec fn apart(g: Hold<T>, h: Hold<T>) -> bool {
        &&& g.spare != 0 ==> g.spare != h.spare
        &&& g.slot is Some && h.slot is Some ==> g.slot->0.block != h.slot->0.block
            || g.slot->0.index != h.slot->0.index
        &&& g.edge is Some && h.edge is Some ==> g.edge->0.prev != h.edge->0.prev
    }

    /// Some sender owns the slot.
    pub open spec fn claimed(hs: Map<int, Hold<T>>, a: usize, s: int) -> bool {
        exists|i: int| #[trigger]
            hs.contains_key(i) && hs[i].slot is Some && hs[i].slot->0.block == a
                && hs[i].slot->0.index == s
    }

    /// Some sender owns the link behind `a`.
    pub open spec fn edged(hs: Map<int, Hold<T>>, a: usize) -> bool {
        exists|i: int| #[trigger]
            hs.contains_key(i) && hs[i].edge is Some && hs[i].edge->0.prev == a
    }

    /// The holds of all the senders fit the memory and each other, and what is claimed or
    /// appended but not yet filled or linked is owned by one of them.
    pub open spec fn inv_holds(self, hs: Map<int, Hold<T>>) -> bool {
        &&& forall|i: int| #[trigger] hs.contains_key(i) ==> self.hold_ok(hs[i])
        &&& forall|i: int, j: int| #[trigger]
            hs.contains_key(i) && #[trigger] hs.contains_key(j) && i != j ==> Self::apart(
                hs[i],
                hs[j],
            )
        &&& forall|a: usize, s: int|
            self.live(a) && 0 <= s < SIZE && self.at(a, s) < self.log@.len() && !(
            #[trigger] self.slot(a, s)).stored ==> Self::claimed(hs, a, s)
        &&& forall|a: usize|
            #![trigger self.live(a)]
            self.live(a) && a != self.last@ && self.next(a) == 0 ==> Self::edged(hs, a)
        &&& self.head == 0 && self.last@ != 0 ==> Self::edged(hs, 0)
    }

    /// The invariant of the memory together with the senders that are under way.
    #[verifier::opaque]
    pub open spec fn inv(self, hs: Map<int, Hold<T>>) -> bool {
        &&& self.heap.wf()
        &&& 0 < SIZE <= ALIGN
        &&& self.inv_order()
        &&& self.inv_head()
        &&& self.inv_slots()
        &&& self.inv_holds(hs)
    }

    /// The invariant while no sender is under way.
    pub open spec fn wf(self) -> bool {
        self.inv(Map::empty())
    }

    // ---- the accesses, as relations between the memory before and after ----

    /// Only the block at `a` may differ, and only in its slots and link.
    pub open spec fn same_but(self, post: Self, a: usize) -> bool {
        &&& post.heap@.dom() == self.heap@.dom()
        &&& post.heap.fresh() == self.heap.fresh()
        &&& post.heap.room() == self.heap.room()
        &&& post.heap.wf()
        &&& forall|b: usize| #[trigger]
            self.heap@.contains_key(b) && b != a ==> post.heap@[b] == self.heap@[b]
    }

    /// The ghost record is unchanged.
    pub open spec fn same_record(self, post: Self) -> bool {
        &&& post.log == self.log
        &&& post.base == self.base
        &&& post.last == self.last
    }

    /// Of the ghost record only the places of freed blocks may be gone.
    pub open spec fn kept_record(self, post: Self) -> bool {
        &&& post.log == self.log
        &&& post.last == self.last
        &&& forall|a: usize| #[trigger]
            post.linked(a) ==> self.linked(a) && post.base@[a] == self.base@[a]
        &&& self.last@ != 0 ==> post.linked(self.last@)
    }

    /// The consumer's place is unchanged.
    pub open spec fn same_place(self, post: Self) -> bool {
        &&& post.head == self.head
        &&& post.index == self.index
    }

    /// A blank block was put on the heap.
    pub open spec fn allocated(self, post: Self, a: usize) -> bool {
        &&& a == self.heap.fresh()
        &&& post.heap.wf()
        &&& post.heap.room() == self.heap.room() - 1
        &&& post.heap@ == self.heap@.insert(a, post.heap@[a])
        &&& post.heap@[a].blank()
        &&& post.heap@[a].slots@.len() == SIZE
        &&& self.same_record(post)
        &&& self.same_place(post)
    }

    /// The block at `a` was taken off the heap.
    pub open spec fn released(self, post: Self, a: usize) -> bool {
        &&& post.heap.wf()
        &&& post.heap.room() == self.heap.room() + 1
        &&& post.heap@ == self.heap@.remove(a)
        &&& post.log == self.log
        &&& post.base@ == self.base@.remove(a)
        &&& post.last == self.last
        &&& self.same_place(post)
    }

    /// `value` was put into the slot and marked as stored.
    pub open spec fn published(self, post: Self, a: usize, s: int, value: T) -> bool {
        &&& self.same_but(post, a)
        &&& post.next(a) == self.next(a)
        &&& post.heap@[a].slots@ == self.heap@[a].slots@.update(
            s,
            Slot { stored: true, value: Some(value) },
        )
        &&& self.same_record(post)
        &&& self.same_place(post)
    }

    /// `next` was stored as the block that follows `prev`, or as the first block.
    pub open spec fn joined(self, post: Self, prev: usize, next: usize) -> bool {
        &&& self.same_record(post)
        &&& if prev == 0 {
            &&& post.heap == self.heap
            &&& post.head == next
            &&& post.index == self.index
        } else {
            &&& self.same_but(post, prev)
            &&& post.next(prev) == next
            &&& post.heap@[prev].slots@ == self.heap@[prev].slots@
            &&& self.same_place(post)
        }
    }

    /// A value was appended to the record: the next slot of the last block is claimed for it.
    pub open spec fn claim(self, value: T) -> Self {
        Chain { log: Ghost(self.log@.push(value)), ..self }
    }

    /// The block at `a` was appended to the record.
    pub open spec fn append(self, a: usize) -> Self {
        Chain {
            base: Ghost(
                self.base@.insert(
                    a,
                    if self.last@ == 0 {
                        0
                    } else {
                        self.base@[self.last@] + SIZE as nat
                    },
                ),
            ),
            last: Ghost(a),
            ..self
        }
    }

    /// The consumer went on to the next block; the one that it left is off the heap if `drop`.
    pub open spec fn advanced(self, post: Self, drop: bool) -> bool {
        &&& post.head == self.next(self.head)
        &&& post.index == 0
        &&& post.log == self.log
        &&& post.last == self.last
        &&& post.heap.wf()
        &&& if drop {
            &&& post.heap@ == self.heap@.remove(self.head)
            &&& post.heap.room() == self.heap.room() + 1
            &&& post.base@ == self.base@.remove(self.head)
        } else {
            &&& post.heap == self.heap
            &&& post.base == self.base
        }
    }

    /// The consumer took the value of its slot.
    pub open spec fn took(self, post: Self) -> bool {
        &&& post.head == self.head
        &&& post.index == self.index + 1
        &&& self.same_record(post)
        &&& self.same_but(post, self.head)
        &&& post.next(self.head) == self.next(self.head)
        &&& post.heap@[self.head].slots@ == self.heap@[self.head].slots@.update(
            self.index as int,
            Slot { stored: true, value: None },
        )
    }
}

impl<T, const SIZE: usize, const ALIGN: usize> Chain<T, SIZE, ALIGN> {
    /// A chain without blocks.
    pub fn new() -> (chain: Self)
        requires
            0 < SIZE <= ALIGN,
        ensures
            chain.wf(),
            chain.head == 0,
            chain.last@ == 0,
            chain.log@ == Seq::<T>::empty(),
            chain.heap.room() == (usize::MAX - ALIGN) / ALIGN as int,
            chain.heap@ == Map::<usize, Block<T>>::empty(),
    {
        reveal(Chain::inv);
        Chain {
            heap: Arena::new(),
            head: 0,
            index: 0,
            log: Ghost(Seq::empty()),
            base: Ghost(Map::empty()),
            last: Ghost(0),
        }
    }

    /// Puts a blank block on the heap.
    pub fn allocate(&mut self) -> (a: usize)
        requires
            old(self).heap.wf(),
            old(self).heap.has_room(),
        ensures
            old(self).allocated(*final(self), a),
    {
        let block: Block<T> = Block::new(SIZE);
        self.heap.allocate(block)
    }

    /// Takes the block at `a` off the heap.
    pub fn release(&mut self, a: usize)
        requires
            old(self).heap.wf(),
            old(self).heap@.contains_key(a),
        ensures
            old(self).released(*final(self), a),
    {
        self.heap.free(a);
        self.base = Ghost(self.base@.remove(a));
    }

    /// Records that the next slot of the last block is claimed for `value`.
    pub(crate) fn note_claim(&mut self, Ghost(value): Ghost<T>)
        ensures
            *final(self) == old(self).claim(value),
    {
        self.log = Ghost(self.log@.push(value));
    }

    /// Records that the block at `a` is appended.
    pub(crate) fn note_append(&mut self, a: usize)
        ensures
            *final(self) == old(self).append(a),
    {
        let ghost appended = self.append(a);
        self.base = Ghost(appended.base@);
        self.last = Ghost(a);
    }

    /// Fills a claimed slot and marks it as stored.
    pub fn publish(&mut self, a: usize, s: usize, value: T)
        requires
            old(self).heap.wf(),
            old(self).heap@.contains_key(a),
            s < old(self).heap@[a].slots@.len(),
        ensures
            old(self).published(*final(self), a, s as int, value),
    {
        let mut block = self.heap.lend(a);
        block.slots.set(s, Slot { stored: true, value: Some(value) });
        self.heap.put(a, block);
        assert(self.heap@.dom() =~= old(self).heap@.dom());
    }

    /// Stores `next` as the block that follows `prev`, or as the first block if `prev` is zero.
    pub fn join(&mut self, prev: usize, next: usize)
        requires
            old(self).heap.wf(),
            prev != 0 ==> old(self).heap@.contains_key(prev),
        ensures
            old(self).joined(*final(self), prev, next),
    {
        if prev == 0 {
            self.head = next;
        } else {
            let mut block = self.heap.lend(prev);
            block.next = next;
            self.heap.put(prev, block);
            assert(self.heap@.dom() =~= old(self).heap@.dom());
        }
    }

    /// The block that follows the block at `a`.
    pub fn follower(&self, a: usize) -> (next: usize)
        requires
            self.heap@.contains_key(a),
        ensures
            next == self.next(a),
    {
        self.heap.get(a).next
    }

    /// Whether the slot is marked as stored.
    pub fn is_stored(&self, a: usize, s: usize) -> (stored: bool)
        requires
            self.heap@.contains_key(a),
            s < self.heap@[a].slots@.len(),
        ensures
            stored == self.slot(a, s as int).stored,
    {
        self.heap.get(a).slots[s].stored
    }

    /// Moves the consumer to the block that follows, and frees the one that it leaves if `drop`.
    pub fn advance(&mut self, drop: bool)
        requires
            old(self).heap.wf(),
            old(self).heap@.contains_key(old(self).head),
        ensures
            old(self).advanced(*final(self), drop),
    {
        let next: usize = self.follower(self.head);
        if drop {
            self.heap.free(self.head);
            self.base = Ghost(self.base@.remove(self.head));
        }
        self.head = next;
        self.index = 0;
    }

    /// Takes the value of the consumer's slot.
    pub fn take(&mut self) -> (value: T)
        requires
            old(self).heap.wf(),
            old(self).heap@.contains_key(old(self).head),
            old(self).index < old(self).heap@[old(self).head].slots@.len(),
            old(self).slot(old(self).head, old(self).index as int).stored,
            old(self).slot(old(self).head, old(self).index as int).value is Some,
        ensures
            old(self).took(*final(self)),
            Some(value) == old(self).slot(old(self).head, old(self).index as int).value,
    {
        let a: usize = self.head;
        let s: usize = self.index;
        let mut block = self.heap.lend(a);
        let value = block.slots[s].value.take();
        assert(s < block.slots.len());
        self.heap.put(a, block);
        self.index = s + 1;
        assert(self.heap@.dom() =~= old(self).heap@.dom());
        assert(self.heap@[a].slots@ =~= old(self).heap@[a].slots@.update(
            s as int,
            Slot { stored: true, value: None },
        ));
        value.unwrap()
    }
}

// ---- every access keeps the invariant, whatever the other senders are doing ----

impl<T, const SIZE: usize, const ALIGN: usize> Chain<T, SIZE, ALIGN> {
    /// When the hold of sender `i` changes, the slots and links of the others stay owned.
    proof fn lemma_owners(hs: Map<int, Hold<T>>, i: int, h: Hold<T>)
        requires
            hs.contains_key(i),
        ensures
            forall|a: usize, s: int| #[trigger]
                Self::claimed(hs, a, s) && !(hs[i].slot is Some && hs[i].slot->0.block == a
                    && hs[i].slot->0.index == s) ==> Self::claimed(hs.insert(i, h), a, s),
            forall|a: usize| #[trigger]
                Self::edged(hs, a) && !(hs[i].edge is Some && hs[i].edge->0.prev == a)
                    ==> Self::edged(hs.insert(i, h), a),
            h.slot is Some ==> Self::claimed(
                hs.insert(i, h),
                h.slot->0.block,
                h.slot->0.index,
            ),
            h.edge is Some ==> Self::edged(hs.insert(i, h), h.edge->0.prev),
    {
        let gs = hs.insert(i, h);
        assert(gs.contains_key(i));
        assert forall|a: usize, s: int| #[trigger]
            Self::claimed(hs, a, s) && !(hs[i].slot is Some && hs[i].slot->0.block == a
                && hs[i].slot->0.index == s) implies Self::claimed(gs, a, s) by {
            let j = choose|j: int| #[trigger]
                hs.contains_key(j) && hs[j].slot is Some && hs[j].slot->0.block == a
                    && hs[j].slot->0.index == s;
            assert(gs.contains_key(j));
        }
        assert forall|a: usize| #[trigger]
            Self::edged(hs, a) && !(hs[i].edge is Some && hs[i].edge->0.prev == a) implies Self::edged(
            gs,
            a,
        ) by {
            let j = choose|j: int| #[trigger]
                hs.contains_key(j) && hs[j].edge is Some && hs[j].edge->0.prev == a;
            assert(gs.contains_key(j));
        }
    }

    /// Some of what the invariant says.
    pub proof fn lemma_facts(self, hs: Map<int, Hold<T>>)
        requires
            self.inv(hs),
        ensures
            self.heap.wf(),
            0 < SIZE <= ALIGN,
            0 <= self.taken() <= self.log@.len(),
            self.last@ == 0 ==> self.log@.len() == 0 && self.head == 0,
            self.last@ != 0 ==> {
                &&& self.linked(self.last@)
                &&& self.last@ % ALIGN == 0
                &&& self.base@[self.last@] <= self.log@.len() <= self.base@[self.last@] + SIZE
            },
            forall|i: int| #[trigger] hs.contains_key(i) ==> self.hold_ok(hs[i]),
            self.head == 0 ==> self.index == 0,
            self.head != 0 ==> self.live(self.head) && self.index <= SIZE,
            forall|a: usize| #[trigger]
                self.heap@.contains_key(a) ==> self.heap@[a].slots@.len() == SIZE,
    {
        reveal(Chain::inv);
    }

    /// A sender that owns nothing may come in.
    pub proof fn lemma_enter(self, hs: Map<int, Hold<T>>, i: int)
        requires
            self.inv(hs),
            hs.contains_key(i) ==> hs[i] == idle::<T>(),
        ensures
            self.inv(hs.insert(i, idle())),
    {
        reveal(Chain::inv);
        let gs = hs.insert(i, idle());
        assert forall|a: usize, s: int| #[trigger] Self::claimed(hs, a, s) implies Self::claimed(
            gs,
            a,
            s,
        ) by {
            let j = choose|j: int| #[trigger]
                hs.contains_key(j) && hs[j].slot is Some && hs[j].slot->0.block == a
                    && hs[j].slot->0.index == s;
            assert(gs.contains_key(j));
        }
        assert forall|a: usize| #[trigger] Self::edged(hs, a) implies Self::edged(gs, a) by {
            let j = choose|j: int| #[trigger]
                hs.contains_key(j) && hs[j].edge is Some && hs[j].edge->0.prev == a;
            assert(gs.contains_key(j));
        }
        assert forall|j: int| #[trigger] gs.contains_key(j) && j != i implies hs.contains_key(j) by {}
    }

    /// A sender that owns nothing may leave.
    pub proof fn lemma_leave(self, hs: Map<int, Hold<T>>, i: int)
        requires
            self.inv(hs),
            hs.contains_key(i),
            hs[i] == idle::<T>(),
        ensures
            self.inv(hs.remove(i)),
    {
        reveal(Chain::inv);
        let gs = hs.remove(i);
        assert forall|a: usize, s: int| #[trigger] Self::claimed(hs, a, s) implies Self::claimed(
            gs,
            a,
            s,
        ) by {
            let j = choose|j: int| #[trigger]
                hs.contains_key(j) && hs[j].slot is Some && hs[j].slot->0.block == a
                    && hs[j].slot->0.index == s;
            assert(gs.contains_key(j));
        }
        assert forall|a: usize| #[trigger] Self::edged(hs, a) implies Self::edged(gs, a) by {
            let j = choose|j: int| #[trigger]
                hs.contains_key(j) && hs[j].edge is Some && hs[j].edge->0.prev == a;
            assert(gs.contains_key(j));
        }
        assert forall|j: int| #[trigger] gs.contains_key(j) implies hs.contains_key(j) by {}
    }

    /// A sender may allocate a block.
    pub proof fn lemma_allocate(self, post: Self, a: usize, hs: Map<int, Hold<T>>, i: int)
        requires
            self.inv(hs),
            self.allocated(post, a),
            hs.contains_key(i),
            hs[i].spare == 0,
        ensures
            a != 0,
            post.inv(hs.insert(i, Hold { spare: a, ready: None, ..hs[i] })),
    {
        reveal(Chain::inv);
        let h = Hold { spare: a, ready: None, ..hs[i] };
        let gs = hs.insert(i, h);
        assert(!self.heap@.contains_key(a));
        assert(!self.linked(a));
        assert forall|b: usize| #[trigger] self.heap@.contains_key(b) implies post.heap@.contains_key(
            b,
        ) && post.heap@[b] == self.heap@[b] && b != a by {}
        self.lemma_frame(post);
        assert forall|b: usize| #[trigger] post.heap@.contains_key(b) implies post.heap@[b].slots@.len()
            == SIZE by {
            if b != a {
                assert(self.heap@.contains_key(b));
            }
        }
        self.lemma_frame_holds(post, hs, i, h);
    }

    /// If the record and the consumer's place are unchanged and the blocks of the chain are the
    /// same, then so is what the invariant says of them.
    proof fn lemma_frame(self, post: Self)
        requires
            self.inv_order(),
            self.inv_head(),
            self.inv_slots(),
            self.same_record(post),
            self.same_place(post),
            forall|b: usize| #[trigger]
                self.live(b) ==> post.heap@.contains_key(b) && post.heap@[b] == self.heap@[b],
            forall|b: usize| #[trigger] post.live(b) ==> self.live(b),
        ensures
            post.inv_order(),
            post.inv_head(),
            (forall|a: usize| #[trigger]
                post.heap@.contains_key(a) ==> post.heap@[a].slots@.len() == SIZE)
                ==> post.inv_slots(),
    {
        assert forall|b: usize| #[trigger] post.linked(b) == self.linked(b) by {}
        assert forall|b: usize| #[trigger] post.linked(b) implies post.heap@.contains_key(b) by {
            assert(self.linked(b) && self.live(b));
        }
        assert(self.head != 0 ==> self.live(self.head));
        assert forall|b: usize| #[trigger] post.live(b) && post.next(b) != 0 && !post.behind(b) implies post.linked(
            post.next(b),
        ) && post.base@[post.next(b)] == post.base@[b] + SIZE by {
            assert(self.live(b));
        }
        assert forall|b: usize, s: int| post.live(b) && 0 <= s < SIZE implies {
            let slot = #[trigger] post.slot(b, s);
            &&& slot.stored ==> post.at(b, s) < post.log@.len()
            &&& slot.stored && post.taken() <= post.at(b, s) ==> slot.value == Some(
                post.log@[post.at(b, s)],
            )
            &&& post.at(b, s) < post.taken() ==> slot.stored
        } by {
            assert(self.live(b));
            assert(self.slot(b, s) == post.slot(b, s));
        }
    }

    /// The same for the holds, if only the spare block of sender `i` changes.
    proof fn lemma_frame_holds(self, post: Self, hs: Map<int, Hold<T>>, i: int, h: Hold<T>)
        requires
            self.inv_holds(hs),
            self.same_record(post),
            self.same_place(post),
            hs.contains_key(i),
            h.slot == hs[i].slot,
            h.edge == hs[i].edge,
            post.hold_ok(h),
            forall|j: int| #[trigger]
                hs.contains_key(j) && j != i && h.spare != 0 ==> hs[j].spare != h.spare,
            forall|j: int| #[trigger]
                hs.contains_key(j) && j != i && hs[j].spare != 0 ==> post.heap@.contains_key(
                    hs[j].spare,
                ) && post.heap@[hs[j].spare] == self.heap@[hs[j].spare],
            forall|b: usize| #[trigger]
                self.live(b) ==> post.heap@.contains_key(b) && post.heap@[b] == self.heap@[b],
            forall|b: usize| #[trigger] post.live(b) ==> self.live(b),
        ensures
            post.inv_holds(hs.insert(i, h)),
    {
        let gs = hs.insert(i, h);
        Self::lemma_owners(hs, i, h);
        assert forall|j: int| #[trigger] gs.contains_key(j) implies post.hold_ok(gs[j]) by {
            if j != i {
                assert(hs.contains_key(j));
                assert(self.hold_ok(hs[j]));
            }
        }
        assert forall|j: int, k: int| #[trigger]
            gs.contains_key(j) && #[trigger] gs.contains_key(k) && j != k implies Self::apart(
            gs[j],
            gs[k],
        ) by {
            assert(hs.contains_key(j) && hs.contains_key(k));
            assert(Self::apart(hs[j], hs[k]));
        }
        assert forall|b: usize, s: int|
            post.live(b) && 0 <= s < SIZE && post.at(b, s) < post.log@.len() && !(#[trigger] post.slot(
                b,
                s,
            )).stored implies Self::claimed(gs, b, s) by {
            assert(self.live(b) && !self.slot(b, s).stored);
            assert(Self::claimed(hs, b, s));
        }
        assert forall|b: usize|
            #![trigger post.live(b)]
            post.live(b) && b != post.last@ && post.next(b) == 0 implies Self::edged(gs, b) by {
            assert(self.live(b));
            assert(Self::edged(hs, b));
        }
        if self.head == 0 && self.last@ != 0 {
            assert(Self::edged(hs, 0));
        }
    }

    /// A sender may free the block that it allocated and did not use.
    pub proof fn lemma_release(self, post: Self, hs: Map<int, Hold<T>>, i: int)
        requires
            self.inv(hs),
            hs.contains_key(i),
            hs[i].spare != 0,
            self.released(post, hs[i].spare),
        ensures
            post.inv(hs.insert(i, Hold { spare: 0, ready: None, ..hs[i] })),
    {
        reveal(Chain::inv);
        let a = hs[i].spare;
        let h = Hold { spare: 0, ready: None, ..hs[i] };
        assert(self.hold_ok(hs[i]));
        assert(post.base@ =~= self.base@);
        assert forall|b: usize| #[trigger] self.heap@.contains_key(b) && b != a implies post.heap@.contains_key(
        b) && post.heap@[b] == self.heap@[b] by {}
        assert forall|b: usize| #[trigger] post.heap@.contains_key(b) implies self.heap@.contains_key(b)
            && b != a by {}
        self.lemma_frame(post);
        assert forall|j: int| #[trigger] hs.contains_key(j) && j != i && hs[j].spare
            != 0 implies post.heap@.contains_key(hs[j].spare) && post.heap@[hs[j].spare]
            == self.heap@[hs[j].spare] by {
            assert(self.hold_ok(hs[j]));
            assert(Self::apart(hs[i], hs[j]));
        }
        self.lemma_frame_holds(post, hs, i, h);
    }

    /// A sender may forget the block that it allocated; nobody frees it then.
    pub proof fn lemma_forget(self, hs: Map<int, Hold<T>>, i: int)
        requires
            self.inv(hs),
            hs.contains_key(i),
        ensures
            self.inv(hs.insert(i, Hold { spare: 0, ready: None, ..hs[i] })),
    {
        reveal(Chain::inv);
        let h = Hold { spare: 0, ready: None, ..hs[i] };
        let gs = hs.insert(i, h);
        Self::lemma_owners(hs, i, h);
        assert(self.hold_ok(hs[i]));
        assert forall|k: int| #[trigger] gs.contains_key(k) implies self.hold_ok(gs[k]) by {
            assert(hs.contains_key(k));
        }
        assert forall|k: int, l: int| #[trigger]
            gs.contains_key(k) && #[trigger] gs.contains_key(l) && k != l implies Self::apart(
            gs[k],
            gs[l],
        ) by {
            assert(hs.contains_key(k) && hs.contains_key(l));
            assert(Self::apart(hs[k], hs[l]));
        }
    }

    /// A sender may hand its block to another one that has none.
    pub proof fn lemma_give_spare(self, hs: Map<int, Hold<T>>, i: int, j: int)
        requires
            self.inv(hs),
            hs.contains_key(i),
            hs.contains_key(j),
            i != j,
            hs[j].spare == 0,
        ensures
            self.inv(
                hs.insert(i, Hold { spare: 0, ready: None, ..hs[i] }).insert(
                    j,
                    Hold { spare: hs[i].spare, ready: hs[i].ready, ..hs[j] },
                ),
            ),
    {
        reveal(Chain::inv);
        let g = Hold { spare: 0, ready: None, ..hs[i] };
        let h = Hold { spare: hs[i].spare, ready: hs[i].ready, ..hs[j] };
        let gs = hs.insert(i, g).insert(j, h);
        assert(self.hold_ok(hs[i]) && self.hold_ok(hs[j]));
        assert forall|k: int| #[trigger] gs.contains_key(k) implies self.hold_ok(gs[k]) by {
            assert(hs.contains_key(k));
        }
        assert forall|k: int, l: int| #[trigger]
            gs.contains_key(k) && #[trigger] gs.contains_key(l) && k != l implies Self::apart(
            gs[k],
            gs[l],
        ) by {
            assert(hs.contains_key(k) && hs.contains_key(l));
            assert(Self::apart(hs[k], hs[l]));
            assert(k != i ==> Self::apart(hs[i], hs[k]) && Self::apart(hs[k], hs[i]));
            assert(l != i ==> Self::apart(hs[i], hs[l]) && Self::apart(hs[l], hs[i]));
        }
        assert forall|a: usize, s: int| Self::claimed(hs, a, s) implies #[trigger] Self::claimed(
            gs,
            a,
            s,
        ) by {
            let k = choose|k: int| #[trigger]
                hs.contains_key(k) && hs[k].slot is Some && hs[k].slot->0.block == a
                    && hs[k].slot->0.index == s;
            assert(gs.contains_key(k));
        }
        assert forall|a: usize| Self::edged(hs, a) implies #[trigger] Self::edged(gs, a) by {
            let k = choose|k: int| #[trigger]
                hs.contains_key(k) && hs[k].edge is Some && hs[k].edge->0.prev == a;
            assert(gs.contains_key(k));
        }
    }

    /// A sender may hand the link that it has to store to another one that has none.
    pub proof fn lemma_give_edge(self, hs: Map<int, Hold<T>>, i: int, j: int)
        requires
            self.inv(hs),
            hs.contains_key(i),
            hs.contains_key(j),
            i != j,
            hs[j].edge is None,
        ensures
            self.inv(
                hs.insert(i, Hold { edge: None, ..hs[i] }).insert(
                    j,
                    Hold { edge: hs[i].edge, ..hs[j] },
                ),
            ),
    {
        reveal(Chain::inv);
        let g = Hold { edge: None, ..hs[i] };
        let h = Hold { edge: hs[i].edge, ..hs[j] };
        let gs = hs.insert(i, g).insert(j, h);
        assert(self.hold_ok(hs[i]) && self.hold_ok(hs[j]));
        assert forall|k: int| #[trigger] gs.contains_key(k) implies self.hold_ok(gs[k]) by {
            assert(hs.contains_key(k));
        }
        assert forall|k: int, l: int| #[trigger]
            gs.contains_key(k) && #[trigger] gs.contains_key(l) && k != l implies Self::apart(
            gs[k],
            gs[l],
        ) by {
            assert(hs.contains_key(k) && hs.contains_key(l));
            assert(Self::apart(hs[k], hs[l]));
            assert(k != i ==> Self::apart(hs[i], hs[k]) && Self::apart(hs[k], hs[i]));
            assert(l != i ==> Self::apart(hs[i], hs[l]) && Self::apart(hs[l], hs[i]));
        }
        assert forall|a: usize, s: int| Self::claimed(hs, a, s) implies #[trigger] Self::claimed(
            gs,
            a,
            s,
        ) by {
            let k = choose|k: int| #[trigger]
                hs.contains_key(k) && hs[k].slot is Some && hs[k].slot->0.block == a
                    && hs[k].slot->0.index == s;
            assert(gs.contains_key(k));
        }
        assert forall|a: usize| Self::edged(hs, a) implies #[trigger] Self::edged(gs, a) by {
            let k = choose|k: int| #[trigger]
                hs.contains_key(k) && hs[k].edge is Some && hs[k].edge->0.prev == a;
            assert(gs.contains_key(k));
            assert(gs.contains_key(j));
        }
    }

    /// A sender may store a value in the first slot of the block that it allocated.
    pub proof fn lemma_prime(self, post: Self, hs: Map<int, Hold<T>>, i: int, value: T)
        requires
            self.inv(hs),
            hs.contains_key(i),
            hs[i].spare != 0,
            hs[i].ready is None,
            self.published(post, hs[i].spare, 0, value),
        ensures
            post.inv(hs.insert(i, Hold { ready: Some(value), ..hs[i] })),
    {
        reveal(Chain::inv);
        let a = hs[i].spare;
        let h = Hold { ready: Some(value), ..hs[i] };
        assert(self.hold_ok(hs[i]));
        assert forall|b: usize| #[trigger] self.heap@.contains_key(b) == post.heap@.contains_key(b) by {
            assert(self.heap@.dom().contains(b) == post.heap@.dom().contains(b));
        }
        self.lemma_frame(post);
        assert forall|b: usize| #[trigger] post.heap@.contains_key(b) implies post.heap@[b].slots@.len()
            == SIZE by {
            assert(self.heap@.contains_key(b));
        }
        assert forall|j: int| #[trigger] hs.contains_key(j) && j != i && hs[j].spare
            != 0 implies post.heap@.contains_key(hs[j].spare) && post.heap@[hs[j].spare]
            == self.heap@[hs[j].spare] by {
            assert(self.hold_ok(hs[j]));
            assert(Self::apart(hs[i], hs[j]));
        }
        self.lemma_frame_holds(post, hs, i, h);
    }

    /// A sender may fill the slot that it has claimed.
    pub proof fn lemma_publish(self, post: Self, hs: Map<int, Hold<T>>, i: int)
        requires
            self.inv(hs),
            hs.contains_key(i),
            hs[i].slot is Some,
            self.published(
                post,
                hs[i].slot->0.block,
                hs[i].slot->0.index,
                hs[i].slot->0.value,
            ),
        ensures
            post.inv(hs.insert(i, Hold { slot: None, ..hs[i] })),
    {
        reveal(Chain::inv);
        let c = hs[i].slot->0;
        let h = Hold { slot: None, ..hs[i] };
        let gs = hs.insert(i, h);
        assert(self.hold_ok(hs[i]));
        assert forall|b: usize| #[trigger] self.heap@.contains_key(b) == post.heap@.contains_key(b) by {
            assert(self.heap@.dom().contains(b) == post.heap@.dom().contains(b));
        }
        assert forall|b: usize| #[trigger] post.linked(b) == self.linked(b) by {}
        assert forall|b: usize| #[trigger] post.live(b) == self.live(b) by {}
        assert forall|b: usize| #[trigger] self.heap@.contains_key(b) implies post.next(b) == self.next(
            b,
        ) && post.heap@[b].slots@.len() == self.heap@[b].slots@.len() by {}
        assert forall|b: usize, s: int|
            self.heap@.contains_key(b) && 0 <= s < SIZE && !(b == c.block && s
                == c.index) implies #[trigger] post.slot(b, s) == self.slot(b, s) by {}
        assert(post.slot(c.block, c.index) == Slot { stored: true, value: Some(c.value) });
        assert(post.inv_order());
        assert(post.inv_head()) by {
            assert(self.head != 0 ==> self.live(self.head));
        }
        assert(post.inv_slots()) by {
            assert forall|b: usize| #[trigger] post.live(b) && post.next(b) != 0 && !post.behind(b) implies post.linked(
                post.next(b),
            ) && post.base@[post.next(b)] == post.base@[b] + SIZE by {
                assert(self.live(b));
            }
            assert forall|b: usize, s: int| post.live(b) && 0 <= s < SIZE implies {
                let slot = #[trigger] post.slot(b, s);
                &&& slot.stored ==> post.at(b, s) < post.log@.len()
                &&& slot.stored && post.taken() <= post.at(b, s) ==> slot.value == Some(
                    post.log@[post.at(b, s)],
                )
                &&& post.at(b, s) < post.taken() ==> slot.stored
            } by {
                assert(self.live(b));
                let before = self.slot(b, s);
            }
        }
        Self::lemma_owners(hs, i, h);
        assert forall|j: int| #[trigger] gs.contains_key(j) implies post.hold_ok(gs[j]) by {
            assert(hs.contains_key(j));
            assert(self.hold_ok(hs[j]));
            if j != i {
                assert(Self::apart(hs[i], hs[j]));
            }
        }
        assert forall|j: int, k: int| #[trigger]
            gs.contains_key(j) && #[trigger] gs.contains_key(k) && j != k implies Self::apart(
            gs[j],
            gs[k],
        ) by {
            assert(hs.contains_key(j) && hs.contains_key(k));
            assert(Self::apart(hs[j], hs[k]));
        }
        assert forall|b: usize, s: int|
            post.live(b) && 0 <= s < SIZE && post.at(b, s) < post.log@.len() && !(#[trigger] post.slot(
                b,
                s,
            )).stored implies Self::claimed(gs, b, s) by {
            assert(self.live(b) && !self.slot(b, s).stored);
            assert(Self::claimed(hs, b, s));
        }
        assert forall|b: usize|
            #![trigger post.live(b)]
            post.live(b) && b != post.last@ && post.next(b) == 0 implies Self::edged(gs, b) by {
            assert(self.live(b));
            assert(Self::edged(hs, b));
        }
        if self.head == 0 && self.last@ != 0 {
            assert(Self::edged(hs, 0));
        }
    }

    /// A sender may store the link of the block that it has appended.
    pub proof fn lemma_join(self, post: Self, hs: Map<int, Hold<T>>, i: int)
        requires
            self.inv(hs),
            hs.contains_key(i),
            hs[i].edge is Some,
            self.joined(post, hs[i].edge->0.prev, hs[i].edge->0.next),
        ensures
            post.inv(hs.insert(i, Hold { edge: None, ..hs[i] })),
    {
        reveal(Chain::inv);
        let e = hs[i].edge->0;
        let h = Hold { edge: None, ..hs[i] };
        let gs = hs.insert(i, h);
        assert(self.hold_ok(hs[i]));
        assert forall|b: usize| #[trigger] self.heap@.contains_key(b) == post.heap@.contains_key(b) by {
            assert(self.heap@.dom().contains(b) == post.heap@.dom().contains(b));
        }
        assert forall|b: usize| #[trigger] post.linked(b) == self.linked(b) by {}
        assert forall|b: usize| #[trigger] post.live(b) == self.live(b) by {}
        assert(e.prev == 0 ==> self.live(e.next));
        assert(post.taken() == self.taken());
        assert forall|b: usize| #[trigger] self.heap@.contains_key(b) implies post.heap@[b].slots@
            == self.heap@[b].slots@ && (b != e.prev ==> post.next(b) == self.next(b)) by {}
        assert forall|b: usize, s: int| self.heap@.contains_key(b) implies #[trigger] post.slot(b, s)
            == self.slot(b, s) by {}
        assert(post.inv_order());
        assert(post.inv_head()) by {
            assert(self.head != 0 ==> self.live(self.head));
        }
        assert(post.inv_slots()) by {
            assert forall|b: usize| #[trigger] post.live(b) && post.next(b) != 0 && !post.behind(b) implies post.linked(
                post.next(b),
            ) && post.base@[post.next(b)] == post.base@[b] + SIZE by {
                assert(self.live(b));
            }
            assert forall|b: usize, s: int| post.live(b) && 0 <= s < SIZE implies {
                let slot = #[trigger] post.slot(b, s);
                &&& slot.stored ==> post.at(b, s) < post.log@.len()
                &&& slot.stored && post.taken() <= post.at(b, s) ==> slot.value == Some(
                    post.log@[post.at(b, s)],
                )
                &&& post.at(b, s) < post.taken() ==> slot.stored
            } by {
                assert(self.live(b));
                let before = self.slot(b, s);
            }
        }
        Self::lemma_owners(hs, i, h);
        assert forall|j: int| #[trigger] gs.contains_key(j) implies post.hold_ok(gs[j]) by {
            assert(hs.contains_key(j));
            assert(self.hold_ok(hs[j]));
            if j != i {
                assert(Self::apart(hs[i], hs[j]));
            }
        }
        assert forall|j: int, k: int| #[trigger]
            gs.contains_key(j) && #[trigger] gs.contains_key(k) && j != k implies Self::apart(
            gs[j],
            gs[k],
        ) by {
            assert(hs.contains_key(j) && hs.contains_key(k));
            assert(Self::apart(hs[j], hs[k]));
        }
        assert forall|b: usize, s: int|
            post.live(b) && 0 <= s < SIZE && post.at(b, s) < post.log@.len() && !(#[trigger] post.slot(
                b,
                s,
            )).stored implies Self::claimed(gs, b, s) by {
            assert(self.live(b) && !self.slot(b, s).stored);
            assert(Self::claimed(hs, b, s));
        }
        assert forall|b: usize|
            #![trigger post.live(b)]
            post.live(b) && b != post.last@ && post.next(b) == 0 implies Self::edged(gs, b) by {
            assert(self.live(b));
            if b != e.prev {
                assert(Self::edged(hs, b));
            }
        }
        if post.head == 0 && self.last@ != 0 {
            assert(Self::edged(hs, 0));
        }
    }

    /// The slot that the next claim gets.
    pub open spec fn next_claim(self, value: T) -> Claim<T> {
        Claim { block: self.last@, index: self.log@.len() - self.base@[self.last@], value }
    }

    /// A sender may claim the next slot of the last block.
    pub proof fn lemma_claim(self, hs: Map<int, Hold<T>>, i: int, value: T)
        requires
            self.inv(hs),
            hs.contains_key(i),
            hs[i].slot is None,
            self.last@ != 0,
            self.log@.len() < self.base@[self.last@] + SIZE,
        ensures
            self.claim(value).inv(
                hs.insert(i, Hold { slot: Some(self.next_claim(value)), ..hs[i] }),
            ),
    {
        reveal(Chain::inv);
        let post = self.claim(value);
        let c = self.next_claim(value);
        let h = Hold { slot: Some(c), ..hs[i] };
        let gs = hs.insert(i, h);
        assert(self.hold_ok(hs[i]));
        assert forall|b: usize| #[trigger] post.linked(b) == self.linked(b) by {}
        assert forall|b: usize| #[trigger] post.live(b) == self.live(b) by {}
        assert(self.live(self.last@));
        assert forall|b: usize, s: int| #[trigger] post.slot(b, s) == self.slot(b, s) by {}
        assert(!self.slot(c.block, c.index).stored);
        assert(post.inv_order());
        assert(post.inv_slots()) by {
            assert forall|b: usize| #[trigger] post.live(b) && post.next(b) != 0 && !post.behind(b) implies post.linked(
                post.next(b),
            ) && post.base@[post.next(b)] == post.base@[b] + SIZE by {
                assert(self.live(b));
            }
            assert forall|b: usize, s: int| post.live(b) && 0 <= s < SIZE implies {
                let slot = #[trigger] post.slot(b, s);
                &&& slot.stored ==> post.at(b, s) < post.log@.len()
                &&& slot.stored && post.taken() <= post.at(b, s) ==> slot.value == Some(
                    post.log@[post.at(b, s)],
                )
                &&& post.at(b, s) < post.taken() ==> slot.stored
            } by {
                assert(self.live(b));
                let before = self.slot(b, s);
            }
        }
        Self::lemma_owners(hs, i, h);
        assert forall|j: int| #[trigger] gs.contains_key(j) implies post.hold_ok(gs[j]) by {
            assert(hs.contains_key(j));
            assert(self.hold_ok(hs[j]));
        }
        assert forall|j: int, k: int| #[trigger]
            gs.contains_key(j) && #[trigger] gs.contains_key(k) && j != k implies Self::apart(
            gs[j],
            gs[k],
        ) by {
            assert(hs.contains_key(j) && hs.contains_key(k));
            assert(Self::apart(hs[j], hs[k]));
            assert(self.hold_ok(hs[j]) && self.hold_ok(hs[k]));
        }
        assert forall|b: usize, s: int|
            post.live(b) && 0 <= s < SIZE && post.at(b, s) < post.log@.len() && !(#[trigger] post.slot(
                b,
                s,
            )).stored implies Self::claimed(gs, b, s) by {
            assert(self.live(b) && !self.slot(b, s).stored);
            if post.at(b, s) < self.log@.len() {
                assert(Self::claimed(hs, b, s));
            } else {
                assert(self.linked(b) && self.linked(self.last@));
                assert(b == c.block && s == c.index);
            }
        }
        assert forall|b: usize|
            #![trigger post.live(b)]
            post.live(b) && b != post.last@ && post.next(b) == 0 implies Self::edged(gs, b) by {
            assert(self.live(b));
            assert(Self::edged(hs, b));
        }
        if self.head == 0 && self.last@ != 0 {
            assert(Self::edged(hs, 0));
        }
    }

    /// A sender may append the block that it has allocated once the last one is full. A value
    /// that is ready in it is claimed and stored at once.
    pub proof fn lemma_append(self, hs: Map<int, Hold<T>>, i: int)
        requires
            self.inv(hs),
            hs.contains_key(i),
            hs[i].spare != 0,
            hs[i].edge is None,
            self.last@ != 0 ==> self.log@.len() == self.base@[self.last@] + SIZE,
        ensures
            ({
                let h = Hold {
                    spare: 0,
                    ready: None,
                    edge: Some(Edge { prev: self.last@, next: hs[i].spare }),
                    ..hs[i]
                };
                match hs[i].ready {
                    None => self.append(hs[i].spare).inv(hs.insert(i, h)),
                    Some(value) => self.append(hs[i].spare).claim(value).inv(hs.insert(i, h)),
                }
            }),
    {
        reveal(Chain::inv);
        let a = hs[i].spare;
        let post = match hs[i].ready {
            None => self.append(a),
            Some(value) => self.append(a).claim(value),
        };
        let e = Edge { prev: self.last@, next: a };
        let h = Hold { spare: 0, ready: None, edge: Some(e), ..hs[i] };
        let gs = hs.insert(i, h);
        assert(self.hold_ok(hs[i]));
        assert forall|b: usize| #[trigger] post.linked(b) == (self.linked(b) || b == a) by {}
        assert forall|b: usize| #[trigger] post.live(b) == (self.live(b) || b == a) by {}
        assert forall|b: usize| #[trigger] self.linked(b) implies post.base@[b] == self.base@[b] && b
            != a by {}
        if self.last@ != 0 {
            assert(self.linked(self.last@));
            assert(self.head != 0 ==> self.linked(self.head));
            assert(self.live(self.last@));
            if self.next(self.last@) != 0 {
                assert(self.linked(self.next(self.last@)));
            }
        }
        assert(self.last@ == 0 ==> self.head == 0);
        assert(post.base@[a] == self.log@.len());
        assert forall|b: usize, s: int| #[trigger] post.slot(b, s) == self.slot(b, s) by {}
        assert(post.taken() == self.taken());
        assert(post.inv_order()) by {
            assert forall|b: usize, d: usize| #[trigger]
                post.linked(b) && #[trigger] post.linked(d) && b != d implies post.base@[b] + SIZE
                <= post.base@[d] || post.base@[d] + SIZE <= post.base@[b] by {
                assert(b != a ==> self.linked(b));
                assert(d != a ==> self.linked(d));
            }
        }
        assert(post.inv_head()) by {
            assert(self.head != 0 ==> self.live(self.head));
        }
        assert(post.inv_slots()) by {
            assert forall|b: usize| #[trigger] post.live(b) && post.next(b) != 0 && !post.behind(b) implies post.linked(
                post.next(b),
            ) && post.base@[post.next(b)] == post.base@[b] + SIZE by {
                assert(self.live(b));
                assert(self.linked(self.next(b)));
            }
            assert forall|b: usize, s: int| post.live(b) && 0 <= s < SIZE implies {
                let slot = #[trigger] post.slot(b, s);
                &&& slot.stored ==> post.at(b, s) < post.log@.len()
                &&& slot.stored && post.taken() <= post.at(b, s) ==> slot.value == Some(
                    post.log@[post.at(b, s)],
                )
                &&& post.at(b, s) < post.taken() ==> slot.stored
            } by {
                let before = self.slot(b, s);
                if b != a {
                    assert(self.live(b));
                }
            }
        }
        Self::lemma_owners(hs, i, h);
        assert forall|j: int| #[trigger] gs.contains_key(j) implies post.hold_ok(gs[j]) by {
            assert(hs.contains_key(j));
            assert(self.hold_ok(hs[j]));
            if j != i {
                assert(Self::apart(hs[i], hs[j]));
            }
        }
        assert forall|j: int, k: int| #[trigger]
            gs.contains_key(j) && #[trigger] gs.contains_key(k) && j != k implies Self::apart(
            gs[j],
            gs[k],
        ) by {
            assert(hs.contains_key(j) && hs.contains_key(k));
            assert(Self::apart(hs[j], hs[k]));
            assert(self.hold_ok(hs[j]) && self.hold_ok(hs[k]));
            assert(forall|d: usize| #[trigger] self.linked(d) ==> self.base@[d] < self.log@.len() || SIZE == 0 || self.last@ == 0);
        }
        assert forall|b: usize, s: int|
            post.live(b) && 0 <= s < SIZE && post.at(b, s) < post.log@.len() && !(#[trigger] post.slot(
                b,
                s,
            )).stored implies Self::claimed(gs, b, s) by {
            let before = self.slot(b, s);
            if b != a {
                assert(self.live(b));
                assert(Self::claimed(hs, b, s));
            }
        }
        assert forall|b: usize|
            #![trigger post.live(b)]
            post.live(b) && b != post.last@ && post.next(b) == 0 implies Self::edged(gs, b) by {
            assert(self.live(b));
            if b != self.last@ {
                assert(Self::edged(hs, b));
            }
        }
        if post.head == 0 && self.last@ != 0 {
            assert(Self::edged(hs, 0));
        }
    }

    /// The consumer may go on to the next block, and free the one that it leaves.
    pub proof fn lemma_advance(self, post: Self, drop: bool, hs: Map<int, Hold<T>>)
        requires
            self.inv(hs),
            self.head != 0,
            self.index == SIZE,
            self.next(self.head) != 0,
            self.advanced(post, drop),
        ensures
            post.inv(hs),
            post.taken() == self.taken(),
            self.kept_record(post),
    {
        reveal(Chain::inv);
        let a = self.head;
        let n = self.next(a);
        assert(self.live(a));
        assert(self.linked(n) && self.live(n));
        assert(a != self.last@);
        assert forall|b: usize| #[trigger] post.linked(b) implies self.linked(b) && post.base@[b]
            == self.base@[b] && !(drop && b == a) by {}
        assert forall|b: usize| #[trigger] self.linked(b) && !(drop && b == a) implies post.linked(b)
            && post.base@[b] == self.base@[b] by {}
        assert forall|b: usize| #[trigger] post.heap@.contains_key(b) == (self.heap@.contains_key(b)
            && !(drop && b == a)) by {}
        assert forall|b: usize| #[trigger] post.live(b) implies self.live(b) && post.heap@[b]
            == self.heap@[b] by {}
        assert(post.inv_order());
        assert(post.inv_head()) by {
            assert(self.head != 0 ==> self.live(self.head));
        }
        assert(post.inv_slots()) by {
            assert forall|b: usize| #[trigger] post.heap@.contains_key(b) implies post.heap@[b].slots@.len()
                == SIZE by {
                assert(self.heap@.contains_key(b));
            }
            assert forall|b: usize| #[trigger] post.live(b) && post.next(b) != 0 && !post.behind(b) implies post.linked(
                post.next(b),
            ) && post.base@[post.next(b)] == post.base@[b] + SIZE by {
                assert(self.live(b));
            }
            assert forall|b: usize, s: int| post.live(b) && 0 <= s < SIZE implies {
                let slot = #[trigger] post.slot(b, s);
                &&& slot.stored ==> post.at(b, s) < post.log@.len()
                &&& slot.stored && post.taken() <= post.at(b, s) ==> slot.value == Some(
                    post.log@[post.at(b, s)],
                )
                &&& post.at(b, s) < post.taken() ==> slot.stored
            } by {
                assert(self.live(b));
                let before = self.slot(b, s);
            }
        }
        assert forall|j: int| #[trigger] hs.contains_key(j) implies post.hold_ok(hs[j]) by {
            assert(self.hold_ok(hs[j]));
            if hs[j].slot is Some && hs[j].slot->0.block == a {
                assert(!self.slot(a, hs[j].slot->0.index).stored);
            }
            if hs[j].edge is Some && hs[j].edge->0.prev != 0 {
                assert(self.live(hs[j].edge->0.prev));
                assert(self.linked(hs[j].edge->0.next));
            }
        }
        assert forall|b: usize, s: int|
            post.live(b) && 0 <= s < SIZE && post.at(b, s) < post.log@.len() && !(#[trigger] post.slot(
                b,
                s,
            )).stored implies Self::claimed(hs, b, s) by {
            assert(self.live(b) && !self.slot(b, s).stored);
        }
        assert forall|b: usize|
            #![trigger post.live(b)]
            post.live(b) && b != post.last@ && post.next(b) == 0 implies Self::edged(hs, b) by {
            assert(self.live(b));
        }
    }

    /// A block that the consumer has left behind may be taken off the heap.
    pub proof fn lemma_retire(self, post: Self, a: usize, hs: Map<int, Hold<T>>)
        requires
            self.inv(hs),
            self.head != 0,
            self.linked(a),
            self.base@[a] < self.base@[self.head],
            self.next(a) != 0,
            self.released(post, a),
        ensures
            post.inv(hs),
            post.taken() == self.taken(),
            self.kept_record(post),
    {
        reveal(Chain::inv);
        assert(self.live(self.head));
        assert(self.linked(self.head));
        assert(a != self.last@);
        assert forall|b: usize| #[trigger] post.linked(b) == (self.linked(b) && b != a) by {}
        assert forall|b: usize| #[trigger] post.linked(b) implies post.base@[b] == self.base@[b] by {}
        assert forall|b: usize| #[trigger] post.live(b) == (self.live(b) && b != a) by {}
        assert forall|b: usize| #[trigger] post.heap@.contains_key(b) implies self.heap@.contains_key(b)
            && b != a && post.heap@[b] == self.heap@[b] by {}
        assert(post.inv_order());
        assert(post.inv_head());
        assert forall|b: usize, k: int| post.live(b) && 0 <= k < SIZE implies post.slot(b, k)
            == self.slot(b, k) by {
            assert(self.live(b));
        }
        assert forall|b: usize| #[trigger] post.live(b) && post.next(b) != 0 && !post.behind(b) implies post.linked(
            post.next(b),
        ) && post.base@[post.next(b)] == post.base@[b] + SIZE by {
            assert(self.live(b));
        }
        assert forall|b: usize, k: int| post.live(b) && 0 <= k < SIZE implies {
            let slot = #[trigger] post.slot(b, k);
            &&& slot.stored ==> post.at(b, k) < post.log@.len()
            &&& slot.stored && post.taken() <= post.at(b, k) ==> slot.value == Some(
                post.log@[post.at(b, k)],
            )
            &&& post.at(b, k) < post.taken() ==> slot.stored
        } by {
            assert(self.live(b));
            assert(self.slot(b, k) == post.slot(b, k));
        }
        assert(post.inv_slots());
        assert forall|i: int| #[trigger] hs.contains_key(i) implies post.hold_ok(hs[i]) by {
            assert(self.hold_ok(hs[i]));
            if let Some(c) = hs[i].slot {
                if c.block == a {
                    assert(self.live(a));
                    assert(self.at(a, c.index) < self.taken());
                    assert(self.slot(a, c.index).stored);
                }
            }
            if hs[i].edge is Some && hs[i].edge->0.prev != 0 {
                assert(self.live(hs[i].edge->0.prev));
                assert(self.linked(hs[i].edge->0.next));
            }
        }
        assert forall|b: usize, k: int|
            post.live(b) && 0 <= k < SIZE && post.at(b, k) < post.log@.len() && !(
            #[trigger] post.slot(b, k)).stored implies Self::claimed(hs, b, k) by {
            assert(self.live(b));
            assert(self.slot(b, k) == post.slot(b, k));
        }
        assert forall|b: usize|
            #![trigger post.live(b)]
            post.live(b) && b != post.last@ && post.next(b) == 0 implies Self::edged(hs, b) by {
            assert(self.live(b));
        }
        assert(post.inv_holds(hs));
    }

    /// The consumer may take the value of its slot once it is stored; the value is the oldest
    /// one that was claimed and not yet taken.
    pub proof fn lemma_take(self, post: Self, hs: Map<int, Hold<T>>)
        requires
            self.inv(hs),
            self.head != 0,
            self.index < SIZE,
            self.slot(self.head, self.index as int).stored,
            self.took(post),
        ensures
            post.inv(hs),
            self.taken() < self.log@.len(),
            post.taken() == self.taken() + 1,
            self.slot(self.head, self.index as int).value == Some(self.log@[self.taken()]),
    {
        reveal(Chain::inv);
        let a = self.head;
        assert(self.live(a));
        assert forall|b: usize| #[trigger] self.heap@.contains_key(b) == post.heap@.contains_key(b) by {
            assert(self.heap@.dom().contains(b) == post.heap@.dom().contains(b));
        }
        assert forall|b: usize| #[trigger] post.linked(b) == self.linked(b) by {}
        assert forall|b: usize| #[trigger] post.live(b) == self.live(b) by {}
        assert forall|b: usize| #[trigger] self.heap@.contains_key(b) implies post.next(b) == self.next(
            b,
        ) && post.heap@[b].slots@.len() == self.heap@[b].slots@.len() by {}
        assert forall|b: usize, s: int| self.heap@.contains_key(b) && 0 <= s < SIZE implies (
        #[trigger] post.slot(b, s)).stored == self.slot(b, s).stored && (!(b == a && s
            == self.index) ==> post.slot(b, s) == self.slot(b, s)) by {}
        assert(post.inv_order());
        assert(post.inv_head()) by {
            assert(self.head != 0 ==> self.live(self.head));
        }
        assert(post.inv_slots()) by {
            assert forall|b: usize| #[trigger] post.heap@.contains_key(b) implies post.heap@[b].slots@.len()
                == SIZE by {
                assert(self.heap@.contains_key(b));
            }
            assert forall|b: usize| #[trigger] post.live(b) && post.next(b) != 0 && !post.behind(b) implies post.linked(
                post.next(b),
            ) && post.base@[post.next(b)] == post.base@[b] + SIZE by {
                assert(self.live(b));
            }
            assert forall|b: usize, s: int| post.live(b) && 0 <= s < SIZE implies {
                let slot = #[trigger] post.slot(b, s);
                &&& slot.stored ==> post.at(b, s) < post.log@.len()
                &&& slot.stored && post.taken() <= post.at(b, s) ==> slot.value == Some(
                    post.log@[post.at(b, s)],
                )
                &&& post.at(b, s) < post.taken() ==> slot.stored
            } by {
                assert(self.live(b));
                let before = self.slot(b, s);
                if b != a {
                    assert(self.linked(a) && self.linked(b));
                }
            }
        }
        assert forall|j: int| #[trigger] hs.contains_key(j) implies post.hold_ok(hs[j]) by {
            assert(self.hold_ok(hs[j]));
        }
        assert forall|b: usize, s: int|
            post.live(b) && 0 <= s < SIZE && post.at(b, s) < post.log@.len() && !(#[trigger] post.slot(
                b,
                s,
            )).stored implies Self::claimed(hs, b, s) by {
            assert(self.live(b) && !self.slot(b, s).stored);
        }
        assert forall|b: usize|
            #![trigger post.live(b)]
            post.live(b) && b != post.last@ && post.next(b) == 0 implies Self::edged(hs, b) by {
            assert(self.live(b));
        }
    }
}

// ---- the consumer ----

/// A receive that is under way: the access to the memory that comes next, or the result.
pub enum Recv<T> {
    /// Load the consumer's block.
    Head,
    /// Load the block that follows the consumer's, which is used up.
    Follow,
    /// Load the flag of the consumer's slot.
    Read,
    /// The receive is over.
    Done(Option<T>),
}

impl<T> Recv<T> {
    /// The value that the receive has taken.
    pub open spec fn result(self) -> Option<T> {
        match self {
            Recv::Done(value) => value,
            _ => None,
        }
    }

    /// How many accesses are left at most.
    pub open spec fn rank(self) -> nat {
        match self {
            Recv::Head => 3,
            Recv::Follow => 2,
            Recv::Read => 1,
            Recv::Done(_) => 0,
        }
    }
}

impl<T, const SIZE: usize, const ALIGN: usize> Chain<T, SIZE, ALIGN> {
    /// The receive fits the consumer's place.
    pub open spec fn recv_ok(self, op: Recv<T>) -> bool {
        match op {
            Recv::Head => true,
            Recv::Follow => self.head != 0 && self.index == SIZE,
            Recv::Read => self.head != 0 && self.index < SIZE,
            Recv::Done(_) => true,
        }
    }

    /// The consumer's block is on the heap, and a stored value is there.
    pub open spec fn recv_safe(self) -> bool {
        &&& self.heap.wf()
        &&& self.head != 0 ==> {
            &&& self.heap@.contains_key(self.head)
            &&& self.heap@[self.head].slots@.len() == SIZE
            &&& self.index < SIZE && self.slot(self.head, self.index as int).stored ==> self.slot(
                self.head,
                self.index as int,
            ).value is Some
        }
    }

    /// The invariant makes every access of the consumer safe.
    pub proof fn lemma_recv_safe(self, hs: Map<int, Hold<T>>)
        requires
            self.inv(hs),
        ensures
            self.recv_safe(),
    {
        reveal(Chain::inv);
        assert(self.head != 0 ==> self.live(self.head));
        let slot = self.slot(self.head, self.index as int);
    }

    /// One access of a receive.
    pub open spec fn recv_next(self, op: Recv<T>, post: Self, next: Recv<T>, drop: bool) -> bool {
        match op {
            Recv::Head => {
                &&& post == self
                &&& next == if self.head == 0 {
                    Recv::<T>::Done(None)
                } else if self.index == SIZE {
                    Recv::<T>::Follow
                } else {
                    Recv::<T>::Read
                }
            },
            Recv::Follow => if self.next(self.head) == 0 {
                post == self && next == Recv::<T>::Done(None)
            } else {
                self.advanced(post, drop) && next == Recv::<T>::Read
            },
            Recv::Read => if self.slot(self.head, self.index as int).stored {
                &&& self.took(post)
                &&& next == Recv::Done(self.slot(self.head, self.index as int).value)
            } else {
                post == self && next == Recv::<T>::Done(None)
            },
            Recv::Done(_) => post == self && next == op,
        }
    }

    /// Performs one access of a receive.
    pub fn recv_step(&mut self, op: Recv<T>, drop: bool) -> (next: Recv<T>)
        requires
            old(self).recv_ok(op),
            old(self).recv_safe(),
        ensures
            old(self).recv_next(op, *final(self), next, drop),
    {
        match op {
            Recv::Head => if self.head == 0 {
                Recv::Done(None)
            } else if self.index == SIZE {
                Recv::Follow
            } else {
                Recv::Read
            },
            Recv::Follow => if self.follower(self.head) == 0 {
                Recv::Done(None)
            } else {
                self.advance(drop);
                Recv::Read
            },
            Recv::Read => if self.is_stored(self.head, self.index) {
                Recv::Done(Some(self.take()))
            } else {
                Recv::Done(None)
            },
            Recv::Done(result) => Recv::Done(result),
        }
    }

    /// A receive keeps the invariant whatever the senders are doing, and it delivers the values
    /// in the order in which they were claimed: what it takes is the oldest that is left. A block
    /// is freed only when the consumer goes on from it to the next one, and just if `drop`.
    pub proof fn lemma_recv(
        self,
        op: Recv<T>,
        post: Self,
        next: Recv<T>,
        drop: bool,
        hs: Map<int, Hold<T>>,
    )
        requires
            self.inv(hs),
            self.recv_ok(op),
            self.recv_next(op, post, next, drop),
        ensures
            post.inv(hs),
            post.recv_ok(next),
            self.kept_record(post),
            match (op, next) {
                (Recv::Read, Recv::Done(Some(value))) => {
                    &&& self.taken() < self.log@.len()
                    &&& value == self.log@[self.taken()]
                    &&& post.taken() == self.taken() + 1
                },
                _ => post.taken() == self.taken(),
            },
            next.rank() < op.rank() || op is Done,
            post.heap@.dom() == if drop && op is Follow && next is Read {
                self.heap@.dom().remove(self.head)
            } else {
                self.heap@.dom()
            },
            post.head == if op is Follow && next is Read {
                self.next(self.head)
            } else {
                self.head
            },
            op is Follow && self.next(self.head) != 0 ==> next is Read,
            op is Head && self.head != 0 && self.index < SIZE ==> next is Read,
            op is Head && self.head != 0 && self.index == SIZE ==> next is Follow,
    {
        reveal(Chain::inv);
        assert(self.head != 0 ==> self.live(self.head));
        match op {
            Recv::Follow => if self.next(self.head) != 0 {
                self.lemma_advance(post, drop, hs);
            },
            Recv::Read => if self.slot(self.head, self.index as int).stored {
                self.lemma_take(post, hs);
            },
            _ => {},
        }
    }

    /// A receive comes back empty only if nothing is left, or if some sender has yet to fill the
    /// slot that the receive looks at, or to link the block that comes next.
    pub proof fn lemma_recv_waits(self, op: Recv<T>, post: Self, drop: bool, hs: Map<int, Hold<T>>)
        requires
            self.inv(hs),
            self.recv_ok(op),
            !(op is Done),
            self.recv_next(op, post, Recv::Done(None), drop),
        ensures
            self.taken() == self.log@.len() || exists|i: int| #[trigger]
                hs.contains_key(i) && if op is Read {
                    hs[i].slot matches Some(c) && c.block == self.head && c.index == self.index
                } else {
                    hs[i].edge matches Some(e) && e.prev == self.head
                },
    {
        reveal(Chain::inv);
        assert(self.head != 0 ==> self.live(self.head));
        match op {
            Recv::Head => {
                if self.last@ != 0 {
                    assert(Self::edged(hs, 0));
                }
            },
            Recv::Follow => {
                assert(self.last@ != 0);
                if self.head != self.last@ {
                    assert(Self::edged(hs, self.head));
                }
            },
            Recv::Read => {
                if self.taken() < self.log@.len() {
                    assert(!self.slot(self.head, self.index as int).stored);
                    assert(Self::claimed(hs, self.head, self.index as int));
                }
            },
            _ => {},
        }
    }

    /// While no sender is under way, a receive comes back empty only if nothing is left.
    pub proof fn lemma_recv_none(self, op: Recv<T>, post: Self, drop: bool)
        requires
            self.wf(),
            self.recv_ok(op),
            !(op is Done),
            self.recv_next(op, post, Recv::Done(None), drop),
        ensures
            self.taken() == self.log@.len(),
    {
        reveal(Chain::inv);
        assert(self.head != 0 ==> self.live(self.head));
        let hs: Map<int, Hold<T>> = Map::empty();
        assert forall|a: usize| !Self::edged(hs, a) by {}
        assert forall|a: usize, s: int| !Self::claimed(hs, a, s) by {}
        match op {
            Recv::Head => {},
            Recv::Follow => {
                assert(self.last@ != 0);
                assert(self.live(self.head));
            },
            Recv::Read => {
                if self.taken() < self.log@.len() {
                    assert(!self.slot(self.head, self.index as int).stored);
                    assert(Self::claimed(hs, self.head, self.index as int));
                }
            },
            _ => {},
        }
    }

    /// A receive goes on from the consumer's block: it is used up, and another one follows.
    pub open spec fn leaves(self) -> bool {
        self.head != 0 && self.index == SIZE && self.next(self.head) != 0
    }

    /// Receives one value: the oldest that is left, or nothing if none is. If `drop`, a block that
    /// the consumer goes on from is freed.
    pub fn try_recv(&mut self, drop: bool) -> (value: Option<T>)
        requires
            old(self).wf(),
        ensures
            final(self).wf(),
            old(self).kept_record(*final(self)),
            final(self).head == if old(self).leaves() {
                old(self).next(old(self).head)
            } else {
                old(self).head
            },
            final(self).heap@.dom() == if drop && old(self).leaves() {
                old(self).heap@.dom().remove(old(self).head)
            } else {
                old(self).heap@.dom()
            },
            final(self).heap.room() == old(self).heap.room() + if drop && old(self).leaves() {
                1int
            } else {
                0
            },
            match value {
                Some(v) => {
                    &&& old(self).pending().len() > 0
                    &&& v == old(self).pending()[0]
                    &&& final(self).pending() == old(self).pending().skip(1)
                },
                None => old(self).pending().len() == 0 && final(self).pending()
                    == old(self).pending(),
            },
    {
        let mut op: Recv<T> = Recv::Head;
        proof {
            self.lemma_facts(Map::empty());
        }
        loop
            invariant
                self.wf(),
                self.recv_ok(op),
                old(self).wf(),
                old(self).kept_record(*self),
                op is Head || op is Follow ==> *self == *old(self),
                !(op is Head || op is Follow) ==> {
                    &&& self.head == if old(self).leaves() {
                        old(self).next(old(self).head)
                    } else {
                        old(self).head
                    }
                    &&& self.heap@.dom() == if drop && old(self).leaves() {
                        old(self).heap@.dom().remove(old(self).head)
                    } else {
                        old(self).heap@.dom()
                    }
                    &&& self.heap.room() == old(self).heap.room() + if drop && old(self).leaves() {
                        1int
                    } else {
                        0
                    }
                },
                match op {
                    Recv::Done(Some(v)) => {
                        &&& old(self).taken() < old(self).log@.len()
                        &&& v == old(self).log@[old(self).taken()]
                        &&& self.taken() == old(self).taken() + 1
                    },
                    Recv::Done(None) => self.taken() == old(self).taken() && self.taken()
                        == self.log@.len(),
                    _ => self.taken() == old(self).taken(),
                },
            decreases op.rank(),
        {
            if let Recv::Done(value) = op {
                assert(self.taken() <= self.log@.len());
                assert(old(self).taken() >= 0);
                assert(value is Some ==> self.pending() =~= old(self).pending().skip(1));
                return value;
            }
            let ghost pre = *self;
            let ghost before = op;
            proof {
                pre.lemma_recv_safe(Map::empty());
            }
            op = self.recv_step(op, drop);
            proof {
                pre.lemma_recv(before, *self, op, drop, Map::empty());
                if op == Recv::<T>::Done(None) {
                    pre.lemma_recv_none(before, *self, drop);
                }
            }
        }
    }
}

} // verus!
