//! Heap cells named by aligned addresses.
use std::collections::HashMap;
use vstd::arithmetic::div_mod::{lemma_div_minus_one, lemma_mod_add_multiples_vanish};
use vstd::prelude::*;

verus! {

/// Cells on the heap. Each is named by an address that is a positive multiple of `ALIGN`, so that
/// the low bits of the address are free to carry a tag. The address of a cell that was freed is
/// given out again.
pub struct Arena<B, const ALIGN: usize> {
    cells: HashMap<usize, B>,
    /// The first address that was never given out.
    next: usize,
    /// The addresses of the cells that were freed.
    spare: Vec<usize>,
}

impl<B, const ALIGN: usize> View for Arena<B, ALIGN> {
    type V = Map<usize, B>;

    closed spec fn view(&self) -> Map<usize, B> {
        self.cells@
    }
}

impl<B, const ALIGN: usize> Arena<B, ALIGN> {
    /// The address that the next allocation gives out. All that is known of it is that it is
    /// aligned and that no cell has it.
    pub closed spec fn fresh(self) -> usize {
        if self.spare@.len() > 0 {
            self.spare@.last()
        } else {
            self.next
        }
    }

    /// How many more cells have an address.
    pub closed spec fn room(self) -> nat {
        (self.spare@.len() + (usize::MAX - self.next) / ALIGN as int) as nat
    }

    /// Another cell still has an address.
    pub open spec fn has_room(self) -> bool {
        self.room() > 0
    }

    /// The addresses in `owned` are in use, those in `spare` and those from `next` on are not.
    closed spec fn sound(self, owned: Set<usize>) -> bool {
        &&& 0 < ALIGN
        &&& 0 < self.next
        &&& self.next % ALIGN == 0
        &&& forall|a: usize| #[trigger] owned.contains(a) ==> 0 < a < self.next && a % ALIGN == 0
        &&& forall|i: int|
            0 <= i < self.spare@.len() ==> {
                let a = #[trigger] self.spare@[i];
                0 < a < self.next && a % ALIGN == 0 && !owned.contains(a)
            }
        &&& forall|i: int, j: int|
            0 <= i < j < self.spare@.len() ==> #[trigger] self.spare@[i] != #[trigger] self.spare@[j]
    }

    /// Every cell has an aligned address; the next address to be given out is aligned, and no
    /// cell has it.
    pub open spec fn wf(self) -> bool {
        &&& self.tidy()
        &&& 0 < ALIGN
        &&& 0 < self.fresh()
        &&& self.fresh() % ALIGN == 0
        &&& !self@.contains_key(self.fresh())
        &&& forall|a: usize| #[trigger] self@.contains_key(a) ==> 0 < a && a % ALIGN == 0
    }

    /// The addresses of the cells are in use, and no others.
    pub closed spec fn tidy(self) -> bool {
        self.sound(self@.dom())
    }

    /// All is in order but that the cell at `addr` is out on loan.
    pub closed spec fn lacks(self, addr: usize) -> bool {
        self.sound(self@.dom().insert(addr))
    }

    /// An arena whose addresses are in order is well formed.
    proof fn lemma_wf(self)
        requires
            self.tidy(),
        ensures
            self.wf(),
    {
        let owned = self@.dom();
        assert forall|a: usize| #[trigger] self@.contains_key(a) implies owned.contains(a) by {}
        if self.spare@.len() > 0 {
            let a = self.spare@[self.spare@.len() - 1];
            assert(!owned.contains(a));
        } else {
            assert(owned.contains(self.next) ==> self.next < self.next);
        }
    }

    /// An arena without cells.
    pub fn new() -> (arena: Self)
        requires
            0 < ALIGN,
        ensures
            arena.wf(),
            arena@ == Map::<usize, B>::empty(),
            arena.room() == (usize::MAX - ALIGN) / ALIGN as int,
    {
        broadcast use vstd::std_specs::hash::group_hash_axioms;

        proof {
            vstd::arithmetic::div_mod::lemma_mod_self_0(ALIGN as int);
            vstd::arithmetic::div_mod::lemma_div_pos_is_pos(usize::MAX - ALIGN, ALIGN as int);
        }
        let arena: Self = Arena { cells: HashMap::new(), next: ALIGN, spare: Vec::new() };
        proof {
            arena.lemma_wf();
        }
        arena
    }

    /// Whether no other cell has an address.
    pub fn is_full(&self) -> (full: bool)
        requires
            self.wf(),
        ensures
            full == !self.has_room(),
    {
        proof {
            self.lemma_room();
        }
        self.spare.len() == 0 && self.next > usize::MAX - ALIGN
    }

    /// There is room if an address was freed or if there is one that was never given out.
    proof fn lemma_room(self)
        requires
            0 < ALIGN,
        ensures
            (usize::MAX - self.next) / ALIGN as int >= 0,
            self.next <= usize::MAX - ALIGN <==> (usize::MAX - self.next) / ALIGN as int > 0,
    {
        let left = usize::MAX - self.next;
        vstd::arithmetic::div_mod::lemma_div_pos_is_pos(left, ALIGN as int);
        if left >= ALIGN {
            vstd::arithmetic::div_mod::lemma_div_non_zero(left, ALIGN as int);
        } else {
            vstd::arithmetic::div_mod::lemma_basic_div(left, ALIGN as int);
        }
    }

    /// Puts `cell` on the heap and returns its address.
    pub fn allocate(&mut self, cell: B) -> (addr: usize)
        requires
            old(self).wf(),
            old(self).has_room(),
        ensures
            final(self).wf(),
            addr == old(self).fresh(),
            0 < addr,
            addr % ALIGN == 0,
            !old(self)@.contains_key(addr),
            final(self).room() == old(self).room() - 1,
            final(self)@ == old(self)@.insert(addr, cell),
    {
        broadcast use vstd::std_specs::hash::group_hash_axioms;

        proof {
            self.lemma_room();
        }
        let addr: usize = match self.spare.pop() {
            Some(addr) => addr,
            None => {
                let addr: usize = self.next;
                self.next = addr + ALIGN;
                proof {
                    lemma_mod_add_multiples_vanish(addr as int, ALIGN as int);
                    lemma_div_minus_one(usize::MAX - addr, ALIGN as int);
                }
                addr
            },
        };
        self.cells.insert(addr, cell);
        proof {
            let before = old(self)@.dom();
            let owned = self@.dom();
            assert(owned =~= before.insert(addr));
            self.lemma_room();
            assert forall|a: usize| #[trigger] owned.contains(a) implies 0 < a < self.next && a % ALIGN
                == 0 by {
                assert(a == addr || before.contains(a));
            }
            assert forall|i: int| 0 <= i < self.spare@.len() implies {
                let a = #[trigger] self.spare@[i];
                0 < a < self.next && a % ALIGN == 0 && !owned.contains(a)
            } by {
                assert(self.spare@[i] == old(self).spare@[i]);
            }
            assert forall|i: int, j: int| 0 <= i < j < self.spare@.len() implies #[trigger] self.spare@[i]
                != #[trigger] self.spare@[j] by {
                assert(self.spare@[i] == old(self).spare@[i]);
                assert(self.spare@[j] == old(self).spare@[j]);
            }
            self.lemma_wf();
        }
        addr
    }

    /// Reads the cell at `addr`.
    pub fn get(&self, addr: usize) -> (cell: &B)
        requires
            self@.contains_key(addr),
        ensures
            *cell == self@[addr],
    {
        broadcast use vstd::std_specs::hash::group_hash_axioms;

        self.cells.get(&addr).unwrap()
    }

    /// Takes the cell at `addr` off the heap.
    pub fn free(&mut self, addr: usize) -> (cell: B)
        requires
            old(self).wf(),
            old(self)@.contains_key(addr),
        ensures
            final(self).wf(),
            final(self).room() == old(self).room() + 1,
            cell == old(self)@[addr],
            final(self)@ == old(self)@.remove(addr),
    {
        broadcast use vstd::std_specs::hash::group_hash_axioms;

        let cell = self.cells.remove(&addr).unwrap();
        self.spare.push(addr);
        proof {
            let before = old(self)@.dom();
            let owned = self@.dom();
            assert(owned =~= before.remove(addr));
            assert(before.contains(addr));
            self.lemma_room();
            assert forall|i: int| 0 <= i < self.spare@.len() implies {
                let a = #[trigger] self.spare@[i];
                0 < a < self.next && a % ALIGN == 0 && !owned.contains(a)
            } by {
                if i < old(self).spare@.len() {
                    assert(self.spare@[i] == old(self).spare@[i]);
                }
            }
            assert forall|i: int, j: int| 0 <= i < j < self.spare@.len() implies #[trigger] self.spare@[i]
                != #[trigger] self.spare@[j] by {
                assert(self.spare@[i] == old(self).spare@[i]);
                if j < old(self).spare@.len() {
                    assert(self.spare@[j] == old(self).spare@[j]);
                }
            }
            self.lemma_wf();
        }
        cell
    }

    /// Takes the cell at `addr` out for a change; its address stays in use.
    pub fn lend(&mut self, addr: usize) -> (cell: B)
        requires
            old(self).wf(),
            old(self)@.contains_key(addr),
        ensures
            final(self).lacks(addr),
            final(self).fresh() == old(self).fresh(),
            final(self).room() == old(self).room(),
            cell == old(self)@[addr],
            final(self)@ == old(self)@.remove(addr),
    {
        broadcast use vstd::std_specs::hash::group_hash_axioms;

        let cell = self.cells.remove(&addr).unwrap();
        assert(self@.dom().insert(addr) =~= old(self)@.dom());
        cell
    }

    /// Gives up the address of the cell that was lent.
    pub fn release(&mut self, addr: usize)
        requires
            old(self).lacks(addr),
            !old(self)@.contains_key(addr),
        ensures
            final(self).wf(),
            final(self).room() == old(self).room() + 1,
            final(self)@ == old(self)@,
    {
        self.spare.push(addr);
        proof {
            let before = old(self)@.dom().insert(addr);
            assert(before.contains(addr));
            self.lemma_room();
            assert forall|a: usize| #[trigger] self@.dom().contains(a) implies before.contains(a) by {}
            assert forall|i: int| 0 <= i < self.spare@.len() implies {
                let a = #[trigger] self.spare@[i];
                0 < a < self.next && a % ALIGN == 0 && !self@.dom().contains(a)
            } by {
                if i < old(self).spare@.len() {
                    assert(self.spare@[i] == old(self).spare@[i]);
                    assert(!before.contains(self.spare@[i]));
                }
            }
            assert forall|i: int, j: int| 0 <= i < j < self.spare@.len() implies #[trigger] self.spare@[i]
                != #[trigger] self.spare@[j] by {
                assert(self.spare@[i] == old(self).spare@[i]);
                if j < old(self).spare@.len() {
                    assert(self.spare@[j] == old(self).spare@[j]);
                }
            }
            self.lemma_wf();
        }
    }

    /// Puts the cell that was lent back to its address.
    pub fn put(&mut self, addr: usize, cell: B)
        requires
            old(self).lacks(addr),
        ensures
            final(self).wf(),
            final(self).fresh() == old(self).fresh(),
            final(self).room() == old(self).room(),
            final(self)@ == old(self)@.insert(addr, cell),
    {
        broadcast use vstd::std_specs::hash::group_hash_axioms;

        self.cells.insert(addr, cell);
        assert(self@.dom() =~= old(self)@.dom().insert(addr));
        proof {
            self.lemma_wf();
        }
    }
}

} // verus!
