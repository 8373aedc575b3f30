//! The ring of live blocks kept for one size class.
use vstd::prelude::*;
use crate::size_class::{word, word_size};

verus! {

/// How many slots every shuffling array has.
pub const SHUFFLING_ARRAY_SIZE: usize = 256;

/// The size and alignment of a block, in bytes.
#[derive(Clone, Copy, Debug, PartialEq, Eq, Structural)]
pub struct BlockLayout {
    /// The size in bytes.
    pub size: usize,
    /// The alignment in bytes, a power of two.
    pub align: usize,
}

/// A fixed array of slots, each holding the address of a block of the
/// underlying allocator for one size class; zero stands for null.
pub struct ShufflingArray {
    elems: Vec<usize>,
    size_class: usize,
}

impl View for ShufflingArray {
    type V = Seq<usize>;

    closed spec fn view(&self) -> Seq<usize> {
        self.elems@
    }
}

impl ShufflingArray {
    /// The byte size of the blocks in the slots.
    pub closed spec fn class_bytes(&self) -> nat {
        self.size_class as nat
    }

    /// Every slot holds a block.
    pub open spec fn wf(&self) -> bool {
        &&& self@.len() == SHUFFLING_ARRAY_SIZE
        &&& forall|i: int| 0 <= i < self@.len() ==> self@[i] != 0
    }

    /// Makes an array of `size_class`-byte blocks whose slots hold `blocks`,
    /// in order.
    pub fn new(size_class: usize, blocks: Vec<usize>) -> (r: Self)
        requires
            blocks@.len() == SHUFFLING_ARRAY_SIZE,
            forall|i: int| 0 <= i < blocks@.len() ==> blocks@[i] != 0,
        ensures
            r.wf(),
            r@ == blocks@,
            r.class_bytes() == size_class,
    {
        ShufflingArray { elems: blocks, size_class }
    }

    /// The layout of every block in the slots: the class size, aligned to
    /// one word.
    pub fn elem_layout(&self) -> (r: BlockLayout)
        ensures
            r.size == self.class_bytes(),
            r.align == word(),
    {
        BlockLayout { size: self.size_class, align: word_size() }
    }

    /// Puts `p` in slot `index` and hands back what the slot held.
    pub fn swap(&mut self, index: usize, p: usize) -> (prev: usize)
        requires
            old(self).wf(),
            index < SHUFFLING_ARRAY_SIZE,
            p != 0,
        ensures
            final(self).wf(),
            prev == old(self)@[index as int],
            prev != 0,
            final(self)@ == old(self)@.update(index as int, p),
            final(self).class_bytes() == old(self).class_bytes(),
    {
        let prev = self.elems[index];
        self.elems.set(index, p);
        prev
    }

    /// Empties every slot, handing back the blocks they held, slot by slot.
    pub fn drain(&mut self) -> (r: Vec<usize>)
        ensures
            r@ == old(self)@.filter(|p: usize| p != 0),
            old(self).wf() ==> r@ == old(self)@,
            final(self)@.len() == old(self)@.len(),
            forall|i: int| 0 <= i < final(self)@.len() ==> final(self)@[i] == 0,
            final(self).class_bytes() == old(self).class_bytes(),
    {
        let mut out: Vec<usize> = Vec::new();
        let n = self.elems.len();
        let mut i: usize = 0;
        while i < n
            invariant
                n == old(self)@.len(),
                self@.len() == n,
                0 <= i <= n,
                self.class_bytes() == old(self).class_bytes(),
                forall|j: int| 0 <= j < i ==> self@[j] == 0,
                forall|j: int| i <= j < n ==> self@[j] == old(self)@[j],
                out@ == old(self)@.subrange(0, i as int).filter(|p: usize| p != 0),
                old(self).wf() ==> out@ == old(self)@.subrange(0, i as int),
            decreases n - i,
        {
            let p = self.elems[i];
            self.elems.set(i, 0);
            proof {
                let s = old(self)@;
                assert(s.subrange(0, i + 1).drop_last() == s.subrange(0, i as int));
                reveal(Seq::filter);
            }
            if p != 0 {
                out.push(p);
            }
            proof {
                let s = old(self)@;
                if old(self).wf() {
                    assert(s.subrange(0, i + 1) == s.subrange(0, i as int).push(p));
                }
            }
            i = i + 1;
        }
        assert(old(self)@.subrange(0, n as int) == old(self)@);
        out
    }
}

} // verus!
