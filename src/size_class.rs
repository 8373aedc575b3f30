//! The table of size classes that requests are quantized to.
//!
//! Class 0 is one machine word. Class `i + 1` is class `i` plus a stride of
//! `word * 2^(i / 4)`: the stride doubles every four classes.
use vstd::prelude::*;

verus! {

broadcast use vstd::layout::layout_of_primitives;

/// How many size classes the table has.
pub const NUM_SIZE_CLASSES: usize = 32;

/// The size of a machine word, in bytes.
pub open spec fn word() -> nat {
    vstd::layout::size_of::<usize>()
}

/// `2^k`.
pub open spec fn doubling(k: nat) -> nat
    decreases k,
{
    if k == 0 {
        1
    } else {
        2 * doubling((k - 1) as nat)
    }
}

/// The distance from class `i` to class `i + 1`.
pub open spec fn stride(i: nat) -> nat {
    word() * doubling(i / 4)
}

/// The byte size of class `i`.
pub open spec fn class_size(i: nat) -> nat
    decreases i,
{
    if i == 0 {
        word()
    } else {
        class_size((i - 1) as nat) + stride((i - 1) as nat)
    }
}

/// The largest size that goes through a size class.
pub open spec fn max_class_size() -> nat {
    class_size((NUM_SIZE_CLASSES - 1) as nat)
}

/// Class `i` is the class of a request of `s` bytes: the smallest class
/// whose size is at least `s`.
pub open spec fn is_class_of(s: nat, i: nat) -> bool {
    &&& i < NUM_SIZE_CLASSES
    &&& s <= class_size(i)
    &&& forall|j: nat| j < i ==> class_size(j) < s
}

/// A word is four or eight bytes.
pub proof fn lemma_word_size()
    ensures
        word() == 4 || word() == 8,
{
}

proof fn lemma_doubling_step(k: nat)
    requires
        k > 0,
    ensures
        doubling(k) == 2 * doubling((k - 1) as nat),
{
}

/// Every stride up to the end of the table is at most 256 words.
proof fn lemma_stride_bound(i: nat)
    requires
        i <= NUM_SIZE_CLASSES,
    ensures
        stride(i) <= 256 * word(),
        stride(i) >= word(),
    decreases i,
{
    lemma_word_size();
    reveal_with_fuel(doubling, 9);
    let k = i / 4;
    assert(k <= 8);
    assert(doubling(k) <= 256 && doubling(k) >= 1) by {
        if k == 0 {} else if k == 1 {} else if k == 2 {} else if k == 3 {}
        else if k == 4 {} else if k == 5 {} else if k == 6 {} else if k == 7 {} else {}
    }
    if word() == 4 {
        assert(stride(i) == 4 * doubling(k));
    } else {
        assert(stride(i) == 8 * doubling(k));
    }
}

/// Classes grow strictly: a larger index means a larger size.
pub proof fn lemma_class_size_increasing(i: nat, j: nat)
    requires
        i < j,
    ensures
        class_size(i) < class_size(j),
    decreases j,
{
    lemma_word_size();
    assert(stride((j - 1) as nat) >= 1) by {
        assert(doubling(((j - 1) as nat) / 4) >= 1) by {
            lemma_doubling_positive(((j - 1) as nat) / 4);
        }
        vstd::arithmetic::mul::lemma_mul_increases(doubling(((j - 1) as nat) / 4) as int, word() as int);
    }
    if i < j - 1 {
        lemma_class_size_increasing(i, (j - 1) as nat);
    }
}

proof fn lemma_doubling_positive(k: nat)
    ensures
        doubling(k) >= 1,
    decreases k,
{
    if k > 0 {
        lemma_doubling_positive((k - 1) as nat);
    }
}

/// Every class size up to one past the table stays far below `usize::MAX`.
proof fn lemma_class_size_bound(i: nat)
    requires
        i <= NUM_SIZE_CLASSES + 1,
    ensures
        class_size(i) <= (1 + 256 * i) * word(),
    decreases i,
{
    lemma_word_size();
    if i > 0 {
        lemma_class_size_bound((i - 1) as nat);
        lemma_stride_bound((i - 1) as nat);
        let w = word() as int;
        let prev = class_size((i - 1) as nat) as int;
        let st = stride((i - 1) as nat) as int;
        assert(prev + st <= (1 + 256 * i) * w) by (nonlinear_arith)
            requires
                prev <= (1 + 256 * (i - 1)) * w,
                st <= 256 * w,
                i >= 1,
        ;
    } else {
        vstd::arithmetic::mul::lemma_mul_basics(word() as int);
    }
}

/// The class of a request is the smallest class that holds it: its size is
/// at least the request, and at most the size of any class that holds it.
pub proof fn lemma_class_is_smallest_fit(s: nat, c: nat)
    requires
        is_class_of(s, c),
    ensures
        class_size(c) >= s,
        forall|j: nat| j < NUM_SIZE_CLASSES && class_size(j) >= s ==> class_size(c) <= class_size(j),
{
    assert forall|j: nat| j < NUM_SIZE_CLASSES && class_size(j) >= s implies class_size(c) <= class_size(j) by {
        if c < j {
            lemma_class_size_increasing(c, j);
        } else if j < c {
            assert(class_size(j) < s);
        }
    }
}

/// Every request no larger than the largest class has a class.
pub proof fn lemma_class_exists(s: nat, i: nat)
    requires
        i < NUM_SIZE_CLASSES,
        s <= class_size(i),
    ensures
        exists|c: nat| c <= i && is_class_of(s, c),
    decreases i,
{
    if i > 0 && s <= class_size((i - 1) as nat) {
        lemma_class_exists(s, (i - 1) as nat);
        let c = choose|c: nat| c <= i - 1 && is_class_of(s, c);
        assert(c <= i && is_class_of(s, c));
    } else {
        assert forall|j: nat| j < i implies class_size(j) < s by {
            if j < i - 1 {
                lemma_class_size_increasing(j, (i - 1) as nat);
            }
        }
        assert(is_class_of(s, i));
    }
}

/// The size class that a request falls into.
#[derive(Clone, Copy, Debug, PartialEq, Eq, Structural)]
pub struct SizeClassInfo {
    /// The index of the class in the table.
    pub index: usize,
    /// The byte size of every block of the class.
    pub size_class: usize,
}

/// The size of a machine word, in bytes.
pub fn word_size() -> (w: usize)
    ensures
        w == word(),
        w == 4 || w == 8,
{
    core::mem::size_of::<usize>()
}

/// Classifies a request of `size` bytes: the smallest class whose size is at
/// least `size`, or `None` where the request is larger than every class.
pub fn size_class_info(size: usize) -> (r: Option<SizeClassInfo>)
    ensures
        r is None <==> size > max_class_size(),
        r matches Some(info) ==> {
            &&& is_class_of(size as nat, info.index as nat)
            &&& info.size_class == class_size(info.index as nat)
        },
{
    let w = word_size();
    let mut index: usize = 0;
    let mut size_class: usize = w;
    let mut step: usize = w;
    assert(doubling(0) == 1);
    assert(stride(0) == word()) by {
        vstd::arithmetic::mul::lemma_mul_basics(word() as int);
    }
    while index < NUM_SIZE_CLASSES
        invariant
            index <= NUM_SIZE_CLASSES,
            size_class == class_size(index as nat),
            step == stride(index as nat),
            forall|j: nat| j < index ==> class_size(j) < size,
        decreases NUM_SIZE_CLASSES - index,
    {
        if size <= size_class {
            proof {
                if index < NUM_SIZE_CLASSES - 1 {
                    lemma_class_size_increasing(index as nat, (NUM_SIZE_CLASSES - 1) as nat);
                }
            }
            return Some(SizeClassInfo { index, size_class });
        }
        proof {
            lemma_word_size();
            lemma_class_size_bound((index + 1) as nat);
            lemma_stride_bound(index as nat);
            lemma_stride_bound((index + 1) as nat);
            assert(class_size((index + 1) as nat) == class_size(index as nat) + stride(index as nat));
            let i1 = (index + 1) as int;
            let w = word() as int;
            assert((1 + 256 * i1) * w <= 8 * (1 + 256 * 33)) by (nonlinear_arith)
                requires
                    0 <= i1 <= 33,
                    0 <= w <= 8,
            ;
        }
        size_class = size_class + step;
        index = index + 1;
        if index % 4 == 0 {
            proof {
                let k = (index / 4) as nat;
                assert(((index - 1) as nat) / 4 == k - 1);
                lemma_doubling_step(k);
                vstd::arithmetic::mul::lemma_mul_is_distributive_add(word() as int, doubling((k - 1) as nat) as int, doubling((k - 1) as nat) as int);
            }
            step = step * 2;
        } else {
            assert(((index - 1) as nat) / 4 == (index as nat) / 4);
        }
    }
    None
}

} // verus!
