//! The shuffling allocator: routes each request either straight to the
//! underlying allocator or through the shuffling array of its size class.
use vstd::prelude::*;
use rand::rngs::StdRng;
use crate::lazy_atomic_cell::LazyAtomicCell;
use crate::rng::{gen_below, rng_from_os};
use crate::shuffling_array::{BlockLayout, ShufflingArray, SHUFFLING_ARRAY_SIZE};
use crate::size_class::{
    class_size, is_class_of, lemma_class_exists, max_class_size, size_class_info, word, word_size,
    SizeClassInfo, NUM_SIZE_CLASSES,
};

verus! {

/// The allocator that the shuffling layer wraps. Addresses are plain
/// integers, zero standing for null.
pub trait UnderlyingAlloc {
    /// Obtains a block of `layout`, or zero where none can be had.
    fn alloc_block(&self, layout: BlockLayout) -> usize;

    /// Returns the block at `p`, obtained with `layout`.
    fn dealloc_block(&self, p: usize, layout: BlockLayout);
}

/// Where a request goes.
#[derive(Clone, Copy, Debug, PartialEq, Eq, Structural)]
pub enum Route {
    /// Straight to the underlying allocator, unchanged.
    Bypass,
    /// Through the shuffling array of this size class.
    Shuffle(SizeClassInfo),
}

/// A request takes the bypass: it is aligned beyond one word, or larger than
/// every size class.
pub open spec fn is_bypass(layout: BlockLayout) -> bool {
    layout.align > word() || layout.size > max_class_size()
}

/// The layout of the blocks of class `c`: the class size, aligned to one
/// word.
pub open spec fn class_layout(c: nat) -> BlockLayout {
    BlockLayout { size: class_size(c) as usize, align: word() as usize }
}

/// Decides where a request of `layout` goes.
pub fn route(layout: BlockLayout) -> (r: Route)
    ensures
        r is Bypass <==> is_bypass(layout),
        r matches Route::Shuffle(info) ==> {
            &&& is_class_of(layout.size as nat, info.index as nat)
            &&& info.size_class == class_size(info.index as nat)
        },
{
    if layout.align > word_size() {
        return Route::Bypass;
    }
    match size_class_info(layout.size) {
        None => Route::Bypass,
        Some(info) => Route::Shuffle(info),
    }
}

/// How many of `cells` hold a shuffling array.
pub open spec fn count_warm<A>(cells: Seq<LazyAtomicCell<A, ShufflingArray>>) -> nat
    decreases cells.len(),
{
    if cells.len() == 0 {
        0
    } else {
        count_warm(cells.drop_last()) + if cells.last().contents() is Some {
            1nat
        } else {
            0nat
        }
    }
}

proof fn lemma_count_warm_update<A>(
    cells: Seq<LazyAtomicCell<A, ShufflingArray>>,
    c: int,
    x: LazyAtomicCell<A, ShufflingArray>,
)
    requires
        0 <= c < cells.len(),
    ensures
        count_warm(cells.update(c, x)) + (if cells[c].contents() is Some { 1int } else { 0 })
            == count_warm(cells) + (if x.contents() is Some { 1int } else { 0 }),
        count_warm(cells) <= cells.len(),
    decreases cells.len(),
{
    let u = cells.update(c, x);
    if c == cells.len() - 1 {
        assert(u.drop_last() == cells.drop_last());
    } else {
        assert(u.drop_last() == cells.drop_last().update(c, x));
        lemma_count_warm_update(cells.drop_last(), c, x);
    }
    lemma_count_warm_le(cells);
}

proof fn lemma_count_warm_none<A>(cells: Seq<LazyAtomicCell<A, ShufflingArray>>)
    requires
        forall|c: int| 0 <= c < cells.len() ==> (#[trigger] cells[c]).contents() is None,
    ensures
        count_warm(cells) == 0,
    decreases cells.len(),
{
    if cells.len() > 0 {
        lemma_count_warm_none(cells.drop_last());
    }
}

proof fn lemma_count_warm_le<A>(cells: Seq<LazyAtomicCell<A, ShufflingArray>>)
    ensures
        count_warm(cells) <= cells.len(),
    decreases cells.len(),
{
    if cells.len() > 0 {
        lemma_count_warm_le(cells.drop_last());
    }
}

/// The table of size classes: one lazily filled shuffling array per class.
pub struct SizeClasses<A: 'static> {
    cells: Vec<LazyAtomicCell<A, ShufflingArray>>,
}

impl<A: 'static> SizeClasses<A> {
    /// The cells of the classes, in class order.
    pub closed spec fn cells(&self) -> Seq<LazyAtomicCell<A, ShufflingArray>> {
        self.cells@
    }

    /// A table of empty cells, one per class.
    pub fn new(allocator: &'static A) -> (r: Self)
        ensures
            r.cells().len() == NUM_SIZE_CLASSES,
            count_warm(r.cells()) == 0,
            forall|c: int| 0 <= c < NUM_SIZE_CLASSES ==> (#[trigger] r.cells()[c]).contents() is None,
            forall|c: int| 0 <= c < NUM_SIZE_CLASSES ==> (#[trigger] r.cells()[c]).spec_allocator() == allocator,
    {
        let mut cells: Vec<LazyAtomicCell<A, ShufflingArray>> = Vec::new();
        let mut i: usize = 0;
        while i < NUM_SIZE_CLASSES
            invariant
                0 <= i <= NUM_SIZE_CLASSES,
                cells@.len() == i,
                forall|c: int| 0 <= c < i ==> (#[trigger] cells@[c]).contents() is None,
                forall|c: int| 0 <= c < i ==> (#[trigger] cells@[c]).spec_allocator() == allocator,
                count_warm(cells@) == 0,
            decreases NUM_SIZE_CLASSES - i,
        {
            let cell = LazyAtomicCell::new(allocator);
            proof {
                assert(cells@.push(cell).drop_last() == cells@);
            }
            cells.push(cell);
            i = i + 1;
        }
        SizeClasses { cells }
    }
}

/// What the allocator builds on first use: the generator that picks slots,
/// and the table of size classes, itself built on first use.
pub struct State<A: 'static> {
    rng: StdRng,
    size_classes: LazyAtomicCell<A, SizeClasses<A>>,
}

impl<A: 'static> State<A> {
    /// The cells of the size classes, in class order; none before the table
    /// is built.
    pub closed spec fn cells(&self) -> Seq<LazyAtomicCell<A, ShufflingArray>> {
        match self.size_classes.contents() {
            Some(table) => table.cells(),
            None => Seq::empty(),
        }
    }

    /// The allocator that the table of size classes was made with.
    pub closed spec fn table_allocator(&self) -> &'static A {
        self.size_classes.spec_allocator()
    }

    /// Whether the table of size classes has been built.
    pub closed spec fn table_built(&self) -> bool {
        self.size_classes.contents() is Some
    }

    /// Once built, the table has one cell per class; a filled cell of class
    /// `c` holds a full array of class-`c` blocks.
    pub open spec fn wf(&self) -> bool {
        &&& self.cells().len() == if self.table_built() { NUM_SIZE_CLASSES as nat } else { 0 }
        &&& forall|c: int|
            0 <= c < self.cells().len() ==> ((#[trigger] self.cells()[c]).contents() matches Some(a)
                ==> a.wf() && a.class_bytes() == class_size(c as nat))
    }

    /// A fresh state: a newly seeded generator and no table yet; `None`
    /// where the platform gives no seed.
    pub fn new(allocator: &'static A) -> (r: Option<Self>)
        ensures
            r matches Some(st) ==> {
                &&& st.wf()
                &&& !st.table_built()
                &&& st.table_allocator() == allocator
                &&& st.cells().len() == 0
            },
    {
        match rng_from_os() {
            Some(rng) => Some(State { rng, size_classes: LazyAtomicCell::new(allocator) }),
            None => None,
        }
    }
}

/// Why a request through a size class could not be served.
#[derive(Clone, Copy, Debug, PartialEq, Eq, Structural)]
pub enum AllocError {
    /// The array of the class could not be filled; carries the class layout.
    WarmUp(BlockLayout),
    /// The platform gave no seed for the generator that picks slots.
    NoEntropy,
}

/// A call that the allocator made to the underlying allocator.
pub enum UnderlyingCall {
    /// `alloc_block(layout)`, which gave back the address.
    Alloc(BlockLayout, usize),
    /// `dealloc_block(address, layout)`.
    Dealloc(usize, BlockLayout),
}

/// Blocks obtained by `calls` less blocks returned by them.
pub open spec fn net_blocks(calls: Seq<UnderlyingCall>) -> int
    decreases calls.len(),
{
    if calls.len() == 0 {
        0
    } else {
        net_blocks(calls.drop_last()) + match calls.last() {
            UnderlyingCall::Alloc(_, q) => if q != 0 {
                1int
            } else {
                0
            },
            UnderlyingCall::Dealloc(_, _) => -1,
        }
    }
}

/// One request with `layout` per block of `blocks`, in order, each giving
/// that block.
pub open spec fn alloc_calls(layout: BlockLayout, blocks: Seq<usize>) -> Seq<UnderlyingCall>
    decreases blocks.len(),
{
    if blocks.len() == 0 {
        Seq::empty()
    } else {
        alloc_calls(layout, blocks.drop_last()).push(UnderlyingCall::Alloc(layout, blocks.last()))
    }
}

/// One release with `layout` per block of `blocks`, in order.
pub open spec fn dealloc_calls(blocks: Seq<usize>, layout: BlockLayout) -> Seq<UnderlyingCall>
    decreases blocks.len(),
{
    if blocks.len() == 0 {
        Seq::empty()
    } else {
        dealloc_calls(blocks.drop_last(), layout).push(UnderlyingCall::Dealloc(blocks.last(), layout))
    }
}

/// No address in `blocks` is null.
pub open spec fn all_blocks(blocks: Seq<usize>) -> bool {
    forall|i: int| 0 <= i < blocks.len() ==> blocks[i] != 0
}

/// The calls of a warm-up that obtained `got` and then met a null: the
/// null request, then `got` released in order.
pub open spec fn failed_warm_up(layout: BlockLayout, got: Seq<usize>) -> Seq<UnderlyingCall> {
    alloc_calls(layout, got).push(UnderlyingCall::Alloc(layout, 0)) + dealloc_calls(got, layout)
}

/// The requests of `alloc_calls(layout, blocks)` are one per block, in
/// order, each with `layout`.
pub proof fn lemma_alloc_calls_entries(layout: BlockLayout, blocks: Seq<usize>)
    ensures
        alloc_calls(layout, blocks).len() == blocks.len(),
        forall|i: int|
            0 <= i < blocks.len() ==> #[trigger] alloc_calls(layout, blocks)[i] == UnderlyingCall::Alloc(
                layout,
                blocks[i],
            ),
    decreases blocks.len(),
{
    if blocks.len() > 0 {
        lemma_alloc_calls_entries(layout, blocks.drop_last());
    }
}

/// The releases of `dealloc_calls(blocks, layout)` are one per block, in
/// order, each with `layout`.
pub proof fn lemma_dealloc_calls_entries(blocks: Seq<usize>, layout: BlockLayout)
    ensures
        dealloc_calls(blocks, layout).len() == blocks.len(),
        forall|i: int|
            0 <= i < blocks.len() ==> #[trigger] dealloc_calls(blocks, layout)[i] == UnderlyingCall::Dealloc(
                blocks[i],
                layout,
            ),
    decreases blocks.len(),
{
    if blocks.len() > 0 {
        lemma_dealloc_calls_entries(blocks.drop_last(), layout);
    }
}

proof fn lemma_net_concat(s: Seq<UnderlyingCall>, t: Seq<UnderlyingCall>)
    ensures
        net_blocks(s + t) == net_blocks(s) + net_blocks(t),
    decreases t.len(),
{
    if t.len() > 0 {
        assert((s + t).drop_last() == s + t.drop_last());
        lemma_net_concat(s, t.drop_last());
    } else {
        assert(s + t == s);
    }
}

proof fn lemma_net_alloc_calls(layout: BlockLayout, blocks: Seq<usize>)
    requires
        all_blocks(blocks),
    ensures
        net_blocks(alloc_calls(layout, blocks)) == blocks.len(),
    decreases blocks.len(),
{
    if blocks.len() > 0 {
        lemma_net_alloc_calls(layout, blocks.drop_last());
        assert(alloc_calls(layout, blocks).drop_last() == alloc_calls(layout, blocks.drop_last()));
    }
}

proof fn lemma_net_dealloc_calls(blocks: Seq<usize>, layout: BlockLayout)
    ensures
        net_blocks(dealloc_calls(blocks, layout)) == -blocks.len(),
    decreases blocks.len(),
{
    if blocks.len() > 0 {
        lemma_net_dealloc_calls(blocks.drop_last(), layout);
        assert(dealloc_calls(blocks, layout).drop_last() == dealloc_calls(blocks.drop_last(), layout));
    }
}

proof fn lemma_net_failed_warm_up(layout: BlockLayout, got: Seq<usize>)
    requires
        all_blocks(got),
    ensures
        net_blocks(failed_warm_up(layout, got)) == 0,
{
    let head = alloc_calls(layout, got).push(UnderlyingCall::Alloc(layout, 0));
    assert(head.drop_last() == alloc_calls(layout, got));
    lemma_net_alloc_calls(layout, got);
    lemma_net_dealloc_calls(got, layout);
    lemma_net_concat(head, dealloc_calls(got, layout));
}

/// Asks the underlying allocator for a block of `layout`, and logs the call.
fn request<A: UnderlyingAlloc>(inner: &A, layout: BlockLayout, log: &mut Ghost<Seq<UnderlyingCall>>) -> (p: usize)
    ensures
        final(log)@ == old(log)@.push(UnderlyingCall::Alloc(layout, p)),
{
    let p = inner.alloc_block(layout);
    *log = Ghost(log@.push(UnderlyingCall::Alloc(layout, p)));
    p
}

/// Returns the block at `p` to the underlying allocator, and logs the call.
fn give_back<A: UnderlyingAlloc>(inner: &A, p: usize, layout: BlockLayout, log: &mut Ghost<Seq<UnderlyingCall>>)
    ensures
        final(log)@ == old(log)@.push(UnderlyingCall::Dealloc(p, layout)),
{
    inner.dealloc_block(p, layout);
    *log = Ghost(log@.push(UnderlyingCall::Dealloc(p, layout)));
}

/// Obtains the 256 blocks that fill the array of a class, one request with
/// `layout` each. Where a request gives null, the blocks obtained so far are
/// returned to the underlying allocator in order and the result is `None`.
fn warm_up<A: UnderlyingAlloc>(inner: &A, layout: BlockLayout, log: &mut Ghost<Seq<UnderlyingCall>>) -> (r: Option<Vec<usize>>)
    ensures
        r matches Some(blocks) ==> {
            &&& blocks@.len() == SHUFFLING_ARRAY_SIZE
            &&& all_blocks(blocks@)
            &&& final(log)@ == old(log)@ + alloc_calls(layout, blocks@)
        },
        r is None ==> exists|got: Seq<usize>|
            got.len() < SHUFFLING_ARRAY_SIZE && all_blocks(got) && final(log)@ == old(log)@
                + #[trigger] failed_warm_up(layout, got),
{
    let mut blocks: Vec<usize> = Vec::new();
    assert(old(log)@ + alloc_calls(layout, blocks@) == old(log)@);
    while blocks.len() < SHUFFLING_ARRAY_SIZE
        invariant
            blocks@.len() <= SHUFFLING_ARRAY_SIZE,
            all_blocks(blocks@),
            log@ == old(log)@ + alloc_calls(layout, blocks@),
        decreases SHUFFLING_ARRAY_SIZE - blocks@.len(),
    {
        let p = request(inner, layout, log);
        if p == 0 {
            let ghost got = blocks@;
            let ghost head = old(log)@ + alloc_calls(layout, got).push(UnderlyingCall::Alloc(layout, 0));
            assert(log@ == head);
            let mut j: usize = 0;
            while j < blocks.len()
                invariant
                    j <= blocks@.len(),
                    got == blocks@,
                    log@ == head + dealloc_calls(got.subrange(0, j as int), layout),
                decreases blocks@.len() - j,
            {
                let ghost before = log@;
                give_back(inner, blocks[j], layout, log);
                proof {
                    let sub = got.subrange(0, j + 1);
                    assert(sub.drop_last() == got.subrange(0, j as int));
                    assert(dealloc_calls(sub, layout) == dealloc_calls(got.subrange(0, j as int), layout).push(UnderlyingCall::Dealloc(got[j as int], layout)));
                    assert(log@ == head + dealloc_calls(sub, layout));
                }
                j = j + 1;
            }
            proof {
                assert(got.subrange(0, got.len() as int) == got);
                vstd::seq_lib::lemma_concat_associative(
                    old(log)@,
                    alloc_calls(layout, got).push(UnderlyingCall::Alloc(layout, 0)),
                    dealloc_calls(got, layout),
                );
                assert(old(log)@ + alloc_calls(layout, got).push(UnderlyingCall::Alloc(layout, 0)) == head);
                assert(log@ == old(log)@ + failed_warm_up(layout, got));
            }
            return None;
        }
        proof {
            let nb = blocks@.push(p);
            assert(nb.drop_last() == blocks@);
            assert(alloc_calls(layout, nb) == alloc_calls(layout, blocks@).push(UnderlyingCall::Alloc(layout, p)));
        }
        blocks.push(p);
    }
    Some(blocks)
}

/// A request has at most one class.
pub proof fn lemma_class_of_unique(s: nat, c1: nat, c2: nat)
    requires
        is_class_of(s, c1),
        is_class_of(s, c2),
    ensures
        c1 == c2,
{
    if c1 < c2 {
        assert(class_size(c1) < s);
    } else if c2 < c1 {
        assert(class_size(c2) < s);
    }
}

/// The slots of a class changed in exactly one place, `i`, which now holds
/// `q`.
pub open spec fn swapped_in(before: Seq<usize>, after: Seq<usize>, i: int, q: usize) -> bool {
    &&& 0 <= i < SHUFFLING_ARRAY_SIZE
    &&& after == before.update(i, q)
}

/// The calls that fill the array of a class with `start`, where the class
/// had no array before (`before` is `None`); none where it had one.
pub open spec fn warm_calls(before: Option<Seq<usize>>, layout: BlockLayout, start: Seq<usize>) -> Seq<
    UnderlyingCall,
> {
    if before is None {
        alloc_calls(layout, start)
    } else {
        Seq::empty()
    }
}

/// The slots of a class were `start` when the replacement request gave `q`,
/// and `p` was handed out: where `q` is a block it took slot `i` and the
/// block that was there is `p`; where `q` is null, `p` is null and the slots
/// stay.
pub open spec fn shuffled_alloc(start: Seq<usize>, after: Seq<usize>, q: usize, p: usize) -> bool {
    if q == 0 {
        p == 0 && after == start
    } else {
        exists|i: int| #[trigger] swapped_in(start, after, i, q) && p == start[i]
    }
}

/// A full set of slots: 256 blocks.
pub open spec fn full_slots(start: Seq<usize>) -> bool {
    start.len() == SHUFFLING_ARRAY_SIZE && all_blocks(start)
}

/// An allocation through class `c`, from `before` to `after`, handing out
/// `p`: the class's slots were `start` (filled by this call where the class
/// had no array), then one replacement request with the class layout gave
/// `q`.
pub open spec fn alloc_through_class<A: UnderlyingAlloc>(
    before: ShufflingAllocator<A>,
    after: ShufflingAllocator<A>,
    c: nat,
    start: Seq<usize>,
    q: usize,
    p: usize,
) -> bool {
    &&& full_slots(start)
    &&& before.class_slots(c) matches Some(s) ==> start == s
    &&& after.calls() == before.calls() + warm_calls(before.class_slots(c), class_layout(c), start).push(
        UnderlyingCall::Alloc(class_layout(c), q),
    )
    &&& after.class_slots(c) is Some
    &&& shuffled_alloc(start, after.class_slots(c)->0, q, p)
}

/// A free of `p` through class `c`, from `before` to `after`: the class's
/// slots were `start` (filled by this call where the class had no array),
/// `p` took slot `i`, and the block that was there went back to the
/// underlying allocator with the class layout.
pub open spec fn free_through_class<A: UnderlyingAlloc>(
    before: ShufflingAllocator<A>,
    after: ShufflingAllocator<A>,
    c: nat,
    start: Seq<usize>,
    i: int,
    p: usize,
) -> bool {
    &&& full_slots(start)
    &&& before.class_slots(c) matches Some(s) ==> start == s
    &&& after.class_slots(c) is Some
    &&& swapped_in(start, after.class_slots(c)->0, i, p)
    &&& after.calls() == before.calls() + warm_calls(before.class_slots(c), class_layout(c), start).push(
        UnderlyingCall::Dealloc(start[i], class_layout(c)),
    )
}

/// A warm-up of class `c` failed, from `before` to `after`: the class had
/// no array and still has none, and the calls were those of the failure.
pub open spec fn warm_up_failed<A: UnderlyingAlloc>(
    before: ShufflingAllocator<A>,
    after: ShufflingAllocator<A>,
    c: nat,
) -> bool {
    &&& before.class_slots(c) is None
    &&& after.class_slots(c) is None
    &&& after.live() == before.live()
    &&& exists|got: Seq<usize>|
        got.len() < SHUFFLING_ARRAY_SIZE && all_blocks(got) && after.calls() == before.calls()
            + #[trigger] failed_warm_up(class_layout(c), got)
}

/// What `allocate(layout)` does, from `before` to `after`, handing out `r`.
pub open spec fn allocate_post<A: UnderlyingAlloc>(
    before: ShufflingAllocator<A>,
    after: ShufflingAllocator<A>,
    layout: BlockLayout,
    r: Result<usize, AllocError>,
) -> bool {
    let fresh: int = if r is Ok && r->Ok_0 != 0 { 1 } else { 0 };
    &&& after.spec_inner() == before.spec_inner()
    &&& is_bypass(layout) ==> {
        &&& r is Ok
        &&& after.calls() == before.calls().push(UnderlyingCall::Alloc(layout, r->Ok_0))
        &&& after.started() == before.started()
        &&& forall|d: nat| #[trigger] after.class_slots(d) == before.class_slots(d)
        &&& after.warm_classes() == before.warm_classes()
        &&& after.live() == before.live() + fresh
    }
    &&& forall|c: nat| #[trigger] is_class_of(layout.size as nat, c) && !is_bypass(layout) ==> {
        &&& (r == Err::<usize, AllocError>(AllocError::NoEntropy) <==> !after.started())
        &&& (r == Err::<usize, AllocError>(AllocError::NoEntropy) ==> !before.started() && after == before)
        &&& forall|d: nat| d != c ==> #[trigger] after.class_slots(d) == before.class_slots(d)
        &&& after.warm_classes() == before.warm_classes() + if before.class_slots(c) is None
            && after.class_slots(c) is Some {
            1nat
        } else {
            0
        }
        &&& (r is Err <==> after.class_slots(c) is None)
        &&& (r is Err && r->Err_0 != AllocError::NoEntropy ==> r->Err_0 == AllocError::WarmUp(class_layout(c))
            && warm_up_failed(before, after, c))
        &&& (r is Ok ==> {
            &&& after.live() == before.live() + fresh
            &&& exists|start: Seq<usize>, q: usize|
                #[trigger] alloc_through_class(before, after, c, start, q, r->Ok_0)
        })
    }
}

/// What `deallocate(p, layout)` does, from `before` to `after`.
pub open spec fn deallocate_post<A: UnderlyingAlloc>(
    before: ShufflingAllocator<A>,
    after: ShufflingAllocator<A>,
    p: usize,
    layout: BlockLayout,
    r: Result<(), AllocError>,
) -> bool {
    &&& after.spec_inner() == before.spec_inner()
    &&& p == 0 ==> {
        &&& r is Ok
        &&& after.calls() == before.calls()
        &&& after.started() == before.started()
        &&& forall|d: nat| #[trigger] after.class_slots(d) == before.class_slots(d)
        &&& after.warm_classes() == before.warm_classes()
        &&& after.live() == before.live()
    }
    &&& p != 0 && is_bypass(layout) ==> {
        &&& r is Ok
        &&& after.calls() == before.calls().push(UnderlyingCall::Dealloc(p, layout))
        &&& after.started() == before.started()
        &&& forall|d: nat| #[trigger] after.class_slots(d) == before.class_slots(d)
        &&& after.warm_classes() == before.warm_classes()
        &&& after.live() == before.live() - 1
    }
    &&& forall|c: nat| #[trigger] is_class_of(layout.size as nat, c) && p != 0 && !is_bypass(layout) ==> {
        &&& (r == Err::<(), AllocError>(AllocError::NoEntropy) <==> !after.started())
        &&& (r == Err::<(), AllocError>(AllocError::NoEntropy) ==> !before.started() && after == before)
        &&& forall|d: nat| d != c ==> #[trigger] after.class_slots(d) == before.class_slots(d)
        &&& after.warm_classes() == before.warm_classes() + if before.class_slots(c) is None
            && after.class_slots(c) is Some {
            1nat
        } else {
            0
        }
        &&& (r is Err <==> after.class_slots(c) is None)
        &&& (r is Err && r->Err_0 != AllocError::NoEntropy ==> r->Err_0 == AllocError::WarmUp(class_layout(c))
            && warm_up_failed(before, after, c))
        &&& (r is Ok ==> {
            &&& after.live() == before.live() - 1
            &&& exists|start: Seq<usize>, i: int| #[trigger] free_through_class(before, after, c, start, i, p)
        })
    }
}

/// A shuffling allocator over the underlying allocator `inner`.
pub struct ShufflingAllocator<A: 'static> {
    inner: &'static A,
    state: LazyAtomicCell<A, State<A>>,
    /// Every call made to `inner`, in order.
    calls: Ghost<Seq<UnderlyingCall>>,
    /// Blocks handed to callers and not yet taken back.
    live: Ghost<int>,
}

impl<A: UnderlyingAlloc + 'static> ShufflingAllocator<A> {
    /// The underlying allocator.
    pub closed spec fn spec_inner(&self) -> &'static A {
        self.inner
    }

    /// Whether the state has been built.
    pub closed spec fn started(&self) -> bool {
        self.state.contents() is Some
    }

    /// The slots of class `c`, once its array has been filled.
    pub closed spec fn class_slots(&self, c: nat) -> Option<Seq<usize>> {
        match self.state.contents() {
            Some(st) => if c < st.cells().len() {
                match st.cells()[c as int].contents() {
                    Some(a) => Some(a@),
                    None => None,
                }
            } else {
                None
            },
            None => None,
        }
    }

    /// How many classes have had their array filled.
    pub closed spec fn warm_classes(&self) -> nat {
        match self.state.contents() {
            Some(st) => count_warm(st.cells()),
            None => 0,
        }
    }

    /// Every call made to the underlying allocator, in order.
    pub closed spec fn calls(&self) -> Seq<UnderlyingCall> {
        self.calls@
    }

    /// Blocks obtained from the underlying allocator and not yet returned.
    pub open spec fn outstanding(&self) -> int {
        net_blocks(self.calls())
    }

    /// Blocks handed to callers and not yet taken back.
    pub closed spec fn live(&self) -> int {
        self.live@
    }

    /// Every filled array is full of blocks of its class, and every block
    /// obtained from the underlying allocator is either held by a caller or
    /// sits in a slot.
    pub closed spec fn wf(&self) -> bool {
        &&& self.state.contents() matches Some(st) ==> st.wf()
        &&& net_blocks(self.calls@) == self.live@ + SHUFFLING_ARRAY_SIZE * self.warm_classes()
    }

    /// An allocator over `inner` that has built nothing yet.
    pub fn new(inner: &'static A) -> (r: Self)
        ensures
            r.wf(),
            r.spec_inner() == inner,
            !r.started(),
            r.calls() == Seq::<UnderlyingCall>::empty(),
            r.live() == 0,
            r.warm_classes() == 0,
            forall|c: nat| #[trigger] r.class_slots(c) is None,
    {
        ShufflingAllocator {
            inner,
            state: LazyAtomicCell::new(inner),
            calls: Ghost(Seq::empty()),
            live: Ghost(0),
        }
    }

    /// The underlying allocator.
    pub fn inner(&self) -> (r: &'static A)
        ensures
            r == self.spec_inner(),
    {
        self.inner
    }

    /// Builds the state where it has not been built. Hands back whether the
    /// state exists: `false` only where the platform gave no seed, and then
    /// nothing changed.
    fn ensure_state(&mut self) -> (ok: bool)
        requires
            old(self).wf(),
        ensures
            final(self).wf(),
            ok <==> final(self).started(),
            !ok ==> *final(self) == *old(self),
            final(self).spec_inner() == old(self).spec_inner(),
            final(self).live() == old(self).live(),
            final(self).calls() == old(self).calls(),
            final(self).warm_classes() == old(self).warm_classes(),
            forall|d: nat| #[trigger] final(self).class_slots(d) == old(self).class_slots(d),
    {
        if self.state.is_initialized() {
            return true;
        }
        match State::new(self.inner) {
            None => false,
            Some(fresh) => {
                let _ = self.state.publish(fresh);
                true
            },
        }
    }

    /// Fills the array of class `info` where it is empty, building the table
    /// of classes first where it has not been built. Hands back whether the
    /// class has its array: `false` only where the underlying allocator ran
    /// out.
    fn ensure_class(&mut self, info: SizeClassInfo) -> (ok: bool)
        requires
            old(self).wf(),
            old(self).started(),
            info.index < NUM_SIZE_CLASSES,
            info.size_class == class_size(info.index as nat),
        ensures
            final(self).wf(),
            final(self).started(),
            final(self).spec_inner() == old(self).spec_inner(),
            final(self).live() == old(self).live(),
            ok <==> final(self).class_slots(info.index as nat) is Some,
            forall|d: nat|
                d != info.index ==> #[trigger] final(self).class_slots(d) == old(self).class_slots(d),
            old(self).class_slots(info.index as nat) is Some ==> {
                &&& ok
                &&& final(self).class_slots(info.index as nat) == old(self).class_slots(info.index as nat)
                &&& final(self).calls() == old(self).calls()
            },
            final(self).class_slots(info.index as nat) matches Some(s) ==> full_slots(s),
            old(self).class_slots(info.index as nat) is None && ok ==> final(self).calls() == old(self).calls()
                + alloc_calls(class_layout(info.index as nat), final(self).class_slots(info.index as nat)->0),
            !ok ==> warm_up_failed(*old(self), *final(self), info.index as nat),
            final(self).warm_classes() == old(self).warm_classes() + if old(self).class_slots(
                info.index as nat,
            ) is None && ok {
                1nat
            } else {
                0
            },
    {
        let inner = self.inner;
        let table_built = match self.state.get() {
            Some(st) => st.size_classes.is_initialized(),
            None => false,
        };
        if !table_built {
            let ghost before = *self;
            let st = self.state.get_mut();
            let _ = st.size_classes.publish(SizeClasses::new(inner));
            proof {
                assert forall|d: nat| #[trigger] self.class_slots(d) == before.class_slots(d) by {
                    if d < NUM_SIZE_CLASSES {
                        assert(self.state.contents()->0.cells()[d as int].contents() is None);
                    }
                }
            }
        }
        let warm = match self.state.get() {
            Some(st) => match st.size_classes.get() {
                Some(table) => table.cells[info.index].is_initialized(),
                None => false,
            },
            None => false,
        };
        if warm {
            return true;
        }
        let ghost mid = *self;
        let layout = BlockLayout { size: info.size_class, align: word_size() };
        assert(layout == class_layout(info.index as nat));
        let blocks = match warm_up(inner, layout, &mut self.calls) {
            None => {
                proof {
                    let got = choose|got: Seq<usize>|
                        got.len() < SHUFFLING_ARRAY_SIZE && all_blocks(got) && self.calls@ == mid.calls@
                            + #[trigger] failed_warm_up(layout, got);
                    lemma_net_failed_warm_up(layout, got);
                    lemma_net_concat(mid.calls@, failed_warm_up(layout, got));
                    assert(warm_up_failed(*old(self), *self, info.index as nat));
                }
                return false;
            },
            Some(blocks) => blocks,
        };
        proof {
            lemma_net_alloc_calls(layout, blocks@);
            lemma_net_concat(mid.calls@, alloc_calls(layout, blocks@));
        }
        let ghost start = blocks@;
        let array = ShufflingArray::new(info.size_class, blocks);
        let ghost cells0 = self.state.contents()->0.cells();
        let st = self.state.get_mut();
        let table = st.size_classes.get_mut();
        let cell = &mut table.cells[info.index];
        let _ = cell.publish(array);
        proof {
            let cells1 = self.state.contents()->0.cells();
            assert(cells1 == cells0.update(info.index as int, cells1[info.index as int]));
            lemma_count_warm_update(cells0, info.index as int, cells1[info.index as int]);
            assert(self.class_slots(info.index as nat) == Some(start));
            assert forall|d: nat| d != info.index implies #[trigger] self.class_slots(d) == old(self).class_slots(d) by {
                assert(mid.class_slots(d) == old(self).class_slots(d));
                if d < NUM_SIZE_CLASSES {
                    assert(cells1[d as int] == cells0[d as int]);
                }
            }
        }
        true
    }

    /// Allocates a block for `layout`. A request that takes the bypass goes
    /// to the underlying allocator unchanged. Otherwise a fresh block of the
    /// request's class replaces the block in a random slot of the class's
    /// array, and the block that was there is handed out. Zero is handed out
    /// where the underlying allocator has no fresh block. The error tells
    /// where the class's array could not be filled, or the platform gave no
    /// seed for the generator on first use.
    pub fn allocate(&mut self, layout: BlockLayout) -> (r: Result<usize, AllocError>)
        requires
            old(self).wf(),
        ensures
            final(self).wf(),
            allocate_post(*old(self), *final(self), layout, r),
    {
        match route(layout) {
            Route::Bypass => {
                let p = request(self.inner, layout, &mut self.calls);
                assert(self.calls@.drop_last() =~= old(self).calls@);
                if p != 0 {
                    proof {
                        self.live@ = self.live@ + 1;
                    }
                }
                Ok(p)
            },
            Route::Shuffle(info) => {
                proof {
                    assert forall|c: nat| is_class_of(layout.size as nat, c) implies c == info.index by {
                        lemma_class_of_unique(layout.size as nat, c, info.index as nat);
                    }
                }
                let class_layout = BlockLayout { size: info.size_class, align: word_size() };
                if !self.ensure_state() {
                    return Err(AllocError::NoEntropy);
                }
                if !self.ensure_class(info) {
                    return Err(AllocError::WarmUp(class_layout));
                }
                let ghost mid = *self;
                let ghost start = self.class_slots(info.index as nat)->0;
                let ghost warm = warm_calls(old(self).class_slots(info.index as nat), class_layout, start);
                assert(mid.calls@ == old(self).calls@ + warm);
                let replacement = request(self.inner, class_layout, &mut self.calls);
                proof {
                    assert(self.calls@.drop_last() =~= mid.calls@);
                    vstd::seq_lib::lemma_concat_associative(
                        old(self).calls@,
                        warm,
                        seq![UnderlyingCall::Alloc(class_layout, replacement)],
                    );
                    assert(self.calls@ == old(self).calls@ + warm.push(UnderlyingCall::Alloc(class_layout, replacement)));
                }
                if replacement == 0 {
                    proof {
                        assert(alloc_through_class(*old(self), *self, info.index as nat, start, 0, 0));
                        assert forall|d: nat| d != info.index implies #[trigger] self.class_slots(d) == old(self).class_slots(d) by {
                            assert(mid.class_slots(d) == old(self).class_slots(d));
                        }
                        assert(self.class_slots(info.index as nat) is Some);
                    }
                    return Ok(0);
                }
                let st = self.state.get_mut();
                let ghost cells0 = st.cells();
                let array = st.size_classes.get_mut().cells[info.index].get_mut();
                let index = gen_below(&mut st.rng, SHUFFLING_ARRAY_SIZE);
                let p = array.swap(index, replacement);
                proof {
                    self.live@ = self.live@ + 1;
                }
                proof {
                    let cells1 = self.state.contents()->0.cells();
                    lemma_count_warm_update(cells0, info.index as int, cells1[info.index as int]);
                    assert(cells1 == cells0.update(info.index as int, cells1[info.index as int]));
                    assert(self.class_slots(info.index as nat) == Some(start.update(index as int, replacement)));
                    assert(swapped_in(start, self.class_slots(info.index as nat)->0, index as int, replacement));
                    assert(alloc_through_class(*old(self), *self, info.index as nat, start, replacement, p));
                    assert forall|d: nat| d != info.index implies self.class_slots(d) == old(self).class_slots(d) by {
                        assert(mid.class_slots(d) == old(self).class_slots(d));
                        if d < NUM_SIZE_CLASSES {
                            assert(cells1[d as int] == cells0[d as int]);
                        }
                    }
                }
                Ok(p)
            },
        }
    }

    /// Frees the block at `p`, allocated for `layout`. Zero is ignored. A
    /// request that takes the bypass goes to the underlying allocator
    /// unchanged. Otherwise `p` replaces the block in a random slot of its
    /// class's array, and the block that was there is returned to the
    /// underlying allocator. The error tells where the class's array could
    /// not be filled, or the platform gave no seed for the generator on first
    /// use.
    pub fn deallocate(&mut self, p: usize, layout: BlockLayout) -> (r: Result<(), AllocError>)
        requires
            old(self).wf(),
        ensures
            final(self).wf(),
            deallocate_post(*old(self), *final(self), p, layout, r),
    {
        if p == 0 {
            return Ok(());
        }
        match route(layout) {
            Route::Bypass => {
                give_back(self.inner, p, layout, &mut self.calls);
                proof {
                    assert(self.calls@.drop_last() =~= old(self).calls@);
                    self.live@ = self.live@ - 1;
                }
                Ok(())
            },
            Route::Shuffle(info) => {
                proof {
                    assert forall|c: nat| is_class_of(layout.size as nat, c) implies c == info.index by {
                        lemma_class_of_unique(layout.size as nat, c, info.index as nat);
                    }
                }
                let class_layout = BlockLayout { size: info.size_class, align: word_size() };
                if !self.ensure_state() {
                    return Err(AllocError::NoEntropy);
                }
                if !self.ensure_class(info) {
                    return Err(AllocError::WarmUp(class_layout));
                }
                let inner = self.inner;
                let ghost mid = *self;
                let ghost start = self.class_slots(info.index as nat)->0;
                let ghost warm = warm_calls(old(self).class_slots(info.index as nat), class_layout, start);
                assert(mid.calls@ == old(self).calls@ + warm);
                let st = self.state.get_mut();
                let ghost cells0 = st.cells();
                let array = st.size_classes.get_mut().cells[info.index].get_mut();
                let index = gen_below(&mut st.rng, SHUFFLING_ARRAY_SIZE);
                let displaced = array.swap(index, p);
                give_back(inner, displaced, class_layout, &mut self.calls);
                proof {
                    assert(self.calls@.drop_last() =~= mid.calls@);
                    vstd::seq_lib::lemma_concat_associative(
                        old(self).calls@,
                        warm,
                        seq![UnderlyingCall::Dealloc(displaced, class_layout)],
                    );
                    self.live@ = self.live@ - 1;
                }
                proof {
                    let cells1 = self.state.contents()->0.cells();
                    lemma_count_warm_update(cells0, info.index as int, cells1[info.index as int]);
                    assert(cells1 == cells0.update(info.index as int, cells1[info.index as int]));
                    assert(self.class_slots(info.index as nat) == Some(start.update(index as int, p)));
                    assert(self.calls@ == old(self).calls@ + warm.push(UnderlyingCall::Dealloc(displaced, class_layout)));
                    assert(free_through_class(*old(self), *self, info.index as nat, start, index as int, p));
                    assert forall|d: nat| d != info.index implies self.class_slots(d) == old(self).class_slots(d) by {
                        assert(mid.class_slots(d) == old(self).class_slots(d));
                        if d < NUM_SIZE_CLASSES {
                            assert(cells1[d as int] == cells0[d as int]);
                        }
                    }
                }
                Ok(())
            },
        }
    }

    /// Returns every block held in the slots to the underlying allocator and
    /// leaves every array empty, as on teardown.
    pub fn release(&mut self)
        requires
            old(self).wf(),
        ensures
            final(self).wf(),
            final(self).spec_inner() == old(self).spec_inner(),
            final(self).started() == old(self).started(),
            final(self).live() == old(self).live(),
            final(self).warm_classes() == 0,
            final(self).outstanding() == old(self).live(),
            final(self).calls() == old(self).calls() + release_calls(*old(self), NUM_SIZE_CLASSES as nat),
            forall|c: nat| #[trigger] final(self).class_slots(c) is None,
    {
        let table_built = match self.state.get() {
            Some(st) => st.size_classes.is_initialized(),
            None => false,
        };
        if !table_built {
            proof {
                if self.started() {
                    lemma_count_warm_none(self.state.contents()->0.cells());
                }
                lemma_release_calls_none(*self, NUM_SIZE_CLASSES as nat);
                assert(self.calls@ + Seq::<UnderlyingCall>::empty() == self.calls@);
            }
            return;
        }
        let inner = self.inner;
        let mut c: usize = 0;
        assert(old(self).calls@ + release_calls(*old(self), 0) == old(self).calls@);
        while c < NUM_SIZE_CLASSES
            invariant
                self.wf(),
                self.started(),
                self.spec_inner() == old(self).spec_inner(),
                inner == self.spec_inner(),
                self.live() == old(self).live(),
                self.state.contents()->0.cells().len() == NUM_SIZE_CLASSES,
                c <= NUM_SIZE_CLASSES,
                forall|d: nat| d < c ==> #[trigger] self.class_slots(d) is None,
                forall|d: nat| c <= d ==> #[trigger] self.class_slots(d) == old(self).class_slots(d),
                self.calls@ == old(self).calls@ + release_calls(*old(self), c as nat),
            decreases NUM_SIZE_CLASSES - c,
        {
            let ghost before = *self;
            let ghost slots = old(self).class_slots(c as nat);
            let ghost base = self.calls@;
            let st = self.state.get_mut();
            let ghost cells0 = st.cells();
            let taken = st.size_classes.get_mut().cells[c].take();
            match taken {
                None => {
                    proof {
                        assert(base + Seq::<UnderlyingCall>::empty() == base);
                        assert(slots is None);
                        vstd::seq_lib::lemma_concat_associative(
                            old(self).calls@,
                            release_calls(*old(self), c as nat),
                            Seq::<UnderlyingCall>::empty(),
                        );
                    }
                },
                Some(mut array) => {
                    assert(slots == before.class_slots(c as nat));
                    assert(array@ == slots->0);
                    assert(array.wf());
                    let layout = array.elem_layout();
                    assert(layout == class_layout(c as nat));
                    let blocks = array.drain();
                    let mut j: usize = 0;
                    let mut log: Ghost<Seq<UnderlyingCall>> = Ghost(base);
                    assert(blocks@.subrange(0, 0) =~= Seq::<usize>::empty());
                    assert(base + dealloc_calls(blocks@.subrange(0, 0), layout) == base);
                    while j < blocks.len()
                        invariant
                            j <= blocks@.len(),
                            log@ == base + dealloc_calls(blocks@.subrange(0, j as int), layout),
                        decreases blocks@.len() - j,
                    {
                        give_back(inner, blocks[j], layout, &mut log);
                        proof {
                            let sub = blocks@.subrange(0, j + 1);
                            assert(sub.drop_last() == blocks@.subrange(0, j as int));
                        }
                        j = j + 1;
                    }
                    self.calls = log;
                    proof {
                        assert(blocks@.subrange(0, blocks@.len() as int) == blocks@);
                        assert(blocks@ == slots->0);
                        lemma_net_dealloc_calls(blocks@, layout);
                        lemma_net_concat(base, dealloc_calls(blocks@, layout));
                        vstd::seq_lib::lemma_concat_associative(
                            old(self).calls@,
                            release_calls(*old(self), c as nat),
                            dealloc_calls(blocks@, layout),
                        );
                    }
                },
            }
            proof {
                let cells1 = self.state.contents()->0.cells();
                assert(cells1 == cells0.update(c as int, cells1[c as int]));
                lemma_count_warm_update(cells0, c as int, cells1[c as int]);
                assert forall|d: nat| d < c + 1 implies #[trigger] self.class_slots(d) is None by {
                    if d < c {
                        assert(before.class_slots(d) is None);
                        assert(cells1[d as int] == cells0[d as int]);
                    }
                }
                assert forall|d: nat| c + 1 <= d implies #[trigger] self.class_slots(d) == old(self).class_slots(d) by {
                    assert(before.class_slots(d) == old(self).class_slots(d));
                    if d < NUM_SIZE_CLASSES {
                        assert(cells1[d as int] == cells0[d as int]);
                    }
                }
                assert(release_calls(*old(self), (c + 1) as nat) == release_calls(*old(self), c as nat)
                    + match slots {
                        Some(s) => dealloc_calls(s, class_layout(c as nat)),
                        None => Seq::empty(),
                    });
            }
            c = c + 1;
        }
        proof {
            let cells = self.state.contents()->0.cells();
            assert forall|d: int| 0 <= d < cells.len() implies (#[trigger] cells[d]).contents() is None by {
                assert(self.class_slots(d as nat) is None);
            }
            lemma_count_warm_none(cells);
        }
    }
}

/// The calls of a teardown of `a`, over classes `0..n`: each filled class's
/// slots released in order, with the class layout.
pub open spec fn release_calls<A: UnderlyingAlloc>(a: ShufflingAllocator<A>, n: nat) -> Seq<
    UnderlyingCall,
>
    decreases n,
{
    if n == 0 {
        Seq::empty()
    } else {
        release_calls(a, (n - 1) as nat) + match a.class_slots((n - 1) as nat) {
            Some(s) => dealloc_calls(s, class_layout((n - 1) as nat)),
            None => Seq::empty(),
        }
    }
}

proof fn lemma_release_calls_none<A: UnderlyingAlloc>(a: ShufflingAllocator<A>, n: nat)
    requires
        forall|c: nat| c < n ==> #[trigger] a.class_slots(c) is None,
    ensures
        release_calls(a, n) == Seq::<UnderlyingCall>::empty(),
    decreases n,
{
    if n > 0 {
        lemma_release_calls_none(a, (n - 1) as nat);
        assert(Seq::<UnderlyingCall>::empty() + Seq::<UnderlyingCall>::empty() == Seq::<UnderlyingCall>::empty());
    }
}

/// Every block obtained from the underlying allocator is held by a caller or
/// sits in a slot: the blocks outstanding by the log of calls (obtained less
/// returned) are those handed out and not taken back, plus 256 for every
/// class whose array has been filled.
pub proof fn lemma_blocks_balance<A: UnderlyingAlloc>(a: ShufflingAllocator<A>)
    requires
        a.wf(),
    ensures
        a.outstanding() == a.live() + SHUFFLING_ARRAY_SIZE * a.warm_classes(),
{
}

/// Every slot of a class whose array has been filled holds a block.
pub proof fn lemma_slots_full<A: UnderlyingAlloc>(a: ShufflingAllocator<A>, c: nat)
    requires
        a.wf(),
        a.class_slots(c) is Some,
    ensures
        a.class_slots(c)->0.len() == SHUFFLING_ARRAY_SIZE,
        forall|i: int| 0 <= i < SHUFFLING_ARRAY_SIZE ==> a.class_slots(c)->0[i] != 0,
{
    let st = a.state.contents()->0;
    assert(st.wf());
    assert(c < NUM_SIZE_CLASSES);
    let cell = st.cells()[c as int];
    assert(cell.contents()->0.wf());
}

/// Allocating a block for `layout` and then freeing it with the same layout
/// leaves the blocks held by callers as they were, and the blocks
/// outstanding changed only by the arrays filled on the way.
pub proof fn lemma_allocate_deallocate_round_trip<A: UnderlyingAlloc>(
    a0: ShufflingAllocator<A>,
    a1: ShufflingAllocator<A>,
    a2: ShufflingAllocator<A>,
    layout: BlockLayout,
    p: usize,
)
    requires
        a0.wf(),
        a1.wf(),
        a2.wf(),
        p != 0,
        allocate_post(a0, a1, layout, Ok(p)),
        deallocate_post(a1, a2, p, layout, Ok(())),
    ensures
        a2.live() == a0.live(),
        a2.outstanding() == a0.outstanding() + SHUFFLING_ARRAY_SIZE * (a2.warm_classes()
            - a0.warm_classes()),
{
    if !is_bypass(layout) {
        lemma_class_exists(layout.size as nat, (NUM_SIZE_CLASSES - 1) as nat);
        let c = choose|c: nat| c <= NUM_SIZE_CLASSES - 1 && is_class_of(layout.size as nat, c);
        assert(is_class_of(layout.size as nat, c));
    }
}

/// Two allocations in a row from a filled class hand out different blocks,
/// where the class's slots held distinct blocks and the replacement request
/// of the first allocation gave a block that was not among them.
pub proof fn lemma_successive_allocations_differ<A: UnderlyingAlloc>(
    a0: ShufflingAllocator<A>,
    a1: ShufflingAllocator<A>,
    a2: ShufflingAllocator<A>,
    layout: BlockLayout,
    c: nat,
    fresh: usize,
    first: usize,
    second: usize,
)
    requires
        is_class_of(layout.size as nat, c),
        !is_bypass(layout),
        a0.class_slots(c) is Some,
        a0.class_slots(c)->0.no_duplicates(),
        allocate_post(a0, a1, layout, Ok(first)),
        allocate_post(a1, a2, layout, Ok(second)),
        a1.calls().last() == UnderlyingCall::Alloc(class_layout(c), fresh),
        !a0.class_slots(c)->0.contains(fresh),
        first != 0,
        second != 0,
    ensures
        first != second,
{
    let s0 = a0.class_slots(c)->0;
    let (start, q) = choose|start: Seq<usize>, q: usize| #[trigger] alloc_through_class(a0, a1, c, start, q, first);
    assert(start == s0);
    assert(a1.calls().last() == UnderlyingCall::Alloc(class_layout(c), q));
    assert(q == fresh);
    let s1 = a1.class_slots(c)->0;
    let i = choose|i: int| #[trigger] swapped_in(s0, s1, i, q) && first == s0[i];
    let (start2, q2) = choose|start2: Seq<usize>, q2: usize| #[trigger] alloc_through_class(a1, a2, c, start2, q2, second);
    assert(start2 == s1);
    let j = choose|j: int| #[trigger] swapped_in(s1, a2.class_slots(c)->0, j, q2) && second == s1[j];
    if j == i {
        assert(second == fresh);
        assert(s0.contains(first));
    } else {
        assert(second == s0[j]);
    }
}

} // verus!
