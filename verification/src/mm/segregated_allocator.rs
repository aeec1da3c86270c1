//! Segregated-list allocator.
//!
//! Nine size classes, each a power of two that is also the alignment of its
//! blocks, own a stack of free blocks each. A request goes to the smallest
//! class that holds it; requests beyond the largest class, and requests to a
//! class whose stack is empty, go to a first-fit linked-list heap.
//!
//! The heap is an outside one. Of what it has handed out only this is
//! taken for granted: a block that it hands out is new and shares no byte
//! with one that it had handed out before. From that the allocator keeps
//! account of its own blocks, on its stacks and handed out, and no two of
//! them share a byte. Giving a block back to the heap is left to the
//! caller; what the heap has handed out is not known after that.

use vstd::prelude::*;
use linked_list_allocator::Heap;
use std::alloc::Layout;
use vstd::arithmetic::power2::pow2;

verus! {

/// Number of size classes.
pub const BLOCK_CLASSES: usize = 9;

/// Blocks that `init` puts on the stack of each class.
pub const BLOCKS_PER_CLASS: usize = 100;

/// The first-fit heap behind the size classes. Nothing of its inside is
/// known here.
#[verifier::external_type_specification]
#[verifier::external_body]
pub struct ExHeap(Heap);

/// Block size of the class `index`: 8, 16, 32, ... 2048 bytes.
pub open spec fn spec_block_size(index: int) -> int {
    if index == 0 {
        8
    } else if index == 1 {
        16
    } else if index == 2 {
        32
    } else if index == 3 {
        64
    } else if index == 4 {
        128
    } else if index == 5 {
        256
    } else if index == 6 {
        512
    } else if index == 7 {
        1024
    } else {
        2048
    }
}

/// The block sizes of the classes. Each is a power of two, because it is
/// also the alignment of the blocks of its class.
pub fn block_sizes() -> (sizes: [usize; 9])
    ensures
        forall|i: int| 0 <= i < BLOCK_CLASSES ==> (#[trigger] sizes@[i]) == spec_block_size(i),
{
    [8, 16, 32, 64, 128, 256, 512, 1024, 2048]
}

/// The class that serves a request of `size` bytes aligned to `align`: the
/// first whose blocks are not smaller than both.
pub open spec fn spec_list_index(size: int, align: int) -> Option<int> {
    let required = if size >= align {
        size
    } else {
        align
    };
    if required <= 8 {
        Some(0)
    } else if required <= 16 {
        Some(1)
    } else if required <= 32 {
        Some(2)
    } else if required <= 64 {
        Some(3)
    } else if required <= 128 {
        Some(4)
    } else if required <= 256 {
        Some(5)
    } else if required <= 512 {
        Some(6)
    } else if required <= 1024 {
        Some(7)
    } else if required <= 2048 {
        Some(8)
    } else {
        None
    }
}

/// Block sizes are powers of two: a block aligned to the size of its class
/// is aligned to every power of two up to that size.
pub proof fn law_class_alignment(ptr: int, index: int, e: nat)
    requires
        0 <= index < BLOCK_CLASSES,
        ptr % spec_block_size(index) == 0,
        pow2(e) <= spec_block_size(index),
    ensures
        spec_block_size(index) == pow2((index + 3) as nat),
        ptr % (pow2(e) as int) == 0,
{
    vstd::arithmetic::power2::lemma2_to64();
    assert(spec_block_size(index) == pow2((index + 3) as nat)) by {
        if index == 0 {
        } else if index == 1 {
        } else if index == 2 {
        } else if index == 3 {
        } else if index == 4 {
        } else if index == 5 {
        } else if index == 6 {
        } else if index == 7 {
        } else {
        }
    }
    if e > index + 3 {
        vstd::arithmetic::power2::lemma_pow2_strictly_increases((index + 3) as nat, e);
    }
    crate::mm::pow2::lemma_aligned_weaken(ptr, (index + 3) as nat, e);
}

/// The first class whose blocks hold a request is the one that serves it.
pub proof fn lemma_first_class(size: int, align: int, i: int)
    requires
        0 <= i < BLOCK_CLASSES,
        size <= spec_block_size(i) && align <= spec_block_size(i),
        i > 0 ==> size > spec_block_size(i - 1) || align > spec_block_size(i - 1),
    ensures
        spec_list_index(size, align) == Some(i),
{
    if i == 0 {
    } else if i == 1 {
    } else if i == 2 {
    } else if i == 3 {
    } else if i == 4 {
    } else if i == 5 {
    } else if i == 6 {
    } else if i == 7 {
    } else {
    }
}

/// The class that serves a request of `size` bytes aligned to `align`, if
/// there is one.
pub fn list_index(size: usize, align: usize) -> (r: Option<usize>)
    ensures
        r matches Some(i) ==> spec_list_index(size as int, align as int) == Some(i as int) && i
            < BLOCK_CLASSES && size <= spec_block_size(i as int) && align <= spec_block_size(
            i as int,
        ),
        r is None ==> spec_list_index(size as int, align as int) is None,
{
    let required_block_size: usize = if size >= align {
        size
    } else {
        align
    };
    let sizes = block_sizes();
    let mut index: usize = 0;
    while index < BLOCK_CLASSES
        invariant
            index <= BLOCK_CLASSES,
            required_block_size == (if size >= align {
                size
            } else {
                align
            }),
            forall|i: int| 0 <= i < BLOCK_CLASSES ==> (#[trigger] sizes@[i]) == spec_block_size(i),
            forall|i: int| 0 <= i < index ==> spec_block_size(i) < required_block_size,
        decreases BLOCK_CLASSES - index,
    {
        if sizes[index] >= required_block_size {
            proof {
                assert(sizes@[index as int] == spec_block_size(index as int));
                if index > 0 {
                    assert(spec_block_size(index - 1) < required_block_size);
                }
                lemma_first_class(size as int, align as int, index as int);
            }
            return Some(index);
        }
        index += 1;
    }
    proof {
        assert(spec_block_size(8) < required_block_size);
    }
    None
}

/// The fallback heap has no memory left for the first blocks of a class.
#[derive(Debug, Clone, Copy, PartialEq, Eq)]
pub enum SegregatedError {
    /// The class, by its index, that could not be filled.
    OutOfMemory(usize),
}

/// Where a request is served from.
#[derive(Debug, Clone, Copy, PartialEq, Eq)]
pub enum Served {
    /// From the stack of a class: the address of the block.
    Block(usize),
    /// From the fallback heap, which is asked for this size and alignment.
    Fallback { size: usize, align: usize },
}

/// The segregated-list allocator: a stack of free blocks for each class, the
/// last one pushed being the first handed out, and the fallback heap.
pub struct SegregatedStorageAllocator {
    lists: Vec<Vec<usize>>,
    fallback_allocator: Heap,
    owned: Ghost<Map<int, int>>,
}

/// The bytes from `lo` up to `hi` lie in one of `blocks`.
pub open spec fn homed(blocks: Map<int, int>, lo: int, hi: int) -> bool {
    exists|h: int| #[trigger] blocks.dom().contains(h) && h <= lo && hi <= h + blocks[h]
}

/// The blocks `owned`, each with its bytes, are such as the allocator may
/// call its own: each has bytes, lies in a block that the heap has handed
/// out, and shares no byte with another; and the blocks on the stacks are
/// among them, each with the block size of its class.
pub open spec fn blocks_accounted(
    stacks: Seq<Seq<usize>>,
    owned: Map<int, int>,
    blocks: Map<int, int>,
) -> bool {
    &&& forall|a: int| #[trigger]
        owned.dom().contains(a) ==> owned[a] > 0 && homed(blocks, a, a + owned[a])
    &&& forall|a: int, b: int|
        #![trigger owned.dom().contains(a), owned.dom().contains(b)]
        owned.dom().contains(a) && owned.dom().contains(b) && a != b ==> a + owned[a] <= b || b
            + owned[b] <= a
    &&& forall|i: int, k: int|
        0 <= i < BLOCK_CLASSES && 0 <= k < stacks[i].len() ==> owned.dom().contains(
            #[trigger] stacks[i][k] as int,
        ) && owned[stacks[i][k] as int] == spec_block_size(i)
}

/// The block at `addr` is on one of the stacks.
pub open spec fn on_stack(stacks: Seq<Seq<usize>>, addr: int) -> bool {
    exists|i: int, k: int|
        0 <= i < BLOCK_CLASSES && 0 <= k < stacks[i].len() && #[trigger] stacks[i][k] as int == addr
}

/// A block that the heap has handed out anew joins the blocks of the
/// allocator: it was none of them and shares no byte with one.
pub proof fn lemma_block_joins(
    stacks: Seq<Seq<usize>>,
    owned: Map<int, int>,
    pre: Heap,
    post: Heap,
    size: int,
    ptr: int,
)
    requires
        blocks_accounted(stacks, owned, heap_blocks(pre)),
        heap_served(pre, post, size, ptr),
    ensures
        blocks_accounted(stacks, owned, heap_blocks(post)),
        ptr != 0 && size > 0 ==> !owned.dom().contains(ptr) && !on_stack(stacks, ptr)
            && blocks_accounted(stacks, owned.insert(ptr, size), heap_blocks(post)),
{
    let b0 = heap_blocks(pre);
    let b1 = heap_blocks(post);
    if ptr != 0 {
        assert forall|a: int| #[trigger] owned.dom().contains(a) implies homed(
            b1,
            a,
            a + owned[a],
        ) && (a + owned[a] <= ptr || ptr + size <= a) by {
            let h = choose|h: int| #[trigger] b0.dom().contains(h) && h <= a && a + owned[a] <= h + b0[h];
            assert(b1.dom().contains(h) && b1[h] == b0[h]);
        }
        if size > 0 {
            let owned1 = owned.insert(ptr, size);
            if owned.dom().contains(ptr) {
                assert(ptr + owned[ptr] <= ptr || ptr + size <= ptr);
            }
            if on_stack(stacks, ptr) {
                let (i, k) = choose|i: int, k: int|
                    0 <= i < BLOCK_CLASSES && 0 <= k < stacks[i].len() && #[trigger] stacks[i][k] as int
                        == ptr;
                assert(owned.dom().contains(stacks[i][k] as int));
            }
            assert(b1.dom().contains(ptr) && b1[ptr] == size);
            assert(homed(b1, ptr, ptr + size));
            assert forall|a: int| #[trigger] owned1.dom().contains(a) implies owned1[a] > 0
                && homed(b1, a, a + owned1[a]) by {
                if a != ptr {
                    assert(owned.dom().contains(a));
                }
            }
            assert forall|a: int, b: int|
                #![trigger owned1.dom().contains(a), owned1.dom().contains(b)]
                owned1.dom().contains(a) && owned1.dom().contains(b) && a != b implies a
                + owned1[a] <= b || b + owned1[b] <= a by {
                if a != ptr {
                    assert(owned.dom().contains(a));
                }
                if b != ptr {
                    assert(owned.dom().contains(b));
                }
            }
            assert forall|i: int, k: int|
                0 <= i < BLOCK_CLASSES && 0 <= k < stacks[i].len() implies owned1.dom().contains(
                #[trigger] stacks[i][k] as int,
            ) && owned1[stacks[i][k] as int] == spec_block_size(i) by {
                assert(owned.dom().contains(stacks[i][k] as int));
            }
        }
    }
}

/// An empty heap of the outside crate (`Heap::empty`). Nothing is claimed of it.
#[verifier::external_body]
fn heap_empty() -> Heap {
    Heap::empty()
}

/// A size and an alignment that make a layout: the alignment is a power of
/// two, and the size, rounded up to the alignment, is a size that an object
/// can have.
pub open spec fn valid_layout(size: int, align: int) -> bool {
    &&& crate::mm::pow2::is_power_of_two(align)
    &&& crate::mm::spec_round_up(size, align) <= isize::MAX
}

/// The blocks that the heap has handed out and not taken back: for the
/// address of each, the number of bytes that it was asked for.
pub uninterp spec fn heap_blocks(heap: Heap) -> Map<int, int>;

/// No byte of the `size` bytes at `addr` lies in a block of `blocks`.
pub open spec fn misses_blocks(blocks: Map<int, int>, addr: int, size: int) -> bool {
    forall|a: int| #[trigger] blocks.dom().contains(a) ==> a + blocks[a] <= addr || addr + size <= a
}

/// From `pre` to `post` the heap was asked for `size` bytes and answered
/// with `ptr`, 0 standing for no block: a block is new among the blocks
/// handed out, is recorded with the bytes asked for, and shares no byte
/// with a block handed out before; without a block, nothing has changed.
pub open spec fn heap_served(pre: Heap, post: Heap, size: int, ptr: int) -> bool {
    if ptr == 0 {
        heap_blocks(post) == heap_blocks(pre)
    } else {
        &&& !heap_blocks(pre).dom().contains(ptr)
        &&& heap_blocks(post) == heap_blocks(pre).insert(ptr, size)
        &&& misses_blocks(heap_blocks(pre), ptr, size)
    }
}

/// A block that the heap has served shares no byte with memory that lies
/// in a block which the heap had handed out before: with a chunk, with a
/// block of a chunk, with a block that the heap served earlier.
pub proof fn law_served_misses(pre: Heap, post: Heap, size: int, ptr: int, held: int, lo: int, hi: int)
    requires
        ptr != 0,
        heap_served(pre, post, size, ptr),
        heap_blocks(pre).dom().contains(held),
        held <= lo <= hi <= held + heap_blocks(pre)[held],
    ensures
        hi <= ptr || ptr + size <= lo,
        heap_blocks(post).dom().contains(held),
        heap_blocks(post)[held] == heap_blocks(pre)[held],
        heap_blocks(post)[ptr] == size,
{
}

/// Asks the outside heap for `size` bytes aligned to `align`
/// (`Layout::from_size_align`, then `Heap::allocate_first_fit`). A request
/// that is no valid layout is refused. The address handed out is not null
/// and is a multiple of `align`. The block is cut out of free memory of the
/// heap: it is none of the blocks handed out before and shares no byte with
/// one, and it is the one block that joins them. A request that fails
/// leaves the heap as it was.
#[verifier::external_body]
fn heap_allocate(heap: &mut Heap, size: usize, align: usize) -> (r: Option<usize>)
    ensures
        r matches Some(addr) ==> addr != 0 && valid_layout(size as int, align as int) && addr as int
            % (align as int) == 0,
        r matches Some(addr) ==> !heap_blocks(*old(heap)).dom().contains(addr as int)
            && heap_blocks(*final(heap)) == heap_blocks(*old(heap)).insert(addr as int, size as int)
            && misses_blocks(heap_blocks(*old(heap)), addr as int, size as int),
        r is None ==> heap_blocks(*final(heap)) == heap_blocks(*old(heap)),
{
    match Layout::from_size_align(size, align) {
        Ok(layout) => match heap.allocate_first_fit(layout) {
            Ok(block) => Some(block.as_ptr() as usize),
            Err(_) => None,
        },
        Err(_) => None,
    }
}

/// The address that stands for what the fallback heap gave: that of the
/// block, or 0 where there is none.
pub fn block_address(block: Option<usize>) -> (ptr: usize)
    ensures
        ptr == (match block {
            Some(addr) => addr,
            None => 0usize,
        }),
{
    match block {
        Some(addr) => addr,
        None => 0,
    }
}

/// What the fallback heap is asked for to give the class `index` its first
/// blocks: the bytes of `BLOCKS_PER_CLASS` blocks, aligned to the block size.
pub fn chunk_request(index: usize) -> (r: (usize, usize))
    requires
        index < BLOCK_CLASSES,
    ensures
        r.0 == BLOCKS_PER_CLASS * spec_block_size(index as int),
        r.1 == spec_block_size(index as int),
{
    let sizes = block_sizes();
    let block_size: usize = sizes[index];
    assert(block_size == spec_block_size(index as int));
    assert(BLOCKS_PER_CLASS * block_size == 100 * block_size <= 100 * 2048);
    (BLOCKS_PER_CLASS * block_size, block_size)
}

/// Every block on the stack, which is that of the class `index`, is
/// aligned to the block size of the class and not null, and no block is on
/// the stack twice.
pub open spec fn stack_ok(stack: Seq<usize>, index: int) -> bool {
    &&& forall|k: int|
        0 <= k < stack.len() ==> (#[trigger] stack[k]) != 0 && stack[k] as int % spec_block_size(
            index,
        ) == 0
    &&& stack.no_duplicates()
}

/// The blocks of a chunk make a stack of their class.
pub proof fn lemma_chunk_stack(base: usize, index: int)
    requires
        0 <= index < BLOCK_CLASSES,
        base != 0,
        base as int % spec_block_size(index) == 0,
        base + (BLOCKS_PER_CLASS - 1) * spec_block_size(index) <= usize::MAX,
    ensures
        stack_ok(chunk_nodes(base as int, spec_block_size(index)), index),
{
    let c = spec_block_size(index);
    let l = chunk_nodes(base as int, c);
    assert(8 <= c <= 2048);
    assert forall|k: int| 0 <= k < l.len() implies (#[trigger] l[k]) != 0 && l[k] as int % c
        == 0 by {
        assert(0 <= k * c <= 99 * c) by (nonlinear_arith)
            requires
                0 <= k <= 99,
                c > 0,
        ;
        assert(l[k] == base + k * c);
        vstd::arithmetic::div_mod::lemma_mod_multiples_vanish(k, base as int, c);
        assert(base + k * c == c * k + base) by (nonlinear_arith);
    }
    assert forall|a: int, b: int| 0 <= a < l.len() && 0 <= b < l.len() && a != b implies l[a]
        != l[b] by {
        assert(0 <= a * c <= 99 * c && 0 <= b * c <= 99 * c && a * c != b * c)
            by (nonlinear_arith)
            requires
                0 <= a <= 99,
                0 <= b <= 99,
                a != b,
                c > 0,
        ;
        assert(l[a] == base + a * c && l[b] == base + b * c);
    }
}

/// A stack without its top is a stack of the class, and does not hold the top.
pub proof fn lemma_stack_popped(stack: Seq<usize>, index: int)
    requires
        stack_ok(stack, index),
        stack.len() > 0,
    ensures
        stack_ok(stack.drop_last(), index),
        !stack.drop_last().contains(stack.last()),
{
    let l = stack.drop_last();
    assert forall|k: int| 0 <= k < l.len() implies (#[trigger] l[k]) != 0 && l[k] as int
        % spec_block_size(index) == 0 by {
        assert(l[k] == stack[k]);
    }
    assert forall|a: int, b: int| 0 <= a < l.len() && 0 <= b < l.len() && a != b implies l[a]
        != l[b] by {
        assert(l[a] == stack[a] && l[b] == stack[b]);
    }
    if l.contains(stack.last()) {
        let k = l.index_of(stack.last());
        assert(stack[k] == stack[stack.len() - 1]);
    }
}

/// A stack with a block of the class on top that it did not hold is a
/// stack of the class.
pub proof fn lemma_stack_pushed(stack: Seq<usize>, index: int, ptr: usize)
    requires
        stack_ok(stack, index),
        ptr != 0,
        ptr as int % spec_block_size(index) == 0,
        !stack.contains(ptr),
    ensures
        stack_ok(stack.push(ptr), index),
{
    let l = stack.push(ptr);
    assert forall|k: int| 0 <= k < l.len() implies (#[trigger] l[k]) != 0 && l[k] as int
        % spec_block_size(index) == 0 by {
        if k < stack.len() {
            assert(l[k] == stack[k]);
        }
    }
    assert forall|a: int, b: int| 0 <= a < l.len() && 0 <= b < l.len() && a != b implies l[a]
        != l[b] by {
        if a < stack.len() {
            assert(l[a] == stack[a]);
        }
        if b < stack.len() {
            assert(l[b] == stack[b]);
        }
    }
}

/// Two blocks on the stack of a class share no byte.
pub proof fn law_stack_blocks_disjoint(stack: Seq<usize>, index: int, j: int, k: int)
    requires
        0 <= index < BLOCK_CLASSES,
        stack_ok(stack, index),
        0 <= j < stack.len(),
        0 <= k < stack.len(),
        j != k,
    ensures
        stack[j] + spec_block_size(index) <= stack[k] || stack[k] + spec_block_size(index)
            <= stack[j],
{
    let c = spec_block_size(index);
    assert(8 <= c <= 2048);
    assert(stack[j] != stack[k]);
    if stack[j] < stack[k] {
        crate::mm::pow2::lemma_multiples_apart(stack[j] as int, stack[k] as int, c);
    } else {
        crate::mm::pow2::lemma_multiples_apart(stack[k] as int, stack[j] as int, c);
    }
}

/// The addresses of the blocks of a chunk at `base`, in ascending order.
pub open spec fn chunk_nodes(base: int, block_size: int) -> Seq<usize> {
    Seq::new(BLOCKS_PER_CLASS as nat, |k: int| (base + k * block_size) as usize)
}

/// Cuts the chunk at `base` into blocks of `block_size` bytes and stacks
/// them in ascending order, so that the highest one is handed out first.
pub fn thread_chunk(base: usize, block_size: usize) -> (nodes: Vec<usize>)
    requires
        base + (BLOCKS_PER_CLASS - 1) * block_size <= usize::MAX,
    ensures
        nodes@ == chunk_nodes(base as int, block_size as int),
        forall|k: int| 0 <= k < BLOCKS_PER_CLASS ==> (#[trigger] nodes@[k]) == base + k * block_size,
{
    let mut nodes: Vec<usize> = Vec::new();
    let mut node_ptr: usize = base;
    nodes.push(node_ptr);
    let mut count: usize = 1;
    while count < BLOCKS_PER_CLASS
        invariant
            1 <= count <= BLOCKS_PER_CLASS,
            base + (BLOCKS_PER_CLASS - 1) * block_size <= usize::MAX,
            node_ptr == base + (count - 1) * block_size,
            nodes@.len() == count,
            forall|k: int| 0 <= k < count ==> (#[trigger] nodes@[k]) == base + k * block_size,
        decreases BLOCKS_PER_CLASS - count,
    {
        proof {
            assert(count * block_size <= (BLOCKS_PER_CLASS - 1) * block_size) by (nonlinear_arith)
                requires
                    count <= BLOCKS_PER_CLASS - 1,
                    block_size >= 0,
            ;
            assert(count * block_size == (count - 1) * block_size + block_size)
                by (nonlinear_arith);
        }
        node_ptr = node_ptr + block_size;
        nodes.push(node_ptr);
        count += 1;
    }
    proof {
        assert(nodes@ =~= chunk_nodes(base as int, block_size as int));
    }
    nodes
}

/// Where block `k` of a chunk at `base` lies.
pub open spec fn node_at(base: int, block_size: int, k: int) -> int {
    base + k * block_size
}

/// `addr` is where a block of the chunk at `base` lies.
pub open spec fn is_node(base: int, block_size: int, addr: int) -> bool {
    exists|k: int| 0 <= k < BLOCKS_PER_CLASS && #[trigger] node_at(base, block_size, k) == addr
}

/// The blocks of the allocator after the blocks of the chunk at `base`
/// have joined them.
pub open spec fn with_chunk(owned: Map<int, int>, base: int, block_size: int) -> Map<int, int> {
    Map::new(
        |a: int| owned.dom().contains(a) || is_node(base, block_size, a),
        |a: int|
            if is_node(base, block_size, a) {
                block_size
            } else {
                owned[a]
            },
    )
}

/// The blocks of a chunk that the heap has handed out anew join the blocks
/// of the allocator when they go on the stack of their class.
pub proof fn lemma_chunk_joins(
    stacks: Seq<Seq<usize>>,
    owned: Map<int, int>,
    pre: Heap,
    post: Heap,
    base: usize,
    index: int,
)
    requires
        0 <= index < BLOCK_CLASSES,
        stacks.len() == BLOCK_CLASSES,
        stacks[index].len() == 0,
        blocks_accounted(stacks, owned, heap_blocks(pre)),
        base != 0,
        heap_served(pre, post, BLOCKS_PER_CLASS * spec_block_size(index), base as int),
        base + (BLOCKS_PER_CLASS - 1) * spec_block_size(index) <= usize::MAX,
    ensures
        blocks_accounted(
            stacks.update(index, chunk_nodes(base as int, spec_block_size(index))),
            with_chunk(owned, base as int, spec_block_size(index)),
            heap_blocks(post),
        ),
        forall|a: int|
            owned.dom().contains(a) ==> !is_node(base as int, spec_block_size(index), a),
{
    let c = spec_block_size(index);
    let b0 = heap_blocks(pre);
    let b1 = heap_blocks(post);
    let bytes = BLOCKS_PER_CLASS * c;
    let nodes = chunk_nodes(base as int, c);
    let stacks1 = stacks.update(index, nodes);
    let owned1 = with_chunk(owned, base as int, c);
    assert(8 <= c <= 2048);
    lemma_block_joins(stacks, owned, pre, post, bytes, base as int);
    assert(b1.dom().contains(base as int) && b1[base as int] == bytes);
    // a block of the chunk lies in the chunk
    assert forall|a: int| is_node(base as int, c, a) implies base <= a && a + c <= base + bytes
        && homed(b1, a, a + c) by {
        let k = choose|k: int| 0 <= k < BLOCKS_PER_CLASS && #[trigger] node_at(base as int, c, k) == a;
        assert(0 <= k * c && k * c + c <= 100 * c) by (nonlinear_arith)
            requires
                0 <= k <= 99,
                c > 0,
        ;
    }
    // a block that the allocator had lies in an older block of the heap,
    // which the chunk shares no byte with
    assert forall|a: int| #[trigger] owned.dom().contains(a) implies (a + owned[a] <= base || base
        + bytes <= a) && !is_node(base as int, c, a) by {
        let h = choose|h: int| #[trigger] b0.dom().contains(h) && h <= a && a + owned[a] <= h + b0[h];
        assert(h + b0[h] <= base || base + bytes <= h);
    }
    assert forall|a: int| #[trigger] owned1.dom().contains(a) implies owned1[a] > 0 && homed(
        b1,
        a,
        a + owned1[a],
    ) by {
        if !is_node(base as int, c, a) {
            assert(owned.dom().contains(a));
        }
    }
    assert forall|a: int, b: int|
        #![trigger owned1.dom().contains(a), owned1.dom().contains(b)]
        owned1.dom().contains(a) && owned1.dom().contains(b) && a != b implies a + owned1[a] <= b
        || b + owned1[b] <= a by {
        let na = is_node(base as int, c, a);
        let nb = is_node(base as int, c, b);
        if na && nb {
            let k = choose|k: int| 0 <= k < BLOCKS_PER_CLASS && #[trigger] node_at(base as int, c, k) == a;
            let l = choose|l: int| 0 <= l < BLOCKS_PER_CLASS && #[trigger] node_at(base as int, c, l) == b;
            assert(k * c + c <= l * c || l * c + c <= k * c) by (nonlinear_arith)
                requires
                    k != l,
                    c > 0,
            ;
        } else if na {
            assert(owned.dom().contains(b));
        } else if nb {
            assert(owned.dom().contains(a));
        } else {
            assert(owned.dom().contains(a) && owned.dom().contains(b));
        }
    }
    assert forall|i: int, k: int|
        0 <= i < BLOCK_CLASSES && 0 <= k < stacks1[i].len() implies owned1.dom().contains(
        #[trigger] stacks1[i][k] as int,
    ) && owned1[stacks1[i][k] as int] == spec_block_size(i) by {
        if i == index {
            assert(0 <= k * c <= 99 * c) by (nonlinear_arith)
                requires
                    0 <= k <= 99,
                    c > 0,
            ;
            assert(nodes[k] == base + k * c);
            assert(node_at(base as int, c, k) == nodes[k] as int);
        } else {
            assert(stacks1[i] == stacks[i]);
            assert(owned.dom().contains(stacks[i][k] as int));
        }
    }
}

impl SegregatedStorageAllocator {
    /// The stacks of free blocks, one for each class; the last block of a
    /// stack is the next one handed out.
    pub closed spec fn view(&self) -> Seq<Seq<usize>> {
        Seq::new(self.lists@.len(), |i: int| self.lists@[i]@)
    }

    /// There is a stack for each class; every block on a stack is aligned
    /// to the block size of its class and not null, and no block is on a
    /// stack twice.
    pub open spec fn wf(&self) -> bool {
        &&& self@.len() == BLOCK_CLASSES
        &&& forall|i: int| 0 <= i < BLOCK_CLASSES ==> stack_ok(#[trigger] self@[i], i)
    }

    /// An allocator with empty stacks and an empty fallback heap.
    pub fn new() -> (r: Self)
        ensures
            r.wf(),
            forall|i: int| 0 <= i < BLOCK_CLASSES ==> (#[trigger] r@[i]).len() == 0,
            r.owned() == Map::<int, int>::empty(),
            r.accounted(),
    {
        let mut lists: Vec<Vec<usize>> = Vec::new();
        let mut index: usize = 0;
        while index < BLOCK_CLASSES
            invariant
                index <= BLOCK_CLASSES,
                lists@.len() == index,
                forall|i: int| 0 <= i < index ==> (#[trigger] lists@[i])@.len() == 0,
            decreases BLOCK_CLASSES - index,
        {
            lists.push(Vec::new());
            index += 1;
        }
        SegregatedStorageAllocator {
            lists,
            fallback_allocator: heap_empty(),
            owned: Ghost(Map::empty()),
        }
    }

    /// The blocks that the allocator calls its own: those on its stacks,
    /// and those that it has handed out and not taken back; for the address
    /// of each, its bytes.
    pub closed spec fn owned(&self) -> Map<int, int> {
        self.owned@
    }

    /// The blocks of the allocator are blocks in memory that the fallback
    /// heap has handed out, and no two of them share a byte. This holds of
    /// a new allocator and after `init`, and every function here keeps it;
    /// it is not known to hold once a caller has changed the fallback heap.
    pub open spec fn accounted(&self) -> bool {
        blocks_accounted(self@, self.owned(), heap_blocks(self.spec_fallback()))
    }

    /// The block at `addr` is handed out: it is a block of the allocator
    /// that is on no stack.
    pub open spec fn is_lent(&self, addr: int) -> bool {
        self.owned().dom().contains(addr) && !on_stack(self@, addr)
    }

    /// Two blocks of the allocator, on a stack or handed out, share no byte.
    pub proof fn law_blocks_disjoint(&self, a: int, b: int)
        requires
            self.accounted(),
            self.owned().dom().contains(a),
            self.owned().dom().contains(b),
            a != b,
        ensures
            a + self.owned()[a] <= b || b + self.owned()[b] <= a,
    {
    }

    /// A block on a stack is a block of the allocator, with the block size
    /// of its class.
    pub proof fn law_stack_blocks_owned(&self, i: int, k: int)
        requires
            self.accounted(),
            0 <= i < BLOCK_CLASSES,
            0 <= k < self@[i].len(),
        ensures
            self.owned().dom().contains(self@[i][k] as int),
            self.owned()[self@[i][k] as int] == spec_block_size(i),
    {
    }

    /// The fallback heap.
    pub closed spec fn spec_fallback(&self) -> Heap {
        self.fallback_allocator
    }

    /// The fallback heap, for the caller to return to it what it handed out:
    /// the heap as it is, and the allocator holds it as the caller leaves
    /// it. The stacks stay as they are.
    pub fn fallback_mut(&mut self) -> (heap: &mut Heap)
        ensures
            *heap == old(self).spec_fallback(),
            final(self).spec_fallback() == *final(heap),
            final(self)@ == old(self)@,
            final(self).owned() == old(self).owned(),
    {
        &mut self.fallback_allocator
    }

    /// The stack of class `index` is a freshly cut chunk.
    pub open spec fn is_chunk(stacks: Seq<Seq<usize>>, index: int) -> bool {
        let l = stacks[index];
        &&& l.len() == BLOCKS_PER_CLASS
        &&& l == chunk_nodes(l[0] as int, spec_block_size(index))
        &&& l[0] + (BLOCKS_PER_CLASS - 1) * spec_block_size(index) <= usize::MAX
    }

    /// There is a chunk, and all its blocks for the class `index` lie in the
    /// address space.
    pub open spec fn chunk_fits(index: int, chunk: Option<usize>) -> bool {
        chunk matches Some(base) && base + (BLOCKS_PER_CLASS - 1) * spec_block_size(index)
            <= usize::MAX
    }

    /// Gives the class `index` its first blocks: the chunk at `chunk`, cut
    /// into blocks. Fails where there is no chunk, or where the chunk would
    /// reach beyond the address space.
    pub fn install_chunk(&mut self, index: usize, chunk: Option<usize>) -> (r: Result<
        (),
        SegregatedError,
    >)
        requires
            old(self).wf(),
            index < BLOCK_CLASSES,
            chunk matches Some(base) ==> base != 0 && base as int % spec_block_size(index as int)
                == 0,
        ensures
            final(self).wf(),
            Self::chunk_fits(index as int, chunk) ==> r is Ok && final(self)@ == old(self)@.update(
                index as int,
                chunk_nodes(chunk.unwrap() as int, spec_block_size(index as int)),
            ),
            !Self::chunk_fits(index as int, chunk) ==> r == Err::<(), SegregatedError>(
                SegregatedError::OutOfMemory(index),
            ) && final(self)@ == old(self)@,
            final(self).spec_fallback() == old(self).spec_fallback(),
            final(self).owned() == old(self).owned(),
    {
        let sizes = block_sizes();
        let block_size: usize = sizes[index];
        assert(block_size == spec_block_size(index as int));
        assert((BLOCKS_PER_CLASS - 1) * block_size <= 99 * 2048) by (nonlinear_arith)
            requires
                8 <= block_size <= 2048,
        ;
        let base: usize = match chunk {
            Some(base) => base,
            None => {
                return Err(SegregatedError::OutOfMemory(index));
            },
        };
        if base > usize::MAX - (BLOCKS_PER_CLASS - 1) * block_size {
            return Err(SegregatedError::OutOfMemory(index));
        }
        let nodes: Vec<usize> = thread_chunk(base, block_size);
        self.lists[index] = nodes;
        proof {
            assert(self@ =~= old(self)@.update(
                index as int,
                chunk_nodes(base as int, spec_block_size(index as int)),
            ));
            lemma_chunk_stack(base, index as int);
            assert forall|i: int| 0 <= i < BLOCK_CLASSES implies stack_ok(#[trigger] self@[i], i) by {
                if i != index {
                    assert(self@[i] == old(self)@[i]);
                }
            }
        }
        Ok(())
    }

    /// The chunk of the class `index` is a block that the heap holds as
    /// handed out, with the bytes of all the blocks of the chunk, and it
    /// shares no byte with another block that the heap has handed out.
    pub open spec fn chunk_held(stacks: Seq<Seq<usize>>, blocks: Map<int, int>, index: int) -> bool {
        let base = stacks[index][0] as int;
        let bytes = BLOCKS_PER_CLASS * spec_block_size(index);
        &&& blocks.dom().contains(base)
        &&& blocks[base] == bytes
        &&& forall|a: int| #[trigger]
            blocks.dom().contains(a) && a != base ==> a + blocks[a] <= base || base + bytes <= a
    }

    /// Every block of `pre` is a block of `post`, with the same bytes.
    pub open spec fn kept_blocks(pre: Map<int, int>, post: Map<int, int>) -> bool {
        forall|a: int| #[trigger] pre.dom().contains(a) ==> post.dom().contains(a) && post[a] == pre[a]
    }

    /// The class `index` has its first blocks: its stack is a freshly cut
    /// chunk, which the heap `post` holds as one block that `pre`, the heap
    /// as it was given, had not handed out.
    pub open spec fn class_filled(stacks: Seq<Seq<usize>>, pre: Heap, post: Heap, index: int) -> bool {
        &&& Self::is_chunk(stacks, index)
        &&& Self::chunk_held(stacks, heap_blocks(post), index)
        &&& !heap_blocks(pre).dom().contains(stacks[index][0] as int)
    }

    /// The classes below `count` have their first blocks.
    pub open spec fn classes_filled(
        stacks: Seq<Seq<usize>>,
        pre: Heap,
        post: Heap,
        count: int,
    ) -> bool {
        forall|i: int| 0 <= i < count ==> #[trigger] Self::class_filled(stacks, pre, post, i)
    }

    /// `addr` is where the chunk of a class below `count` lies.
    pub open spec fn is_chunk_base(stacks: Seq<Seq<usize>>, addr: int, count: int) -> bool {
        exists|i: int| 0 <= i < count && (#[trigger] stacks[i])[0] as int == addr
    }

    /// The block at `addr` is one that the heap has handed out since it was
    /// given, and that is the chunk of no class below `count`.
    pub open spec fn stray_block(
        stacks: Seq<Seq<usize>>,
        pre: Heap,
        post: Heap,
        addr: int,
        count: int,
    ) -> bool {
        &&& heap_blocks(post).dom().contains(addr)
        &&& !heap_blocks(pre).dom().contains(addr)
        &&& !Self::is_chunk_base(stacks, addr, count)
    }

    /// Every block of a freshly cut chunk lies in the chunk, and the blocks
    /// of the chunks of two classes share no byte, the chunks being two
    /// blocks of the heap.
    pub proof fn law_chunk_blocks_disjoint(
        stacks: Seq<Seq<usize>>,
        blocks: Map<int, int>,
        i: int,
        k: int,
        j: int,
        l: int,
    )
        requires
            0 <= i < BLOCK_CLASSES,
            0 <= j < BLOCK_CLASSES,
            i != j,
            Self::is_chunk(stacks, i),
            Self::is_chunk(stacks, j),
            Self::chunk_held(stacks, blocks, i),
            Self::chunk_held(stacks, blocks, j),
            0 <= k < BLOCKS_PER_CLASS,
            0 <= l < BLOCKS_PER_CLASS,
        ensures
            stacks[i][0] <= stacks[i][k],
            stacks[i][k] + spec_block_size(i) <= stacks[i][0] + BLOCKS_PER_CLASS * spec_block_size(i),
            stacks[i][k] + spec_block_size(i) <= stacks[j][l] || stacks[j][l] + spec_block_size(j)
                <= stacks[i][k],
    {
        let ci = spec_block_size(i);
        let cj = spec_block_size(j);
        let bi = stacks[i][0] as int;
        let bj = stacks[j][0] as int;
        assert(8 <= ci <= 2048 && 8 <= cj <= 2048);
        assert(ci != cj);
        assert(0 <= k * ci <= 99 * ci) by (nonlinear_arith)
            requires
                0 <= k <= 99,
                ci > 0,
        ;
        assert(0 <= l * cj <= 99 * cj) by (nonlinear_arith)
            requires
                0 <= l <= 99,
                cj > 0,
        ;
        assert(stacks[i][k] == chunk_nodes(bi, ci)[k]);
        assert(stacks[j][l] == chunk_nodes(bj, cj)[l]);
        assert(stacks[i][k] == bi + k * ci);
        assert(stacks[j][l] == bj + l * cj);
        assert(blocks.dom().contains(bi) && blocks.dom().contains(bj));
        assert(bi != bj);
    }

    /// At most one block has left the heap since it was given that is the
    /// chunk of no class below `count`.
    pub open spec fn one_stray_block(
        stacks: Seq<Seq<usize>>,
        pre: Heap,
        post: Heap,
        count: int,
    ) -> bool {
        forall|a: int, b: int|
            #![trigger Self::stray_block(stacks, pre, post, a, count), Self::stray_block(stacks, pre, post, b, count)]
            Self::stray_block(stacks, pre, post, a, count) && Self::stray_block(
                stacks,
                pre,
                post,
                b,
                count,
            ) ==> a == b
    }

    /// Takes over the fallback heap and gives each class its first blocks:
    /// the heap is asked for a chunk as `chunk_request` says, class by
    /// class from the smallest, and the chunk is cut into blocks. Stops at
    /// the first class that gets no chunk. The heap keeps the blocks that
    /// it had handed out before, and is asked for nothing but the chunks:
    /// the one block it may have handed out beside them is a chunk that was
    /// given for the class that failed and reaches beyond the address space.
    pub fn init(&mut self, fallback: Heap) -> (r: Result<(), SegregatedError>)
        ensures
            final(self).wf(),
            final(self).accounted(),
            forall|a: int| !final(self).is_lent(a),
            Self::kept_blocks(heap_blocks(fallback), heap_blocks(final(self).spec_fallback())),
            match r {
                Ok(()) => {
                    &&& Self::classes_filled(
                        final(self)@,
                        fallback,
                        final(self).spec_fallback(),
                        BLOCK_CLASSES as int,
                    )
                    &&& forall|a: int|
                        !#[trigger] Self::stray_block(
                            final(self)@,
                            fallback,
                            final(self).spec_fallback(),
                            a,
                            BLOCK_CLASSES as int,
                        )
                },
                Err(SegregatedError::OutOfMemory(failed)) => {
                    &&& failed < BLOCK_CLASSES
                    &&& Self::one_stray_block(
                        final(self)@,
                        fallback,
                        final(self).spec_fallback(),
                        failed as int,
                    )
                    &&& Self::classes_filled(
                        final(self)@,
                        fallback,
                        final(self).spec_fallback(),
                        failed as int,
                    )
                    &&& forall|i: int|
                        failed <= i < BLOCK_CLASSES ==> (#[trigger] final(self)@[i]).len() == 0
                },
            },
    {
        let fresh = SegregatedStorageAllocator::new();
        self.lists = fresh.lists;
        self.fallback_allocator = fallback;
        self.owned = Ghost(Map::empty());
        let mut index: usize = 0;
        while index < BLOCK_CLASSES
            invariant
                index <= BLOCK_CLASSES,
                self.wf(),
                self.accounted(),
                forall|a: int| self.owned().dom().contains(a) ==> on_stack(self@, a),
                Self::kept_blocks(heap_blocks(fallback), heap_blocks(self.spec_fallback())),
                Self::classes_filled(self@, fallback, self.spec_fallback(), index as int),
                forall|i: int| index <= i < BLOCK_CLASSES ==> (#[trigger] self@[i]).len() == 0,
                forall|a: int|
                    !#[trigger] Self::stray_block(
                        self@,
                        fallback,
                        self.spec_fallback(),
                        a,
                        index as int,
                    ),
            decreases BLOCK_CLASSES - index,
        {
            let request: (usize, usize) = chunk_request(index);
            let ghost stacks = self@;
            let ghost heap0 = self.spec_fallback();
            let chunk: Option<usize> = heap_allocate(
                &mut self.fallback_allocator,
                request.0,
                request.1,
            );
            let ghost heap1 = self.spec_fallback();
            let ghost owned0 = self.owned();
            proof {
                assert(self@ == stacks);
                Self::lemma_chunk_given(stacks, fallback, heap0, heap1, index as int, chunk);
                lemma_block_joins(
                    stacks,
                    owned0,
                    heap0,
                    heap1,
                    request.0 as int,
                    match chunk {
                        Some(addr) => addr as int,
                        None => 0,
                    },
                );
            }
            proof {
                // what the heap has handed out since it was given are the
                // chunks of the classes below, and the chunk that it gave now
                assert forall|a: int| #[trigger]
                    Self::stray_block(stacks, fallback, heap1, a, index as int) implies chunk
                    == Some(a as usize) && a as usize == a by {
                    if heap_blocks(heap0).dom().contains(a) {
                        assert(Self::stray_block(stacks, fallback, heap0, a, index as int));
                    }
                }
            }
            match self.install_chunk(index, chunk) {
                Ok(()) => {},
                Err(e) => {
                    return Err(e);
                },
            }
            proof {
                self.owned = Ghost(
                    with_chunk(owned0, chunk.unwrap() as int, spec_block_size(index as int)),
                );
            }
            proof {
                let base = chunk.unwrap();
                let c = spec_block_size(index as int);
                lemma_chunk_joins(stacks, owned0, heap0, heap1, base, index as int);
                assert forall|a: int| self.owned().dom().contains(a) implies on_stack(self@, a) by {
                    if is_node(base as int, c, a) {
                        let k = choose|k: int|
                            0 <= k < BLOCKS_PER_CLASS && #[trigger] node_at(base as int, c, k) == a;
                        assert(0 <= k * c <= 99 * c) by (nonlinear_arith)
                            requires
                                0 <= k <= 99,
                                c > 0,
                                8 <= c <= 2048,
                        ;
                        assert(self@[index as int][k] == base + k * c);
                        assert(self@[index as int][k] as int == a);
                    } else {
                        assert(on_stack(stacks, a));
                        let (i, k) = choose|i: int, k: int|
                            0 <= i < BLOCK_CLASSES && 0 <= k < stacks[i].len() && #[trigger] stacks[i][k] as int
                                == a;
                        assert(self@[i][k] as int == a);
                    }
                }
                assert(chunk_nodes(base as int, c)[0] == base + 0 * c);
                assert forall|a: int|
                    !#[trigger] Self::stray_block(self@, fallback, heap1, a, index + 1) by {
                    if a == base {
                        assert((self@[index as int])[0] as int == a);
                        assert(Self::is_chunk_base(self@, a, index + 1));
                    } else if Self::is_chunk_base(stacks, a, index as int) {
                        let i = choose|i: int|
                            0 <= i < index && (#[trigger] stacks[i])[0] as int == a;
                        assert(self@[i] == stacks[i]);
                        assert(Self::is_chunk_base(self@, a, index + 1));
                    } else {
                        assert(!Self::stray_block(stacks, fallback, heap1, a, index as int));
                    }
                }
                assert forall|i: int| 0 <= i < index + 1 implies #[trigger] Self::class_filled(
                    self@,
                    fallback,
                    heap1,
                    i,
                ) by {
                    if i < index {
                        assert(Self::class_filled(stacks, fallback, heap1, i));
                        assert(self@[i] == stacks[i]);
                    }
                }
            }
            index += 1;
        }
        Ok(())
    }

    /// What the heap's answer to the request for the chunk of the class
    /// `index` leaves true: the heap keeps its earlier blocks, the chunks of
    /// the classes below are held as before, and a chunk that was given is
    /// a new block with the bytes asked for that shares no byte with another.
    proof fn lemma_chunk_given(
        stacks: Seq<Seq<usize>>,
        given: Heap,
        pre: Heap,
        post: Heap,
        index: int,
        chunk: Option<usize>,
    )
        requires
            0 <= index < BLOCK_CLASSES,
            Self::kept_blocks(heap_blocks(given), heap_blocks(pre)),
            Self::classes_filled(stacks, given, pre, index),
            heap_served(
                pre,
                post,
                BLOCKS_PER_CLASS * spec_block_size(index),
                match chunk {
                    Some(addr) => addr as int,
                    None => 0,
                },
            ),
            chunk matches Some(addr) ==> addr != 0,
        ensures
            Self::kept_blocks(heap_blocks(given), heap_blocks(post)),
            Self::classes_filled(stacks, given, post, index),
            chunk matches Some(addr) ==> {
                let bytes = BLOCKS_PER_CLASS * spec_block_size(index);
                &&& heap_blocks(post).dom().contains(addr as int)
                &&& heap_blocks(post)[addr as int] == bytes
                &&& !heap_blocks(given).dom().contains(addr as int)
                &&& forall|a: int| #[trigger]
                    heap_blocks(post).dom().contains(a) && a != addr ==> a + heap_blocks(post)[a]
                        <= addr || addr + bytes <= a
            },
    {
        let b0 = heap_blocks(pre);
        let b1 = heap_blocks(post);
        match chunk {
            Some(addr) => {
                let bytes = BLOCKS_PER_CLASS * spec_block_size(index);
                assert(b1 == b0.insert(addr as int, bytes));
                assert forall|i: int| 0 <= i < index implies #[trigger] Self::class_filled(
                    stacks,
                    given,
                    post,
                    i,
                ) by {
                    assert(Self::class_filled(stacks, given, pre, i));
                    let base = stacks[i][0] as int;
                    assert(Self::chunk_held(stacks, b0, i));
                    assert(b0.dom().contains(base));
                    assert(base != addr);
                    assert(b1[base] == b0[base]);
                    assert(misses_blocks(b0, addr as int, bytes));
                    assert(base + b0[base] <= addr || addr + bytes <= base);
                    assert forall|a: int| #[trigger] b1.dom().contains(a) && a != base implies a
                        + b1[a] <= base || base + BLOCKS_PER_CLASS * spec_block_size(i) <= a by {
                        if a != addr {
                            assert(b0.dom().contains(a));
                            assert(b1[a] == b0[a]);
                        } else {
                            assert(b1[a] == bytes);
                        }
                    }
                    assert(Self::chunk_held(stacks, b1, i));
                }
                assert forall|a: int| #[trigger] b1.dom().contains(a) && a != addr implies a
                    + b1[a] <= addr || addr + bytes <= a by {
                    assert(b0.dom().contains(a));
                }
            },
            None => {
                assert forall|i: int| 0 <= i < index implies #[trigger] Self::class_filled(
                    stacks,
                    given,
                    post,
                    i,
                ) by {
                    assert(Self::class_filled(stacks, given, pre, i));
                }
            },
        }
    }

    /// Asks the fallback heap for `size` bytes aligned to `align`; 0 where
    /// size and alignment make no layout, and where the heap has no such
    /// block. The stacks stay as they are.
    pub fn fallback_alloc(&mut self, size: usize, align: usize) -> (ptr: usize)
        ensures
            final(self)@ == old(self)@,
            !valid_layout(size as int, align as int) ==> ptr == 0,
            ptr != 0 ==> align != 0 && ptr % align == 0,
            heap_served(old(self).spec_fallback(), final(self).spec_fallback(), size as int, ptr as int),
            final(self).owned() == old(self).owned(),
            old(self).accounted() ==> final(self).accounted(),
    {
        let block: Option<usize> = heap_allocate(&mut self.fallback_allocator, size, align);
        proof {
            if old(self).accounted() {
                lemma_block_joins(
                    self@,
                    self.owned(),
                    old(self).spec_fallback(),
                    self.spec_fallback(),
                    size as int,
                    match block {
                        Some(addr) => addr as int,
                        None => 0,
                    },
                );
            }
            if valid_layout(size as int, align as int) {
                let e = choose|e: nat| align as int == pow2(e);
                vstd::arithmetic::power2::lemma_pow2_pos(e);
            }
        }
        block_address(block)
    }

    /// What serving a request of `size` bytes aligned to `align` does to the
    /// stacks, and where the request is served from: the top of the stack of
    /// its class; else the fallback heap, asked for a block of the class;
    /// else, where no class holds the request, the fallback heap, asked for
    /// what was asked.
    pub open spec fn spec_take_block(stacks: Seq<Seq<usize>>, size: usize, align: usize) -> (
        Seq<Seq<usize>>,
        Served,
    ) {
        match spec_list_index(size as int, align as int) {
            Some(i) => if stacks[i].len() > 0 {
                (stacks.update(i, stacks[i].drop_last()), Served::Block(stacks[i].last()))
            } else {
                (
                    stacks,
                    Served::Fallback {
                        size: spec_block_size(i) as usize,
                        align: spec_block_size(i) as usize,
                    },
                )
            },
            None => (stacks, Served::Fallback { size, align }),
        }
    }

    /// Decides where a request is served from, and takes the block off its
    /// stack where it is served from one.
    pub fn take_block(&mut self, size: usize, align: usize) -> (r: Served)
        requires
            old(self).wf(),
        ensures
            final(self).wf(),
            (final(self)@, r) == Self::spec_take_block(old(self)@, size, align),
            r matches Served::Block(addr) ==> old(self)@[spec_list_index(
                size as int,
                align as int,
            ).unwrap()].contains(addr) && !final(self)@[spec_list_index(
                size as int,
                align as int,
            ).unwrap()].contains(addr),
            final(self).spec_fallback() == old(self).spec_fallback(),
            final(self).owned() == old(self).owned(),
            old(self).accounted() ==> final(self).accounted(),
            old(self).accounted() ==> (r matches Served::Block(addr) ==> !old(self).is_lent(addr as int)
                && final(self).is_lent(addr as int)),
            forall|a: int| old(self).is_lent(a) ==> final(self).is_lent(a),
    {
        match list_index(size, align) {
            Some(index) => {
                match self.lists[index].pop() {
                    Some(node) => {
                        proof {
                            let stack = old(self)@[index as int];
                            assert(self@ =~= old(self)@.update(index as int, stack.drop_last()));
                            assert(stack[stack.len() - 1] == node);
                            lemma_stack_popped(stack, index as int);
                            assert forall|i: int| 0 <= i < BLOCK_CLASSES implies stack_ok(
                                #[trigger] self@[i],
                                i,
                            ) by {
                                if i != index {
                                    assert(self@[i] == old(self)@[i]);
                                }
                            }
                        }
                        Served::Block(node)
                    },
                    None => {
                        proof {
                            assert(self@ =~= old(self)@);
                        }
                        let sizes = block_sizes();
                        let block_size: usize = sizes[index];
                        assert(block_size == spec_block_size(index as int));
                        Served::Fallback { size: block_size, align: block_size }
                    },
                }
            },
            None => Served::Fallback { size, align },
        }
    }

    /// Serves a request of `size` bytes aligned to `align`. Returns the
    /// address of the block, or 0 where the request went to the fallback
    /// heap and the heap has no memory for it.
    pub fn allocate(&mut self, size: usize, align: usize) -> (ptr: usize)
        requires
            old(self).wf(),
        ensures
            final(self).wf(),
            final(self)@ == Self::spec_take_block(old(self)@, size, align).0,
            match Self::spec_take_block(old(self)@, size, align).1 {
                Served::Block(addr) => ptr == addr && ptr != 0 && !final(self)@[spec_list_index(
                    size as int,
                    align as int,
                ).unwrap()].contains(ptr),
                Served::Fallback { size: _, align: asked } => ptr != 0 ==> asked != 0 && ptr
                    % asked == 0,
            },
            spec_list_index(size as int, align as int) matches Some(i) ==> ptr as int
                % spec_block_size(i) == 0,
            spec_list_index(size as int, align as int) is None && ptr != 0 ==> align != 0 && ptr
                % align == 0,
            crate::mm::pow2::is_power_of_two(align as int) ==> ptr as int % (align as int) == 0,
            match Self::spec_take_block(old(self)@, size, align).1 {
                Served::Block(_) => final(self).spec_fallback() == old(self).spec_fallback()
                    && final(self).owned() == old(self).owned(),
                Served::Fallback { size: asked, align: _ } => heap_served(
                    old(self).spec_fallback(),
                    final(self).spec_fallback(),
                    asked as int,
                    ptr as int,
                ) && final(self).owned() == (if ptr != 0 && asked > 0 {
                    old(self).owned().insert(ptr as int, asked as int)
                } else {
                    old(self).owned()
                }),
            },
            old(self).accounted() ==> final(self).accounted(),
            old(self).accounted() && ptr != 0 && size > 0 ==> !old(self).is_lent(ptr as int)
                && final(self).is_lent(ptr as int) && final(self).owned()[ptr as int] >= size,
            forall|a: int| old(self).is_lent(a) ==> final(self).is_lent(a),
    {
        proof {
            if crate::mm::pow2::is_power_of_two(align as int) {
                let e = choose|e: nat| align as int == pow2(e);
                vstd::arithmetic::power2::lemma_pow2_pos(e);
                vstd::arithmetic::div_mod::lemma_small_mod(0, align as nat);
                if spec_list_index(size as int, align as int) is Some {
                    let i = spec_list_index(size as int, align as int).unwrap();
                    assert(align <= spec_block_size(i));
                }
            }
        }
        match self.take_block(size, align) {
            Served::Block(addr) => {
                proof {
                    let i = spec_list_index(size as int, align as int).unwrap();
                    let l = old(self)@[i];
                    assert(old(self)@[i][l.len() - 1] != 0);
                    assert(old(self)@[i][l.len() - 1] as int % spec_block_size(i) == 0);
                    if old(self).accounted() {
                        old(self).law_stack_blocks_owned(i, l.len() - 1);
                    }
                    if crate::mm::pow2::is_power_of_two(align as int) {
                        let e = choose|e: nat| align as int == pow2(e);
                        law_class_alignment(addr as int, i, e);
                    }
                }
                addr
            },
            Served::Fallback { size: asked_size, align: asked_align } => {
                let ghost lent_before = self.owned();
                let ghost heap_before = self.spec_fallback();
                let ptr: usize = self.fallback_alloc(asked_size, asked_align);
                proof {
                    if ptr != 0 && asked_size > 0 {
                        self.owned = Ghost(lent_before.insert(ptr as int, asked_size as int));
                    }
                    if old(self).accounted() {
                        lemma_block_joins(
                            self@,
                            lent_before,
                            heap_before,
                            self.spec_fallback(),
                            asked_size as int,
                            ptr as int,
                        );
                    }
                    if spec_list_index(size as int, align as int) is Some {
                        let i = spec_list_index(size as int, align as int).unwrap();
                        assert(8 <= spec_block_size(i) <= 2048);
                    }
                }
                proof {
                    if spec_list_index(size as int, align as int) is Some {
                        let i = spec_list_index(size as int, align as int).unwrap();
                        assert(8 <= spec_block_size(i) <= 2048);
                        assert(asked_align == spec_block_size(i));
                        if ptr == 0 {
                            vstd::arithmetic::div_mod::lemma_small_mod(
                                0,
                                spec_block_size(i) as nat,
                            );
                        }
                        if crate::mm::pow2::is_power_of_two(align as int) {
                            let e = choose|e: nat| align as int == pow2(e);
                            law_class_alignment(ptr as int, i, e);
                        }
                    }
                }
                ptr
            },
        }
    }

    /// Takes back the block at `ptr`, which was handed out for `size` bytes
    /// aligned to `align`: it goes on the stack of its class. Where no class
    /// holds such a request, the block is of the fallback heap: nothing is
    /// done and `false` is returned, for the caller to return it there.
    pub fn deallocate(&mut self, ptr: usize, size: usize, align: usize) -> (kept: bool)
        requires
            old(self).wf(),
            spec_list_index(size as int, align as int) matches Some(i) ==> ptr != 0 && ptr as int
                % spec_block_size(i) == 0 && !old(self)@[i].contains(ptr),
        ensures
            final(self).wf(),
            match spec_list_index(size as int, align as int) {
                Some(i) => kept && final(self)@ == old(self)@.update(i, old(self)@[i].push(ptr)),
                None => !kept && final(self)@ == old(self)@,
            },
            final(self).spec_fallback() == old(self).spec_fallback(),
            final(self).owned() == (if kept {
                old(self).owned()
            } else {
                old(self).owned().remove(ptr as int)
            }),
            old(self).accounted() && old(self).is_lent(ptr as int) && (kept ==> old(self).owned()[ptr as int]
                == spec_block_size(spec_list_index(size as int, align as int).unwrap()))
                ==> final(self).accounted(),
            !final(self).is_lent(ptr as int),
            forall|a: int| a != ptr && old(self).is_lent(a) ==> final(self).is_lent(a),
    {
        match list_index(size, align) {
            Some(index) => {
                self.lists[index].push(ptr);
                proof {
                    let stack = old(self)@[index as int];
                    assert(self@ =~= old(self)@.update(index as int, stack.push(ptr)));
                    lemma_stack_pushed(stack, index as int, ptr);
                    assert forall|i: int| 0 <= i < BLOCK_CLASSES implies stack_ok(
                        #[trigger] self@[i],
                        i,
                    ) by {
                        if i != index {
                            assert(self@[i] == old(self)@[i]);
                        }
                    }
                    Self::lemma_pushed(old(self)@, self@, self.owned(), index as int, ptr);
                    if old(self).accounted() && old(self).is_lent(ptr as int) && self.owned()[ptr as int]
                        == spec_block_size(index as int) {
                        assert forall|i: int, k: int|
                            0 <= i < BLOCK_CLASSES && 0 <= k < self@[i].len() implies self.owned().dom().contains(
                            #[trigger] self@[i][k] as int,
                        ) && self.owned()[self@[i][k] as int] == spec_block_size(i) by {
                            if i == index && k == stack.len() {
                            } else {
                                assert(self@[i][k] == old(self)@[i][k]);
                            }
                        }
                    }
                }
                true
            },
            None => {
                proof {
                    self.owned = Ghost(self.owned@.remove(ptr as int));
                }
                proof {
                    if old(self).accounted() && old(self).is_lent(ptr as int) {
                        let owned0 = old(self).owned();
                        assert forall|i: int, k: int|
                            0 <= i < BLOCK_CLASSES && 0 <= k < self@[i].len() implies self.owned().dom().contains(
                            #[trigger] self@[i][k] as int,
                        ) && self.owned()[self@[i][k] as int] == spec_block_size(i) by {
                            assert(owned0.dom().contains(self@[i][k] as int));
                            assert(self@[i][k] as int != ptr);
                        }
                        assert forall|a: int| #[trigger] self.owned().dom().contains(a) implies self.owned()[a]
                            > 0 && homed(
                            heap_blocks(self.spec_fallback()),
                            a,
                            a + self.owned()[a],
                        ) by {
                            assert(owned0.dom().contains(a));
                        }
                        assert forall|a: int, b: int|
                            #![trigger self.owned().dom().contains(a), self.owned().dom().contains(b)]
                            self.owned().dom().contains(a) && self.owned().dom().contains(b) && a
                                != b implies a + self.owned()[a] <= b || b + self.owned()[b] <= a by {
                            assert(owned0.dom().contains(a) && owned0.dom().contains(b));
                        }
                    }
                }
                false
            },
        }
    }

    /// After a block went on the stack of the class `index`, the blocks on
    /// the stacks are that block and those that were on them before.
    proof fn lemma_pushed(
        before: Seq<Seq<usize>>,
        after: Seq<Seq<usize>>,
        owned: Map<int, int>,
        index: int,
        ptr: usize,
    )
        requires
            0 <= index < BLOCK_CLASSES,
            before.len() == BLOCK_CLASSES,
            after == before.update(index, before[index].push(ptr)),
        ensures
            on_stack(after, ptr as int),
            forall|a: int| on_stack(after, a) <==> a == ptr || on_stack(before, a),
    {
        let top = before[index].len() as int;
        assert(after[index][top] as int == ptr);
        assert forall|a: int| on_stack(after, a) implies a == ptr || on_stack(before, a) by {
            let (i, k) = choose|i: int, k: int|
                0 <= i < BLOCK_CLASSES && 0 <= k < after[i].len() && #[trigger] after[i][k] as int
                    == a;
            if !(i == index && k == top) {
                assert(before[i][k] as int == a);
            }
        }
        assert forall|a: int| on_stack(before, a) implies on_stack(after, a) by {
            let (i, k) = choose|i: int, k: int|
                0 <= i < BLOCK_CLASSES && 0 <= k < before[i].len() && #[trigger] before[i][k] as int
                    == a;
            assert(after[i][k] as int == a);
        }
    }

    /// Tells whether the block at `ptr` is on the stack of class `index`.
    pub fn is_free_block(&self, index: usize, ptr: usize) -> (b: bool)
        requires
            self.wf(),
            index < BLOCK_CLASSES,
        ensures
            b == self@[index as int].contains(ptr),
    {
        let stack = &self.lists[index];
        let mut k: usize = 0;
        while k < stack.len()
            invariant
                k <= stack@.len(),
                stack@ == self@[index as int],
                forall|j: int| 0 <= j < k ==> stack@[j] != ptr,
            decreases stack@.len() - k,
        {
            if stack[k] == ptr {
                return true;
            }
            k += 1;
        }
        false
    }

    /// Number of free blocks on the stack of class `index`.
    pub fn free_blocks(&self, index: usize) -> (n: usize)
        requires
            self.wf(),
            index < BLOCK_CLASSES,
        ensures
            n == self@[index as int].len(),
    {
        self.lists[index].len()
    }
}

} // verus!
