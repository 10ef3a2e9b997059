//! One pool of identical blocks, with its free list.
use vstd::arithmetic::div_mod::lemma_fundamental_div_mod;
use vstd::arithmetic::mul::lemma_mul_inequality;
use vstd::prelude::*;

verus! {

/// Size in bytes of every pool.
pub const SLAB_SIZE: usize = 4096;

/// Size in bytes of one free-list node: the single link a free block holds.
pub const FREE_NODE_SIZE: usize = 8;

/// The mathematical state of a [`Slab`].
pub struct SlabView {
    /// The nominal block size the pool serves.
    pub block_size: nat,
    /// First address of the pool; it owns `[base, base + SLAB_SIZE)`.
    pub base: nat,
    /// How many blocks have been carved (zero before `init`).
    pub num_blocks: nat,
    /// The free list, its head last: the next block handed out is `free.last()`.
    pub free: Seq<usize>,
}

impl SlabView {
    /// The size actually reserved per block: large enough to hold a node.
    pub open spec fn eff_size(self) -> nat {
        if self.block_size > FREE_NODE_SIZE {
            self.block_size
        } else {
            FREE_NODE_SIZE as nat
        }
    }

    /// Number of blocks that fit in the pool.
    pub open spec fn capacity(self) -> nat {
        SLAB_SIZE as nat / self.eff_size()
    }

    /// Address of block `i`.
    pub open spec fn block_addr(self, i: int) -> int {
        self.base + i * self.eff_size()
    }

    /// `a` is the start of one of the carved blocks.
    pub open spec fn is_block(self, a: int) -> bool {
        exists|i: int| 0 <= i < self.num_blocks && a == #[trigger] self.block_addr(i)
    }

    /// `a` lies in the pool's half-open address range.
    pub open spec fn owns(self, a: int) -> bool {
        self.base <= a < self.base + SLAB_SIZE
    }

    /// `a` is a carved block that is currently handed out.
    pub open spec fn is_allocated(self, a: int) -> bool {
        self.is_block(a) && !self.free.contains(a as usize)
    }

    pub open spec fn wf(self) -> bool {
        &&& self.block_size <= usize::MAX
        &&& self.base + SLAB_SIZE <= usize::MAX
        &&& self.num_blocks == 0 || self.num_blocks == self.capacity()
        &&& self.free.no_duplicates()
        &&& forall|j: int| 0 <= j < self.free.len() ==> self.is_block(#[trigger] self.free[j] as int)
    }

    /// The state right after `init`: every block free, block 0 deepest, so
    /// that blocks come out in descending index order.
    pub open spec fn carved(self) -> SlabView {
        SlabView {
            num_blocks: self.capacity(),
            free: Seq::new(self.capacity(), |i: int| self.block_addr(i) as usize),
            ..self
        }
    }

    /// What one allocation returns.
    pub open spec fn next_block(self) -> Option<usize> {
        if self.free.len() == 0 {
            None
        } else {
            Some(self.free.last())
        }
    }

    /// The state after one allocation.
    pub open spec fn after_alloc(self) -> SlabView {
        if self.free.len() == 0 {
            self
        } else {
            SlabView { free: self.free.drop_last(), ..self }
        }
    }

    /// The state after freeing `a`.
    pub open spec fn after_free(self, a: usize) -> SlabView {
        SlabView { free: self.free.push(a), ..self }
    }

    /// The addresses returned, in order, by `k` consecutive allocations
    /// (a call that finds the pool exhausted returns none).
    pub open spec fn taken(self, k: nat) -> Seq<usize>
        decreases k,
    {
        if k == 0 || self.free.len() == 0 {
            Seq::empty()
        } else {
            seq![self.free.last()] + self.after_alloc().taken((k - 1) as nat)
        }
    }

    /// The state after `k` consecutive allocations.
    pub open spec fn after_allocs(self, k: nat) -> SlabView
        decreases k,
    {
        if k == 0 {
            self
        } else {
            self.after_alloc().after_allocs((k - 1) as nat)
        }
    }

    /// The state after freeing the addresses of `q`, first to last.
    pub open spec fn after_frees(self, q: Seq<usize>) -> SlabView
        decreases q.len(),
    {
        if q.len() == 0 {
            self
        } else {
            self.after_free(q[0]).after_frees(q.drop_first())
        }
    }
}

/// Block `i` of the pool lies wholly inside it.
proof fn lemma_block_fits(s: SlabView, i: int)
    requires
        0 <= i < s.capacity(),
    ensures
        0 <= i * s.eff_size(),
        i * s.eff_size() + s.eff_size() <= SLAB_SIZE,
{
    let e = s.eff_size() as int;
    lemma_fundamental_div_mod(SLAB_SIZE as int, e);
    lemma_mul_inequality(i + 1, s.capacity() as int, e);
    assert(0 <= i * e) by (nonlinear_arith)
        requires
            0 <= i,
            0 < e,
    ;
    assert((i + 1) * e == i * e + e) by (nonlinear_arith);
    assert(s.capacity() * e == e * s.capacity()) by (nonlinear_arith);
}

/// Distinct blocks start at distinct addresses.
proof fn lemma_block_addr_distinct(s: SlabView, i: int, j: int)
    requires
        0 <= i < j,
    ensures
        s.block_addr(i) < s.block_addr(j),
{
    let e = s.eff_size() as int;
    assert(i * e < j * e) by (nonlinear_arith)
        requires
            0 <= i < j,
            0 < e,
    ;
}

/// Every carved block lies inside the pool.
pub(crate) proof fn lemma_block_owned(s: SlabView, a: int)
    requires
        s.wf(),
        s.is_block(a),
    ensures
        s.owns(a),
        s.base <= a <= s.base + SLAB_SIZE - s.eff_size(),
{
    let i = choose|i: int| 0 <= i < s.num_blocks && a == #[trigger] s.block_addr(i);
    lemma_block_fits(s, i);
}

/// Two states with the same geometry carve the same blocks.
pub(crate) proof fn lemma_same_blocks(s: SlabView, t: SlabView)
    requires
        s.block_size == t.block_size,
        s.base == t.base,
        s.num_blocks == t.num_blocks,
    ensures
        forall|a: int| s.is_block(a) == t.is_block(a),
{
    assert forall|a: int| s.is_block(a) implies t.is_block(a) by {
        let i = choose|i: int| 0 <= i < s.num_blocks && a == #[trigger] s.block_addr(i);
        assert(t.block_addr(i) == s.block_addr(i));
    }
    assert forall|a: int| t.is_block(a) implies s.is_block(a) by {
        let i = choose|i: int| 0 <= i < t.num_blocks && a == #[trigger] t.block_addr(i);
        assert(t.block_addr(i) == s.block_addr(i));
    }
}

/// A pool of `SLAB_SIZE` bytes carved into blocks of one size.
///
/// Blocks are named by address. Freeing a block that is not currently
/// allocated from this pool is ruled out by `dealloc`'s precondition: the
/// pool itself performs no such check.
pub struct Slab {
    block_size: usize,
    base: usize,
    num_blocks: usize,
    free_list: Vec<usize>,
}

impl View for Slab {
    type V = SlabView;

    closed spec fn view(&self) -> SlabView {
        SlabView {
            block_size: self.block_size as nat,
            base: self.base as nat,
            num_blocks: self.num_blocks as nat,
            free: self.free_list@,
        }
    }
}

impl Slab {
    pub open spec fn wf(&self) -> bool {
        self@.wf()
    }

    /// A pool for blocks of `block_size` bytes whose storage starts at address 0.
    /// No block is carved until `init`.
    pub fn new(block_size: usize) -> (r: Slab)
        ensures
            r.wf(),
            r@ == (SlabView { block_size: block_size as nat, base: 0, num_blocks: 0, free: Seq::empty() }),
    {
        Slab::new_at(block_size, 0)
    }

    /// A pool for blocks of `block_size` bytes whose storage starts at `base`.
    pub fn new_at(block_size: usize, base: usize) -> (r: Slab)
        requires
            base + SLAB_SIZE <= usize::MAX,
        ensures
            r.wf(),
            r@ == (SlabView { block_size: block_size as nat, base: base as nat, num_blocks: 0, free: Seq::empty() }),
    {
        let r = Slab { block_size, base, num_blocks: 0, free_list: Vec::new() };
        assert(r@.free =~= Seq::<usize>::empty());
        r
    }

    /// Carves the pool into `SLAB_SIZE / max(block_size, FREE_NODE_SIZE)`
    /// blocks, all free. Blocks are pushed from index 0 upward, so the
    /// highest-indexed block is handed out first. Calling it again makes
    /// every block free, including those handed out before.
    pub fn init(&mut self)
        requires
            old(self).wf(),
        ensures
            final(self).wf(),
            final(self)@ == old(self)@.carved(),
            final(self)@.free.len() == SLAB_SIZE as nat / old(self)@.eff_size(),
    {
        let block_size = self.block_size;
        let eff: usize = if block_size > FREE_NODE_SIZE {
            block_size
        } else {
            FREE_NODE_SIZE
        };
        let num_blocks: usize = SLAB_SIZE / eff;
        let ghost s = self@;
        let mut free_list: Vec<usize> = Vec::new();
        let mut i: usize = 0;
        while i < num_blocks
            invariant
                s == self@,
                s.wf(),
                eff == s.eff_size(),
                num_blocks == s.capacity(),
                i <= num_blocks,
                free_list@ =~= Seq::new(i as nat, |j: int| s.block_addr(j) as usize),
            decreases num_blocks - i,
        {
            proof {
                lemma_block_fits(s, i as int);
            }
            free_list.push(self.base + i * eff);
            i = i + 1;
        }
        self.free_list = free_list;
        self.num_blocks = num_blocks;
        proof {
            let c = s.carved();
            assert(self@ == c);
            assert forall|j: int| 0 <= j < c.free.len() implies c.is_block(#[trigger] c.free[j] as int) by {
                lemma_block_fits(s, j);
                assert(c.block_addr(j) == s.block_addr(j));
                assert(c.free[j] as int == c.block_addr(j));
            }
            assert forall|j: int, k: int| 0 <= j < c.free.len() && 0 <= k < c.free.len() && j != k
                implies c.free[j] != c.free[k] by {
                lemma_block_fits(s, j);
                lemma_block_fits(s, k);
                if j < k {
                    lemma_block_addr_distinct(s, j, k);
                } else {
                    lemma_block_addr_distinct(s, k, j);
                }
            }
        }
    }

    /// Hands out the block at the head of the free list, or `None` when the
    /// pool is exhausted.
    pub fn allocate_one(&mut self) -> (r: Option<usize>)
        requires
            old(self).wf(),
        ensures
            final(self).wf(),
            r == old(self)@.next_block(),
            final(self)@ == old(self)@.after_alloc(),
            r is None <==> old(self)@.free.len() == 0,
            r matches Some(a) ==> old(self)@.owns(a as int) && final(self)@.is_allocated(a as int),
    {
        let r = self.free_list.pop();
        proof {
            let s = old(self)@;
            if s.free.len() > 0 {
                let a = s.free.last();
                assert(s.is_block(a as int));
                lemma_block_owned(s, a as int);
                assert(self@.free =~= s.free.drop_last());
                lemma_same_blocks(s, self@);
                assert(!self@.free.contains(a)) by {
                    if self@.free.contains(a) {
                        let k = choose|k: int| 0 <= k < self@.free.len() && self@.free[k] == a;
                        assert(s.free[k] == s.free[s.free.len() - 1]);
                    }
                }
                assert forall|j: int| 0 <= j < self@.free.len() implies self@.is_block(
                    #[trigger] self@.free[j] as int,
                ) by {
                    assert(s.is_block(s.free[j] as int));
                }
            }
        }
        r
    }

    /// Puts the block at `ptr` back at the head of the free list. The block
    /// must be one of this pool's blocks that is currently handed out.
    pub fn dealloc(&mut self, ptr: usize)
        requires
            old(self).wf(),
            old(self)@.is_allocated(ptr as int),
        ensures
            final(self).wf(),
            final(self)@ == old(self)@.after_free(ptr),
    {
        self.free_list.push(ptr);
        proof {
            let s = old(self)@;
            lemma_same_blocks(s, self@);
            assert forall|j: int| 0 <= j < self@.free.len() implies self@.is_block(
                #[trigger] self@.free[j] as int,
            ) by {
                if j < s.free.len() {
                    assert(s.is_block(s.free[j] as int));
                }
            }
            assert forall|j: int, k: int| 0 <= j < self@.free.len() && 0 <= k < self@.free.len() && j != k
                implies self@.free[j] != self@.free[k] by {
                if j < s.free.len() && k == s.free.len() {
                    assert(s.free.contains(s.free[j]));
                }
                if k < s.free.len() && j == s.free.len() {
                    assert(s.free.contains(s.free[k]));
                }
            }
        }
    }

    /// Whether `ptr` lies in `[base, base + SLAB_SIZE)`.
    pub fn contains(&self, ptr: usize) -> (r: bool)
        requires
            self.wf(),
        ensures
            r == self@.owns(ptr as int),
    {
        ptr >= self.base && ptr < self.base + SLAB_SIZE
    }

    /// Number of blocks on the free list.
    pub fn free_count(&self) -> (r: usize)
        ensures
            r == self@.free.len(),
    {
        self.free_list.len()
    }
}

/// `k` allocations, `k` no more than the free blocks, take the top `k`
/// entries of the free list.
proof fn lemma_allocs_take_top(s: SlabView, k: nat)
    requires
        k <= s.free.len(),
    ensures
        s.after_allocs(k) == (SlabView { free: s.free.take(s.free.len() - k), ..s }),
        s.taken(k).len() == k,
        s.taken(k).to_multiset() == s.free.skip(s.free.len() - k).to_multiset(),
    decreases k,
{
    let n = s.free.len() as int;
    if k == 0 {
        assert(s.free.take(n) =~= s.free);
        assert(s.free.skip(n) =~= Seq::<usize>::empty());
    } else {
        let t = s.after_alloc();
        lemma_allocs_take_top(t, (k - 1) as nat);
        assert(t.free.take(t.free.len() - (k - 1)) =~= s.free.take(n - k));
        assert(s.free.skip(n - k) =~= t.free.skip(t.free.len() - (k - 1)) + seq![s.free.last()]);
        vstd::seq_lib::lemma_multiset_commutative(seq![s.free.last()], t.taken((k - 1) as nat));
        vstd::seq_lib::lemma_multiset_commutative(t.free.skip(t.free.len() - (k - 1)), seq![s.free.last()]);
    }
}

/// Freeing the addresses of `q` pushes them in order.
proof fn lemma_frees_push(s: SlabView, q: Seq<usize>)
    ensures
        s.after_frees(q) == (SlabView { free: s.free + q, ..s }),
    decreases q.len(),
{
    if q.len() > 0 {
        lemma_frees_push(s.after_free(q[0]), q.drop_first());
        assert(s.free.push(q[0]) + q.drop_first() =~= s.free + q);
    } else {
        assert(s.free + q =~= s.free);
    }
}

/// Allocating until the pool is exhausted succeeds once per free block,
/// and one more allocation then returns no block.
pub proof fn lemma_alloc_until_exhausted(s: SlabView)
    ensures
        s.taken(s.free.len()).len() == s.free.len(),
        s.after_allocs(s.free.len()).next_block() is None,
        s.after_allocs(s.free.len()).free.len() == 0,
{
    lemma_allocs_take_top(s, s.free.len());
}

/// Allocating `k` blocks, freeing all of them in any order, then allocating
/// `k` blocks again returns the same set of addresses: no block is created
/// or lost, and the free list holds the same blocks as before.
pub proof fn lemma_round_trip(s: SlabView, k: nat, q: Seq<usize>)
    requires
        k <= s.free.len(),
        q.to_multiset() == s.taken(k).to_multiset(),
    ensures
        s.after_allocs(k).after_frees(q).taken(k).to_multiset() == s.taken(k).to_multiset(),
        s.after_allocs(k).after_frees(q).free.to_multiset() == s.free.to_multiset(),
{
    let n = s.free.len() as int;
    lemma_allocs_take_top(s, k);
    let rest = s.after_allocs(k);
    lemma_frees_push(rest, q);
    let t = rest.after_frees(q);
    assert(q.len() == k) by {
        q.to_multiset_ensures();
        s.taken(k).to_multiset_ensures();
    }
    lemma_allocs_take_top(t, k);
    assert(t.free.skip(t.free.len() - k) =~= q);
    assert(s.free =~= s.free.take(n - k) + s.free.skip(n - k));
    vstd::seq_lib::lemma_multiset_commutative(s.free.take(n - k), q);
    vstd::seq_lib::lemma_multiset_commutative(s.free.take(n - k), s.free.skip(n - k));
}

} // verus!
