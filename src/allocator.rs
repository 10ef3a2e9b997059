//! Size-class dispatch over five pools.
use crate::slab::{Slab, SlabView, SLAB_SIZE};
use vstd::prelude::*;

verus! {

/// Number of size classes.
pub const NUM_CLASSES: usize = 5;

/// Block size of class `k`: 64, 128, 256, 512 and 1024 bytes.
pub open spec fn class_size(k: int) -> nat {
    if k == 0 {
        64
    } else if k == 1 {
        128
    } else if k == 2 {
        256
    } else if k == 3 {
        512
    } else {
        1024
    }
}

/// The smallest class whose block size is at least `size`, if any.
pub open spec fn class_for_size(size: int) -> Option<usize> {
    if size <= 64 {
        Some(0)
    } else if size <= 128 {
        Some(1)
    } else if size <= 256 {
        Some(2)
    } else if size <= 512 {
        Some(3)
    } else if size <= 1024 {
        Some(4)
    } else {
        None
    }
}

/// The size a request is served at: the larger of its size and alignment.
pub open spec fn request_size(size: int, align: int) -> int {
    if size > align {
        size
    } else {
        align
    }
}

/// The mathematical state of a [`SlabAllocator`].
pub struct AllocatorView {
    /// Whether the pools have been carved.
    pub initialized: bool,
    /// The pool of each class, smallest first.
    pub slabs: Seq<SlabView>,
}

impl AllocatorView {
    pub open spec fn wf(self) -> bool {
        &&& self.slabs.len() == NUM_CLASSES
        &&& forall|k: int| 0 <= k < NUM_CLASSES ==> {
            &&& (#[trigger] self.slabs[k]).wf()
            &&& self.slabs[k].block_size == class_size(k)
            &&& self.slabs[k].base == k * SLAB_SIZE
            &&& self.initialized ==> self.slabs[k].num_blocks == self.slabs[k].capacity()
        }
    }

    /// The state once initialization has run: every pool carved exactly once.
    pub open spec fn ready(self) -> AllocatorView {
        if self.initialized {
            self
        } else {
            AllocatorView {
                initialized: true,
                slabs: Seq::new(self.slabs.len(), |k: int| self.slabs[k].carved()),
            }
        }
    }

    /// The first class, in ascending order, whose pool owns address `a`.
    pub open spec fn owner(self, a: int) -> Option<usize> {
        if self.slabs[0].owns(a) {
            Some(0)
        } else if self.slabs[1].owns(a) {
            Some(1)
        } else if self.slabs[2].owns(a) {
            Some(2)
        } else if self.slabs[3].owns(a) {
            Some(3)
        } else if self.slabs[4].owns(a) {
            Some(4)
        } else {
            None
        }
    }

    /// What a request served at `size` returns.
    pub open spec fn alloc_result(self, size: int) -> Option<usize> {
        match class_for_size(size) {
            None => None,
            Some(k) => self.slabs[k as int].next_block(),
        }
    }

    /// The state after a request served at `size`.
    pub open spec fn after_alloc(self, size: int) -> AllocatorView {
        match class_for_size(size) {
            None => self,
            Some(k) => AllocatorView {
                slabs: self.slabs.update(k as int, self.slabs[k as int].after_alloc()),
                ..self
            },
        }
    }

    /// Freeing `a` is within contract: either no pool owns it, or it is a
    /// block currently handed out by the pool that does.
    pub open spec fn may_free(self, a: usize) -> bool {
        match self.owner(a as int) {
            None => true,
            Some(k) => self.slabs[k as int].is_allocated(a as int),
        }
    }

    /// The state after freeing `a`: pushed onto its owner's free list, or
    /// unchanged when no pool owns it.
    pub open spec fn after_free(self, a: usize) -> AllocatorView {
        match self.owner(a as int) {
            None => self,
            Some(k) => AllocatorView {
                slabs: self.slabs.update(k as int, self.slabs[k as int].after_free(a)),
                ..self
            },
        }
    }
}

/// The view of a freshly constructed allocator: class `k`'s pool occupies
/// `[k * SLAB_SIZE, (k + 1) * SLAB_SIZE)`, nothing carved yet.
pub open spec fn fresh_allocator() -> AllocatorView {
    AllocatorView {
        initialized: false,
        slabs: Seq::new(
            NUM_CLASSES as nat,
            |k: int|
                SlabView { block_size: class_size(k), base: (k * SLAB_SIZE) as nat, num_blocks: 0, free: Seq::empty() },
        ),
    }
}

/// An allocator with one pool per size class. Pools are carved on first use.
pub struct SlabAllocator {
    slabs_64: Slab,
    slabs_128: Slab,
    slabs_256: Slab,
    slabs_512: Slab,
    slabs_1024: Slab,
    initialized: bool,
}

impl View for SlabAllocator {
    type V = AllocatorView;

    closed spec fn view(&self) -> AllocatorView {
        AllocatorView {
            initialized: self.initialized,
            slabs: seq![self.slabs_64@, self.slabs_128@, self.slabs_256@, self.slabs_512@, self.slabs_1024@],
        }
    }
}

impl SlabAllocator {
    pub open spec fn wf(&self) -> bool {
        self@.wf()
    }

    /// An allocator whose pools are laid out one after another from address 0.
    pub fn new() -> (r: SlabAllocator)
        ensures
            r.wf(),
            r@ == fresh_allocator(),
    {
        let r = SlabAllocator {
            slabs_64: Slab::new_at(64, 0),
            slabs_128: Slab::new_at(128, SLAB_SIZE),
            slabs_256: Slab::new_at(256, 2 * SLAB_SIZE),
            slabs_512: Slab::new_at(512, 3 * SLAB_SIZE),
            slabs_1024: Slab::new_at(1024, 4 * SLAB_SIZE),
            initialized: false,
        };
        assert(r@.slabs =~= fresh_allocator().slabs);
        r
    }

    /// Carves every pool, once: does nothing when already initialized.
    pub fn init(&mut self)
        requires
            old(self).wf(),
        ensures
            final(self).wf(),
            final(self)@ == old(self)@.ready(),
    {
        if self.initialized == false {
            self.slabs_64.init();
            self.slabs_128.init();
            self.slabs_256.init();
            self.slabs_512.init();
            self.slabs_1024.init();
            self.initialized = true;
            assert(self@.slabs =~= old(self)@.ready().slabs);
        }
    }

    /// The class serving requests of `size` bytes: the smallest one whose
    /// block size is at least `size`, or `None` above the largest class.
    pub fn get_slab_for_size(&self, size: usize) -> (r: Option<usize>)
        ensures
            r == class_for_size(size as int),
            r matches Some(k) ==> k < NUM_CLASSES && size <= class_size(k as int) && (k > 0 ==> size
                > class_size(k - 1)),
            r is None <==> size > class_size(NUM_CLASSES - 1),
    {
        if size <= 64 {
            Some(0)
        } else if size <= 128 {
            Some(1)
        } else if size <= 256 {
            Some(2)
        } else if size <= 512 {
            Some(3)
        } else if size <= 1024 {
            Some(4)
        } else {
            None
        }
    }

    /// The first class, in ascending order, whose pool owns `ptr`.
    pub fn find_slab_for_ptr(&self, ptr: usize) -> (r: Option<usize>)
        requires
            self.wf(),
        ensures
            r == self@.owner(ptr as int),
    {
        proof {
            assert(self@.slabs[0].wf() && self@.slabs[1].wf() && self@.slabs[2].wf());
            assert(self@.slabs[3].wf() && self@.slabs[4].wf());
        }
        if self.slabs_64.contains(ptr) {
            Some(0)
        } else if self.slabs_128.contains(ptr) {
            Some(1)
        } else if self.slabs_256.contains(ptr) {
            Some(2)
        } else if self.slabs_512.contains(ptr) {
            Some(3)
        } else if self.slabs_1024.contains(ptr) {
            Some(4)
        } else {
            None
        }
    }

    /// Takes one block from the pool of class `k`.
    fn allocate_from(&mut self, k: usize) -> (r: Option<usize>)
        requires
            old(self).wf(),
            k < NUM_CLASSES,
        ensures
            final(self).wf(),
            r == old(self)@.slabs[k as int].next_block(),
            final(self)@ == (AllocatorView {
                slabs: old(self)@.slabs.update(k as int, old(self)@.slabs[k as int].after_alloc()),
                ..old(self)@
            }),
    {
        proof {
            assert(self@.slabs[k as int].wf());
        }
        let r = if k == 0 {
            self.slabs_64.allocate_one()
        } else if k == 1 {
            self.slabs_128.allocate_one()
        } else if k == 2 {
            self.slabs_256.allocate_one()
        } else if k == 3 {
            self.slabs_512.allocate_one()
        } else {
            self.slabs_1024.allocate_one()
        };
        assert(self@.slabs =~= old(self)@.slabs.update(k as int, old(self)@.slabs[k as int].after_alloc()));
        r
    }

    /// Pushes `ptr` back onto the pool of class `k`.
    fn free_into(&mut self, k: usize, ptr: usize)
        requires
            old(self).wf(),
            k < NUM_CLASSES,
            old(self)@.slabs[k as int].is_allocated(ptr as int),
        ensures
            final(self).wf(),
            final(self)@ == (AllocatorView {
                slabs: old(self)@.slabs.update(k as int, old(self)@.slabs[k as int].after_free(ptr)),
                ..old(self)@
            }),
    {
        proof {
            assert(self@.slabs[k as int].wf());
        }
        if k == 0 {
            self.slabs_64.dealloc(ptr);
        } else if k == 1 {
            self.slabs_128.dealloc(ptr);
        } else if k == 2 {
            self.slabs_256.dealloc(ptr);
        } else if k == 3 {
            self.slabs_512.dealloc(ptr);
        } else {
            self.slabs_1024.dealloc(ptr);
        }
        assert(self@.slabs =~= old(self)@.slabs.update(k as int, old(self)@.slabs[k as int].after_free(ptr)));
    }

    /// Serves a request for `size` bytes aligned to `align`, at
    /// `max(size, align)` bytes, from the smallest class that fits.
    /// Initializes the pools first if needed. Returns `None` when the
    /// request exceeds the largest class or its class is exhausted. The
    /// address is aligned only as far as the pool's block layout makes it.
    pub fn allocate(&mut self, size: usize, align: usize) -> (r: Option<usize>)
        requires
            old(self).wf(),
        ensures
            final(self).wf(),
            final(self)@.initialized,
            r == old(self)@.ready().alloc_result(request_size(size as int, align as int)),
            final(self)@ == old(self)@.ready().after_alloc(request_size(size as int, align as int)),
            r matches Some(a) ==> final(self)@.slabs[class_for_size(
                request_size(size as int, align as int),
            ).unwrap() as int].is_allocated(a as int),
    {
        if self.initialized == false {
            self.init();
        }
        let final_size: usize = if size > align {
            size
        } else {
            align
        };
        let class = self.get_slab_for_size(final_size);
        match class {
            None => None,
            Some(k) => {
                proof {
                    assert(self@.slabs[k as int].wf());
                }
                let r = self.allocate_from(k);
                proof {
                    if r is Some {
                        let s = self@.slabs[k as int];
                        assert(s.wf());
                        lemma_popped_is_allocated(old(self)@.ready().slabs[k as int]);
                    }
                }
                r
            },
        }
    }

    /// Frees the block at `ptr` into the pool that owns it; when no pool owns
    /// `ptr`, does nothing. The request's size and alignment are accepted for
    /// symmetry with `allocate` and are not needed to find the pool.
    pub fn deallocate(&mut self, ptr: usize, _size: usize, _align: usize)
        requires
            old(self).wf(),
            old(self)@.may_free(ptr),
        ensures
            final(self).wf(),
            final(self)@ == old(self)@.after_free(ptr),
    {
        let class = self.find_slab_for_ptr(ptr);
        if let Some(k) = class {
            self.free_into(k, ptr);
        }
    }

    /// The pool of class `class`, if there is such a class.
    pub fn slab(&self, class: usize) -> (r: Option<&Slab>)
        ensures
            class < NUM_CLASSES ==> (r matches Some(s) && s@ == self@.slabs[class as int]),
            class >= NUM_CLASSES ==> r is None,
    {
        if class == 0 {
            Some(&self.slabs_64)
        } else if class == 1 {
            Some(&self.slabs_128)
        } else if class == 2 {
            Some(&self.slabs_256)
        } else if class == 3 {
            Some(&self.slabs_512)
        } else if class == 4 {
            Some(&self.slabs_1024)
        } else {
            None
        }
    }

    /// Whether the pools have been carved.
    pub fn is_initialized(&self) -> (r: bool)
        ensures
            r == self@.initialized,
    {
        self.initialized
    }
}

/// What one allocation from a well-formed pool returns is a block that the
/// pool then counts as handed out.
proof fn lemma_popped_is_allocated(s: SlabView)
    requires
        s.wf(),
        s.free.len() > 0,
    ensures
        s.after_alloc().is_allocated(s.free.last() as int),
{
    let a = s.free.last();
    assert(s.is_block(a as int));
    let t = s.after_alloc();
    crate::slab::lemma_same_blocks(s, t);
    if t.free.contains(a) {
        let j = choose|j: int| 0 <= j < t.free.len() && t.free[j] == a;
        assert(s.free[j] == s.free[s.free.len() - 1]);
    }
}

/// A request larger than the largest class is refused whatever the pools
/// hold, and leaves every pool as it was.
pub proof fn lemma_oversize_refused(v: AllocatorView, size: int)
    requires
        size > class_size(NUM_CLASSES - 1),
    ensures
        v.alloc_result(size) is None,
        v.after_alloc(size) == v,
{
}

/// Freeing an address that no pool owns changes no pool: in particular every
/// class keeps its free count.
pub proof fn lemma_unowned_free_is_noop(v: AllocatorView, a: usize)
    requires
        v.owner(a as int) is None,
    ensures
        v.after_free(a) == v,
        forall|k: int| 0 <= k < v.slabs.len() ==> (#[trigger] v.after_free(a).slabs[k]).free.len()
            == v.slabs[k].free.len(),
{
}

/// Every address a request returns lies in the pool of the class the
/// request was routed to.
pub proof fn lemma_allocation_owned(v: AllocatorView, size: int)
    requires
        v.wf(),
        v.alloc_result(size) is Some,
    ensures
        v.slabs[class_for_size(size).unwrap() as int].owns(v.alloc_result(size).unwrap() as int),
        v.owner(v.alloc_result(size).unwrap() as int) == class_for_size(size),
{
    let k = class_for_size(size).unwrap() as int;
    let s = v.slabs[k];
    assert(s.wf());
    let a = s.free.last();
    assert(s.is_block(a as int));
    crate::slab::lemma_block_owned(s, a as int);
    assert(v.slabs[0].base == 0);
    assert(v.slabs[1].base == SLAB_SIZE);
    assert(v.slabs[2].base == 2 * SLAB_SIZE);
    assert(v.slabs[3].base == 3 * SLAB_SIZE);
    assert(v.slabs[4].base == 4 * SLAB_SIZE);
}

} // verus!
