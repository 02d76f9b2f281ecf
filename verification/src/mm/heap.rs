//! The kernel heap: a first-fit allocator over a sorted free list whose
//! neighbouring regions are merged.
use vstd::prelude::*;
use crate::collections::open_address::is_pow2;
use crate::mm::paging::KERNEL_VIRT_BASE;

verus! {

/// Size of the heap storage in bytes (10 MiB).
pub const HEAP_SIZE: usize = 0xA0_0000;

/// Size of the header kept at the start of every free region.
pub const NODE_SIZE: usize = 16;

/// Alignment of every free region.
pub const NODE_ALIGN: usize = 8;

/// One free region of the heap: `size` bytes starting at `start`.
#[derive(Debug, Clone, Copy, PartialEq, Eq, Structural)]
pub struct FreeRegion {
    pub start: usize,
    pub size: usize,
}

pub open spec fn region_end(r: FreeRegion) -> int {
    r.start + r.size
}

/// `x` rounded up to a multiple of `a`.
pub open spec fn round_up(x: int, a: int) -> int {
    if x % a == 0 {
        x
    } else {
        x + (a - x % a)
    }
}

/// Where a block of `size` bytes aligned to `align` goes inside `r`, if it
/// fits: the aligned start must be reachable without wrapping the address
/// space, and the parts of `r` left before and after the block must each be
/// empty or large enough to hold a free-list header.
pub open spec fn placement(r: FreeRegion, size: int, align: int) -> Option<int> {
    if r.start + align - 1 > usize::MAX {
        None
    } else {
        let s = round_up(r.start as int, align);
        let prefix = s - r.start;
        if prefix != 0 && prefix < NODE_SIZE {
            None
        } else if s + size > usize::MAX || s + size > region_end(r) {
            None
        } else if region_end(r) - (s + size) > 0 && region_end(r) - (s + size) < NODE_SIZE {
            None
        } else {
            Some(s)
        }
    }
}

/// The size and alignment actually used for a request: the alignment raised
/// to that of a free-list header, the size padded to it and to at least one
/// header.
pub open spec fn adjusted_align(align: int) -> int {
    if align < NODE_ALIGN {
        NODE_ALIGN as int
    } else {
        align
    }
}

pub open spec fn adjusted_size(size: int, align: int) -> int {
    let padded = round_up(size, adjusted_align(align));
    if padded < NODE_SIZE {
        NODE_SIZE as int
    } else {
        padded
    }
}

/// A request that `Layout` accepts and whose alignment can be raised to that
/// of a free-list header.
pub open spec fn layout_ok(size: int, align: int) -> bool {
    is_pow2(align) && round_up(size, adjusted_align(align)) <= isize::MAX
}

proof fn lemma_pow2_small(a: int)
    requires
        is_pow2(a),
        a < 8,
    ensures
        a == 1 || a == 2 || a == 4,
{
    reveal_with_fuel(is_pow2, 4);
}

proof fn lemma_pow2_at_least_8(a: int)
    requires
        is_pow2(a),
        a >= 8,
    ensures
        a % 8 == 0,
    decreases a,
{
    if a > 8 {
        if a / 2 < 8 {
            lemma_pow2_small(a / 2);
        } else {
            lemma_pow2_at_least_8(a / 2);
        }
    }
}

proof fn lemma_round_up(x: int, a: int)
    requires
        x >= 0,
        a > 0,
    ensures
        round_up(x, a) % a == 0,
        x <= round_up(x, a) < x + a,
{
    if x % a != 0 {
        assert((x + (a - x % a)) % a == 0) by {
            vstd::arithmetic::div_mod::lemma_fundamental_div_mod(x, a);
            assert(x + (a - x % a) == a * (x / a + 1)) by (nonlinear_arith)
                requires
                    x == a * (x / a) + x % a,
            ;
            vstd::arithmetic::div_mod::lemma_mod_multiples_basic(x / a + 1, a);
            assert(a * (x / a + 1) == (x / a + 1) * a) by (nonlinear_arith);
        }
    }
}

proof fn lemma_multiple_of_8(x: int, a: int)
    requires
        x >= 0,
        a > 0,
        x % a == 0,
        a % 8 == 0,
    ensures
        x % 8 == 0,
{
    vstd::arithmetic::div_mod::lemma_fundamental_div_mod(x, a);
    vstd::arithmetic::div_mod::lemma_fundamental_div_mod(a, 8);
    let q = x / a;
    let p = a / 8;
    assert(x == (p * q) * 8) by (nonlinear_arith)
        requires
            x == a * q,
            a == 8 * p,
    ;
    vstd::arithmetic::div_mod::lemma_mod_multiples_basic(p * q, 8);
}

/// `x` rounded up to a multiple of `a`, or `None` where that leaves `usize`.
fn checked_round_up(x: usize, a: usize) -> (r: Option<usize>)
    requires
        a > 0,
    ensures
        r == (if round_up(x as int, a as int) <= usize::MAX {
            Some(round_up(x as int, a as int) as usize)
        } else {
            None::<usize>
        }),
{
    let rem = x % a;
    if rem == 0 {
        Some(x)
    } else {
        x.checked_add(a - rem)
    }
}

/// The size and alignment used for a request of `size` bytes aligned to
/// `align`.
pub fn size_align(size: usize, align: usize) -> (r: (usize, usize))
    requires
        layout_ok(size as int, align as int),
    ensures
        r.0 == adjusted_size(size as int, align as int),
        r.1 == adjusted_align(align as int),
        r.0 % 8 == 0,
        r.1 % 8 == 0,
        r.0 >= NODE_SIZE,
        is_pow2(r.1 as int),
{
    let a: usize = if align < NODE_ALIGN { NODE_ALIGN } else { align };
    proof {
        if align < NODE_ALIGN {
            reveal_with_fuel(is_pow2, 4);
        }
        lemma_pow2_at_least_8(a as int);
        lemma_round_up(size as int, a as int);
    }
    let padded = match checked_round_up(size, a) {
        Some(p) => p,
        None => 0,
    };
    proof {
        lemma_multiple_of_8(padded as int, a as int);
    }
    let s = if padded < NODE_SIZE { NODE_SIZE } else { padded };
    (s, a)
}

impl FreeRegion {
    pub fn end_addr(&self) -> (r: usize)
        requires
            region_end(*self) <= usize::MAX,
        ensures
            r == region_end(*self),
    {
        self.start + self.size
    }
}

/// Where a block of `size` bytes aligned to `align` goes inside `region`;
/// `Err(())` where it does not fit.
pub fn alloc_from_region(region: &FreeRegion, size: usize, align: usize) -> (r: Result<usize, ()>)
    requires
        align > 0,
        region_end(*region) <= usize::MAX,
    ensures
        r matches Ok(s) ==> placement(*region, size as int, align as int) == Some(s as int),
        r is Err ==> placement(*region, size as int, align as int) is None,
{
    if region.start.checked_add(align - 1).is_none() {
        return Err(());
    }
    proof {
        lemma_round_up(region.start as int, align as int);
    }
    let alloc_start = match checked_round_up(region.start, align) {
        Some(s) => s,
        None => {
            return Err(());
        },
    };
    let prefix_size = alloc_start - region.start;
    if prefix_size != 0 && prefix_size < NODE_SIZE {
        return Err(());
    }
    let alloc_end = match alloc_start.checked_add(size) {
        Some(e) => e,
        None => {
            return Err(());
        },
    };
    let end = region.end_addr();
    if alloc_end > end {
        return Err(());
    }
    let excess_size = end - alloc_end;
    if excess_size > 0 && excess_size < NODE_SIZE {
        return Err(());
    }
    Ok(alloc_start)
}

/// Every region is aligned, can hold a header and ends inside the address
/// space; the regions are sorted by address, and between two of them lies at
/// least one byte that is not free (touching regions are merged).
pub open spec fn regions_wf(s: Seq<FreeRegion>) -> bool {
    &&& forall|i: int|
        #![trigger s[i]]
        0 <= i < s.len() ==> s[i].start % 8 == 0 && s[i].size >= NODE_SIZE && region_end(s[i]) <= usize::MAX
    &&& forall|i: int, j: int| 0 <= i < j < s.len() ==> region_end(#[trigger] s[i]) < (#[trigger] s[j]).start
}

/// The address `a` lies in one of the regions.
pub open spec fn is_free(s: Seq<FreeRegion>, a: int) -> bool {
    exists|i: int| 0 <= i < s.len() && s[i].start <= a < #[trigger] region_end(s[i])
}

/// The set of free addresses.
pub open spec fn free_set(s: Seq<FreeRegion>) -> Set<int> {
    Set::new(|a: int| is_free(s, a))
}

/// The addresses `lo <= a < hi`.
pub open spec fn span(lo: int, hi: int) -> Set<int> {
    Set::new(|a: int| lo <= a < hi)
}

/// No free address lies in `[lo, hi)`.
pub open spec fn disjoint_from(s: Seq<FreeRegion>, lo: int, hi: int) -> bool {
    forall|a: int| lo <= a < hi ==> !is_free(s, a)
}

/// `add_free_region` takes the region `[addr, addr + size)`.
pub open spec fn can_add(s: Seq<FreeRegion>, addr: int, size: int) -> bool {
    &&& addr % 8 == 0
    &&& size >= NODE_SIZE
    &&& addr + size <= usize::MAX
    &&& disjoint_from(s, addr, addr + size)
}

/// `i` regions end at or before `addr`, the others after it.
pub open spec fn insertion_point(s: Seq<FreeRegion>, addr: int, i: int) -> bool {
    &&& 0 <= i <= s.len()
    &&& forall|j: int| 0 <= j < i ==> region_end(#[trigger] s[j]) <= addr
    &&& forall|j: int| i <= j < s.len() ==> region_end(#[trigger] s[j]) > addr
}

pub open spec fn merges_prev(s: Seq<FreeRegion>, i: int, addr: int) -> bool {
    i > 0 && region_end(s[i - 1]) == addr
}

pub open spec fn merges_next(s: Seq<FreeRegion>, i: int, addr: int, size: int) -> bool {
    i < s.len() && s[i].start == addr + size
}

/// The region that `[addr, addr + size)` becomes once merged with the
/// neighbours that touch it.
pub open spec fn merged_region(s: Seq<FreeRegion>, i: int, addr: int, size: int) -> FreeRegion {
    let start = if merges_prev(s, i, addr) { s[i - 1].start as int } else { addr };
    let end = if merges_next(s, i, addr, size) { region_end(s[i]) } else { addr + size };
    FreeRegion { start: start as usize, size: (end - start) as usize }
}

/// The free list after the free region `[addr, addr + size)` went in before
/// index `i` and was merged with the neighbours that touch it.
pub open spec fn merged_insert(s: Seq<FreeRegion>, i: int, addr: int, size: int) -> Seq<FreeRegion> {
    let lo = if merges_prev(s, i, addr) { i - 1 } else { i };
    let hi = if merges_next(s, i, addr, size) { i + 1 } else { i };
    s.subrange(0, lo).push(merged_region(s, i, addr, size)) + s.subrange(hi, s.len() as int)
}

/// What `add_free_region` asks of its position.
pub open spec fn insert_ok(s: Seq<FreeRegion>, i: int, addr: int, size: int) -> bool {
    &&& regions_wf(s)
    &&& insertion_point(s, addr, i)
    &&& 0 <= addr
    &&& addr % 8 == 0
    &&& size >= NODE_SIZE
    &&& addr + size <= usize::MAX
    &&& (i == s.len() || s[i].start >= addr + size)
}

proof fn lemma_merged_region(s: Seq<FreeRegion>, i: int, addr: int, size: int)
    requires
        insert_ok(s, i, addr, size),
    ensures
        ({
            let m = merged_region(s, i, addr, size);
            &&& m.start <= addr
            &&& addr + size <= region_end(m) <= usize::MAX
            &&& m.start % 8 == 0
            &&& m.size >= NODE_SIZE
            &&& merges_prev(s, i, addr) ==> m.start == s[i - 1].start
            &&& !merges_prev(s, i, addr) ==> m.start == addr
            &&& merges_next(s, i, addr, size) ==> region_end(m) == region_end(s[i])
            &&& !merges_next(s, i, addr, size) ==> region_end(m) == addr + size
        }),
{
    let start = if merges_prev(s, i, addr) { s[i - 1].start as int } else { addr };
    let end = if merges_next(s, i, addr, size) { region_end(s[i]) } else { addr + size };
    if i > 0 {
        assert(s[i - 1].start % 8 == 0);
        assert(region_end(s[i - 1]) <= addr);
    }
    if i < s.len() {
        assert(region_end(s[i]) <= usize::MAX);
    }
    assert(0 <= start <= addr);
    assert(addr + size <= end <= usize::MAX);
    let m = merged_region(s, i, addr, size);
    assert(m.start == start);
    assert(m.size == end - start);
}

proof fn lemma_merged_index(s: Seq<FreeRegion>, i: int, addr: int, size: int, k: int)
    requires
        insert_ok(s, i, addr, size),
        0 <= k < merged_insert(s, i, addr, size).len(),
    ensures
        ({
            let lo = if merges_prev(s, i, addr) { i - 1 } else { i };
            let hi = if merges_next(s, i, addr, size) { i + 1 } else { i };
            &&& merged_insert(s, i, addr, size).len() == lo + 1 + s.len() - hi
            &&& merged_insert(s, i, addr, size)[k] == (if k < lo {
                s[k]
            } else if k == lo {
                merged_region(s, i, addr, size)
            } else {
                s[k - lo - 1 + hi]
            })
        }),
{
}

proof fn lemma_merged_wf(s: Seq<FreeRegion>, i: int, addr: int, size: int)
    requires
        insert_ok(s, i, addr, size),
    ensures
        regions_wf(merged_insert(s, i, addr, size)),
{
    let t = merged_insert(s, i, addr, size);
    let mp = merges_prev(s, i, addr);
    let mn = merges_next(s, i, addr, size);
    let lo = if mp { i - 1 } else { i };
    let hi = if mn { i + 1 } else { i };
    let m = merged_region(s, i, addr, size);
    lemma_merged_region(s, i, addr, size);
    assert forall|j: int| 0 <= j < lo implies region_end(#[trigger] s[j]) < m.start by {
        if mp {
            assert(region_end(s[j]) < s[i - 1].start);
        } else if j < i - 1 {
            assert(region_end(s[j]) < s[i - 1].start);
        }
    }
    assert forall|j: int| hi <= j < s.len() implies region_end(m) < (#[trigger] s[j]).start by {
        if mn {
            assert(region_end(s[i]) < s[j].start);
        } else if j > i {
            assert(region_end(s[i]) < s[j].start);
        }
    }
    assert forall|k: int| #![trigger t[k]] 0 <= k < t.len() implies t[k].start % 8 == 0 && t[k].size
        >= NODE_SIZE && region_end(t[k]) <= usize::MAX by {
        lemma_merged_index(s, i, addr, size, k);
        if k < lo {
            assert(t[k] == s[k]);
        } else if k > lo {
            assert(t[k] == s[k - lo - 1 + hi]);
        }
    }
    assert forall|a: int, b: int| 0 <= a < b < t.len() implies region_end(#[trigger] t[a]) < (
    #[trigger] t[b]).start by {
        lemma_merged_index(s, i, addr, size, a);
        lemma_merged_index(s, i, addr, size, b);
        if b < lo {
            assert(region_end(s[a]) < s[b].start);
        } else if b == lo {
        } else if a < lo {
            let j = b - lo - 1 + hi;
            assert(region_end(s[a]) < m.start);
            assert(region_end(m) < s[j].start);
        } else if a == lo {
        } else {
            assert(region_end(s[a - lo - 1 + hi]) < s[b - lo - 1 + hi].start);
        }
    }
}

proof fn lemma_merged_free_set(s: Seq<FreeRegion>, i: int, addr: int, size: int)
    requires
        insert_ok(s, i, addr, size),
    ensures
        free_set(merged_insert(s, i, addr, size)) == free_set(s).union(span(addr, addr + size)),
{
    let t = merged_insert(s, i, addr, size);
    let mp = merges_prev(s, i, addr);
    let mn = merges_next(s, i, addr, size);
    let lo = if mp { i - 1 } else { i };
    let hi = if mn { i + 1 } else { i };
    let m = merged_region(s, i, addr, size);
    lemma_merged_region(s, i, addr, size);
    assert forall|x: int| is_free(t, x) implies is_free(s, x) || (addr <= x < addr + size) by {
        let k = choose|k: int| 0 <= k < t.len() && t[k].start <= x < #[trigger] region_end(t[k]);
        lemma_merged_index(s, i, addr, size, k);
        if k < lo {
            assert(s[k].start <= x < region_end(s[k]));
        } else if k > lo {
            let j = k - lo - 1 + hi;
            assert(s[j].start <= x < region_end(s[j]));
        } else if x < addr {
            assert(s[i - 1].start <= x < region_end(s[i - 1]));
        } else if x >= addr + size {
            assert(s[i].start <= x < region_end(s[i]));
        }
    }
    assert forall|x: int| is_free(s, x) || (addr <= x < addr + size) implies is_free(t, x) by {
        lemma_merged_index(s, i, addr, size, lo);
        if addr <= x < addr + size {
            assert(t[lo].start <= x < region_end(t[lo]));
        } else {
            let j = choose|j: int| 0 <= j < s.len() && s[j].start <= x < #[trigger] region_end(s[j]);
            if j < lo {
                lemma_merged_index(s, i, addr, size, j);
                assert(t[j].start <= x < region_end(t[j]));
            } else if j >= hi {
                let k = j - hi + lo + 1;
                lemma_merged_index(s, i, addr, size, k);
                assert(t[k].start <= x < region_end(t[k]));
            } else {
                assert(t[lo].start <= x < region_end(t[lo]));
            }
        }
    }
    assert(free_set(t) =~= free_set(s).union(span(addr, addr + size)));
}

/// Removing the region at `j` frees exactly the addresses it held.
proof fn lemma_remove_free_set(s: Seq<FreeRegion>, j: int)
    requires
        regions_wf(s),
        0 <= j < s.len(),
    ensures
        regions_wf(s.remove(j)),
        free_set(s.remove(j)) == free_set(s).difference(span(s[j].start as int, region_end(s[j]))),
{
    let t = s.remove(j);
    assert forall|k: int| 0 <= k < t.len() implies #[trigger] t[k] == (if k < j { s[k] } else { s[k + 1] }) by {}
    assert(regions_wf(t)) by {
        assert forall|a: int, b: int| 0 <= a < b < t.len() implies region_end(#[trigger] t[a]) < (
        #[trigger] t[b]).start by {
            let a2 = if a < j { a } else { a + 1 };
            let b2 = if b < j { b } else { b + 1 };
            assert(region_end(s[a2]) < s[b2].start);
        }
    }
    assert forall|x: int| is_free(t, x) implies is_free(s, x) && !(s[j].start <= x < region_end(s[j])) by {
        let k = choose|k: int| 0 <= k < t.len() && t[k].start <= x < #[trigger] region_end(t[k]);
        let k2 = if k < j { k } else { k + 1 };
        assert(s[k2].start <= x < region_end(s[k2]));
        if k2 < j {
            assert(region_end(s[k2]) < s[j].start);
        } else {
            assert(region_end(s[j]) < s[k2].start);
        }
    }
    assert forall|x: int| is_free(s, x) && !(s[j].start <= x < region_end(s[j])) implies is_free(t, x) by {
        let k = choose|k: int| 0 <= k < s.len() && s[k].start <= x < #[trigger] region_end(s[k]);
        let k2 = if k < j { k } else { k - 1 };
        assert(t[k2].start <= x < region_end(t[k2]));
    }
    assert(free_set(t) =~= free_set(s).difference(span(s[j].start as int, region_end(s[j]))));
}

/// The index of the first region that can hold the block, if any.
pub open spec fn first_fit(s: Seq<FreeRegion>, size: int, align: int, j: int) -> bool {
    &&& 0 <= j < s.len()
    &&& placement(s[j], size, align) is Some
    &&& forall|k: int| 0 <= k < j ==> placement(#[trigger] s[k], size, align) is None
}

pub open spec fn no_fit(s: Seq<FreeRegion>, size: int, align: int) -> bool {
    forall|k: int| 0 <= k < s.len() ==> placement(#[trigger] s[k], size, align) is None
}

/// A first-fit heap allocator over a sorted list of free regions.
pub struct LinkedListAllocator {
    regions: Vec<FreeRegion>,
}

impl View for LinkedListAllocator {
    type V = Seq<FreeRegion>;

    closed spec fn view(&self) -> Seq<FreeRegion> {
        self.regions@
    }
}

impl LinkedListAllocator {
    pub open spec fn wf(&self) -> bool {
        regions_wf(self@)
    }

    /// An allocator with no free memory.
    pub fn new() -> (r: Self)
        ensures
            r.wf(),
            r@ == Seq::<FreeRegion>::empty(),
    {
        LinkedListAllocator { regions: Vec::new() }
    }

    /// The free regions, in address order.
    pub fn regions(&self) -> (r: &[FreeRegion])
        ensures
            r@ == self@,
    {
        self.regions.as_slice()
    }

    /// Hands the region `[heap_start, heap_start + heap_size)` to an
    /// allocator that forgets what it held before; `false` where the region
    /// is misaligned, too small or wraps the address space.
    pub fn init(&mut self, heap_start: usize, heap_size: usize) -> (r: bool)
        ensures
            final(self).wf(),
            r == (heap_start % 8 == 0 && heap_size >= NODE_SIZE && heap_start + heap_size <= usize::MAX),
            r ==> final(self)@ == seq![FreeRegion { start: heap_start, size: heap_size }],
            !r ==> final(self)@ == Seq::<FreeRegion>::empty(),
    {
        self.regions = Vec::new();
        let r = self.add_free_region(heap_start, heap_size);
        proof {
            if r {
                let e = Seq::<FreeRegion>::empty();
                assert(insertion_point(e, heap_start as int, 0));
                lemma_insertion_point_unique(e, heap_start as int, 0);
                assert(merged_insert(e, 0, heap_start as int, heap_size as int) =~= seq![
                    FreeRegion { start: heap_start, size: heap_size },
                ]);
            }
        }
        r
    }

    /// Gives the region `[addr, addr + size)` back to the free list, merged
    /// with the free regions that touch it. Refused (`false`, nothing
    /// changes) where the region is misaligned, smaller than a header, wraps
    /// the address space or overlaps memory that is already free.
    pub fn add_free_region(&mut self, addr: usize, size: usize) -> (r: bool)
        requires
            old(self).wf(),
        ensures
            final(self).wf(),
            r == can_add(old(self)@, addr as int, size as int),
            r ==> final(self)@ == merged_insert(
                old(self)@,
                choose|i: int| insertion_point(old(self)@, addr as int, i),
                addr as int,
                size as int,
            ),
            r ==> free_set(final(self)@) == free_set(old(self)@).union(span(addr as int, addr + size)),
            !r ==> final(self)@ == old(self)@,
    {
        if addr % NODE_ALIGN != 0 || size < NODE_SIZE {
            return false;
        }
        let end = match addr.checked_add(size) {
            Some(e) => e,
            None => {
                return false;
            },
        };
        let ghost s = self@;
        let len = self.regions.len();
        let mut i: usize = 0;
        while i < len && self.regions[i].end_addr() <= addr
            invariant
                self@ == s,
                regions_wf(s),
                len == s.len(),
                0 <= i <= len,
                forall|j: int| 0 <= j < i ==> region_end(#[trigger] s[j]) <= addr,
            decreases len - i,
        {
            i = i + 1;
        }
        proof {
            assert forall|j: int| i <= j < s.len() implies region_end(#[trigger] s[j]) > addr by {
                if j > i {
                    assert(region_end(s[i as int]) < s[j].start);
                }
            }
            assert(insertion_point(s, addr as int, i as int));
        }
        if i < len && self.regions[i].start < end {
            proof {
                let x = if s[i as int].start < addr { addr as int } else { s[i as int].start as int };
                assert(s[i as int].start <= x < region_end(s[i as int]));
                assert(is_free(s, x));
            }
            return false;
        }
        proof {
            assert(disjoint_from(s, addr as int, end as int)) by {
                assert forall|x: int| addr <= x < end implies !is_free(s, x) by {
                    if is_free(s, x) {
                        let j = choose|j: int| 0 <= j < s.len() && s[j].start <= x < #[trigger] region_end(s[j]);
                        if j < i {
                        } else if j > i {
                            assert(region_end(s[i as int]) < s[j].start);
                        }
                    }
                }
            }
            lemma_merged_region(s, i as int, addr as int, size as int);
            lemma_merged_wf(s, i as int, addr as int, size as int);
            lemma_merged_free_set(s, i as int, addr as int, size as int);
            lemma_insertion_point_unique(s, addr as int, i as int);
        }
        let merge_prev = i > 0 && self.regions[i - 1].end_addr() == addr;
        let merge_next = i < len && self.regions[i].start == end;
        if merge_prev && merge_next {
            let next_end = self.regions[i].end_addr();
            let prev_start = self.regions[i - 1].start;
            self.regions.set(i - 1, FreeRegion { start: prev_start, size: next_end - prev_start });
            self.regions.remove(i);
        } else if merge_prev {
            let prev_start = self.regions[i - 1].start;
            self.regions.set(i - 1, FreeRegion { start: prev_start, size: end - prev_start });
        } else if merge_next {
            let next_end = self.regions[i].end_addr();
            self.regions.set(i, FreeRegion { start: addr, size: next_end - addr });
        } else {
            self.regions.insert(i, FreeRegion { start: addr, size });
        }
        proof {
            assert(self@ =~= merged_insert(s, i as int, addr as int, size as int));
        }
        true
    }

    /// Takes the first region that can hold `size` bytes aligned to `align`
    /// out of the free list; gives its start, its end and where the block
    /// goes in it.
    fn find_region(&mut self, size: usize, align: usize) -> (r: Option<(usize, usize, usize)>)
        requires
            old(self).wf(),
            align > 0,
        ensures
            final(self).wf(),
            r is None <==> no_fit(old(self)@, size as int, align as int),
            r is None ==> final(self)@ == old(self)@,
            r matches Some(t) ==> exists|j: int|
                first_fit(old(self)@, size as int, align as int, j) && final(self)@ == old(self)@.remove(j)
                    && t.0 == old(self)@[j].start && t.1 == region_end(old(self)@[j]) && placement(
                    old(self)@[j],
                    size as int,
                    align as int,
                ) == Some(t.2 as int),
    {
        let ghost s = self@;
        let len = self.regions.len();
        let mut i: usize = 0;
        while i < len
            invariant
                self@ == s,
                regions_wf(s),
                len == s.len(),
                0 <= i <= len,
                align > 0,
                old(self)@ == s,
                forall|k: int| 0 <= k < i ==> placement(#[trigger] s[k], size as int, align as int) is None,
            decreases len - i,
        {
            proof {
                assert(region_end(s[i as int]) <= usize::MAX);
            }
            let region = self.regions[i];
            if let Ok(alloc_start) = alloc_from_region(&region, size, align) {
                let start = region.start;
                let end = region.end_addr();
                self.regions.remove(i);
                proof {
                    assert(region == s[i as int]);
                    lemma_remove_free_set(s, i as int);
                    assert(first_fit(s, size as int, align as int, i as int));
                    assert(!no_fit(s, size as int, align as int));
                }
                return Some((start, end, alloc_start));
            }
            i = i + 1;
        }
        None
    }
}

/// The heap as the kernel installs it: the allocator together with the
/// adjustment of each request to the free-list granularity.
pub struct LockedHeap {
    allocator: LinkedListAllocator,
}

impl View for LockedHeap {
    type V = Seq<FreeRegion>;

    closed spec fn view(&self) -> Seq<FreeRegion> {
        self.allocator@
    }
}

impl LockedHeap {
    pub open spec fn wf(&self) -> bool {
        regions_wf(self@)
    }

    /// A heap with no memory.
    pub fn empty() -> (r: Self)
        ensures
            r.wf(),
            r@ == Seq::<FreeRegion>::empty(),
    {
        LockedHeap { allocator: LinkedListAllocator::new() }
    }

    /// The allocator behind the heap.
    pub fn allocator(&self) -> (r: &LinkedListAllocator)
        ensures
            r@ == self@,
    {
        &self.allocator
    }

    /// Hands the heap the region `[heap_start, heap_start + heap_size)`.
    pub fn init(&mut self, heap_start: usize, heap_size: usize) -> (r: bool)
        ensures
            final(self).wf(),
            r == (heap_start % 8 == 0 && heap_size >= NODE_SIZE && heap_start + heap_size <= usize::MAX),
            r ==> final(self)@ == seq![FreeRegion { start: heap_start, size: heap_size }],
            !r ==> final(self)@ == Seq::<FreeRegion>::empty(),
    {
        self.allocator.init(heap_start, heap_size)
    }

    /// Allocates `size` bytes aligned to `align`: the block is carved out of
    /// the first free region that holds it once the request is adjusted
    /// (see `size_align`), and what is left of that region on either side
    /// goes back to the free list. Gives 0 where no region holds it.
    pub fn allocate(&mut self, size: usize, align: usize) -> (r: usize)
        requires
            old(self).wf(),
            layout_ok(size as int, align as int),
        ensures
            final(self).wf(),
            no_fit(old(self)@, adjusted_size(size as int, align as int), adjusted_align(align as int)) ==> r == 0
                && final(self)@ == old(self)@,
            !no_fit(old(self)@, adjusted_size(size as int, align as int), adjusted_align(align as int))
                ==> exists|j: int|
                first_fit(
                    old(self)@,
                    adjusted_size(size as int, align as int),
                    adjusted_align(align as int),
                    j,
                ) && placement(
                    old(self)@[j],
                    adjusted_size(size as int, align as int),
                    adjusted_align(align as int),
                ) == Some(r as int) && free_set(final(self)@) == free_set(old(self)@).difference(
                    span(r as int, r + adjusted_size(size as int, align as int)),
                ),
            r % align == 0,
    {
        let (asize, aalign) = size_align(size, align);
        let ghost s = self@;
        match self.allocator.find_region(asize, aalign) {
            None => 0,
            Some((region_start, region_end_addr, alloc_start)) => {
                let ghost j = choose|j: int|
                    first_fit(s, asize as int, aalign as int, j) && self@ == s.remove(j) && region_start
                        == s[j].start && region_end_addr == region_end(s[j]) && placement(
                        s[j],
                        asize as int,
                        aalign as int,
                    ) == Some(alloc_start as int);
                let ghost t = self@;
                proof {
                    lemma_remove_free_set(s, j);
                    lemma_round_up(region_start as int, aalign as int);
                    lemma_pow2_at_least_8(aalign as int);
                    lemma_multiple_of_8(alloc_start as int, aalign as int);
                    lemma_divides_adjusted(alloc_start as int, align as int);
                }
                let alloc_end = alloc_start + asize;
                let prefix_size = alloc_start - region_start;
                let excess_size = region_end_addr - alloc_end;
                if prefix_size > 0 {
                    self.allocator.add_free_region(region_start, prefix_size);
                    proof {
                        assert(can_add(t, region_start as int, prefix_size as int)) by {
                            assert(s[j].start % 8 == 0);
                        }
                    }
                }
                let ghost u = self@;
                if excess_size > 0 {
                    self.allocator.add_free_region(alloc_end, excess_size);
                    proof {
                        assert(can_add(u, alloc_end as int, excess_size as int)) by {
                            assert((alloc_start + asize) % 8 == 0);
                            assert forall|x: int| alloc_end <= x < alloc_end + excess_size implies !is_free(u, x) by {
                                assert(!free_set(u).contains(x));
                            }
                        }
                    }
                }
                proof {
                    assert(free_set(self@) =~= free_set(s).difference(span(alloc_start as int, alloc_end as int))) by {
                        assert forall|x: int| region_start <= x < region_end_addr implies free_set(s).contains(x) by {
                            assert(s[j].start <= x < region_end(s[j]));
                        }
                    }
                }
                alloc_start
            },
        }
    }

    /// Gives back the block of `size` bytes at `ptr` that was allocated with
    /// alignment `align`; a block that is misaligned or overlaps free memory
    /// is ignored.
    pub fn deallocate(&mut self, ptr: usize, size: usize, align: usize)
        requires
            old(self).wf(),
            layout_ok(size as int, align as int),
        ensures
            final(self).wf(),
            can_add(old(self)@, ptr as int, adjusted_size(size as int, align as int)) ==> free_set(final(self)@)
                == free_set(old(self)@).union(span(ptr as int, ptr + adjusted_size(size as int, align as int))),
            !can_add(old(self)@, ptr as int, adjusted_size(size as int, align as int)) ==> final(self)@ == old(
                self,
            )@,
    {
        let (asize, _aalign) = size_align(size, align);
        let _ = self.allocator.add_free_region(ptr, asize);
    }
}

/// A block aligned to the adjusted alignment is aligned to the requested one.
proof fn lemma_divides_adjusted(x: int, align: int)
    requires
        is_pow2(align),
        x >= 0,
        x % adjusted_align(align) == 0,
    ensures
        x % align == 0,
{
    if align < 8 {
        lemma_pow2_small(align);
        vstd::arithmetic::div_mod::lemma_fundamental_div_mod(x, 8);
        let q = x / 8;
        if align == 2 {
            assert(x == (4 * q) * 2);
            vstd::arithmetic::div_mod::lemma_mod_multiples_basic(4 * q, 2);
        } else if align == 4 {
            assert(x == (2 * q) * 4);
            vstd::arithmetic::div_mod::lemma_mod_multiples_basic(2 * q, 4);
        }
    }
}

proof fn lemma_insertion_point_unique(s: Seq<FreeRegion>, addr: int, i: int)
    requires
        insertion_point(s, addr, i),
    ensures
        (choose|k: int| insertion_point(s, addr, k)) == i,
{
    let k = choose|k: int| insertion_point(s, addr, k);
    assert(insertion_point(s, addr, k));
    if k < i {
        assert(region_end(s[k]) > addr);
    } else if k > i {
        assert(region_end(s[i]) > addr);
    }
}

/// The longest free list a heap of `HEAP_SIZE` bytes can hold.
pub open spec fn max_nodes() -> int {
    HEAP_SIZE as int / NODE_SIZE as int + 1
}

/// Node `i` is aligned, can hold a header, ends inside the address space and
/// inside the heap `[start, start + HEAP_SIZE)`, and starts at or after the
/// end of the node before it.
pub open spec fn node_valid(s: Seq<FreeRegion>, start: int, i: int) -> bool {
    &&& region_end(s[i]) <= usize::MAX
    &&& s[i].start % 8 == 0
    &&& s[i].size >= NODE_SIZE
    &&& start <= s[i].start
    &&& region_end(s[i]) <= start + HEAP_SIZE
    &&& i > 0 ==> region_end(s[i - 1]) <= s[i].start
}

/// The heap at `start` holds the free list `s`, and a heap that was set up
/// has at least one free region.
pub open spec fn heap_valid(s: Seq<FreeRegion>, start: int, initialized: bool) -> bool {
    &&& start + HEAP_SIZE <= usize::MAX
    &&& s.len() <= max_nodes()
    &&& forall|i: int| 0 <= i < s.len() ==> #[trigger] node_valid(s, start, i)
    &&& !(initialized && s.len() == 0)
}

/// The first problem met when walking the free list from node `k`, whose
/// predecessor ends at `prev_end`.
pub open spec fn reason_from(s: Seq<FreeRegion>, start: int, initialized: bool, k: int, prev_end: int) -> Seq<
    char,
>
    decreases s.len() - k,
{
    if k >= s.len() || k < 0 {
        if initialized && s.len() == 0 {
            "free list empty after initialization"@
        } else {
            "valid"@
        }
    } else if k + 1 > max_nodes() {
        "free list too long or cyclic"@
    } else if region_end(s[k]) > usize::MAX {
        "free node range overflow"@
    } else if s[k].start % 8 != 0 {
        "free node misaligned"@
    } else if s[k].size < NODE_SIZE {
        "free node too small"@
    } else if s[k].start < start || region_end(s[k]) > start + HEAP_SIZE {
        "free node outside heap"@
    } else if s[k].start < prev_end {
        "free nodes overlap or are unsorted"@
    } else {
        reason_from(s, start, initialized, k + 1, region_end(s[k]))
    }
}

/// Why the heap at `start` is not valid, or `"valid"`.
pub open spec fn heap_reason(allocator: Option<LinkedListAllocator>, start: int, initialized: bool) -> Seq<char> {
    match allocator {
        None => "allocator lock held"@,
        Some(a) => if start + HEAP_SIZE > usize::MAX {
            "heap range overflow"@
        } else {
            reason_from(a@, start, initialized, 0, start)
        },
    }
}

/// Checks the free list of the heap that starts at `start`; `None` stands
/// for an allocator whose lock is held elsewhere.
pub fn validate(allocator: Option<&LinkedListAllocator>, start: usize, initialized: bool) -> (r: bool)
    ensures
        r == (allocator matches Some(a) && heap_valid(a@, start as int, initialized)),
{
    let a = match allocator {
        Some(a) => a,
        None => {
            return false;
        },
    };
    let end = match start.checked_add(HEAP_SIZE) {
        Some(e) => e,
        None => {
            return false;
        },
    };
    let ghost s = a@;
    let regions = a.regions();
    let len = regions.len();
    let mut previous_end = start;
    let mut count: usize = 0;
    while count < len
        invariant
            regions@ == s,
            a@ == s,
            allocator == Some(a),
            len == s.len(),
            end == start + HEAP_SIZE,
            0 <= count <= len,
            count <= max_nodes(),
            count == 0 ==> previous_end == start,
            count > 0 ==> previous_end == region_end(s[count - 1]),
            forall|i: int| 0 <= i < count ==> #[trigger] node_valid(s, start as int, i),
        decreases len - count,
    {
        if count + 1 > HEAP_SIZE / NODE_SIZE + 1 {
            return false;
        }
        let node = regions[count];
        let node_end = match node.start.checked_add(node.size) {
            Some(e) => e,
            None => {
                proof {
                    assert(!node_valid(s, start as int, count as int));
                }
                return false;
            },
        };
        if node.start % NODE_ALIGN != 0 || node.size < NODE_SIZE || node.start < start || node_end > end
            || node.start < previous_end {
            proof {
                assert(!node_valid(s, start as int, count as int));
            }
            return false;
        }
        previous_end = node_end;
        count = count + 1;
    }
    if initialized && count == 0 {
        return false;
    }
    true
}

/// The first problem with the free list of the heap at `start`, or
/// `"valid"`.
pub fn validate_reason(allocator: Option<&LinkedListAllocator>, start: usize, initialized: bool) -> (r: &'static str)
    ensures
        r@ == heap_reason(
            match allocator {
                Some(a) => Some(*a),
                None => None,
            },
            start as int,
            initialized,
        ),
{
    let a = match allocator {
        Some(a) => a,
        None => {
            return "allocator lock held";
        },
    };
    let end = match start.checked_add(HEAP_SIZE) {
        Some(e) => e,
        None => {
            return "heap range overflow";
        },
    };
    let ghost s = a@;
    let regions = a.regions();
    let len = regions.len();
    let mut previous_end = start;
    let mut count: usize = 0;
    while count < len
        invariant
            regions@ == s,
            a@ == s,
            allocator == Some(a),
            len == s.len(),
            end == start + HEAP_SIZE,
            0 <= count <= len,
            reason_from(s, start as int, initialized, count as int, previous_end as int) == reason_from(
                s,
                start as int,
                initialized,
                0,
                start as int,
            ),
        decreases len - count,
    {
        if count + 1 > HEAP_SIZE / NODE_SIZE + 1 {
            return "free list too long or cyclic";
        }
        let node = regions[count];
        let node_end = match node.start.checked_add(node.size) {
            Some(e) => e,
            None => {
                return "free node range overflow";
            },
        };
        if node.start % NODE_ALIGN != 0 {
            return "free node misaligned";
        }
        if node.size < NODE_SIZE {
            return "free node too small";
        }
        if node.start < start || node_end > end {
            return "free node outside heap";
        }
        if node.start < previous_end {
            return "free nodes overlap or are unsorted";
        }
        previous_end = node_end;
        count = count + 1;
    }
    if initialized && count == 0 {
        return "free list empty after initialization";
    }
    "valid"
}

proof fn lemma_messages_not_valid()
    ensures
        "free list empty after initialization"@ != "valid"@,
        "free list too long or cyclic"@ != "valid"@,
        "free node range overflow"@ != "valid"@,
        "free node misaligned"@ != "valid"@,
        "free node too small"@ != "valid"@,
        "free node outside heap"@ != "valid"@,
        "free nodes overlap or are unsorted"@ != "valid"@,
        "allocator lock held"@ != "valid"@,
        "heap range overflow"@ != "valid"@,
{
    reveal_strlit("valid");
    reveal_strlit("free list empty after initialization");
    reveal_strlit("free list too long or cyclic");
    reveal_strlit("free node range overflow");
    reveal_strlit("free node misaligned");
    reveal_strlit("free node too small");
    reveal_strlit("free node outside heap");
    reveal_strlit("free nodes overlap or are unsorted");
    reveal_strlit("allocator lock held");
    reveal_strlit("heap range overflow");
    assert("valid"@.len() == 5);
    assert("free list empty after initialization"@.len() == 36);
    assert("free list too long or cyclic"@.len() == 28);
    assert("free node range overflow"@.len() == 24);
    assert("free node misaligned"@.len() == 20);
    assert("free node too small"@.len() == 19);
    assert("free node outside heap"@.len() == 22);
    assert("free nodes overlap or are unsorted"@.len() == 34);
    assert("allocator lock held"@.len() == 19);
    assert("heap range overflow"@.len() == 19);
}

proof fn lemma_reason_from_valid(s: Seq<FreeRegion>, start: int, initialized: bool, k: int, prev_end: int)
    requires
        0 <= k <= s.len(),
        k <= max_nodes(),
        prev_end == (if k == 0 { start } else { region_end(s[k - 1]) }),
    ensures
        (reason_from(s, start, initialized, k, prev_end) == "valid"@) <==> (s.len() <= max_nodes() && (
        forall|i: int| k <= i < s.len() ==> #[trigger] node_valid(s, start, i)) && !(initialized && s.len()
            == 0)),
    decreases s.len() - k,
{
    lemma_messages_not_valid();
    if k < s.len() {
        if k + 1 > max_nodes() {
            assert(reason_from(s, start, initialized, k, prev_end) != "valid"@);
        } else if !node_valid(s, start, k) {
            assert(reason_from(s, start, initialized, k, prev_end) != "valid"@);
            assert(!(forall|i: int| k <= i < s.len() ==> #[trigger] node_valid(s, start, i)));
        } else {
            lemma_reason_from_valid(s, start, initialized, k + 1, region_end(s[k]));
            assert(reason_from(s, start, initialized, k, prev_end) == reason_from(s, start, initialized, k + 1, region_end(s[k])));
            assert((forall|i: int| k <= i < s.len() ==> #[trigger] node_valid(s, start, i)) <==> (forall|i: int|
                k + 1 <= i < s.len() ==> #[trigger] node_valid(s, start, i))) by {
                if forall|i: int| k + 1 <= i < s.len() ==> #[trigger] node_valid(s, start, i) {
                    assert forall|i: int| k <= i < s.len() implies #[trigger] node_valid(s, start, i) by {
                        if i == k {
                        }
                    }
                }
            }
        }
    } else {
        assert(reason_from(s, start, initialized, k, prev_end) == (if initialized && s.len() == 0 {
            "free list empty after initialization"@
        } else {
            "valid"@
        }));
    }
}

/// The heap check passes exactly when the first problem it reports is
/// `"valid"`.
pub proof fn law_validate_agrees_with_reason(allocator: Option<LinkedListAllocator>, start: usize, initialized: bool)
    ensures
        (allocator matches Some(a) && heap_valid(a@, start as int, initialized)) <==> heap_reason(
            allocator,
            start as int,
            initialized,
        ) == "valid"@,
{
    lemma_messages_not_valid();
    if let Some(a) = allocator {
        if start + HEAP_SIZE <= usize::MAX {
            lemma_reason_from_valid(a@, start as int, initialized, 0, start as int);
        }
    }
}

/// Two well-formed free lists that free the same addresses are the same
/// list: the merged form is unique.
pub proof fn law_free_list_determined_by_free_set(s: Seq<FreeRegion>, t: Seq<FreeRegion>)
    requires
        regions_wf(s),
        regions_wf(t),
        free_set(s) == free_set(t),
    ensures
        s == t,
    decreases s.len(),
{
    if s.len() == 0 || t.len() == 0 {
        if s.len() > 0 {
            assert(free_set(s).contains(s[0].start as int));
        }
        if t.len() > 0 {
            assert(free_set(t).contains(t[0].start as int));
        }
        assert(s =~= t);
    } else {
        let a = s[0];
        let b = t[0];
        assert(free_set(s).contains(a.start as int));
        assert(free_set(t).contains(b.start as int));
        assert(a.start == b.start) by {
            if b.start < a.start {
                let m = choose|m: int| 0 <= m < s.len() && s[m].start <= b.start < #[trigger] region_end(s[m]);
                if m > 0 {
                    assert(region_end(s[0]) < s[m].start);
                }
            } else if a.start < b.start {
                let m = choose|m: int| 0 <= m < t.len() && t[m].start <= a.start < #[trigger] region_end(t[m]);
                if m > 0 {
                    assert(region_end(t[0]) < t[m].start);
                }
            }
        }
        assert(region_end(a) == region_end(b)) by {
            if region_end(a) < region_end(b) {
                let x = region_end(a);
                assert(free_set(t).contains(x));
                let m = choose|m: int| 0 <= m < s.len() && s[m].start <= x < #[trigger] region_end(s[m]);
                if m > 0 {
                    assert(region_end(s[0]) < s[m].start);
                }
            } else if region_end(b) < region_end(a) {
                let x = region_end(b);
                assert(free_set(s).contains(x));
                let m = choose|m: int| 0 <= m < t.len() && t[m].start <= x < #[trigger] region_end(t[m]);
                if m > 0 {
                    assert(region_end(t[0]) < t[m].start);
                }
            }
        }
        assert(a == b);
        lemma_remove_free_set(s, 0);
        lemma_remove_free_set(t, 0);
        law_free_list_determined_by_free_set(s.remove(0), t.remove(0));
        assert(s =~= seq![a] + s.remove(0));
        assert(t =~= seq![b] + t.remove(0));
    }
}

/// Giving back a block that `allocate` just handed out is accepted, and
/// frees exactly the addresses that were free before the allocation.
pub proof fn law_deallocate_undoes_allocate(
    before: Seq<FreeRegion>,
    after: Seq<FreeRegion>,
    size: usize,
    align: usize,
    j: int,
    ptr: usize,
)
    requires
        regions_wf(before),
        layout_ok(size as int, align as int),
        first_fit(before, adjusted_size(size as int, align as int), adjusted_align(align as int), j),
        placement(before[j], adjusted_size(size as int, align as int), adjusted_align(align as int)) == Some(
            ptr as int,
        ),
        free_set(after) == free_set(before).difference(
            span(ptr as int, ptr + adjusted_size(size as int, align as int)),
        ),
    ensures
        can_add(after, ptr as int, adjusted_size(size as int, align as int)),
        free_set(after).union(span(ptr as int, ptr + adjusted_size(size as int, align as int))) == free_set(
            before,
        ),
{
    let asize = adjusted_size(size as int, align as int);
    let aalign = adjusted_align(align as int);
    let r = before[j];
    assert(region_end(r) <= usize::MAX && r.start % 8 == 0);
    lemma_round_up(r.start as int, aalign);
    assert(is_pow2(aalign)) by {
        if align < 8 {
            reveal_with_fuel(is_pow2, 4);
        }
    }
    lemma_pow2_at_least_8(aalign);
    lemma_round_up(size as int, aalign);
    lemma_multiple_of_8(ptr as int, aalign);
    assert(asize % 8 == 0) by {
        lemma_multiple_of_8(round_up(size as int, aalign), aalign);
    }
    assert forall|x: int| ptr <= x < ptr + asize implies !is_free(after, x) by {
        assert(!free_set(after).contains(x));
    }
    assert forall|x: int| ptr <= x < ptr + asize implies free_set(before).contains(x) by {
        assert(r.start <= x < region_end(r));
    }
    assert(free_set(after).union(span(ptr as int, ptr + asize)) =~= free_set(before));
}

/// Allocating a block and giving it straight back leaves the free list as it
/// was.
pub proof fn law_allocate_deallocate_round_trip(
    before: Seq<FreeRegion>,
    after: Seq<FreeRegion>,
    restored: Seq<FreeRegion>,
    size: usize,
    align: usize,
    j: int,
    ptr: usize,
)
    requires
        regions_wf(before),
        regions_wf(after),
        regions_wf(restored),
        layout_ok(size as int, align as int),
        first_fit(before, adjusted_size(size as int, align as int), adjusted_align(align as int), j),
        placement(before[j], adjusted_size(size as int, align as int), adjusted_align(align as int)) == Some(
            ptr as int,
        ),
        free_set(after) == free_set(before).difference(
            span(ptr as int, ptr + adjusted_size(size as int, align as int)),
        ),
        free_set(restored) == free_set(after).union(
            span(ptr as int, ptr + adjusted_size(size as int, align as int)),
        ),
    ensures
        restored == before,
{
    law_deallocate_undoes_allocate(before, after, size, align, j, ptr);
    law_free_list_determined_by_free_set(restored, before);
}

/// Where the free list addresses the heap storage whose load address is
/// `phys`: the direct-map alias once paging is active, `phys` before.
pub fn heap_virt_start(phys: u64, paging_active: bool) -> (r: usize)
    requires
        paging_active ==> KERNEL_VIRT_BASE + phys <= u64::MAX,
    ensures
        r == (if paging_active {
            (KERNEL_VIRT_BASE + phys) as usize
        } else {
            phys as usize
        }),
{
    if paging_active {
        (KERNEL_VIRT_BASE + phys) as usize
    } else {
        phys as usize
    }
}

/// The base address of the heap as the allocator uses it.
pub fn heap_start(phys: u64, paging_active: bool) -> (r: usize)
    requires
        paging_active ==> KERNEL_VIRT_BASE + phys <= u64::MAX,
    ensures
        r == (if paging_active {
            (KERNEL_VIRT_BASE + phys) as usize
        } else {
            phys as usize
        }),
{
    heap_virt_start(phys, paging_active)
}

/// The base address of the heap as the shell shows it.
pub fn heap_start_display(phys: u64, paging_active: bool) -> (r: usize)
    requires
        paging_active ==> KERNEL_VIRT_BASE + phys <= u64::MAX,
    ensures
        r == (if paging_active {
            (KERNEL_VIRT_BASE + phys) as usize
        } else {
            phys as usize
        }),
{
    heap_start(phys, paging_active)
}

impl Default for LinkedListAllocator {
    fn default() -> (r: Self)
        ensures
            r.wf(),
            r@ == Seq::<FreeRegion>::empty(),
    {
        Self::new()
    }
}

/// Hands the heap its storage `[heap_start, heap_start + HEAP_SIZE)` and
/// checks the outcome: whether the heap took the storage, and the problem
/// to report where it did not or its free list is not sound afterwards.
pub fn init_heap(heap: &mut LockedHeap, heap_start: usize) -> (r: (bool, Option<&'static str>))
    ensures
        final(heap).wf(),
        r.0 == (heap_start % 8 == 0 && HEAP_SIZE >= NODE_SIZE && heap_start + HEAP_SIZE <= usize::MAX),
        r.0 ==> final(heap)@ == seq![FreeRegion { start: heap_start, size: HEAP_SIZE }],
        !r.0 ==> final(heap)@ == Seq::<FreeRegion>::empty(),
        (r.1 is None) == (r.0 && heap_valid(final(heap)@, heap_start as int, true)),
        r.1 matches Some(reason) ==> reason@ == (if heap_start + HEAP_SIZE > usize::MAX {
            "heap range overflow"@
        } else {
            reason_from(final(heap)@, heap_start as int, r.0, 0, heap_start as int)
        }),
{
    let initialized = heap.init(heap_start, HEAP_SIZE);
    if !initialized || !validate(Some(heap.allocator()), heap_start, initialized) {
        return (initialized, Some(validate_reason(Some(heap.allocator()), heap_start, initialized)));
    }
    (initialized, None)
}

} // verus!
