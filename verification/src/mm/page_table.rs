//! Four-level x86-64 page tables held in page-table frames, and the user
//! half of an address space built on them.
use vstd::prelude::*;
use std::collections::HashMap;
use crate::mm::frame::{Allocator, PhysAddr, PhysFrame, VirtAddr, MAX_RESERVED, PAGE_SIZE};
use crate::mm::heap::HEAP_SIZE;
use crate::mm::mapping_model::{GIGABYTE, TWO_MIB, MappingChunk, planned_chunks, leaf_for, virtual_for};
use crate::boot::boot_info::PhysicalMemoryKind;
use crate::mm::paging::{
    lemma_user_entry_bits, AddressSpaceError, UserPageFlags, ADDRESS_MASK, HUGE, KERNEL_VIRT_BASE, PRESENT, WRITABLE,
};

verus! {

broadcast use vstd::std_specs::hash::group_hash_axioms;

/// Entries in one page table.
pub const ENTRIES: usize = 512;

/// The first entry of the kernel (upper) half of a PML4.
pub const KERNEL_HALF: usize = 256;

/// Page-table frames are taken below 4 GiB.
pub const TABLE_MEMORY_LIMIT: u64 = 0x1_0000_0000;

/// Frames tried for one page table before giving up.
pub const TABLE_ALLOC_ATTEMPTS: u32 = 100;

pub open spec fn present(e: u64) -> bool {
    e & PRESENT != 0
}

pub open spec fn huge(e: u64) -> bool {
    e & HUGE != 0
}

/// The frame an entry points at.
pub open spec fn entry_addr(e: u64) -> u64 {
    e & ADDRESS_MASK
}

pub open spec fn zero_table() -> Seq<u64> {
    Seq::new(ENTRIES as nat, |i: int| 0u64)
}

/// The page tables of the machine, by the frame that holds each.
pub struct PageTableMemory {
    tables: HashMap<u64, Vec<u64>>,
}

impl View for PageTableMemory {
    type V = Map<u64, Seq<u64>>;

    closed spec fn view(&self) -> Map<u64, Seq<u64>> {
        self.tables@.map_values(|t: Vec<u64>| t@)
    }
}

impl PageTableMemory {
    /// Every table has 512 entries.
    pub open spec fn wf(&self) -> bool {
        forall|f: u64| #[trigger] self@.contains_key(f) ==> self@[f].len() == ENTRIES
    }

    /// No page tables.
    pub fn new() -> (r: Self)
        ensures
            r.wf(),
            r@ == Map::<u64, Seq<u64>>::empty(),
    {
        let r = PageTableMemory { tables: HashMap::new() };
        proof {
            assert(r@ =~= Map::<u64, Seq<u64>>::empty());
        }
        r
    }

    /// A page table is held in `frame`.
    pub fn contains(&self, frame: u64) -> (r: bool)
        ensures
            r == self@.contains_key(frame),
    {
        self.tables.contains_key(&frame)
    }

    /// Entry `index` of the table in `frame`.
    pub fn read(&self, frame: u64, index: usize) -> (r: u64)
        requires
            self@.contains_key(frame),
            index < self@[frame].len(),
        ensures
            r == self@[frame][index as int],
    {
        match self.tables.get(&frame) {
            Some(t) => t[index],
            None => 0,
        }
    }

    /// Sets entry `index` of the table in `frame`.
    pub fn write(&mut self, frame: u64, index: usize, value: u64)
        requires
            old(self).wf(),
            old(self)@.contains_key(frame),
            index < old(self)@[frame].len(),
        ensures
            final(self).wf(),
            final(self)@ == old(self)@.insert(frame, old(self)@[frame].update(index as int, value)),
    {
        let ghost before = self@;
        match self.tables.remove(&frame) {
            Some(mut t) => {
                t.set(index, value);
                self.tables.insert(frame, t);
                proof {
                    assert(self@ =~= before.insert(frame, before[frame].update(index as int, value)));
                }
            },
            None => {},
        }
    }

    /// Puts an all-zero table in `frame`.
    pub fn insert_zeroed(&mut self, frame: u64)
        requires
            old(self).wf(),
        ensures
            final(self).wf(),
            final(self)@ == old(self)@.insert(frame, zero_table()),
    {
        let t = vec![0u64; ENTRIES];
        let ghost before = self@;
        self.tables.insert(frame, t);
        proof {
            assert(t@ =~= zero_table());
            assert(self@ =~= before.insert(frame, zero_table()));
        }
    }

    /// Forgets the table in `frame`.
    pub fn remove(&mut self, frame: u64)
        requires
            old(self).wf(),
        ensures
            final(self).wf(),
            final(self)@ == old(self)@.remove(frame),
    {
        let ghost before = self@;
        self.tables.remove(&frame);
        proof {
            assert(self@ =~= before.remove(frame));
        }
    }
}

/// The slot of `va` in its PML4, PDPT, PD and PT.
pub open spec fn pml4_slot(va: u64) -> int {
    (va / 0x80_0000_0000) as int % 512
}

pub open spec fn pdpt_slot(va: u64) -> int {
    (va / 0x4000_0000) as int % 512
}

pub open spec fn pd_slot(va: u64) -> int {
    (va / 0x20_0000) as int % 512
}

pub open spec fn pt_slot(va: u64) -> int {
    (va / 0x1000) as int % 512
}

/// The four table slots of `va`, in walk order.
fn slots(va: u64) -> (r: (usize, usize, usize, usize))
    ensures
        r.0 == pml4_slot(va),
        r.1 == pdpt_slot(va),
        r.2 == pd_slot(va),
        r.3 == pt_slot(va),
{
    proof {
        assert((va >> 39u64) & 0x1ff == (va / 0x80_0000_0000) % 512) by (bit_vector);
        assert((va >> 30u64) & 0x1ff == (va / 0x4000_0000) % 512) by (bit_vector);
        assert((va >> 21u64) & 0x1ff == (va / 0x20_0000) % 512) by (bit_vector);
        assert((va >> 12u64) & 0x1ff == (va / 0x1000) % 512) by (bit_vector);
    }
    (((va >> 39) & 0x1ff) as usize, ((va >> 30) & 0x1ff) as usize, ((va >> 21) & 0x1ff) as usize, ((va >> 12)
        & 0x1ff) as usize)
}

/// Why a user address is refused, if it is.
pub open spec fn user_address_error(va: u64) -> Option<AddressSpaceError> {
    if va % 0x1000 != 0 {
        Some(AddressSpaceError::Unaligned)
    } else if va >= 0x8000_0000_0000 {
        if va >= KERNEL_VIRT_BASE {
            Some(AddressSpaceError::KernelAddress)
        } else {
            Some(AddressSpaceError::Noncanonical)
        }
    } else {
        None
    }
}

/// The table an upper-level entry leads to.
pub open spec fn next_table(e: u64) -> Result<u64, AddressSpaceError> {
    if !present(e) {
        Err(AddressSpaceError::NotMapped)
    } else if huge(e) {
        Err(AddressSpaceError::HugePage)
    } else {
        Ok(entry_addr(e))
    }
}

/// The leaf entry of user address `va` under the PML4 in `root`.
pub open spec fn lookup(m: Map<u64, Seq<u64>>, root: u64, va: u64) -> Result<u64, AddressSpaceError> {
    match user_address_error(va) {
        Some(e) => Err(e),
        None => match next_table(m[root][pml4_slot(va)]) {
            Err(e) => Err(e),
            Ok(pdpt) => match next_table(m[pdpt][pdpt_slot(va)]) {
                Err(e) => Err(e),
                Ok(pd) => match next_table(m[pd][pd_slot(va)]) {
                    Err(e) => Err(e),
                    Ok(pt) => {
                        let e = m[pt][pt_slot(va)];
                        if !present(e) {
                            Err(AddressSpaceError::NotMapped)
                        } else {
                            Ok(e)
                        }
                    },
                },
            },
        },
    }
}

/// The walk to user address `va` under `root` reaches a last-level table,
/// so mapping `va` needs no new table.
pub open spec fn leaf_table_present(m: Map<u64, Seq<u64>>, root: u64, va: u64) -> bool {
    match next_table(m[root][pml4_slot(va)]) {
        Ok(pdpt) => match next_table(m[pdpt][pdpt_slot(va)]) {
            Ok(pd) => next_table(m[pd][pd_slot(va)]) is Ok,
            Err(_) => false,
        },
        Err(_) => false,
    }
}

/// An upper-level entry is empty or links a table of `next`.
pub open spec fn link_ok(e: u64, next: Set<u64>) -> bool {
    e == 0 || (present(e) && !huge(e) && next.contains(entry_addr(e)))
}

/// The user half under `root` is a layered tree: the PML4's lower entries
/// lead to tables of `l3`, whose entries lead to tables of `l2`, whose
/// entries lead to tables of `l1`; the four layers are disjoint and held in
/// memory, and none of them maps a huge page.
pub open spec fn layered(m: Map<u64, Seq<u64>>, root: u64, l3: Set<u64>, l2: Set<u64>, l1: Set<u64>) -> bool {
    &&& forall|f: u64| #[trigger] m.contains_key(f) ==> m[f].len() == ENTRIES
    &&& m.contains_key(root)
    &&& forall|f: u64| #[trigger] l3.contains(f) ==> m.contains_key(f) && f != root && !l2.contains(f) && !l1.contains(f)
    &&& forall|f: u64| #[trigger] l2.contains(f) ==> m.contains_key(f) && f != root && !l1.contains(f)
    &&& forall|f: u64| #[trigger] l1.contains(f) ==> m.contains_key(f) && f != root
    &&& forall|i: int| 0 <= i < KERNEL_HALF ==> link_ok(#[trigger] m[root][i], l3)
    &&& forall|t: u64, i: int| l3.contains(t) && 0 <= i < ENTRIES ==> link_ok(#[trigger] m[t][i], l2)
    &&& forall|t: u64, i: int| l2.contains(t) && 0 <= i < ENTRIES ==> link_ok(#[trigger] m[t][i], l1)
}

proof fn lemma_present_nonzero(e: u64)
    ensures
        present(e) ==> e != 0,
        e == 0 ==> !present(e) && !huge(e),
{
    assert((e & 1 != 0 ==> e != 0) && (e == 0 ==> e & 1 == 0 && e & 0x80 == 0)) by (bit_vector);
}

/// The entry that links the table in frame `f`.
pub open spec fn link(f: u64) -> u64 {
    f | PRESENT | WRITABLE
}

proof fn lemma_link(f: u64)
    requires
        f % 0x1000 == 0,
        f < 0x10_0000_0000_0000,
    ensures
        present(link(f)),
        !huge(link(f)),
        entry_addr(link(f)) == f,
        link(f) != 0,
{
    assert((f | 1u64 | 2u64) & 1 != 0 && f | 1u64 | 2u64 != 0 && (f | 1u64 | 2u64) & 0x80 == 0 && (f | 1u64 | 2u64)
        & 0x000f_ffff_ffff_f000 == f) by (bit_vector)
        requires
            f % 0x1000 == 0,
            f < 0x10_0000_0000_0000,
    ;
}

/// A fresh all-zero table keeps the layers as they are.
proof fn lemma_fresh_table(m: Map<u64, Seq<u64>>, root: u64, l3: Set<u64>, l2: Set<u64>, l1: Set<u64>, f: u64)
    requires
        layered(m, root, l3, l2, l1),
        !m.contains_key(f),
    ensures
        layered(m.insert(f, zero_table()), root, l3, l2, l1),
{
    let m2 = m.insert(f, zero_table());
    assert forall|t: u64, i: int| l3.contains(t) && 0 <= i < ENTRIES implies link_ok(#[trigger] m2[t][i], l2) by {
        assert(m2[t] == m[t]);
    }
    assert forall|t: u64, i: int| l2.contains(t) && 0 <= i < ENTRIES implies link_ok(#[trigger] m2[t][i], l1) by {
        assert(m2[t] == m[t]);
    }
    assert forall|i: int| 0 <= i < KERNEL_HALF implies link_ok(#[trigger] m2[root][i], l3) by {
        assert(m2[root] == m[root]);
    }
}

/// Linking a fresh zero table `f` from an empty slot of the PML4's lower
/// half adds it to the first layer.
proof fn lemma_link_root(m: Map<u64, Seq<u64>>, root: u64, l3: Set<u64>, l2: Set<u64>, l1: Set<u64>, i: int, f: u64)
    requires
        layered(m, root, l3, l2, l1),
        0 <= i < KERNEL_HALF,
        m[root][i] == 0,
        m.contains_key(f),
        m[f] == zero_table(),
        f != root,
        !l3.contains(f) && !l2.contains(f) && !l1.contains(f),
        f % 0x1000 == 0,
        f < 0x1_0000_0000,
    ensures
        layered(m.insert(root, m[root].update(i, link(f))), root, l3.insert(f), l2, l1),
{
    lemma_link(f);
    let m2 = m.insert(root, m[root].update(i, link(f)));
    let n3 = l3.insert(f);
    assert forall|j: int| 0 <= j < KERNEL_HALF implies link_ok(#[trigger] m2[root][j], n3) by {
        if j != i {
            assert(link_ok(m[root][j], l3));
        }
    }
    assert forall|t: u64, j: int| n3.contains(t) && 0 <= j < ENTRIES implies link_ok(#[trigger] m2[t][j], l2) by {
        if t == f {
            assert(m2[t][j] == 0);
        } else {
            assert(m2[t] == m[t]);
        }
    }
    assert forall|t: u64, j: int| l2.contains(t) && 0 <= j < ENTRIES implies link_ok(#[trigger] m2[t][j], l1) by {
        assert(m2[t] == m[t]);
    }
}

/// Linking a fresh zero table `f` from an empty slot of a first-layer table
/// adds it to the second layer.
proof fn lemma_link_l3(
    m: Map<u64, Seq<u64>>,
    root: u64,
    l3: Set<u64>,
    l2: Set<u64>,
    l1: Set<u64>,
    t: u64,
    i: int,
    f: u64,
)
    requires
        layered(m, root, l3, l2, l1),
        l3.contains(t),
        0 <= i < ENTRIES,
        m[t][i] == 0,
        m.contains_key(f),
        m[f] == zero_table(),
        f != root,
        !l3.contains(f) && !l2.contains(f) && !l1.contains(f),
        f % 0x1000 == 0,
        f < 0x1_0000_0000,
    ensures
        layered(m.insert(t, m[t].update(i, link(f))), root, l3, l2.insert(f), l1),
{
    lemma_link(f);
    let m2 = m.insert(t, m[t].update(i, link(f)));
    let n2 = l2.insert(f);
    assert forall|j: int| 0 <= j < KERNEL_HALF implies link_ok(#[trigger] m2[root][j], l3) by {
        assert(m2[root] == m[root]);
    }
    assert forall|u: u64, j: int| l3.contains(u) && 0 <= j < ENTRIES implies link_ok(#[trigger] m2[u][j], n2) by {
        if u == t {
            if j != i {
                assert(link_ok(m[t][j], l2));
            }
        } else {
            assert(m2[u] == m[u]);
            assert(link_ok(m[u][j], l2));
        }
    }
    assert forall|u: u64, j: int| n2.contains(u) && 0 <= j < ENTRIES implies link_ok(#[trigger] m2[u][j], l1) by {
        if u == f {
            assert(m2[u][j] == 0);
        } else {
            assert(m2[u] == m[u]);
        }
    }
}

/// Linking a fresh zero table `f` from an empty slot of a second-layer
/// table adds it to the third layer.
proof fn lemma_link_l2(
    m: Map<u64, Seq<u64>>,
    root: u64,
    l3: Set<u64>,
    l2: Set<u64>,
    l1: Set<u64>,
    t: u64,
    i: int,
    f: u64,
)
    requires
        layered(m, root, l3, l2, l1),
        l2.contains(t),
        0 <= i < ENTRIES,
        m[t][i] == 0,
        m.contains_key(f),
        m[f] == zero_table(),
        f != root,
        !l3.contains(f) && !l2.contains(f) && !l1.contains(f),
        f % 0x1000 == 0,
        f < 0x1_0000_0000,
    ensures
        layered(m.insert(t, m[t].update(i, link(f))), root, l3, l2, l1.insert(f)),
{
    lemma_link(f);
    let m2 = m.insert(t, m[t].update(i, link(f)));
    let n1 = l1.insert(f);
    assert forall|j: int| 0 <= j < KERNEL_HALF implies link_ok(#[trigger] m2[root][j], l3) by {
        assert(m2[root] == m[root]);
    }
    assert forall|u: u64, j: int| l3.contains(u) && 0 <= j < ENTRIES implies link_ok(#[trigger] m2[u][j], l2) by {
        assert(m2[u] == m[u]);
    }
    assert forall|u: u64, j: int| l2.contains(u) && 0 <= j < ENTRIES implies link_ok(#[trigger] m2[u][j], n1) by {
        if u == t {
            if j != i {
                assert(link_ok(m[t][j], l1));
            }
        } else {
            assert(m2[u] == m[u]);
            assert(link_ok(m[u][j], l1));
        }
    }
}

/// Any write into a third-layer table keeps the layers.
proof fn lemma_leaf_write(
    m: Map<u64, Seq<u64>>,
    root: u64,
    l3: Set<u64>,
    l2: Set<u64>,
    l1: Set<u64>,
    t: u64,
    i: int,
    v: u64,
)
    requires
        layered(m, root, l3, l2, l1),
        l1.contains(t),
        0 <= i < ENTRIES,
    ensures
        layered(m.insert(t, m[t].update(i, v)), root, l3, l2, l1),
{
    let m2 = m.insert(t, m[t].update(i, v));
    assert forall|j: int| 0 <= j < KERNEL_HALF implies link_ok(#[trigger] m2[root][j], l3) by {
        assert(m2[root] == m[root]);
    }
    assert forall|u: u64, j: int| l3.contains(u) && 0 <= j < ENTRIES implies link_ok(#[trigger] m2[u][j], l2) by {
        assert(m2[u] == m[u]);
    }
    assert forall|u: u64, j: int| l2.contains(u) && 0 <= j < ENTRIES implies link_ok(#[trigger] m2[u][j], l1) by {
        assert(m2[u] == m[u]);
    }
}

/// No two filled slots of the PML4's user half, of first-layer tables or of
/// second-layer tables link the same table: each table has one parent.
pub open spec fn tree_links(m: Map<u64, Seq<u64>>, root: u64, l3: Set<u64>, l2: Set<u64>) -> bool {
    &&& forall|i: int, j: int|
        0 <= i < KERNEL_HALF && 0 <= j < KERNEL_HALF && #[trigger] m[root][i] != 0 && #[trigger] m[root][j] != 0
            && entry_addr(m[root][i]) == entry_addr(m[root][j]) ==> i == j
    &&& forall|t: u64, i: int, u: u64, j: int|
        l3.contains(t) && l3.contains(u) && 0 <= i < ENTRIES && 0 <= j < ENTRIES && #[trigger] m[t][i] != 0
            && #[trigger] m[u][j] != 0 && entry_addr(m[t][i]) == entry_addr(m[u][j]) ==> t == u && i == j
    &&& forall|t: u64, i: int, u: u64, j: int|
        l2.contains(t) && l2.contains(u) && 0 <= i < ENTRIES && 0 <= j < ENTRIES && #[trigger] m[t][i] != 0
            && #[trigger] m[u][j] != 0 && entry_addr(m[t][i]) == entry_addr(m[u][j]) ==> t == u && i == j
}

/// A fresh table changes no link.
proof fn lemma_tree_fresh(m: Map<u64, Seq<u64>>, root: u64, l3: Set<u64>, l2: Set<u64>, l1: Set<u64>, f: u64)
    requires
        layered(m, root, l3, l2, l1),
        tree_links(m, root, l3, l2),
        !m.contains_key(f),
    ensures
        tree_links(m.insert(f, zero_table()), root, l3, l2),
{
    let m2 = m.insert(f, zero_table());
    assert(m2[root] == m[root]);
    assert forall|t: u64| l3.contains(t) || l2.contains(t) implies m2[t] == m[t] by {}
}

/// A write into a third-layer table changes no link.
proof fn lemma_tree_leaf(
    m: Map<u64, Seq<u64>>,
    root: u64,
    l3: Set<u64>,
    l2: Set<u64>,
    l1: Set<u64>,
    t: u64,
    i: int,
    v: u64,
)
    requires
        layered(m, root, l3, l2, l1),
        tree_links(m, root, l3, l2),
        l1.contains(t),
        0 <= i < ENTRIES,
    ensures
        tree_links(m.insert(t, m[t].update(i, v)), root, l3, l2),
{
    let m2 = m.insert(t, m[t].update(i, v));
    assert(m2[root] == m[root]);
    assert forall|u: u64| l3.contains(u) || l2.contains(u) implies m2[u] == m[u] by {}
}

/// Linking a fresh table from an empty slot at `level` (4: the PML4, 3: a
/// first-layer table, 2: a second-layer table) keeps one parent per table.
proof fn lemma_tree_link(
    m: Map<u64, Seq<u64>>,
    root: u64,
    l3: Set<u64>,
    l2: Set<u64>,
    l1: Set<u64>,
    level: int,
    t: u64,
    i: int,
    f: u64,
)
    requires
        layered(m, root, l3, l2, l1),
        tree_links(m, root, l3, l2),
        2 <= level <= 4,
        level == 4 ==> t == root && 0 <= i < KERNEL_HALF,
        level == 3 ==> l3.contains(t),
        level == 2 ==> l2.contains(t),
        0 <= i < ENTRIES,
        m[t][i] == 0,
        m.contains_key(f),
        m[f] == zero_table(),
        f != root && !l3.contains(f) && !l2.contains(f) && !l1.contains(f),
        f % 0x1000 == 0,
        f < 0x1_0000_0000,
    ensures
        level == 4 ==> tree_links(m.insert(t, m[t].update(i, link(f))), root, l3.insert(f), l2),
        level == 3 ==> tree_links(m.insert(t, m[t].update(i, link(f))), root, l3, l2.insert(f)),
        level == 2 ==> tree_links(m.insert(t, m[t].update(i, link(f))), root, l3, l2),
{
    lemma_link(f);
    let m2 = m.insert(t, m[t].update(i, link(f)));
    let n3 = if level == 4 { l3.insert(f) } else { l3 };
    let n2 = if level == 3 { l2.insert(f) } else { l2 };
    assert forall|a: int, b: int|
        0 <= a < KERNEL_HALF && 0 <= b < KERNEL_HALF && #[trigger] m2[root][a] != 0 && #[trigger] m2[root][b] != 0
            && entry_addr(m2[root][a]) == entry_addr(m2[root][b]) implies a == b by {
        if level == 4 {
            if a != i && b != i {
                assert(m2[root][a] == m[root][a] && m2[root][b] == m[root][b]);
            } else if a == i && b != i {
                assert(link_ok(m[root][b], l3));
                assert(m2[root][b] == m[root][b]);
            } else if b == i && a != i {
                assert(link_ok(m[root][a], l3));
                assert(m2[root][a] == m[root][a]);
            }
        } else {
            assert(m2[root] == m[root]);
        }
    }
    assert forall|u: u64, a: int, w: u64, b: int|
        n3.contains(u) && n3.contains(w) && 0 <= a < ENTRIES && 0 <= b < ENTRIES && #[trigger] m2[u][a] != 0
            && #[trigger] m2[w][b] != 0 && entry_addr(m2[u][a]) == entry_addr(m2[w][b]) implies u == w && a == b by {
        if level == 4 {
            if u == f {
                assert(m2[f][a] == 0);
            }
            if w == f {
                assert(m2[f][b] == 0);
            }
            assert(m2[u] == m[u] && m2[w] == m[w]);
        } else if level == 3 {
            let ua = (u == t && a == i);
            let wb = (w == t && b == i);
            if !ua && !wb {
                assert(m2[u][a] == m[u][a] && m2[w][b] == m[w][b]);
            } else if ua && !wb {
                assert(m2[w][b] == m[w][b]);
                assert(link_ok(m[w][b], l2));
            } else if wb && !ua {
                assert(m2[u][a] == m[u][a]);
                assert(link_ok(m[u][a], l2));
            }
        } else {
            assert(m2[u] == m[u] && m2[w] == m[w]);
        }
    }
    assert forall|u: u64, a: int, w: u64, b: int|
        n2.contains(u) && n2.contains(w) && 0 <= a < ENTRIES && 0 <= b < ENTRIES && #[trigger] m2[u][a] != 0
            && #[trigger] m2[w][b] != 0 && entry_addr(m2[u][a]) == entry_addr(m2[w][b]) implies u == w && a == b by {
        if level == 3 {
            if u == f {
                assert(m2[f][a] == 0);
            }
            if w == f {
                assert(m2[f][b] == 0);
            }
            assert(m2[u] == m[u] && m2[w] == m[w]);
        } else if level == 2 {
            let ua = (u == t && a == i);
            let wb = (w == t && b == i);
            if !ua && !wb {
                assert(m2[u][a] == m[u][a] && m2[w][b] == m[w][b]);
            } else if ua && !wb {
                assert(m2[w][b] == m[w][b]);
                assert(link_ok(m[w][b], l1));
            } else if wb && !ua {
                assert(m2[u][a] == m[u][a]);
                assert(link_ok(m[u][a], l1));
            }
        } else {
            assert(m2[u] == m[u] && m2[w] == m[w]);
        }
    }
}

/// Two user addresses whose four table slots agree lie in the same page.
proof fn lemma_same_slots_same_page(x: u64, y: u64)
    requires
        x < 0x8000_0000_0000,
        y < 0x8000_0000_0000,
        pml4_slot(x) == pml4_slot(y),
        pdpt_slot(x) == pdpt_slot(y),
        pd_slot(x) == pd_slot(y),
        pt_slot(x) == pt_slot(y),
    ensures
        x / 0x1000 == y / 0x1000,
{
    assert(x / 0x1000 == y / 0x1000) by (bit_vector)
        requires
            x < 0x8000_0000_0000u64,
            y < 0x8000_0000_0000u64,
            (x / 0x80_0000_0000) % 512 == (y / 0x80_0000_0000) % 512,
            (x / 0x4000_0000) % 512 == (y / 0x4000_0000) % 512,
            (x / 0x20_0000) % 512 == (y / 0x20_0000) % 512,
            (x / 0x1000) % 512 == (y / 0x1000) % 512,
    ;
}

/// A fresh table changes no lookup.
proof fn lemma_lookup_fresh(m: Map<u64, Seq<u64>>, root: u64, l3: Set<u64>, l2: Set<u64>, l1: Set<u64>, f: u64)
    requires
        layered(m, root, l3, l2, l1),
        !m.contains_key(f),
    ensures
        forall|x: u64| #[trigger] lookup(m.insert(f, zero_table()), root, x) == lookup(m, root, x),
{
    let m2 = m.insert(f, zero_table());
    assert forall|x: u64| #[trigger] lookup(m2, root, x) == lookup(m, root, x) by {
        if user_address_error(x) is None {
            assert(m2[root] == m[root]);
            let e4 = m[root][pml4_slot(x)];
            assert(link_ok(e4, l3));
            lemma_present_nonzero(e4);
            if present(e4) {
                let p = entry_addr(e4);
                assert(m2[p] == m[p]);
                let e3 = m[p][pdpt_slot(x)];
                assert(link_ok(e3, l2));
                lemma_present_nonzero(e3);
                if present(e3) {
                    let d = entry_addr(e3);
                    assert(m2[d] == m[d]);
                    let e2 = m[d][pd_slot(x)];
                    assert(link_ok(e2, l1));
                    lemma_present_nonzero(e2);
                    if present(e2) {
                        assert(m2[entry_addr(e2)] == m[entry_addr(e2)]);
                    }
                }
            }
        }
    }
}

/// Linking a fresh all-zero table from an empty slot changes no lookup.
proof fn lemma_lookup_link(
    m: Map<u64, Seq<u64>>,
    root: u64,
    l3: Set<u64>,
    l2: Set<u64>,
    l1: Set<u64>,
    level: int,
    t: u64,
    i: int,
    f: u64,
)
    requires
        layered(m, root, l3, l2, l1),
        2 <= level <= 4,
        level == 4 ==> t == root && 0 <= i < KERNEL_HALF,
        level == 3 ==> l3.contains(t),
        level == 2 ==> l2.contains(t),
        0 <= i < ENTRIES,
        m[t][i] == 0,
        m.contains_key(f),
        m[f] == zero_table(),
        f != t,
        f % 0x1000 == 0,
        f < 0x1_0000_0000,
    ensures
        forall|x: u64| #[trigger] lookup(m.insert(t, m[t].update(i, link(f))), root, x) == lookup(m, root, x),
{
    lemma_link(f);
    lemma_present_nonzero(0);
    let m2 = m.insert(t, m[t].update(i, link(f)));
    assert(m2[f] == zero_table());
    assert forall|x: u64| #[trigger] lookup(m2, root, x) == lookup(m, root, x) by {
        if user_address_error(x) is None {
            let s4 = pml4_slot(x);
            assert(s4 < KERNEL_HALF) by {
                assert(x < 0x8000_0000_0000);
            }
            let e4 = m[root][s4];
            assert(link_ok(e4, l3));
            lemma_present_nonzero(e4);
            if level == 4 && s4 == i {
                assert(m2[root][s4] == link(f));
                assert(m2[f][pdpt_slot(x)] == 0);
            } else {
                assert(m2[root][s4] == e4);
                if present(e4) {
                    let p = entry_addr(e4);
                    let e3 = m[p][pdpt_slot(x)];
                    assert(link_ok(e3, l2));
                    lemma_present_nonzero(e3);
                    if level == 3 && p == t && pdpt_slot(x) == i {
                        assert(m2[p][pdpt_slot(x)] == link(f));
                        assert(m2[f][pd_slot(x)] == 0);
                    } else {
                        assert(m2[p][pdpt_slot(x)] == e3);
                        if present(e3) {
                            let d = entry_addr(e3);
                            let e2 = m[d][pd_slot(x)];
                            assert(link_ok(e2, l1));
                            lemma_present_nonzero(e2);
                            if level == 2 && d == t && pd_slot(x) == i {
                                assert(m2[d][pd_slot(x)] == link(f));
                                assert(m2[f][pt_slot(x)] == 0);
                            } else {
                                assert(m2[d][pd_slot(x)] == e2);
                                if present(e2) {
                                    let q = entry_addr(e2);
                                    assert(l1.contains(q));
                                    assert(m2[q] == m[q]);
                                }
                            }
                        }
                    }
                }
            }
        }
    }
}

/// A write into the page table that maps `va` changes the lookup of no
/// other page.
proof fn lemma_lookup_leaf(
    m: Map<u64, Seq<u64>>,
    root: u64,
    l3: Set<u64>,
    l2: Set<u64>,
    l1: Set<u64>,
    va: u64,
    pdpt: u64,
    pd: u64,
    pt: u64,
    v: u64,
)
    requires
        layered(m, root, l3, l2, l1),
        tree_links(m, root, l3, l2),
        user_address_error(va) is None,
        m[root][pml4_slot(va)] != 0 && entry_addr(m[root][pml4_slot(va)]) == pdpt,
        m[pdpt][pdpt_slot(va)] != 0 && entry_addr(m[pdpt][pdpt_slot(va)]) == pd,
        m[pd][pd_slot(va)] != 0 && entry_addr(m[pd][pd_slot(va)]) == pt,
        l3.contains(pdpt),
        l2.contains(pd),
        l1.contains(pt),
    ensures
        forall|x: u64|
            x / 0x1000 != va / 0x1000 ==> #[trigger] lookup(m.insert(pt, m[pt].update(pt_slot(va), v)), root, x)
                == lookup(m, root, x),
{
    let m2 = m.insert(pt, m[pt].update(pt_slot(va), v));
    assert(pml4_slot(va) < KERNEL_HALF) by {
        assert(va < 0x8000_0000_0000);
    }
    assert forall|x: u64| x / 0x1000 != va / 0x1000 implies #[trigger] lookup(m2, root, x) == lookup(m, root, x) by {
        if user_address_error(x) is None {
            let s4 = pml4_slot(x);
            assert(s4 < KERNEL_HALF) by {
                assert(x < 0x8000_0000_0000);
            }
            assert(m2[root] == m[root]);
            let e4 = m[root][s4];
            assert(link_ok(e4, l3));
            lemma_present_nonzero(e4);
            if present(e4) {
                let p = entry_addr(e4);
                assert(m2[p] == m[p]);
                let e3 = m[p][pdpt_slot(x)];
                assert(link_ok(e3, l2));
                lemma_present_nonzero(e3);
                if present(e3) {
                    let d = entry_addr(e3);
                    assert(m2[d] == m[d]);
                    let e2 = m[d][pd_slot(x)];
                    assert(link_ok(e2, l1));
                    lemma_present_nonzero(e2);
                    if present(e2) {
                        let q = entry_addr(e2);
                        if q == pt && pt_slot(x) == pt_slot(va) {
                            assert(d == pd && pd_slot(x) == pd_slot(va));
                            assert(p == pdpt && pdpt_slot(x) == pdpt_slot(va));
                            assert(s4 == pml4_slot(va));
                            lemma_same_slots_same_page(x, va);
                        }
                    }
                }
            }
        }
    }
}

/// The heap storage at `heap_phys` meets the frame at `frame`.
pub open spec fn overlaps_heap_spec(frame: u64, heap_phys: u64) -> bool {
    let heap_end = if heap_phys + HEAP_SIZE > u64::MAX { u64::MAX as int } else { heap_phys + HEAP_SIZE };
    frame < heap_end && frame + PAGE_SIZE > heap_phys
}

/// The frame at `frame` meets the heap storage at `heap_phys`.
pub fn overlaps_heap(frame: PhysFrame, heap_phys: u64) -> (r: bool)
    requires
        frame.0 + PAGE_SIZE <= u64::MAX,
    ensures
        r == overlaps_heap_spec(frame.0, heap_phys),
{
    let heap_end = heap_phys.saturating_add(HEAP_SIZE as u64);
    frame.0 < heap_end && frame.0 + PAGE_SIZE > heap_phys
}

/// A frame that may hold a new page table: page aligned, not a table yet,
/// and clear of the heap at `heap_phys`.
pub open spec fn table_frame_ok(m: Map<u64, Seq<u64>>, f: u64, heap_phys: u64) -> bool {
    &&& f % 0x1000 == 0
    &&& !m.contains_key(f)
    &&& !overlaps_heap_spec(f, heap_phys)
}

/// Every frame that a table allocation may still be handed is fit for a
/// table: each free frame below 4 GiB at or above the low cursor, and,
/// while the reservation list has room, each free recycled frame below
/// 4 GiB; recycled frames are page aligned.
#[verifier::opaque]
pub open spec fn table_supply_ok(a: Allocator, m: Map<u64, Seq<u64>>, heap_phys: u64) -> bool {
    &&& forall|f: u64|
        a.low_cursor() <= f < TABLE_MEMORY_LIMIT && !#[trigger] a.spec_is_reserved(f as int, f + PAGE_SIZE)
            ==> !m.contains_key(f) && !overlaps_heap_spec(f, heap_phys)
    &&& forall|i: int|
        0 <= i < a.recycle_list().len() ==> (#[trigger] a.recycle_list()[i]).0 % 0x1000 == 0 && (
        a.reservations().len() < MAX_RESERVED && a.recycle_list()[i].0 < TABLE_MEMORY_LIMIT
            && !a.spec_is_reserved(a.recycle_list()[i].0 as int, a.recycle_list()[i].0 + PAGE_SIZE)
            ==> !m.contains_key(a.recycle_list()[i].0) && !overlaps_heap_spec(a.recycle_list()[i].0, heap_phys))
}

/// The allocator has no frame below 4 GiB left to hand out.
#[verifier::opaque]
pub open spec fn tables_exhausted(a: Allocator) -> bool {
    forall|f: u64| !#[trigger] a.next_frame_below(TABLE_MEMORY_LIMIT, f)
}

/// What an operation that allocates page tables keeps of the table supply:
/// a sound supply stays sound, a failure on a sound supply means it ran
/// out, and an exhausted allocator stays exhausted.
pub open spec fn supply_kept(
    a0: Allocator,
    m0: Map<u64, Seq<u64>>,
    a1: Allocator,
    m1: Map<u64, Seq<u64>>,
    heap_phys: u64,
    failed: bool,
) -> bool {
    &&& table_supply_ok(a0, m0, heap_phys) ==> table_supply_ok(a1, m1, heap_phys)
    &&& table_supply_ok(a0, m0, heap_phys) && failed ==> tables_exhausted(a1)
    &&& tables_exhausted(a0) ==> tables_exhausted(a1)
}

/// Two steps that each keep the supply keep it together; the second
/// decides whether the whole failed.
proof fn lemma_supply_chain(
    a0: Allocator,
    m0: Map<u64, Seq<u64>>,
    a1: Allocator,
    m1: Map<u64, Seq<u64>>,
    a2: Allocator,
    m2: Map<u64, Seq<u64>>,
    heap_phys: u64,
    failed: bool,
)
    requires
        supply_kept(a0, m0, a1, m1, heap_phys, false),
        supply_kept(a1, m1, a2, m2, heap_phys, failed),
    ensures
        supply_kept(a0, m0, a2, m2, heap_phys, failed),
{
}

/// Two steps that each keep the supply keep it together; the whole failed
/// where either step did.
pub proof fn lemma_supply_chain_any(
    a0: Allocator,
    m0: Map<u64, Seq<u64>>,
    a1: Allocator,
    m1: Map<u64, Seq<u64>>,
    a2: Allocator,
    m2: Map<u64, Seq<u64>>,
    heap_phys: u64,
    f1: bool,
    f2: bool,
)
    requires
        supply_kept(a0, m0, a1, m1, heap_phys, f1),
        supply_kept(a1, m1, a2, m2, heap_phys, f2),
    ensures
        supply_kept(a0, m0, a2, m2, heap_phys, f1 || f2),
{
}

/// Reserving more keeps a sound supply sound.
pub proof fn lemma_supply_reserve(a0: Allocator, a1: Allocator, m: Map<u64, Seq<u64>>, heap_phys: u64)
    requires
        crate::mm::frame::reserves_more(a0, a1),
        table_supply_ok(a0, m, heap_phys),
    ensures
        table_supply_ok(a1, m, heap_phys),
{
    reveal(crate::mm::frame::reserves_more);
    reveal(table_supply_ok);
    reveal(tables_exhausted);
    assert forall|f: u64|
        a1.low_cursor() <= f < TABLE_MEMORY_LIMIT && !#[trigger] a1.spec_is_reserved(f as int, f + PAGE_SIZE) implies !m.contains_key(
        f,
    ) && !overlaps_heap_spec(f, heap_phys) by {
        assert(!a0.spec_is_reserved(f as int, f + PAGE_SIZE));
    }
    assert forall|i: int| 0 <= i < a1.recycle_list().len() implies (#[trigger] a1.recycle_list()[i]).0 % 0x1000 == 0 && (
    a1.reservations().len() < MAX_RESERVED && a1.recycle_list()[i].0 < TABLE_MEMORY_LIMIT && !a1.spec_is_reserved(
        a1.recycle_list()[i].0 as int,
        a1.recycle_list()[i].0 + PAGE_SIZE,
    ) ==> !m.contains_key(a1.recycle_list()[i].0) && !overlaps_heap_spec(a1.recycle_list()[i].0, heap_phys)) by {
        let h = a1.recycle_list()[i];
        assert(a0.recycle_list()[i] == h);
        if !a1.spec_is_reserved(h.0 as int, h.0 + PAGE_SIZE) {
            assert(!a0.spec_is_reserved(h.0 as int, h.0 + PAGE_SIZE));
        }
    }
}

/// An allocation leaves a sound table supply sound.
pub proof fn lemma_supply_alloc(a0: Allocator, a1: Allocator, r: Option<PhysFrame>, m: Map<u64, Seq<u64>>, heap_phys: u64)
    requires
        a0.alloc_post(a1, r),
        table_supply_ok(a0, m, heap_phys),
    ensures
        table_supply_ok(a1, m, heap_phys),
{
    reveal(table_supply_ok);
    let k = a0.last_free_recycled(a0.recycle_list().len() as int);
    crate::mm::frame::lemma_last_free_recycled_bounds(a0, a0.recycle_list().len() as int);
    assert(a0.reservations().len() <= a1.reservations().len());
    assert forall|s: int, e: int| #[trigger] a0.spec_is_reserved(s, e) implies a1.spec_is_reserved(s, e) by {
        if k >= 0 {
            crate::mm::frame::lemma_recorded_reserved(a0.reservations(), a0.permanent_ranges(), a0.recycle_list()[k].0, s, e);
        } else if r is Some {
            crate::mm::frame::lemma_recorded_reserved(a0.reservations(), a0.permanent_ranges(), (r->0).0, s, e);
        }
    }
    assert forall|f: u64|
        a1.low_cursor() <= f < TABLE_MEMORY_LIMIT && !#[trigger] a1.spec_is_reserved(f as int, f + PAGE_SIZE) implies !m.contains_key(
        f,
    ) && !overlaps_heap_spec(f, heap_phys) by {
        assert(!a0.spec_is_reserved(f as int, f + PAGE_SIZE));
    }
    assert forall|i: int| 0 <= i < a1.recycle_list().len() implies (#[trigger] a1.recycle_list()[i]).0 % 0x1000 == 0 && (
    a1.reservations().len() < MAX_RESERVED && a1.recycle_list()[i].0 < TABLE_MEMORY_LIMIT && !a1.spec_is_reserved(
        a1.recycle_list()[i].0 as int,
        a1.recycle_list()[i].0 + PAGE_SIZE,
    ) ==> !m.contains_key(a1.recycle_list()[i].0) && !overlaps_heap_spec(a1.recycle_list()[i].0, heap_phys)) by {
        let h = a1.recycle_list()[i];
        assert(a0.recycle_list()[i] == h);
        if !a1.spec_is_reserved(h.0 as int, h.0 + PAGE_SIZE) {
            assert(!a0.spec_is_reserved(h.0 as int, h.0 + PAGE_SIZE));
        }
    }
}

/// The allocator has no frame below 4 GiB left for a table but `f`, or its
/// reservation list is full or one short of it.
pub open spec fn tables_spent_but(a: Allocator, f: u64) -> bool {
    ||| forall|g: u64| #[trigger] a.next_frame_below(TABLE_MEMORY_LIMIT, g) ==> g == f
    ||| a.reservations().len() + 1 >= MAX_RESERVED
}

/// Freeing a page-aligned frame into an allocator that had no table frame
/// left leaves no table frame but that one.
pub proof fn lemma_freed_into_spent_supply(
    am: Allocator,
    af: Allocator,
    frame: PhysFrame,
    m: Map<u64, Seq<u64>>,
    heap_phys: u64,
)
    requires
        am.free_post(af, frame),
        tables_exhausted(am),
        table_supply_ok(am, m, heap_phys),
        frame.0 % 0x1000 == 0,
    ensures
        tables_spent_but(af, frame.0),
{
    reveal(tables_exhausted);
    reveal(table_supply_ok);
    let limit = TABLE_MEMORY_LIMIT;
    if crate::mm::frame::any_overlap(am.permanent_ranges(), frame.0 as int, frame.0 + PAGE_SIZE) {
        assert(af == am);
        assert forall|g: u64| #[trigger] af.next_frame_below(limit, g) implies g == frame.0 by {
            assert(!am.next_frame_below(limit, g));
        }
        return;
    }
    let f = frame.0 as int;
    let rm = am.reservations();
    let perm = am.permanent_ranges();
    crate::mm::frame::lemma_released_reserved(rm, perm, f, 0);
    if af.reservations().len() + 1 >= MAX_RESERVED {
        return;
    }
    let nm = am.recycle_list().len() as int;
    let nf = af.recycle_list().len() as int;
    let km = am.last_free_recycled_in(nm, 0, limit as int);
    // A free page of `af` other than `frame` was free in `am`.
    assert forall|b: int| b % (PAGE_SIZE as int) == 0 && b != f && !#[trigger] af.spec_is_reserved(b, b + PAGE_SIZE) implies !am.spec_is_reserved(b, b + PAGE_SIZE) by {
        crate::mm::frame::lemma_released_reserved(rm, perm, f, b);
    }
    assert forall|b: int| b % (PAGE_SIZE as int) == 0 && !#[trigger] am.spec_is_reserved(b, b + PAGE_SIZE) implies !af.spec_is_reserved(b, b + PAGE_SIZE) by {
        crate::mm::frame::lemma_released_reserved(rm, perm, f, b);
    }
    if km >= 0 {
        am.lemma_last_free_recycled_in_bounds(nm, 0, limit as int);
        assert(am.next_frame_below(limit, am.recycle_list()[km].0));
        assert(false);
    }
    assert forall|g: u64| #[trigger] af.next_frame_below(limit, g) implies g == frame.0 by {
        let kf = af.last_free_recycled_in(nf, 0, limit as int);
        if kf >= 0 && af.reservations().len() < MAX_RESERVED {
            af.lemma_last_free_recycled_in_bounds(nf, 0, limit as int);
            crate::mm::frame::lemma_last_free_recycled_in_free(af, nf, 0, limit as int);
            let h = af.recycle_list()[kf];
            if h.0 != frame.0 {
                assert(kf < nm);
                assert(am.recycle_list()[kf] == h);
                assert(h.0 % 0x1000 == 0);
                assert(!am.spec_is_reserved(h.0 as int, h.0 + PAGE_SIZE));
                crate::mm::frame::lemma_last_free_recycled_in_found(am, nm, 0, limit as int, kf);
                assert(false);
            }
        } else {
            let ri = choose|ri: int| af.global_hit(ri, g as int, af.low_cursor(), limit as int, u64::MAX as int);
            if g != frame.0 {
                let lower = am.low_cursor();
                let mem = am.memory();
                assert(g % 0x1000 == 0);
                assert(!am.spec_is_reserved(g as int, g + PAGE_SIZE));
                assert forall|j: int| 0 <= j < ri implies #[trigger] am.no_candidate(
                    j,
                    crate::mm::frame::max_int(mem[j].start as int, lower),
                    limit as int,
                    u64::MAX as int,
                ) by {
                    assert(af.no_candidate(j, crate::mm::frame::max_int(mem[j].start as int, lower), limit as int, u64::MAX as int));
                    assert forall|b: int| !#[trigger] crate::mm::frame::candidate_in(
                        mem,
                        rm,
                        perm,
                        j,
                        b,
                        crate::mm::frame::max_int(mem[j].start as int, lower),
                        limit as int,
                        u64::MAX as int,
                    ) by {
                        assert(!crate::mm::frame::candidate_in(
                            mem,
                            af.reservations(),
                            perm,
                            j,
                            b,
                            crate::mm::frame::max_int(mem[j].start as int, lower),
                            limit as int,
                            u64::MAX as int,
                        ));
                    }
                }
                let lo = crate::mm::frame::max_int(mem[ri].start as int, lower);
                assert forall|b: int| b < g implies !#[trigger] crate::mm::frame::candidate_in(
                    mem,
                    rm,
                    perm,
                    ri,
                    b,
                    lo,
                    limit as int,
                    u64::MAX as int,
                ) by {
                    assert(!crate::mm::frame::candidate_in(mem, af.reservations(), perm, ri, b, lo, limit as int, u64::MAX as int));
                }
                assert(am.global_hit(ri, g as int, lower, limit as int, u64::MAX as int));
                assert(am.next_frame_below(limit, g));
                assert(false);
            }
        }
    }
}

/// Tables written in place leave a sound supply sound.
pub proof fn lemma_supply_same_dom(a: Allocator, m0: Map<u64, Seq<u64>>, m1: Map<u64, Seq<u64>>, heap_phys: u64)
    requires
        m1.dom() == m0.dom(),
        table_supply_ok(a, m0, heap_phys),
    ensures
        table_supply_ok(a, m1, heap_phys),
{
    lemma_supply_same_tables(a, m0, m1, heap_phys);
}

/// Writing into tables already held leaves the supply as it was.
proof fn lemma_supply_same_tables(a: Allocator, m0: Map<u64, Seq<u64>>, m1: Map<u64, Seq<u64>>, heap_phys: u64)
    requires
        m1.dom() == m0.dom(),
    ensures
        supply_kept(a, m0, a, m1, heap_phys, false),
{
    reveal(table_supply_ok);
    reveal(tables_exhausted);
    assert forall|f: u64| #[trigger] m1.contains_key(f) == m0.contains_key(f) by {}
}

/// With a sound supply, the next frame below 4 GiB is fit for a table.
proof fn lemma_supply_pick_fit(a: Allocator, m: Map<u64, Seq<u64>>, heap_phys: u64, f: u64)
    requires
        a.wf(),
        table_supply_ok(a, m, heap_phys),
        a.next_frame_below(TABLE_MEMORY_LIMIT, f),
    ensures
        table_frame_ok(m, f, heap_phys),
        f < TABLE_MEMORY_LIMIT,
{
    reveal(table_supply_ok);
    reveal(tables_exhausted);
    let n = a.recycle_list().len() as int;
    let k = a.last_free_recycled_in(n, 0, TABLE_MEMORY_LIMIT as int);
    if k >= 0 && a.reservations().len() < crate::mm::frame::MAX_RESERVED {
        a.lemma_last_free_recycled_in_bounds(n, 0, TABLE_MEMORY_LIMIT as int);
        crate::mm::frame::lemma_last_free_recycled_in_free(a, n, 0, TABLE_MEMORY_LIMIT as int);
        assert(a.recycle_list()[k].0 % 0x1000 == 0);
    } else {
        let ri = choose|ri: int| a.global_hit(ri, f as int, a.low_cursor(), TABLE_MEMORY_LIMIT as int, u64::MAX as int);
        assert(a.global_hit(ri, f as int, a.low_cursor(), TABLE_MEMORY_LIMIT as int, u64::MAX as int));
        assert(!a.spec_is_reserved(f as int, f + PAGE_SIZE));
    }
}

/// Every element of `t` is an element of `s`.
pub open spec fn drawn_from<A>(t: Seq<A>, s: Seq<A>) -> bool {
    forall|i: int| 0 <= i < t.len() ==> exists|j: int| 0 <= j < s.len() && #[trigger] t[i] == s[j]
}

proof fn lemma_update_last_drop_drawn<A>(s: Seq<A>, k: int)
    requires
        0 <= k < s.len(),
    ensures
        drawn_from(s.update(k, s.last()).drop_last(), s),
        drawn_from(s, s),
{
    let t = s.update(k, s.last()).drop_last();
    assert forall|i: int| 0 <= i < t.len() implies exists|j: int| 0 <= j < s.len() && #[trigger] t[i] == s[j] by {
        if i == k {
            assert(t[i] == s[s.len() - 1]);
        } else {
            assert(t[i] == s[i]);
        }
    }
    assert forall|i: int| 0 <= i < s.len() implies exists|j: int| 0 <= j < s.len() && #[trigger] s[i] == s[j] by {
        assert(s[i] == s[i]);
    }
}

/// A failed table allocation on its first try leaves the allocator
/// exhausted below 4 GiB, and a sound supply sound.
proof fn lemma_supply_after_none(a0: Allocator, a1: Allocator, m: Map<u64, Seq<u64>>, heap_phys: u64)
    requires
        a0.wf(),
        a1.permanent_ranges() == a0.permanent_ranges(),
        a1.memory() == a0.memory(),
        a1.reservations() == a0.reservations(),
        a1.low_cursor() == a0.low_cursor(),
        ({
            let k = a0.last_free_recycled_in(a0.recycle_list().len() as int, 0, TABLE_MEMORY_LIMIT as int);
            &&& !(k >= 0 && a0.reservations().len() < MAX_RESERVED)
            &&& a1.recycle_list() == (if k >= 0 {
                a0.recycle_list().update(k, a0.recycle_list().last()).drop_last()
            } else {
                a0.recycle_list()
            })
            &&& a0.global_exhausted(a0.low_cursor(), TABLE_MEMORY_LIMIT as int, u64::MAX as int)
        }),
    ensures
        tables_exhausted(a1),
        table_supply_ok(a0, m, heap_phys) ==> table_supply_ok(a1, m, heap_phys),
{
    reveal(table_supply_ok);
    reveal(tables_exhausted);
    let k = a0.last_free_recycled_in(a0.recycle_list().len() as int, 0, TABLE_MEMORY_LIMIT as int);
    assert forall|f: u64| !#[trigger] a1.next_frame_below(TABLE_MEMORY_LIMIT, f) by {
        if a1.next_frame_below(TABLE_MEMORY_LIMIT, f) {
            let k1 = a1.last_free_recycled_in(a1.recycle_list().len() as int, 0, TABLE_MEMORY_LIMIT as int);
            if k1 >= 0 && a1.reservations().len() < MAX_RESERVED {
                assert(k < 0);
                assert(a1.recycle_list() == a0.recycle_list());
                crate::mm::frame::lemma_last_free_recycled_in_same(
                    a0,
                    a1,
                    a0.recycle_list().len() as int,
                    0,
                    TABLE_MEMORY_LIMIT as int,
                );
                assert(k1 == k);
            } else {
                let ri = choose|ri: int|
                    a1.global_hit(ri, f as int, a1.low_cursor(), TABLE_MEMORY_LIMIT as int, u64::MAX as int);
                let lower = crate::mm::frame::max_int(a0.memory()[ri].start as int, a0.low_cursor());
                assert(a0.no_candidate(ri, lower, TABLE_MEMORY_LIMIT as int, u64::MAX as int));
                assert(a1.candidate(ri, f as int, lower, TABLE_MEMORY_LIMIT as int, u64::MAX as int));
            }
        }
    }
    if table_supply_ok(a0, m, heap_phys) {
        a0.lemma_last_free_recycled_in_bounds(a0.recycle_list().len() as int, 0, TABLE_MEMORY_LIMIT as int);
        if k >= 0 {
            lemma_update_last_drop_drawn(a0.recycle_list(), k);
        } else {
            assert forall|i: int| 0 <= i < a0.recycle_list().len() implies exists|j: int|
                0 <= j < a0.recycle_list().len() && #[trigger] a0.recycle_list()[i] == a0.recycle_list()[j] by {
                assert(a0.recycle_list()[i] == a0.recycle_list()[i]);
            }
        }
        assert forall|i: int| 0 <= i < a1.recycle_list().len() implies (#[trigger] a1.recycle_list()[i]).0 % 0x1000 == 0 && (
        a1.reservations().len() < MAX_RESERVED && a1.recycle_list()[i].0 < TABLE_MEMORY_LIMIT && !a1.spec_is_reserved(
            a1.recycle_list()[i].0 as int,
            a1.recycle_list()[i].0 + PAGE_SIZE,
        ) ==> !m.contains_key(a1.recycle_list()[i].0) && !overlaps_heap_spec(a1.recycle_list()[i].0, heap_phys)) by {
            let j = choose|j: int| 0 <= j < a0.recycle_list().len() && a1.recycle_list()[i] == a0.recycle_list()[j];
            assert(a0.recycle_list()[j] == a1.recycle_list()[i]);
        }
    }
}

/// Handing `g` out as a table keeps a sound supply sound.
proof fn lemma_supply_after_pick(a0: Allocator, a1: Allocator, m: Map<u64, Seq<u64>>, heap_phys: u64, g: u64)
    requires
        table_supply_ok(a0, m, heap_phys),
        g + PAGE_SIZE <= u64::MAX,
        a1.permanent_ranges() == a0.permanent_ranges(),
        a1.reservations() == crate::mm::frame::recorded(a0.reservations(), g),
        a1.low_cursor() >= a0.low_cursor(),
        a1.low_cursor() > g || a0.reservations().len() < MAX_RESERVED,
        drawn_from(a1.recycle_list(), a0.recycle_list()),
    ensures
        table_supply_ok(a1, m.insert(g, zero_table()), heap_phys),
{
    reveal(table_supply_ok);
    reveal(tables_exhausted);
    let m1 = m.insert(g, zero_table());
    crate::mm::frame::lemma_recorded_reserved(a0.reservations(), a0.permanent_ranges(), g, g as int, g + PAGE_SIZE);
    assert forall|f: u64|
        a1.low_cursor() <= f < TABLE_MEMORY_LIMIT && !#[trigger] a1.spec_is_reserved(f as int, f + PAGE_SIZE) implies !m1.contains_key(
        f,
    ) && !overlaps_heap_spec(f, heap_phys) by {
        crate::mm::frame::lemma_recorded_reserved(a0.reservations(), a0.permanent_ranges(), g, f as int, f + PAGE_SIZE);
        assert(!a0.spec_is_reserved(f as int, f + PAGE_SIZE));
    }
    assert forall|i: int| 0 <= i < a1.recycle_list().len() implies (#[trigger] a1.recycle_list()[i]).0 % 0x1000 == 0 && (
    a1.reservations().len() < MAX_RESERVED && a1.recycle_list()[i].0 < TABLE_MEMORY_LIMIT && !a1.spec_is_reserved(
        a1.recycle_list()[i].0 as int,
        a1.recycle_list()[i].0 + PAGE_SIZE,
    ) ==> !m1.contains_key(a1.recycle_list()[i].0) && !overlaps_heap_spec(a1.recycle_list()[i].0, heap_phys)) by {
        let h = a1.recycle_list()[i];
        let j = choose|j: int| 0 <= j < a0.recycle_list().len() && a1.recycle_list()[i] == a0.recycle_list()[j];
        assert(a0.recycle_list()[j] == h);
        crate::mm::frame::lemma_recorded_reserved(
            a0.reservations(),
            a0.permanent_ranges(),
            g,
            h.0 as int,
            h.0 + PAGE_SIZE,
        );
    }
}

/// A zeroed page table in a frame below 4 GiB that is neither part of the
/// heap nor already a page table nor misaligned; frames that are get
/// handed back and the next one is tried, up to 100 of them. Where the
/// allocator has no frame below 4 GiB there is none; where its next such
/// frame is fit for a table, that frame is the one.
/// A sound table supply stays sound, and on a sound supply a failure
/// means the allocator has no frame below 4 GiB left.
#[verifier::rlimit(40)]
#[verifier::spinoff_prover]
pub fn alloc_table(alloc: &mut Allocator, mem: &mut PageTableMemory, heap_phys: u64) -> (r: Option<PhysFrame>)
    requires
        old(alloc).wf(),
        old(mem).wf(),
    ensures
        final(alloc).wf(),
        final(mem).wf(),
        (forall|f: u64| !#[trigger] old(alloc).next_frame_below(TABLE_MEMORY_LIMIT, f)) ==> r is None,
        (exists|f: u64| #[trigger] old(alloc).next_frame_below(TABLE_MEMORY_LIMIT, f)) && (forall|f: u64|
            #[trigger] old(alloc).next_frame_below(TABLE_MEMORY_LIMIT, f) ==> table_frame_ok(old(mem)@, f, heap_phys))
            ==> (r matches Some(g) && old(alloc).next_frame_below(TABLE_MEMORY_LIMIT, g.0)),
        r matches Some(f) ==> {
            &&& !old(mem)@.contains_key(f.0)
            &&& f.0 % 0x1000 == 0
            &&& f.0 < TABLE_MEMORY_LIMIT
            &&& !overlaps_heap_spec(f.0, heap_phys)
            &&& final(mem)@ == old(mem)@.insert(f.0, zero_table())
        },
        r is None ==> final(mem)@ == old(mem)@,
        supply_kept(*old(alloc), old(mem)@, *final(alloc), final(mem)@, heap_phys, r is None),
{
    let mut attempts: u32 = 0;
    while attempts < TABLE_ALLOC_ATTEMPTS
        invariant
            alloc.wf(),
            mem.wf(),
            mem@ == old(mem)@,
            attempts == 0 ==> *alloc == *old(alloc),
            attempts > 0 ==> exists|f: u64| #[trigger] old(alloc).next_frame_below(TABLE_MEMORY_LIMIT, f)
                && !table_frame_ok(old(mem)@, f, heap_phys),
            attempts > 0 ==> !table_supply_ok(*old(alloc), old(mem)@, heap_phys) && !tables_exhausted(*old(alloc)),
        decreases TABLE_ALLOC_ATTEMPTS - attempts,
    {
        let ghost a0 = *alloc;
        let got = alloc.alloc_frame_below(PhysAddr(TABLE_MEMORY_LIMIT));
        proof {
            reveal(tables_exhausted);
            let k = a0.last_free_recycled_in(a0.recycle_list().len() as int, 0, TABLE_MEMORY_LIMIT as int);
            if got is None && !(k >= 0 && a0.reservations().len() < crate::mm::frame::MAX_RESERVED) {
                assert forall|f: u64| !#[trigger] a0.next_frame_below(TABLE_MEMORY_LIMIT, f) by {
                    if a0.next_frame_below(TABLE_MEMORY_LIMIT, f) {
                        let ri = choose|ri: int|
                            a0.global_hit(ri, f as int, a0.low_cursor(), TABLE_MEMORY_LIMIT as int, u64::MAX as int);
                        let lower = crate::mm::frame::max_int(a0.memory()[ri].start as int, a0.low_cursor());
                        assert(a0.no_candidate(ri, lower, TABLE_MEMORY_LIMIT as int, u64::MAX as int));
                        assert(a0.candidate(ri, f as int, lower, TABLE_MEMORY_LIMIT as int, u64::MAX as int));
                    }
                }
            }
            if got is Some {
                let g = got->0;
                assert(a0.next_frame_below(TABLE_MEMORY_LIMIT, g.0));
            }
            if got is None && attempts == 0 {
                lemma_supply_after_none(a0, *alloc, mem@, heap_phys);
            }
        }
        let frame = match got {
            Some(f) => f,
            None => {
                return None;
            },
        };
        proof {
            let k = a0.last_free_recycled_in(a0.recycle_list().len() as int, 0, TABLE_MEMORY_LIMIT as int);
            a0.lemma_last_free_recycled_in_bounds(a0.recycle_list().len() as int, 0, TABLE_MEMORY_LIMIT as int);
            if !(k >= 0 && a0.reservations().len() < crate::mm::frame::MAX_RESERVED) {
                let ri = choose|ri: int|
                    a0.global_hit(ri, frame.0 as int, a0.low_cursor(), TABLE_MEMORY_LIMIT as int, u64::MAX as int);
                assert(a0.global_hit(ri, frame.0 as int, a0.low_cursor(), TABLE_MEMORY_LIMIT as int, u64::MAX as int));
            }
            assert(frame.0 < TABLE_MEMORY_LIMIT);
            reveal(tables_exhausted);
            if attempts == 0 {
                assert(!tables_exhausted(a0));
                if table_supply_ok(a0, mem@, heap_phys) {
                    lemma_supply_pick_fit(a0, mem@, heap_phys, frame.0);
                    if k >= 0 && a0.reservations().len() < crate::mm::frame::MAX_RESERVED {
                        lemma_update_last_drop_drawn(a0.recycle_list(), k);
                    } else {
                        let ri = choose|ri: int|
                            a0.global_hit(ri, frame.0 as int, a0.low_cursor(), TABLE_MEMORY_LIMIT as int, u64::MAX as int);
                        assert(a0.global_hit(ri, frame.0 as int, a0.low_cursor(), TABLE_MEMORY_LIMIT as int, u64::MAX as int));
                        if k >= 0 {
                            lemma_update_last_drop_drawn(a0.recycle_list(), k);
                        } else {
                            assert forall|i: int| 0 <= i < a0.recycle_list().len() implies exists|j: int|
                                0 <= j < a0.recycle_list().len() && #[trigger] a0.recycle_list()[i] == a0.recycle_list()[j] by {
                                assert(a0.recycle_list()[i] == a0.recycle_list()[i]);
                            }
                        }
                    }
                    lemma_supply_after_pick(a0, *alloc, mem@, heap_phys, frame.0);
                }
            }
        }
        if frame.0 % PAGE_SIZE == 0 && !mem.contains(frame.0) && !overlaps_heap(frame, heap_phys) {
            mem.insert_zeroed(frame.0);
            return Some(frame);
        }
        proof {
            if attempts == 0 && table_supply_ok(a0, mem@, heap_phys) {
                lemma_supply_pick_fit(a0, mem@, heap_phys, frame.0);
            }
        }
        alloc.free_frame(frame);
        attempts = attempts + 1;
    }
    None
}

/// `x` is a multiple of the page size.
fn page_aligned(x: u64) -> (r: bool)
    ensures
        r == (x % 0x1000 == 0),
{
    proof {
        assert(x & 0xfff == x % 0x1000) by (bit_vector);
    }
    x & (PAGE_SIZE - 1) == 0
}

/// The PML4 of a new address space: an empty user half and the kernel
/// half of the PML4 `kernel`.
pub open spec fn fresh_root(kernel: Seq<u64>) -> Seq<u64> {
    Seq::new(ENTRIES as nat, |i: int| if i < KERNEL_HALF { 0u64 } else { kernel[i] })
}

/// The checks `map_user_page` makes before it walks the tables.
pub open spec fn map_error(va: u64, frame: u64, flags: UserPageFlags) -> Option<AddressSpaceError> {
    if va % 0x1000 != 0 || frame % 0x1000 != 0 {
        Some(AddressSpaceError::Unaligned)
    } else if user_address_error(va) is Some {
        user_address_error(va)
    } else if !flags.spec_valid() {
        Some(AddressSpaceError::InvalidFlags)
    } else {
        None
    }
}

/// A page-table root for a process. The kernel half of its PML4 is shared
/// with the kernel's; the user half belongs to it alone.
pub struct AddressSpace {
    root: PhysFrame,
    l3: Ghost<Set<u64>>,
    l2: Ghost<Set<u64>>,
    l1: Ghost<Set<u64>>,
}

impl AddressSpace {
    pub closed spec fn root_addr(&self) -> u64 {
        self.root.0
    }

    /// The user half under the root is a well-formed table tree in `m`.
    pub closed spec fn inv(&self, m: Map<u64, Seq<u64>>) -> bool {
        &&& layered(m, self.root.0, self.l3@, self.l2@, self.l1@)
        &&& tree_links(m, self.root.0, self.l3@, self.l2@)
        &&& self.root.0 < TABLE_MEMORY_LIMIT
    }

    /// A new address space whose PML4 shares the kernel half of the PML4 in
    /// `kernel_root`: refused where the allocator has no frame below 4 GiB;
    /// made in its next such frame where that one is fit for a table.
    pub fn new(alloc: &mut Allocator, mem: &mut PageTableMemory, kernel_root: PhysFrame, heap_phys: u64) -> (r:
        Result<AddressSpace, AddressSpaceError>)
        requires
            old(alloc).wf(),
            old(mem).wf(),
            old(mem)@.contains_key(kernel_root.0),
        ensures
            final(alloc).wf(),
            final(mem).wf(),
            r matches Ok(s) ==> {
                &&& s.inv(final(mem)@)
                &&& !old(mem)@.contains_key(s.root_addr())
                &&& final(mem)@ == old(mem)@.insert(s.root_addr(), fresh_root(old(mem)@[kernel_root.0]))
            },
            r matches Err(e) ==> e == AddressSpaceError::OutOfFrames && final(mem)@ == old(mem)@,
            (forall|f: u64| !#[trigger] old(alloc).next_frame_below(TABLE_MEMORY_LIMIT, f)) ==> r is Err,
            (exists|f: u64| #[trigger] old(alloc).next_frame_below(TABLE_MEMORY_LIMIT, f)) && (forall|f: u64|
                #[trigger] old(alloc).next_frame_below(TABLE_MEMORY_LIMIT, f) ==> table_frame_ok(old(mem)@, f, heap_phys))
                ==> (r matches Ok(s) && old(alloc).next_frame_below(TABLE_MEMORY_LIMIT, s.root_addr())),
            supply_kept(*old(alloc), old(mem)@, *final(alloc), final(mem)@, heap_phys, r is Err),
    {
        let root = match alloc_table(alloc, mem, heap_phys) {
            Some(f) => f,
            None => {
                return Err(AddressSpaceError::OutOfFrames);
            },
        };
        let ghost m1 = mem@;
        proof {
            assert(Seq::new(ENTRIES as nat, |i: int| if KERNEL_HALF <= i < KERNEL_HALF { m1[kernel_root.0][i] } else { 0u64 })
                =~= m1[root.0]);
            assert(m1.insert(
                root.0,
                Seq::new(ENTRIES as nat, |i: int| if KERNEL_HALF <= i < KERNEL_HALF { m1[kernel_root.0][i] } else { 0u64 }),
            ) =~= m1);
        }
        let mut index: usize = KERNEL_HALF;
        while index < ENTRIES
            invariant
                mem.wf(),
                KERNEL_HALF <= index <= ENTRIES,
                root.0 != kernel_root.0,
                mem@.contains_key(kernel_root.0),
                mem@.contains_key(root.0),
                mem@[kernel_root.0] == m1[kernel_root.0],
                mem@ == m1.insert(
                    root.0,
                    Seq::new(ENTRIES as nat, |i: int| if KERNEL_HALF <= i < index { m1[kernel_root.0][i] } else { 0u64 }),
                ),
            decreases ENTRIES - index,
        {
            let v = mem.read(kernel_root.0, index);
            let ghost before = mem@;
            mem.write(root.0, index, v);
            proof {
                assert(mem@[root.0] =~= Seq::new(
                    ENTRIES as nat,
                    |i: int| if KERNEL_HALF <= i < index + 1 { m1[kernel_root.0][i] } else { 0u64 },
                ));
                assert(mem@ =~= m1.insert(
                    root.0,
                    Seq::new(ENTRIES as nat, |i: int| if KERNEL_HALF <= i < index + 1 { m1[kernel_root.0][i] } else { 0u64 }),
                ));
            }
            index = index + 1;
        }
        let space = AddressSpace {
            root,
            l3: Ghost(Set::empty()),
            l2: Ghost(Set::empty()),
            l1: Ghost(Set::empty()),
        };
        proof {
            assert(Seq::new(ENTRIES as nat, |i: int| if KERNEL_HALF <= i < ENTRIES { m1[kernel_root.0][i] } else { 0u64 })
                =~= fresh_root(old(mem)@[kernel_root.0]));
            assert(mem@ =~= old(mem)@.insert(root.0, fresh_root(old(mem)@[kernel_root.0])));
            assert forall|i: int| 0 <= i < KERNEL_HALF implies link_ok(#[trigger] mem@[root.0][i], Set::<u64>::empty()) by {
                assert(mem@[root.0][i] == 0);
            }
            assert(tree_links(mem@, root.0, Set::<u64>::empty(), Set::<u64>::empty()));
            assert(space.inv(mem@));
            assert(mem@.dom() =~= m1.dom());
            lemma_supply_same_tables(*alloc, m1, mem@, heap_phys);
            lemma_supply_chain(*old(alloc), old(mem)@, *alloc, m1, *alloc, mem@, heap_phys, false);
        }
        Ok(space)
    }

    /// The frame of the PML4.
    pub fn root_frame(&self) -> (r: PhysFrame)
        ensures
            r.0 == self.root_addr(),
    {
        self.root
    }

    /// Maps user address `va` to `frame` with the hardware bits of `flags`,
    /// creating the missing intermediate tables (from `alloc`, avoiding the
    /// heap storage at `heap_phys`). Tables created before a failed
    /// allocation stay in place.
    /// With a sound table supply (`table_supply_ok`), running out of page-table frames means the allocator has none below 4 GiB left (`supply_kept`).
    pub fn map_user_page(
        &mut self,
        mem: &mut PageTableMemory,
        alloc: &mut Allocator,
        heap_phys: u64,
        va: VirtAddr,
        frame: PhysFrame,
        flags: UserPageFlags,
    ) -> (r: Result<(), AddressSpaceError>)
        requires
            old(self).inv(old(mem)@),
            old(mem).wf(),
            old(alloc).wf(),
        ensures
            final(self).root_addr() == old(self).root_addr(),
            final(self).inv(final(mem)@),
            final(mem).wf(),
            final(alloc).wf(),
            map_error(va.0, frame.0, flags) matches Some(e) ==> r == Err::<(), AddressSpaceError>(e) && final(mem)@
                == old(mem)@,
            map_error(va.0, frame.0, flags) is None && lookup(old(mem)@, old(self).root_addr(), va.0) is Ok ==> r
                == Err::<(), AddressSpaceError>(AddressSpaceError::AlreadyMapped) && final(mem)@ == old(mem)@,
            map_error(va.0, frame.0, flags) is None && lookup(old(mem)@, old(self).root_addr(), va.0) is Err ==> (r
                is Ok || r == Err::<(), AddressSpaceError>(AddressSpaceError::OutOfFrames)),
            map_error(va.0, frame.0, flags) is None && lookup(old(mem)@, old(self).root_addr(), va.0) is Err
                && leaf_table_present(old(mem)@, old(self).root_addr(), va.0) ==> r is Ok,
            r is Ok ==> lookup(final(mem)@, old(self).root_addr(), va.0) == Ok::<u64, AddressSpaceError>(
                frame.0 | flags.spec_hardware(),
            ),
            r is Ok ==> lookup(old(mem)@, old(self).root_addr(), va.0) == Err::<u64, AddressSpaceError>(
                AddressSpaceError::NotMapped,
            ),
            r is Err ==> lookup(final(mem)@, old(self).root_addr(), va.0) == lookup(old(mem)@, old(self).root_addr(), va.0),
            forall|x: u64|
                x / 0x1000 != va.0 / 0x1000 ==> #[trigger] lookup(final(mem)@, old(self).root_addr(), x) == lookup(
                    old(mem)@,
                    old(self).root_addr(),
                    x,
                ),
            supply_kept(
                *old(alloc),
                old(mem)@,
                *final(alloc),
                final(mem)@,
                heap_phys,
                r == Err::<(), AddressSpaceError>(AddressSpaceError::OutOfFrames),
            ),
    {
        let ghost a_start = *alloc;
        if !page_aligned(va.0) || !page_aligned(frame.0) {
            return Err(AddressSpaceError::Unaligned);
        }
        if va.0 >= 0x8000_0000_0000 {
            return if va.0 >= KERNEL_VIRT_BASE {
                Err(AddressSpaceError::KernelAddress)
            } else {
                Err(AddressSpaceError::Noncanonical)
            };
        }
        if !flags.is_valid() {
            return Err(AddressSpaceError::InvalidFlags);
        }
        let (i4, i3, i2, i1) = slots(va.0);
        let ghost m0 = mem@;
        let root = self.root.0;
        proof {
            assert(pml4_slot(va.0) < KERNEL_HALF) by {
                assert(va.0 < 0x8000_0000_0000);
            }
        }
        // PML4 entry.
        let e4 = mem.read(root, i4);
        proof {
            assert(link_ok(m0[root][i4 as int], self.l3@));
            lemma_present_nonzero(m0[root][i4 as int]);
        }
        let pdpt = if e4 & PRESENT != 0 {
            e4 & ADDRESS_MASK
        } else {
            let ghost aa = *alloc;
            let ghost mb = mem@;
            let got = alloc_table(alloc, mem, heap_phys);
            proof {
                lemma_supply_chain(a_start, old(mem)@, aa, mb, *alloc, mem@, heap_phys, got is None);
            }
            let f = match got {
                Some(f) => f,
                None => {
                    return Err(AddressSpaceError::OutOfFrames);
                },
            };
            let ghost m1 = mem@;
            proof {
                lemma_fresh_table(m0, root, self.l3@, self.l2@, self.l1@, f.0);
                lemma_tree_fresh(m0, root, self.l3@, self.l2@, self.l1@, f.0);
                lemma_lookup_fresh(m0, root, self.l3@, self.l2@, self.l1@, f.0);
                lemma_link_root(m1, root, self.l3@, self.l2@, self.l1@, i4 as int, f.0);
                lemma_tree_link(m1, root, self.l3@, self.l2@, self.l1@, 4, root, i4 as int, f.0);
                lemma_lookup_link(m1, root, self.l3@, self.l2@, self.l1@, 4, root, i4 as int, f.0);
                lemma_link(f.0);
            }
            mem.write(root, i4, f.0 | PRESENT | WRITABLE);
            proof {
                assert(mem@.dom() =~= m1.dom());
                lemma_supply_same_tables(*alloc, m1, mem@, heap_phys);
                lemma_supply_chain(a_start, old(mem)@, *alloc, m1, *alloc, mem@, heap_phys, false);
            }
            self.l3 = Ghost(self.l3@.insert(f.0));
            f.0
        };
        let ghost m4 = mem@;
        let ghost r4 = mem@[root][i4 as int];
        proof {
            assert(present(r4) && !huge(r4) && entry_addr(r4) == pdpt);
            assert(self.l3@.contains(pdpt));
            assert(forall|x: u64| #[trigger] lookup(m4, root, x) == lookup(m0, root, x));
        }
        // PDPT entry.
        let e3 = mem.read(pdpt, i3);
        proof {
            assert(link_ok(m4[pdpt][i3 as int], self.l2@));
            lemma_present_nonzero(m4[pdpt][i3 as int]);
        }
        if e3 & HUGE != 0 {
            return Err(AddressSpaceError::HugePage);
        }
        let pd = if e3 & PRESENT != 0 {
            e3 & ADDRESS_MASK
        } else {
            let ghost aa = *alloc;
            let ghost mb = mem@;
            let got = alloc_table(alloc, mem, heap_phys);
            proof {
                lemma_supply_chain(a_start, old(mem)@, aa, mb, *alloc, mem@, heap_phys, got is None);
            }
            let f = match got {
                Some(f) => f,
                None => {
                    return Err(AddressSpaceError::OutOfFrames);
                },
            };
            let ghost m1 = mem@;
            proof {
                lemma_fresh_table(m4, root, self.l3@, self.l2@, self.l1@, f.0);
                lemma_tree_fresh(m4, root, self.l3@, self.l2@, self.l1@, f.0);
                lemma_lookup_fresh(m4, root, self.l3@, self.l2@, self.l1@, f.0);
                lemma_link_l3(m1, root, self.l3@, self.l2@, self.l1@, pdpt, i3 as int, f.0);
                lemma_tree_link(m1, root, self.l3@, self.l2@, self.l1@, 3, pdpt, i3 as int, f.0);
                lemma_lookup_link(m1, root, self.l3@, self.l2@, self.l1@, 3, pdpt, i3 as int, f.0);
                lemma_link(f.0);
            }
            mem.write(pdpt, i3, f.0 | PRESENT | WRITABLE);
            proof {
                assert(mem@.dom() =~= m1.dom());
                lemma_supply_same_tables(*alloc, m1, mem@, heap_phys);
                lemma_supply_chain(a_start, old(mem)@, *alloc, m1, *alloc, mem@, heap_phys, false);
            }
            self.l2 = Ghost(self.l2@.insert(f.0));
            f.0
        };
        let ghost m3 = mem@;
        let ghost r3 = mem@[pdpt][i3 as int];
        proof {
            assert(present(r3) && !huge(r3) && entry_addr(r3) == pd);
            assert(self.l2@.contains(pd));
            assert(mem@[root][i4 as int] == r4);
            assert(forall|x: u64| #[trigger] lookup(m3, root, x) == lookup(m0, root, x));
        }
        // PD entry.
        let e2 = mem.read(pd, i2);
        proof {
            assert(link_ok(m3[pd][i2 as int], self.l1@));
            lemma_present_nonzero(m3[pd][i2 as int]);
        }
        if e2 & HUGE != 0 {
            return Err(AddressSpaceError::HugePage);
        }
        let pt = if e2 & PRESENT != 0 {
            e2 & ADDRESS_MASK
        } else {
            let ghost aa = *alloc;
            let ghost mb = mem@;
            let got = alloc_table(alloc, mem, heap_phys);
            proof {
                lemma_supply_chain(a_start, old(mem)@, aa, mb, *alloc, mem@, heap_phys, got is None);
            }
            let f = match got {
                Some(f) => f,
                None => {
                    return Err(AddressSpaceError::OutOfFrames);
                },
            };
            let ghost m1 = mem@;
            proof {
                lemma_fresh_table(m3, root, self.l3@, self.l2@, self.l1@, f.0);
                lemma_tree_fresh(m3, root, self.l3@, self.l2@, self.l1@, f.0);
                lemma_lookup_fresh(m3, root, self.l3@, self.l2@, self.l1@, f.0);
                lemma_link_l2(m1, root, self.l3@, self.l2@, self.l1@, pd, i2 as int, f.0);
                lemma_tree_link(m1, root, self.l3@, self.l2@, self.l1@, 2, pd, i2 as int, f.0);
                lemma_lookup_link(m1, root, self.l3@, self.l2@, self.l1@, 2, pd, i2 as int, f.0);
                lemma_link(f.0);
            }
            mem.write(pd, i2, f.0 | PRESENT | WRITABLE);
            proof {
                assert(mem@.dom() =~= m1.dom());
                lemma_supply_same_tables(*alloc, m1, mem@, heap_phys);
                lemma_supply_chain(a_start, old(mem)@, *alloc, m1, *alloc, mem@, heap_phys, false);
            }
            self.l1 = Ghost(self.l1@.insert(f.0));
            f.0
        };
        let ghost m2 = mem@;
        proof {
            assert(present(mem@[pd][i2 as int]) && !huge(mem@[pd][i2 as int]) && entry_addr(mem@[pd][i2 as int])
                == pt);
            assert(self.l1@.contains(pt));
            assert(mem@[root][i4 as int] == r4);
            assert(mem@[pdpt][i3 as int] == r3);
            assert(forall|x: u64| #[trigger] lookup(m2, root, x) == lookup(m0, root, x));
        }
        // Leaf.
        let slot = mem.read(pt, i1);
        if slot & PRESENT != 0 {
            return Err(AddressSpaceError::AlreadyMapped);
        }
        let hardware = flags.hardware();
        proof {
            assert(lookup(m2, root, va.0) == Err::<u64, AddressSpaceError>(AddressSpaceError::NotMapped));
            lemma_present_nonzero(r4);
            lemma_present_nonzero(r3);
            lemma_present_nonzero(m2[pd][i2 as int]);
            lemma_leaf_write(m2, root, self.l3@, self.l2@, self.l1@, pt, i1 as int, frame.0 | hardware);
            lemma_tree_leaf(m2, root, self.l3@, self.l2@, self.l1@, pt, i1 as int, frame.0 | hardware);
            lemma_lookup_leaf(m2, root, self.l3@, self.l2@, self.l1@, va.0, pdpt, pd, pt, frame.0 | hardware);
        }
        let ghost m_leaf = mem@;
        mem.write(pt, i1, frame.0 | hardware);
        proof {
            assert(mem@.dom() =~= m_leaf.dom());
            lemma_supply_same_tables(*alloc, m_leaf, mem@, heap_phys);
            lemma_supply_chain(a_start, old(mem)@, *alloc, m_leaf, *alloc, mem@, heap_phys, false);
        }
        proof {
            lemma_user_entry_bits(flags);
            let h = flags.spec_hardware();
            let fr = frame.0;
            assert((fr | h) & 1 != 0) by (bit_vector)
                requires
                    h & 1 != 0,
            ;
        }
        Ok(())
    }

    /// Removes the mapping of user address `va` and gives back the frame it
    /// mapped.
    pub fn unmap_user_page(&mut self, mem: &mut PageTableMemory, va: VirtAddr) -> (r: Result<PhysFrame, AddressSpaceError>)
        requires
            old(self).inv(old(mem)@),
            old(mem).wf(),
        ensures
            final(self).root_addr() == old(self).root_addr(),
            final(self).inv(final(mem)@),
            final(mem).wf(),
            match lookup(old(mem)@, old(self).root_addr(), va.0) {
                Ok(e) => r == Ok::<PhysFrame, AddressSpaceError>(PhysFrame(entry_addr(e))) && lookup(
                    final(mem)@,
                    old(self).root_addr(),
                    va.0,
                ) == Err::<u64, AddressSpaceError>(AddressSpaceError::NotMapped),
                Err(e) => r == Err::<PhysFrame, AddressSpaceError>(e) && final(mem)@ == old(mem)@,
            },
            forall|x: u64|
                x / 0x1000 != va.0 / 0x1000 ==> #[trigger] lookup(final(mem)@, old(self).root_addr(), x) == lookup(
                    old(mem)@,
                    old(self).root_addr(),
                    x,
                ),
    {
        if !page_aligned(va.0) {
            return Err(AddressSpaceError::Unaligned);
        }
        if va.0 >= 0x8000_0000_0000 {
            return if va.0 >= KERNEL_VIRT_BASE {
                Err(AddressSpaceError::KernelAddress)
            } else {
                Err(AddressSpaceError::Noncanonical)
            };
        }
        let (i4, i3, i2, i1) = slots(va.0);
        let ghost m = mem@;
        let root = self.root.0;
        let e4 = mem.read(root, i4);
        proof {
            assert(link_ok(m[root][i4 as int], self.l3@));
            lemma_present_nonzero(m[root][i4 as int]);
        }
        if e4 & PRESENT == 0 {
            return Err(AddressSpaceError::NotMapped);
        }
        let pdpt = e4 & ADDRESS_MASK;
        let e3 = mem.read(pdpt, i3);
        proof {
            assert(link_ok(m[pdpt][i3 as int], self.l2@));
            lemma_present_nonzero(m[pdpt][i3 as int]);
        }
        if e3 & PRESENT == 0 || e3 & HUGE != 0 {
            return Err(
                if e3 & HUGE != 0 {
                    AddressSpaceError::HugePage
                } else {
                    AddressSpaceError::NotMapped
                },
            );
        }
        let pd = e3 & ADDRESS_MASK;
        let e2 = mem.read(pd, i2);
        proof {
            assert(link_ok(m[pd][i2 as int], self.l1@));
            lemma_present_nonzero(m[pd][i2 as int]);
        }
        if e2 & PRESENT == 0 || e2 & HUGE != 0 {
            return Err(
                if e2 & HUGE != 0 {
                    AddressSpaceError::HugePage
                } else {
                    AddressSpaceError::NotMapped
                },
            );
        }
        let pt = e2 & ADDRESS_MASK;
        let slot = mem.read(pt, i1);
        if slot & PRESENT == 0 {
            return Err(AddressSpaceError::NotMapped);
        }
        let physical = PhysFrame(slot & ADDRESS_MASK);
        proof {
            lemma_leaf_write(m, root, self.l3@, self.l2@, self.l1@, pt, i1 as int, 0);
            lemma_tree_leaf(m, root, self.l3@, self.l2@, self.l1@, pt, i1 as int, 0);
            assert(pml4_slot(va.0) < KERNEL_HALF) by {
                assert(va.0 < 0x8000_0000_0000);
            }
            lemma_lookup_leaf(m, root, self.l3@, self.l2@, self.l1@, va.0, pdpt, pd, pt, 0);
        }
        mem.write(pt, i1, 0);
        proof {
            assert(mem@[root] == m[root]);
            assert(mem@[pdpt] == m[pdpt]);
            assert(mem@[pd] == m[pd]);
            lemma_present_nonzero(0);
        }
        Ok(physical)
    }

    /// The leaf entry that maps user address `va`.
    pub fn page_entry(&self, mem: &PageTableMemory, va: VirtAddr) -> (r: Result<u64, AddressSpaceError>)
        requires
            self.inv(mem@),
        ensures
            r == lookup(mem@, self.root_addr(), va.0),
    {
        if !page_aligned(va.0) {
            return Err(AddressSpaceError::Unaligned);
        }
        if va.0 >= 0x8000_0000_0000 {
            return if va.0 >= KERNEL_VIRT_BASE {
                Err(AddressSpaceError::KernelAddress)
            } else {
                Err(AddressSpaceError::Noncanonical)
            };
        }
        let (i4, i3, i2, i1) = slots(va.0);
        let ghost m = mem@;
        let root = self.root.0;
        let e4 = mem.read(root, i4);
        proof {
            assert(link_ok(m[root][i4 as int], self.l3@));
            lemma_present_nonzero(m[root][i4 as int]);
        }
        if e4 & PRESENT == 0 {
            return Err(AddressSpaceError::NotMapped);
        }
        if e4 & HUGE != 0 {
            return Err(AddressSpaceError::HugePage);
        }
        let pdpt = e4 & ADDRESS_MASK;
        let e3 = mem.read(pdpt, i3);
        proof {
            assert(link_ok(m[pdpt][i3 as int], self.l2@));
            lemma_present_nonzero(m[pdpt][i3 as int]);
        }
        if e3 & PRESENT == 0 {
            return Err(AddressSpaceError::NotMapped);
        }
        if e3 & HUGE != 0 {
            return Err(AddressSpaceError::HugePage);
        }
        let pd = e3 & ADDRESS_MASK;
        let e2 = mem.read(pd, i2);
        proof {
            assert(link_ok(m[pd][i2 as int], self.l1@));
            lemma_present_nonzero(m[pd][i2 as int]);
        }
        if e2 & PRESENT == 0 {
            return Err(AddressSpaceError::NotMapped);
        }
        if e2 & HUGE != 0 {
            return Err(AddressSpaceError::HugePage);
        }
        let pt = e2 & ADDRESS_MASK;
        let entry = mem.read(pt, i1);
        if entry & PRESENT == 0 {
            Err(AddressSpaceError::NotMapped)
        } else {
            Ok(entry)
        }
    }
}

/// `m` keeps some of the tables of `old`, unchanged.
pub open spec fn kept_from(m: Map<u64, Seq<u64>>, old: Map<u64, Seq<u64>>) -> bool {
    forall|f: u64| #[trigger] m.contains_key(f) ==> old.contains_key(f) && m[f] == old[f]
}

pub proof fn lemma_entry_addr_bound(e: u64)
    ensures
        entry_addr(e) <= ADDRESS_MASK,
{
    assert(e & 0x000f_ffff_ffff_f000 <= 0x000f_ffff_ffff_f000) by (bit_vector);
}

/// Frees the table in `frame`, a table of layer `level` (3: directly under
/// the PML4), and every table below it: each goes back to `alloc` and out
/// of `mem`. Mapped frames stay allocated.
fn free_table_tree(
    mem: &mut PageTableMemory,
    alloc: &mut Allocator,
    frame: u64,
    level: usize,
    Ghost(orig): Ghost<Map<u64, Seq<u64>>>,
    Ghost(root): Ghost<u64>,
    Ghost(l3): Ghost<Set<u64>>,
    Ghost(l2): Ghost<Set<u64>>,
    Ghost(l1): Ghost<Set<u64>>,
)
    requires
        old(mem).wf(),
        old(alloc).wf(),
        layered(orig, root, l3, l2, l1),
        kept_from(old(mem)@, orig),
        1 <= level <= 3,
        level == 3 ==> l3.contains(frame),
        level == 2 ==> l2.contains(frame),
        level == 1 ==> l1.contains(frame),
        frame <= ADDRESS_MASK,
    ensures
        final(mem).wf(),
        final(alloc).wf(),
        kept_from(final(mem)@, old(mem)@),
        !final(mem)@.contains_key(frame),
        forall|f: u64|
            old(mem)@.contains_key(f) && !l3.contains(f) && !l2.contains(f) && !l1.contains(f)
                ==> #[trigger] final(mem)@.contains_key(f),
    decreases level,
{
    let ghost m0 = mem@;
    if level > 1 && mem.contains(frame) {
        let mut i: usize = 0;
        while i < ENTRIES
            invariant
                mem.wf(),
                alloc.wf(),
                layered(orig, root, l3, l2, l1),
                kept_from(mem@, m0),
                kept_from(m0, orig),
                2 <= level <= 3,
                level == 3 ==> l3.contains(frame),
                level == 2 ==> l2.contains(frame),
                0 <= i <= ENTRIES,
                forall|f: u64|
                    m0.contains_key(f) && !l3.contains(f) && !l2.contains(f) && !l1.contains(f)
                        ==> #[trigger] mem@.contains_key(f),
            decreases ENTRIES - i,
        {
            if mem.contains(frame) {
                let e = mem.read(frame, i);
                proof {
                    assert(mem@[frame] == orig[frame]);
                    if level == 3 {
                        assert(link_ok(orig[frame][i as int], l2));
                    } else {
                        assert(link_ok(orig[frame][i as int], l1));
                    }
                    lemma_present_nonzero(e);
                    lemma_entry_addr_bound(e);
                }
                if e & PRESENT != 0 && e & HUGE == 0 {
                    free_table_tree(
                        mem,
                        alloc,
                        e & ADDRESS_MASK,
                        level - 1,
                        Ghost(orig),
                        Ghost(root),
                        Ghost(l3),
                        Ghost(l2),
                        Ghost(l1),
                    );
                }
            }
            i = i + 1;
        }
    }
    mem.remove(frame);
    alloc.free_frame(PhysFrame(frame));
}

impl AddressSpace {
    /// The tables below the PML4 that the space owns.
    pub closed spec fn owned_tables(&self) -> Set<u64> {
        self.l3@.union(self.l2@).union(self.l1@)
    }

    /// Frees the tables of the user half and the PML4: each goes back to
    /// `alloc` and out of `mem`; the kernel's tables and the mapped frames
    /// stay.
    pub fn destroy(self, mem: &mut PageTableMemory, alloc: &mut Allocator)
        requires
            self.inv(old(mem)@),
            old(mem).wf(),
            old(alloc).wf(),
        ensures
            final(mem).wf(),
            final(alloc).wf(),
            kept_from(final(mem)@, old(mem)@),
            !final(mem)@.contains_key(self.root_addr()),
            forall|f: u64|
                old(mem)@.contains_key(f) && f != self.root_addr() && !self.owned_tables().contains(f)
                    ==> #[trigger] final(mem)@.contains_key(f),
    {
        let ghost orig = mem@;
        let root = self.root.0;
        let mut i: usize = 0;
        while i < KERNEL_HALF
            invariant
                mem.wf(),
                alloc.wf(),
                layered(orig, root, self.l3@, self.l2@, self.l1@),
                root < TABLE_MEMORY_LIMIT,
                kept_from(mem@, orig),
                mem@.contains_key(root),
                0 <= i <= KERNEL_HALF,
                forall|f: u64|
                    orig.contains_key(f) && !self.l3@.contains(f) && !self.l2@.contains(f) && !self.l1@.contains(
                        f,
                    ) ==> #[trigger] mem@.contains_key(f),
            decreases KERNEL_HALF - i,
        {
            let e = mem.read(root, i);
            proof {
                assert(mem@[root] == orig[root]);
                assert(link_ok(orig[root][i as int], self.l3@));
                lemma_present_nonzero(e);
                lemma_entry_addr_bound(e);
            }
            if e & PRESENT != 0 {
                free_table_tree(
                    mem,
                    alloc,
                    e & ADDRESS_MASK,
                    3,
                    Ghost(orig),
                    Ghost(root),
                    Ghost(self.l3@),
                    Ghost(self.l2@),
                    Ghost(self.l1@),
                );
            }
            i = i + 1;
        }
        mem.remove(root);
        alloc.free_frame(self.root);
    }
}

/// Unmapping a page right after mapping it leaves every user address as it
/// was before the mapping.
pub proof fn law_unmap_undoes_map(
    before: Map<u64, Seq<u64>>,
    mapped: Map<u64, Seq<u64>>,
    after: Map<u64, Seq<u64>>,
    root: u64,
    va: u64,
)
    requires
        user_address_error(va) is None,
        lookup(before, root, va) == Err::<u64, AddressSpaceError>(AddressSpaceError::NotMapped),
        lookup(after, root, va) == Err::<u64, AddressSpaceError>(AddressSpaceError::NotMapped),
        forall|x: u64| x / 0x1000 != va / 0x1000 ==> #[trigger] lookup(mapped, root, x) == lookup(before, root, x),
        forall|x: u64| x / 0x1000 != va / 0x1000 ==> #[trigger] lookup(after, root, x) == lookup(mapped, root, x),
    ensures
        forall|x: u64| #[trigger] lookup(after, root, x) == lookup(before, root, x),
{
    assert forall|x: u64| #[trigger] lookup(after, root, x) == lookup(before, root, x) by {
        if x / 0x1000 != va / 0x1000 {
            assert(lookup(mapped, root, x) == lookup(before, root, x));
        } else if x % 0x1000 == 0 {
            assert(x == va) by {
                vstd::arithmetic::div_mod::lemma_fundamental_div_mod(x as int, 0x1000);
                vstd::arithmetic::div_mod::lemma_fundamental_div_mod(va as int, 0x1000);
            }
        }
    }
}

/// The frame a user mapping was made with is the frame that unmapping the
/// address gives back: the permission bits never reach the address field.
pub proof fn law_unmap_returns_mapped_frame(m: Map<u64, Seq<u64>>, root: u64, va: u64, frame: u64, flags: UserPageFlags)
    requires
        lookup(m, root, va) == Ok::<u64, AddressSpaceError>(frame | flags.spec_hardware()),
        frame % 0x1000 == 0,
        frame < 0x10_0000_0000_0000,
    ensures
        lookup(m, root, va) matches Ok(e) && entry_addr(e) == frame,
{
    let h = flags.spec_hardware();
    let w: u64 = if flags.has(crate::mm::paging::USER_WRITE) { WRITABLE } else { 0 };
    let x: u64 = if flags.has(crate::mm::paging::USER_NO_EXECUTE) || !flags.has(crate::mm::paging::USER_EXECUTE) {
        crate::mm::paging::NO_EXECUTE
    } else {
        0
    };
    assert(h == 1u64 | 4u64 | w | x);
    assert((frame | (1u64 | 4u64 | w | x)) & 0x000f_ffff_ffff_f000 == frame) by (bit_vector)
        requires
            frame % 0x1000 == 0,
            frame < 0x10_0000_0000_0000,
            w == 0 || w == 2,
            x == 0 || x == 0x8000_0000_0000_0000u64,
    ;
}

/// A new address space maps no user address.
pub proof fn law_new_space_maps_nothing(m: Map<u64, Seq<u64>>, root: u64, kernel: Seq<u64>, va: u64)
    requires
        m.contains_key(root),
        m[root] == fresh_root(kernel),
    ensures
        lookup(m, root, va) is Err,
{
    if user_address_error(va) is None {
        assert(pml4_slot(va) < KERNEL_HALF) by {
            assert(va < 0x8000_0000_0000);
        }
        lemma_present_nonzero(0);
    }
}

/// An entry of a kernel table: empty, a link to a table of `next`, or, where
/// `leaves` allows, a huge-page leaf.
pub open spec fn kernel_entry_ok(e: u64, next: Set<u64>, leaves: bool) -> bool {
    ||| e == 0
    ||| (present(e) && !huge(e) && next.contains(entry_addr(e)))
    ||| (leaves && present(e) && huge(e))
}

/// The kernel's tables under `root`: PML4 entries link tables of `l3`,
/// whose entries link tables of `l2` or map 1 GiB pages, whose entries link
/// tables of `l1` or map 2 MiB pages; the layers are disjoint and held in
/// memory.
pub open spec fn kernel_layered(m: Map<u64, Seq<u64>>, root: u64, l3: Set<u64>, l2: Set<u64>, l1: Set<u64>) -> bool {
    &&& forall|f: u64| #[trigger] m.contains_key(f) ==> m[f].len() == ENTRIES
    &&& m.contains_key(root)
    &&& forall|f: u64| #[trigger] l3.contains(f) ==> m.contains_key(f) && f != root && !l2.contains(f) && !l1.contains(f)
    &&& forall|f: u64| #[trigger] l2.contains(f) ==> m.contains_key(f) && f != root && !l1.contains(f)
    &&& forall|f: u64| #[trigger] l1.contains(f) ==> m.contains_key(f) && f != root
    &&& forall|i: int| 0 <= i < ENTRIES ==> kernel_entry_ok(#[trigger] m[root][i], l3, false)
    &&& forall|t: u64, i: int| l3.contains(t) && 0 <= i < ENTRIES ==> kernel_entry_ok(#[trigger] m[t][i], l2, true)
    &&& forall|t: u64, i: int| l2.contains(t) && 0 <= i < ENTRIES ==> kernel_entry_ok(#[trigger] m[t][i], l1, true)
}

pub const GIGABYTE_FRAME_MASK: u64 = 0x000f_ffff_c000_0000;
/// Present, writable, huge: the bits of the 2 MiB entries a split 1 GiB page becomes.
pub const HUGE_LEAF_BITS: u64 = 0x83;
/// Present, writable, no-execute: the bits of the 4 KiB entries a split 2 MiB page becomes.
pub const SPLIT_PAGE_BITS: u64 = 0x8000_0000_0000_0003;
pub const TWO_MIB_FRAME_MASK: u64 = 0x000f_ffff_ffe0_0000;

/// The physical address that `va` reaches through the kernel tables under
/// `root`, if it is mapped.
pub open spec fn resolve(m: Map<u64, Seq<u64>>, root: u64, va: u64) -> Option<int> {
    let e4 = m[root][pml4_slot(va)];
    if !present(e4) {
        None
    } else {
        let e3 = m[entry_addr(e4)][pdpt_slot(va)];
        if !present(e3) {
            None
        } else if huge(e3) {
            Some((e3 & GIGABYTE_FRAME_MASK) + va % 0x4000_0000)
        } else {
            let e2 = m[entry_addr(e3)][pd_slot(va)];
            if !present(e2) {
                None
            } else if huge(e2) {
                Some((e2 & TWO_MIB_FRAME_MASK) + va % 0x20_0000)
            } else {
                let e1 = m[entry_addr(e2)][pt_slot(va)];
                if !present(e1) {
                    None
                } else {
                    Some(entry_addr(e1) + va % 0x1000)
                }
            }
        }
    }
}

/// The leaf entry that maps `va` through the kernel tables under `root`,
/// with the size of the page it maps, if `va` is mapped.
#[verifier::opaque]
pub open spec fn leaf(m: Map<u64, Seq<u64>>, root: u64, va: u64) -> Option<(u64, u64)> {
    let e4 = m[root][pml4_slot(va)];
    if !present(e4) {
        None
    } else {
        let e3 = m[entry_addr(e4)][pdpt_slot(va)];
        if !present(e3) {
            None
        } else if huge(e3) {
            Some((e3, GIGABYTE))
        } else {
            let e2 = m[entry_addr(e3)][pd_slot(va)];
            if !present(e2) {
                None
            } else if huge(e2) {
                Some((e2, TWO_MIB))
            } else {
                let e1 = m[entry_addr(e2)][pt_slot(va)];
                if !present(e1) {
                    None
                } else {
                    Some((e1, PAGE_SIZE))
                }
            }
        }
    }
}

/// The walk of `va` under `root` passes through slot `i` of first-layer table `t`.
pub open spec fn reaches_pdpt_slot(m: Map<u64, Seq<u64>>, root: u64, va: u64, t: u64, i: int) -> bool {
    present(m[root][pml4_slot(va)]) && entry_addr(m[root][pml4_slot(va)]) == t && pdpt_slot(va) == i
}

/// The walk of `va` under `root` passes through slot `i` of second-layer table `t`.
pub open spec fn reaches_pd_slot(m: Map<u64, Seq<u64>>, root: u64, va: u64, t: u64, i: int) -> bool {
    let e4 = m[root][pml4_slot(va)];
    let e3 = m[entry_addr(e4)][pdpt_slot(va)];
    present(e4) && present(e3) && !huge(e3) && entry_addr(e3) == t && pd_slot(va) == i
}

/// From `m0` to `m1` the leaf of an address changed only where it lies in
/// `va`'s block of `size` bytes, or where its old leaf was a huge page
/// holding `va`.
#[verifier::opaque]
pub open spec fn leaves_kept(m0: Map<u64, Seq<u64>>, m1: Map<u64, Seq<u64>>, root: u64, va: u64, size: u64) -> bool {
    forall|x: u64|
        #[trigger] leaf(m1, root, x) == leaf(m0, root, x) || same_block(x, va, size) || (leaf(m0, root, x) matches Some(
            (e, s),
        ) && s > PAGE_SIZE && same_block(x, va, s))
}

/// Leaves that all stay as they were are kept.
proof fn lemma_leaves_kept_same(m0: Map<u64, Seq<u64>>, m1: Map<u64, Seq<u64>>, root: u64, va: u64, size: u64)
    requires
        leaves_same(m0, m1, root),
    ensures
        leaves_kept(m0, m1, root, va, size),
{
    reveal(leaves_kept);
    reveal(leaves_same);
}

/// A write that changes only the leaves of `va`'s 4 KiB page keeps the rest.
proof fn lemma_leaves_kept_page(m0: Map<u64, Seq<u64>>, m1: Map<u64, Seq<u64>>, root: u64, va: u64, size: u64)
    requires
        forall|x: u64| slots_of(x) != slots_of(va) ==> #[trigger] leaf(m1, root, x) == leaf(m0, root, x),
        size >= PAGE_SIZE,
        size == PAGE_SIZE || size == TWO_MIB || size == GIGABYTE,
    ensures
        leaves_kept(m0, m1, root, va, size),
{
    reveal(leaves_kept);
    assert forall|x: u64| #[trigger] leaf(m1, root, x) == leaf(m0, root, x) || same_block(x, va, size) || (leaf(
        m0,
        root,
        x,
    ) matches Some((e, s)) && s > PAGE_SIZE && same_block(x, va, s)) by {
        lemma_block_slots(x, va);
        if slots_of(x) == slots_of(va) {
            assert(same_block(x, va, PAGE_SIZE));
            assert(same_block(x, va, TWO_MIB));
            assert(same_block(x, va, GIGABYTE));
        }
    }
}

/// Every address keeps its leaf.
#[verifier::opaque]
pub open spec fn leaves_same(m0: Map<u64, Seq<u64>>, m1: Map<u64, Seq<u64>>, root: u64) -> bool {
    forall|x: u64| #[trigger] leaf(m1, root, x) == leaf(m0, root, x)
}

/// Every address keeps its leaf but those whose walk passes slot `i` of
/// first-layer table `t`.
#[verifier::opaque]
pub open spec fn leaves_same_off_pdpt(m0: Map<u64, Seq<u64>>, m1: Map<u64, Seq<u64>>, root: u64, t: u64, i: int) -> bool {
    forall|x: u64| !reaches_pdpt_slot(m0, root, x, t, i) ==> #[trigger] leaf(m1, root, x) == leaf(m0, root, x)
}

/// Every address keeps its leaf but those whose walk passes slot `i` of
/// second-layer table `t`.
#[verifier::opaque]
pub open spec fn leaves_same_off_pd(m0: Map<u64, Seq<u64>>, m1: Map<u64, Seq<u64>>, root: u64, t: u64, i: int) -> bool {
    forall|x: u64| !reaches_pd_slot(m0, root, x, t, i) ==> #[trigger] leaf(m1, root, x) == leaf(m0, root, x)
}

/// Every address of `va`'s block of `size` bytes has `entry` as its leaf,
/// a page of `size` bytes.
#[verifier::opaque]
pub open spec fn leaves_are(m: Map<u64, Seq<u64>>, root: u64, va: u64, size: u64, entry: u64) -> bool {
    forall|x: u64| same_block(x, va, size) ==> #[trigger] leaf(m, root, x) == Some((entry, size))
}

proof fn lemma_leaves_same_intro(m0: Map<u64, Seq<u64>>, m1: Map<u64, Seq<u64>>, root: u64)
    requires
        forall|x: u64| #[trigger] leaf(m1, root, x) == leaf(m0, root, x),
    ensures
        leaves_same(m0, m1, root),
{
    reveal(leaves_same);
}

proof fn lemma_leaves_same_off(m0: Map<u64, Seq<u64>>, m1: Map<u64, Seq<u64>>, root: u64, t: u64, i: int)
    requires
        leaves_same(m0, m1, root),
    ensures
        leaves_same_off_pdpt(m0, m1, root, t, i),
        leaves_same_off_pd(m0, m1, root, t, i),
{
    reveal(leaves_same);
    reveal(leaves_same_off_pdpt);
    reveal(leaves_same_off_pd);
}

proof fn lemma_leaves_off_pdpt_intro(m0: Map<u64, Seq<u64>>, m1: Map<u64, Seq<u64>>, root: u64, t: u64, i: int)
    requires
        forall|x: u64| !reaches_pdpt_slot(m0, root, x, t, i) ==> #[trigger] leaf(m1, root, x) == leaf(m0, root, x),
    ensures
        leaves_same_off_pdpt(m0, m1, root, t, i),
{
    reveal(leaves_same_off_pdpt);
}

proof fn lemma_leaves_off_pd_intro(m0: Map<u64, Seq<u64>>, m1: Map<u64, Seq<u64>>, root: u64, t: u64, i: int)
    requires
        forall|x: u64| !reaches_pd_slot(m0, root, x, t, i) ==> #[trigger] leaf(m1, root, x) == leaf(m0, root, x),
    ensures
        leaves_same_off_pd(m0, m1, root, t, i),
{
    reveal(leaves_same_off_pd);
}

proof fn lemma_leaves_kept_compose(
    m0: Map<u64, Seq<u64>>,
    m1: Map<u64, Seq<u64>>,
    m2: Map<u64, Seq<u64>>,
    root: u64,
    va: u64,
    size: u64,
)
    requires
        leaves_kept(m0, m1, root, va, size),
        leaves_kept(m1, m2, root, va, size),
    ensures
        leaves_kept(m0, m2, root, va, size),
{
    reveal(leaves_kept);
    assert forall|x: u64| #[trigger] leaf(m2, root, x) == leaf(m0, root, x) || same_block(x, va, size) || (leaf(
        m0,
        root,
        x,
    ) matches Some((e, s)) && s > PAGE_SIZE && same_block(x, va, s)) by {
        assert(leaf(m1, root, x) == leaf(m0, root, x) || same_block(x, va, size) || (leaf(m0, root, x) matches Some(
            (e, s),
        ) && s > PAGE_SIZE && same_block(x, va, s)));
        assert(leaf(m2, root, x) == leaf(m1, root, x) || same_block(x, va, size) || (leaf(m1, root, x) matches Some(
            (e, s),
        ) && s > PAGE_SIZE && same_block(x, va, s)));
    }
}

/// The 2 MiB entry `i` of the directory that replaces the 1 GiB page `e`.
pub open spec fn gigabyte_split_entry(e: u64, i: int) -> u64 {
    (((e & GIGABYTE_FRAME_MASK) + i * 0x20_0000) as u64) | HUGE_LEAF_BITS
}

/// The 4 KiB entry `i` of the table that replaces the 2 MiB page `e`.
pub open spec fn two_mib_split_entry(e: u64, i: int) -> u64 {
    (((e & TWO_MIB_FRAME_MASK) + i * 0x1000) as u64) | SPLIT_PAGE_BITS
}

/// Splitting a 1 GiB page into 2 MiB pages keeps every address of it at the
/// same physical address.
pub proof fn law_gigabyte_split_keeps_addresses(e: u64, offset: u64)
    requires
        offset < 0x4000_0000,
    ensures
        present(gigabyte_split_entry(e, offset as int / 0x20_0000)),
        huge(gigabyte_split_entry(e, offset as int / 0x20_0000)),
        (gigabyte_split_entry(e, offset as int / 0x20_0000) & TWO_MIB_FRAME_MASK) + offset % 0x20_0000 == (e
            & GIGABYTE_FRAME_MASK) + offset,
{
    let i: u64 = offset / 0x20_0000;
    let old: u64 = e & GIGABYTE_FRAME_MASK;
    assert(old + i * 0x20_0000 == old | (offset & 0x3fe0_0000u64)) by (bit_vector)
        requires
            old == e & 0x000f_ffff_c000_0000u64,
            i == offset / 0x20_0000,
            offset < 0x4000_0000,
    ;
    let v: u64 = old | (offset & 0x3fe0_0000u64);
    assert(((v | 0x83u64) & 1 != 0) && ((v | 0x83u64) & 0x80 != 0) && (v | 0x83u64) & 0x000f_ffff_ffe0_0000u64 == v
        && v + offset % 0x20_0000 == old + offset) by (bit_vector)
        requires
            old == e & 0x000f_ffff_c000_0000u64,
            v == old | (offset & 0x3fe0_0000u64),
            offset < 0x4000_0000,
    ;
}

/// Splitting a 2 MiB page into 4 KiB pages keeps every address of it at the
/// same physical address.
pub proof fn law_two_mib_split_keeps_addresses(e: u64, offset: u64)
    requires
        offset < 0x20_0000,
    ensures
        present(two_mib_split_entry(e, offset as int / 0x1000)),
        entry_addr(two_mib_split_entry(e, offset as int / 0x1000)) + offset % 0x1000 == (e & TWO_MIB_FRAME_MASK)
            + offset,
{
    let i: u64 = offset / 0x1000;
    let old: u64 = e & TWO_MIB_FRAME_MASK;
    assert(old + i * 0x1000 == old | (offset & 0x1f_f000u64)) by (bit_vector)
        requires
            old == e & 0x000f_ffff_ffe0_0000u64,
            i == offset / 0x1000,
            offset < 0x20_0000,
    ;
    let v: u64 = old | (offset & 0x1f_f000u64);
    assert(((v | 0x8000_0000_0000_0003u64) & 1 != 0) && ((v | 0x8000_0000_0000_0003u64) & 0x000f_ffff_ffff_f000u64
        == v) && v + offset % 0x1000 == old + offset) by (bit_vector)
        requires
            old == e & 0x000f_ffff_ffe0_0000u64,
            v == old | (offset & 0x1f_f000u64),
            offset < 0x20_0000,
    ;
}

proof fn lemma_k_fresh(m: Map<u64, Seq<u64>>, root: u64, l3: Set<u64>, l2: Set<u64>, l1: Set<u64>, f: u64)
    requires
        kernel_layered(m, root, l3, l2, l1),
        !m.contains_key(f),
    ensures
        kernel_layered(m.insert(f, zero_table()), root, l3, l2, l1),
{
    let m2 = m.insert(f, zero_table());
    assert forall|i: int| 0 <= i < ENTRIES implies kernel_entry_ok(#[trigger] m2[root][i], l3, false) by {
        assert(m2[root] == m[root]);
    }
    assert forall|t: u64, i: int| l3.contains(t) && 0 <= i < ENTRIES implies kernel_entry_ok(
        #[trigger] m2[t][i],
        l2,
        true,
    ) by {
        assert(m2[t] == m[t]);
    }
    assert forall|t: u64, i: int| l2.contains(t) && 0 <= i < ENTRIES implies kernel_entry_ok(
        #[trigger] m2[t][i],
        l1,
        true,
    ) by {
        assert(m2[t] == m[t]);
    }
}

/// Linking table `f` from slot `i` of table `t`, one layer above `f`'s
/// new layer: `level` 4 links from the PML4 into the first layer, 3 from
/// the first layer into the second, 2 from the second into the third.
proof fn lemma_k_link(
    m: Map<u64, Seq<u64>>,
    root: u64,
    l3: Set<u64>,
    l2: Set<u64>,
    l1: Set<u64>,
    level: int,
    t: u64,
    i: int,
    f: u64,
)
    requires
        kernel_layered(m, root, l3, l2, l1),
        2 <= level <= 4,
        level == 4 ==> t == root,
        level == 3 ==> l3.contains(t),
        level == 2 ==> l2.contains(t),
        0 <= i < ENTRIES,
        m.contains_key(f),
        f != root && !l3.contains(f) && !l2.contains(f) && !l1.contains(f),
        f % 0x1000 == 0,
        f < 0x1_0000_0000,
        level == 4 ==> forall|j: int| 0 <= j < ENTRIES ==> kernel_entry_ok(#[trigger] m[f][j], l2, true),
        level == 3 ==> forall|j: int| 0 <= j < ENTRIES ==> kernel_entry_ok(#[trigger] m[f][j], l1, true),
    ensures
        level == 4 ==> kernel_layered(m.insert(t, m[t].update(i, link(f))), root, l3.insert(f), l2, l1),
        level == 3 ==> kernel_layered(m.insert(t, m[t].update(i, link(f))), root, l3, l2.insert(f), l1),
        level == 2 ==> kernel_layered(m.insert(t, m[t].update(i, link(f))), root, l3, l2, l1.insert(f)),
{
    lemma_link(f);
    let m2 = m.insert(t, m[t].update(i, link(f)));
    let n3 = if level == 4 { l3.insert(f) } else { l3 };
    let n2 = if level == 3 { l2.insert(f) } else { l2 };
    let n1 = if level == 2 { l1.insert(f) } else { l1 };
    assert forall|j: int| 0 <= j < ENTRIES implies kernel_entry_ok(#[trigger] m2[root][j], n3, false) by {
        if !(t == root && j == i) {
            assert(m2[root][j] == m[root][j]);
            assert(kernel_entry_ok(m[root][j], l3, false));
        }
    }
    assert forall|u: u64, j: int| n3.contains(u) && 0 <= j < ENTRIES implies kernel_entry_ok(
        #[trigger] m2[u][j],
        n2,
        true,
    ) by {
        if u == f {
            assert(m2[u] == m[f]);
        } else if u == t && j == i {
        } else {
            assert(m2[u][j] == m[u][j]);
            assert(kernel_entry_ok(m[u][j], l2, true));
        }
    }
    assert forall|u: u64, j: int| n2.contains(u) && 0 <= j < ENTRIES implies kernel_entry_ok(
        #[trigger] m2[u][j],
        n1,
        true,
    ) by {
        if u == f {
            assert(m2[u] == m[f]);
        } else if u == t && j == i {
        } else {
            assert(m2[u][j] == m[u][j]);
            assert(kernel_entry_ok(m[u][j], l1, true));
        }
    }
}

/// Any write into a third-layer table keeps the layers.
proof fn lemma_k_leaf_write(
    m: Map<u64, Seq<u64>>,
    root: u64,
    l3: Set<u64>,
    l2: Set<u64>,
    l1: Set<u64>,
    t: u64,
    i: int,
    v: u64,
)
    requires
        kernel_layered(m, root, l3, l2, l1),
        l1.contains(t),
        0 <= i < ENTRIES,
    ensures
        kernel_layered(m.insert(t, m[t].update(i, v)), root, l3, l2, l1),
{
    let m2 = m.insert(t, m[t].update(i, v));
    assert forall|j: int| 0 <= j < ENTRIES implies kernel_entry_ok(#[trigger] m2[root][j], l3, false) by {
        assert(m2[root] == m[root]);
    }
    assert forall|u: u64, j: int| l3.contains(u) && 0 <= j < ENTRIES implies kernel_entry_ok(
        #[trigger] m2[u][j],
        l2,
        true,
    ) by {
        assert(m2[u] == m[u]);
    }
    assert forall|u: u64, j: int| l2.contains(u) && 0 <= j < ENTRIES implies kernel_entry_ok(
        #[trigger] m2[u][j],
        l1,
        true,
    ) by {
        assert(m2[u] == m[u]);
    }
}

/// Replacing the table in a frame that no layer holds keeps the layers.
proof fn lemma_k_unlinked_row(
    m: Map<u64, Seq<u64>>,
    root: u64,
    l3: Set<u64>,
    l2: Set<u64>,
    l1: Set<u64>,
    f: u64,
    row: Seq<u64>,
)
    requires
        kernel_layered(m, root, l3, l2, l1),
        f != root && !l3.contains(f) && !l2.contains(f) && !l1.contains(f),
        row.len() == ENTRIES,
    ensures
        kernel_layered(m.insert(f, row), root, l3, l2, l1),
{
    let m2 = m.insert(f, row);
    assert forall|j: int| 0 <= j < ENTRIES implies kernel_entry_ok(#[trigger] m2[root][j], l3, false) by {
        assert(m2[root] == m[root]);
    }
    assert forall|t: u64, j: int| l3.contains(t) && 0 <= j < ENTRIES implies kernel_entry_ok(
        #[trigger] m2[t][j],
        l2,
        true,
    ) by {
        assert(m2[t] == m[t]);
    }
    assert forall|t: u64, j: int| l2.contains(t) && 0 <= j < ENTRIES implies kernel_entry_ok(
        #[trigger] m2[t][j],
        l1,
        true,
    ) by {
        assert(m2[t] == m[t]);
    }
}

/// The table whose entry `i` is `(first + i * step) | bits`.
pub open spec fn run_table(first: u64, step: u64, bits: u64) -> Seq<u64> {
    Seq::new(ENTRIES as nat, |i: int| ((first + i * step) as u64) | bits)
}

/// Fills the table in `frame` with the entries of `run_table`.
fn fill_run(mem: &mut PageTableMemory, frame: u64, first: u64, step: u64, bits: u64)
    requires
        old(mem).wf(),
        old(mem)@.contains_key(frame),
        first + 511 * step <= u64::MAX,
    ensures
        final(mem).wf(),
        final(mem)@ == old(mem)@.insert(frame, run_table(first, step, bits)),
{
    let ghost m0 = mem@;
    proof {
        assert(Seq::new(ENTRIES as nat, |j: int| if j < 0 { ((first + j * step) as u64) | bits } else { m0[frame][j] })
            =~= m0[frame]);
        assert(m0.insert(
            frame,
            Seq::new(ENTRIES as nat, |j: int| if j < 0 { ((first + j * step) as u64) | bits } else { m0[frame][j] }),
        ) =~= m0);
    }
    let mut i: usize = 0;
    while i < ENTRIES
        invariant
            mem.wf(),
            0 <= i <= ENTRIES,
            first + 511 * step <= u64::MAX,
            mem@.contains_key(frame),
            mem@ == m0.insert(
                frame,
                Seq::new(ENTRIES as nat, |j: int| if j < i { ((first + j * step) as u64) | bits } else { m0[frame][j] }),
            ),
        decreases ENTRIES - i,
    {
        proof {
            assert(i * step <= 511 * step) by (nonlinear_arith)
                requires
                    i < ENTRIES,
            ;
        }
        let value = (first + (i as u64) * step) | bits;
        mem.write(frame, i, value);
        proof {
            assert(mem@[frame] =~= Seq::new(
                ENTRIES as nat,
                |j: int| if j < i + 1 { ((first + j * step) as u64) | bits } else { m0[frame][j] },
            ));
            assert(mem@ =~= m0.insert(
                frame,
                Seq::new(ENTRIES as nat, |j: int| if j < i + 1 { ((first + j * step) as u64) | bits } else { m0[frame][j] }),
            ));
        }
        i = i + 1;
    }
    proof {
        assert(mem@[frame] =~= run_table(first, step, bits));
        assert(mem@ =~= m0.insert(frame, run_table(first, step, bits)));
    }
}

/// The entry links a table.
pub open spec fn is_link(e: u64) -> bool {
    present(e) && !huge(e)
}

/// The four table slots of `va`.
pub open spec fn slots_of(va: u64) -> (int, int, int, int) {
    (pml4_slot(va), pdpt_slot(va), pd_slot(va), pt_slot(va))
}

/// No two filled PML4 slots, and no two links of first-layer or of
/// second-layer tables, lead to the same table: each table has one parent.
pub open spec fn kernel_tree(m: Map<u64, Seq<u64>>, root: u64, l3: Set<u64>, l2: Set<u64>) -> bool {
    &&& forall|i: int, j: int|
        0 <= i < ENTRIES && 0 <= j < ENTRIES && #[trigger] m[root][i] != 0 && #[trigger] m[root][j] != 0
            && entry_addr(m[root][i]) == entry_addr(m[root][j]) ==> i == j
    &&& forall|t: u64, i: int, u: u64, j: int|
        l3.contains(t) && l3.contains(u) && 0 <= i < ENTRIES && 0 <= j < ENTRIES && is_link(#[trigger] m[t][i])
            && is_link(#[trigger] m[u][j]) && entry_addr(m[t][i]) == entry_addr(m[u][j]) ==> t == u && i == j
    &&& forall|t: u64, i: int, u: u64, j: int|
        l2.contains(t) && l2.contains(u) && 0 <= i < ENTRIES && 0 <= j < ENTRIES && is_link(#[trigger] m[t][i])
            && is_link(#[trigger] m[u][j]) && entry_addr(m[t][i]) == entry_addr(m[u][j]) ==> t == u && i == j
}

/// Replacing the table of a frame outside the tree keeps one parent per
/// table, and every resolved address.
proof fn lemma_k_outside_row(
    m: Map<u64, Seq<u64>>,
    root: u64,
    l3: Set<u64>,
    l2: Set<u64>,
    l1: Set<u64>,
    f: u64,
    row: Seq<u64>,
)
    requires
        kernel_layered(m, root, l3, l2, l1),
        kernel_tree(m, root, l3, l2),
        f != root && !l3.contains(f) && !l2.contains(f) && !l1.contains(f),
    ensures
        kernel_tree(m.insert(f, row), root, l3, l2),
        forall|x: u64| #[trigger] resolve(m.insert(f, row), root, x) == resolve(m, root, x),
        forall|x: u64| #[trigger] leaf(m.insert(f, row), root, x) == leaf(m, root, x),
{
    reveal(leaf);
    let m2 = m.insert(f, row);
    assert(m2[root] == m[root]);
    assert forall|t: u64| l3.contains(t) || l2.contains(t) || l1.contains(t) implies m2[t] == m[t] by {}
    assert forall|x: u64| #[trigger] resolve(m2, root, x) == resolve(m, root, x) by {
        let e4 = m[root][pml4_slot(x)];
        assert(kernel_entry_ok(e4, l3, false));
        lemma_present_nonzero(e4);
        if present(e4) {
            let p = entry_addr(e4);
            let e3 = m[p][pdpt_slot(x)];
            assert(kernel_entry_ok(e3, l2, true));
            lemma_present_nonzero(e3);
            if present(e3) && !huge(e3) {
                let d = entry_addr(e3);
                let e2 = m[d][pd_slot(x)];
                assert(kernel_entry_ok(e2, l1, true));
                lemma_present_nonzero(e2);
            }
        }
    }
    assert forall|x: u64| #[trigger] leaf(m2, root, x) == leaf(m, root, x) by {
        let e4 = m[root][pml4_slot(x)];
        assert(kernel_entry_ok(e4, l3, false));
        lemma_present_nonzero(e4);
        if present(e4) {
            let p = entry_addr(e4);
            let e3 = m[p][pdpt_slot(x)];
            assert(kernel_entry_ok(e3, l2, true));
            lemma_present_nonzero(e3);
            if present(e3) && !huge(e3) {
                let d = entry_addr(e3);
                let e2 = m[d][pd_slot(x)];
                assert(kernel_entry_ok(e2, l1, true));
                lemma_present_nonzero(e2);
            }
        }
    }
}

/// Linking table `f` from slot `i` of table `t` at `level` (4: the PML4,
/// 3: a first-layer table, 2: a second-layer table), where the slot held no
/// link: one parent per table is kept.
proof fn lemma_k_tree_link(
    m: Map<u64, Seq<u64>>,
    root: u64,
    l3: Set<u64>,
    l2: Set<u64>,
    l1: Set<u64>,
    level: int,
    t: u64,
    i: int,
    f: u64,
)
    requires
        kernel_layered(m, root, l3, l2, l1),
        kernel_tree(m, root, l3, l2),
        2 <= level <= 4,
        level == 4 ==> t == root,
        level == 3 ==> l3.contains(t),
        level == 2 ==> l2.contains(t),
        0 <= i < ENTRIES,
        !is_link(m[t][i]),
        level == 4 ==> m[t][i] == 0,
        m.contains_key(f),
        f != root && !l3.contains(f) && !l2.contains(f) && !l1.contains(f),
        f % 0x1000 == 0,
        f < 0x1_0000_0000,
        level >= 3 ==> forall|j: int| 0 <= j < ENTRIES ==> !is_link(#[trigger] m[f][j]),
        level == 4 ==> forall|j: int| 0 <= j < ENTRIES ==> #[trigger] m[f][j] == 0,
    ensures
        level == 4 ==> kernel_tree(m.insert(t, m[t].update(i, link(f))), root, l3.insert(f), l2),
        level == 3 ==> kernel_tree(m.insert(t, m[t].update(i, link(f))), root, l3, l2.insert(f)),
        level == 2 ==> kernel_tree(m.insert(t, m[t].update(i, link(f))), root, l3, l2),
{
    lemma_link(f);
    let m2 = m.insert(t, m[t].update(i, link(f)));
    let n3 = if level == 4 { l3.insert(f) } else { l3 };
    let n2 = if level == 3 { l2.insert(f) } else { l2 };
    assert forall|a: int, b: int|
        0 <= a < ENTRIES && 0 <= b < ENTRIES && #[trigger] m2[root][a] != 0 && #[trigger] m2[root][b] != 0
            && entry_addr(m2[root][a]) == entry_addr(m2[root][b]) implies a == b by {
        if level == 4 {
            if a != i && b != i {
                assert(m2[root][a] == m[root][a] && m2[root][b] == m[root][b]);
            } else if a == i && b != i {
                assert(kernel_entry_ok(m[root][b], l3, false));
                assert(m2[root][b] == m[root][b]);
            } else if b == i && a != i {
                assert(kernel_entry_ok(m[root][a], l3, false));
                assert(m2[root][a] == m[root][a]);
            }
        } else {
            assert(m2[root] == m[root]);
        }
    }
    assert forall|u: u64, a: int, w: u64, b: int|
        n3.contains(u) && n3.contains(w) && 0 <= a < ENTRIES && 0 <= b < ENTRIES && is_link(#[trigger] m2[u][a])
            && is_link(#[trigger] m2[w][b]) && entry_addr(m2[u][a]) == entry_addr(m2[w][b]) implies u == w && a
        == b by {
        lemma_present_nonzero(0);
        if level == 4 {
            if u == f {
                assert(m2[f][a] == 0);
                assert(!is_link(m2[u][a]));
            } else if w == f {
                assert(m2[f][b] == 0);
                assert(!is_link(m2[w][b]));
            } else {
                assert(l3.contains(u) && l3.contains(w));
                assert(m2[u] == m[u] && m2[w] == m[w]);
                assert(is_link(m[u][a]) && is_link(m[w][b]));
            }
        } else if level == 3 {
            let ua = (u == t && a == i);
            let wb = (w == t && b == i);
            if !ua && !wb {
                assert(m2[u][a] == m[u][a] && m2[w][b] == m[w][b]);
                assert(is_link(m[u][a]) && is_link(m[w][b]));
            } else if ua && !wb {
                assert(m2[w][b] == m[w][b]);
                assert(kernel_entry_ok(m[w][b], l2, true));
            } else if wb && !ua {
                assert(m2[u][a] == m[u][a]);
                assert(kernel_entry_ok(m[u][a], l2, true));
            }
        } else {
            assert(m2[u] == m[u] && m2[w] == m[w]);
        }
    }
    assert forall|u: u64, a: int, w: u64, b: int|
        n2.contains(u) && n2.contains(w) && 0 <= a < ENTRIES && 0 <= b < ENTRIES && is_link(#[trigger] m2[u][a])
            && is_link(#[trigger] m2[w][b]) && entry_addr(m2[u][a]) == entry_addr(m2[w][b]) implies u == w && a
        == b by {
        lemma_present_nonzero(0);
        if level == 3 {
            if u == f {
                assert(m2[f][a] == m[f][a]);
                assert(!is_link(m[f][a]));
            } else if w == f {
                assert(m2[f][b] == m[f][b]);
                assert(!is_link(m[f][b]));
            } else {
                assert(l2.contains(u) && l2.contains(w));
                assert(m2[u] == m[u] && m2[w] == m[w]);
                assert(is_link(m[u][a]) && is_link(m[w][b]));
            }
        } else if level == 2 {
            let ua = (u == t && a == i);
            let wb = (w == t && b == i);
            if !ua && !wb {
                assert(m2[u][a] == m[u][a] && m2[w][b] == m[w][b]);
                assert(is_link(m[u][a]) && is_link(m[w][b]));
            } else if ua && !wb {
                assert(m2[w][b] == m[w][b]);
                assert(kernel_entry_ok(m[w][b], l1, true));
            } else if wb && !ua {
                assert(m2[u][a] == m[u][a]);
                assert(kernel_entry_ok(m[u][a], l1, true));
            }
        } else {
            assert(m2[u] == m[u] && m2[w] == m[w]);
        }
    }
}

/// Linking a table that maps nothing from an empty slot changes no
/// resolved address.
proof fn lemma_resolve_link_empty(
    m: Map<u64, Seq<u64>>,
    root: u64,
    l3: Set<u64>,
    l2: Set<u64>,
    l1: Set<u64>,
    level: int,
    t: u64,
    i: int,
    f: u64,
)
    requires
        kernel_layered(m, root, l3, l2, l1),
        2 <= level <= 4,
        level == 4 ==> t == root,
        level == 3 ==> l3.contains(t),
        level == 2 ==> l2.contains(t),
        0 <= i < ENTRIES,
        m[t][i] == 0,
        m.contains_key(f),
        f != t,
        forall|j: int| 0 <= j < ENTRIES ==> #[trigger] m[f][j] == 0,
        f % 0x1000 == 0,
        f < 0x1_0000_0000,
    ensures
        forall|x: u64| #[trigger] resolve(m.insert(t, m[t].update(i, link(f))), root, x) == resolve(m, root, x),        forall|x: u64| #[trigger] leaf(m.insert(t, m[t].update(i, link(f))), root, x) == leaf(m, root, x),
{
    reveal(leaf);
    lemma_link(f);
    lemma_present_nonzero(0);
    let m2 = m.insert(t, m[t].update(i, link(f)));
    assert forall|x: u64| #[trigger] resolve(m2, root, x) == resolve(m, root, x) by {
        let s4 = pml4_slot(x);
        let e4 = m[root][s4];
        assert(kernel_entry_ok(e4, l3, false));
        lemma_present_nonzero(e4);
        if level == 4 && s4 == i {
            assert(m2[root][s4] == link(f));
            assert(m2[f] == m[f]);
            assert(m2[f][pdpt_slot(x)] == 0);
        } else {
            assert(m2[root][s4] == e4);
            if present(e4) {
                let p = entry_addr(e4);
                let e3 = m[p][pdpt_slot(x)];
                assert(kernel_entry_ok(e3, l2, true));
                lemma_present_nonzero(e3);
                if level == 3 && p == t && pdpt_slot(x) == i {
                    assert(m2[p][pdpt_slot(x)] == link(f));
                    assert(m2[f] == m[f]);
                    assert(m2[f][pd_slot(x)] == 0);
                } else {
                    assert(m2[p][pdpt_slot(x)] == e3);
                    if present(e3) && !huge(e3) {
                        let d = entry_addr(e3);
                        let e2 = m[d][pd_slot(x)];
                        assert(kernel_entry_ok(e2, l1, true));
                        lemma_present_nonzero(e2);
                        if level == 2 && d == t && pd_slot(x) == i {
                            assert(m2[d][pd_slot(x)] == link(f));
                            assert(m2[f] == m[f]);
                            assert(m2[f][pt_slot(x)] == 0);
                        } else {
                            assert(m2[d][pd_slot(x)] == e2);
                            if present(e2) && !huge(e2) {
                                let q = entry_addr(e2);
                                assert(l1.contains(q));
                                assert(m2[q] == m[q]);
                            }
                        }
                    }
                }
            }
        }
    }
    assert forall|x: u64| #[trigger] leaf(m2, root, x) == leaf(m, root, x) by {
        let s4 = pml4_slot(x);
        let e4 = m[root][s4];
        assert(kernel_entry_ok(e4, l3, false));
        lemma_present_nonzero(e4);
        if level == 4 && s4 == i {
            assert(m2[root][s4] == link(f));
            assert(m2[f] == m[f]);
            assert(m2[f][pdpt_slot(x)] == 0);
        } else {
            assert(m2[root][s4] == e4);
            if present(e4) {
                let p = entry_addr(e4);
                let e3 = m[p][pdpt_slot(x)];
                assert(kernel_entry_ok(e3, l2, true));
                lemma_present_nonzero(e3);
                if level == 3 && p == t && pdpt_slot(x) == i {
                    assert(m2[p][pdpt_slot(x)] == link(f));
                    assert(m2[f] == m[f]);
                    assert(m2[f][pd_slot(x)] == 0);
                } else {
                    assert(m2[p][pdpt_slot(x)] == e3);
                    if present(e3) && !huge(e3) {
                        let d = entry_addr(e3);
                        let e2 = m[d][pd_slot(x)];
                        assert(kernel_entry_ok(e2, l1, true));
                        lemma_present_nonzero(e2);
                        if level == 2 && d == t && pd_slot(x) == i {
                            assert(m2[d][pd_slot(x)] == link(f));
                            assert(m2[f] == m[f]);
                            assert(m2[f][pt_slot(x)] == 0);
                        } else {
                            assert(m2[d][pd_slot(x)] == e2);
                            if present(e2) && !huge(e2) {
                                let q = entry_addr(e2);
                                assert(l1.contains(q));
                                assert(m2[q] == m[q]);
                            }
                        }
                    }
                }
            }
        }
    }
}

/// The slots below a 1 GiB or 2 MiB page come from the offset inside it.
proof fn lemma_offsets_in_huge_pages(x: u64)
    ensures
        pd_slot(x) == (x % 0x4000_0000) / 0x20_0000,
        x % 0x20_0000 == (x % 0x4000_0000) % 0x20_0000,
        pt_slot(x) == (x % 0x20_0000) / 0x1000,
        x % 0x1000 == (x % 0x20_0000) % 0x1000,
{
    assert((x / 0x20_0000) % 512 == (x % 0x4000_0000) / 0x20_0000 && x % 0x20_0000 == (x % 0x4000_0000) % 0x20_0000
        && (x / 0x1000) % 512 == (x % 0x20_0000) / 0x1000 && x % 0x1000 == (x % 0x20_0000) % 0x1000) by (bit_vector);
}

/// Replacing a 1 GiB page of a first-layer table by a link to the directory
/// of its 2 MiB pieces changes no resolved address.
proof fn lemma_resolve_split_gigabyte(
    m: Map<u64, Seq<u64>>,
    root: u64,
    l3: Set<u64>,
    l2: Set<u64>,
    l1: Set<u64>,
    t: u64,
    i: int,
    d: u64,
)
    requires
        kernel_layered(m, root, l3, l2, l1),
        l3.contains(t),
        0 <= i < ENTRIES,
        present(m[t][i]) && huge(m[t][i]),
        m.contains_key(d),
        d != t,
        forall|j: int| 0 <= j < ENTRIES ==> #[trigger] m[d][j] == gigabyte_split_entry(m[t][i], j),
        d % 0x1000 == 0,
        d < 0x1_0000_0000,
    ensures
        forall|x: u64| #[trigger] resolve(m.insert(t, m[t].update(i, link(d))), root, x) == resolve(m, root, x),        forall|x: u64|
            !reaches_pdpt_slot(m, root, x, t, i) ==> #[trigger] leaf(m.insert(t, m[t].update(i, link(d))), root, x) == leaf(
                m,
                root,
                x,
            ),
{
    reveal(leaf);
    lemma_link(d);
    let e = m[t][i];
    let m2 = m.insert(t, m[t].update(i, link(d)));
    assert forall|x: u64| #[trigger] resolve(m2, root, x) == resolve(m, root, x) by {
        let s4 = pml4_slot(x);
        let e4 = m[root][s4];
        assert(kernel_entry_ok(e4, l3, false));
        lemma_present_nonzero(e4);
        assert(m2[root] == m[root]);
        if present(e4) {
            let p = entry_addr(e4);
            if p == t && pdpt_slot(x) == i {
                let offset = (x % 0x4000_0000) as u64;
                lemma_offsets_in_huge_pages(x);
                law_gigabyte_split_keeps_addresses(e, offset);
                assert(m2[t][i] == link(d));
                assert(m2[d] == m[d]);
                assert(m2[d][pd_slot(x)] == gigabyte_split_entry(e, pd_slot(x)));
            } else {
                let e3 = m[p][pdpt_slot(x)];
                assert(m2[p][pdpt_slot(x)] == e3);
                assert(kernel_entry_ok(e3, l2, true));
                lemma_present_nonzero(e3);
                if present(e3) && !huge(e3) {
                    let q = entry_addr(e3);
                    assert(m2[q] == m[q]);
                    let e2 = m[q][pd_slot(x)];
                    assert(kernel_entry_ok(e2, l1, true));
                    lemma_present_nonzero(e2);
                    if present(e2) && !huge(e2) {
                        assert(m2[entry_addr(e2)] == m[entry_addr(e2)]);
                    }
                }
            }
        }
    }
    assert forall|x: u64| !reaches_pdpt_slot(m, root, x, t, i) implies #[trigger] leaf(m2, root, x) == leaf(m, root, x) by {
        let s4 = pml4_slot(x);
        let e4 = m[root][s4];
        assert(kernel_entry_ok(e4, l3, false));
        lemma_present_nonzero(e4);
        assert(m2[root] == m[root]);
        if present(e4) {
            let p = entry_addr(e4);
            if p == t && pdpt_slot(x) == i {
                let offset = (x % 0x4000_0000) as u64;
                lemma_offsets_in_huge_pages(x);
                law_gigabyte_split_keeps_addresses(e, offset);
                assert(m2[t][i] == link(d));
                assert(m2[d] == m[d]);
                assert(m2[d][pd_slot(x)] == gigabyte_split_entry(e, pd_slot(x)));
            } else {
                let e3 = m[p][pdpt_slot(x)];
                assert(m2[p][pdpt_slot(x)] == e3);
                assert(kernel_entry_ok(e3, l2, true));
                lemma_present_nonzero(e3);
                if present(e3) && !huge(e3) {
                    let q = entry_addr(e3);
                    assert(m2[q] == m[q]);
                    let e2 = m[q][pd_slot(x)];
                    assert(kernel_entry_ok(e2, l1, true));
                    lemma_present_nonzero(e2);
                    if present(e2) && !huge(e2) {
                        assert(m2[entry_addr(e2)] == m[entry_addr(e2)]);
                    }
                }
            }
        }
    }
}

/// Replacing a 2 MiB page of a second-layer table by a link to the table of
/// its 4 KiB pieces changes no resolved address.
proof fn lemma_resolve_split_two_mib(
    m: Map<u64, Seq<u64>>,
    root: u64,
    l3: Set<u64>,
    l2: Set<u64>,
    l1: Set<u64>,
    t: u64,
    i: int,
    d: u64,
)
    requires
        kernel_layered(m, root, l3, l2, l1),
        l2.contains(t),
        0 <= i < ENTRIES,
        present(m[t][i]) && huge(m[t][i]),
        m.contains_key(d),
        d != t,
        forall|j: int| 0 <= j < ENTRIES ==> #[trigger] m[d][j] == two_mib_split_entry(m[t][i], j),
        d % 0x1000 == 0,
        d < 0x1_0000_0000,
    ensures
        forall|x: u64| #[trigger] resolve(m.insert(t, m[t].update(i, link(d))), root, x) == resolve(m, root, x),        forall|x: u64|
            !reaches_pd_slot(m, root, x, t, i) ==> #[trigger] leaf(m.insert(t, m[t].update(i, link(d))), root, x) == leaf(
                m,
                root,
                x,
            ),
{
    reveal(leaf);
    lemma_link(d);
    let e = m[t][i];
    let m2 = m.insert(t, m[t].update(i, link(d)));
    assert forall|x: u64| #[trigger] resolve(m2, root, x) == resolve(m, root, x) by {
        let s4 = pml4_slot(x);
        let e4 = m[root][s4];
        assert(kernel_entry_ok(e4, l3, false));
        lemma_present_nonzero(e4);
        assert(m2[root] == m[root]);
        if present(e4) {
            let p = entry_addr(e4);
            assert(m2[p] == m[p]);
            let e3 = m[p][pdpt_slot(x)];
            assert(kernel_entry_ok(e3, l2, true));
            lemma_present_nonzero(e3);
            if present(e3) && !huge(e3) {
                let q = entry_addr(e3);
                if q == t && pd_slot(x) == i {
                    let offset = (x % 0x20_0000) as u64;
                    lemma_offsets_in_huge_pages(x);
                    law_two_mib_split_keeps_addresses(e, offset);
                    assert(m2[t][i] == link(d));
                    assert(m2[d] == m[d]);
                    assert(m2[d][pt_slot(x)] == two_mib_split_entry(e, pt_slot(x)));
                } else {
                    let e2 = m[q][pd_slot(x)];
                    assert(m2[q][pd_slot(x)] == e2);
                    assert(kernel_entry_ok(e2, l1, true));
                    lemma_present_nonzero(e2);
                    if present(e2) && !huge(e2) {
                        assert(m2[entry_addr(e2)] == m[entry_addr(e2)]);
                    }
                }
            }
        }
    }
    assert forall|x: u64| !reaches_pd_slot(m, root, x, t, i) implies #[trigger] leaf(m2, root, x) == leaf(m, root, x) by {
        let s4 = pml4_slot(x);
        let e4 = m[root][s4];
        assert(kernel_entry_ok(e4, l3, false));
        lemma_present_nonzero(e4);
        assert(m2[root] == m[root]);
        if present(e4) {
            let p = entry_addr(e4);
            assert(m2[p] == m[p]);
            let e3 = m[p][pdpt_slot(x)];
            assert(kernel_entry_ok(e3, l2, true));
            lemma_present_nonzero(e3);
            if present(e3) && !huge(e3) {
                let q = entry_addr(e3);
                if q == t && pd_slot(x) == i {
                    let offset = (x % 0x20_0000) as u64;
                    lemma_offsets_in_huge_pages(x);
                    law_two_mib_split_keeps_addresses(e, offset);
                    assert(m2[t][i] == link(d));
                    assert(m2[d] == m[d]);
                    assert(m2[d][pt_slot(x)] == two_mib_split_entry(e, pt_slot(x)));
                } else {
                    let e2 = m[q][pd_slot(x)];
                    assert(m2[q][pd_slot(x)] == e2);
                    assert(kernel_entry_ok(e2, l1, true));
                    lemma_present_nonzero(e2);
                    if present(e2) && !huge(e2) {
                        assert(m2[entry_addr(e2)] == m[entry_addr(e2)]);
                    }
                }
            }
        }
    }
}

/// Writing the entry of `va` in its page table changes the resolution of
/// no address whose slots differ from those of `va`.
proof fn lemma_resolve_leaf(
    m: Map<u64, Seq<u64>>,
    root: u64,
    l3: Set<u64>,
    l2: Set<u64>,
    l1: Set<u64>,
    va: u64,
    pdpt: u64,
    pd: u64,
    pt: u64,
    v: u64,
)
    requires
        kernel_layered(m, root, l3, l2, l1),
        kernel_tree(m, root, l3, l2),
        m[root][pml4_slot(va)] != 0 && entry_addr(m[root][pml4_slot(va)]) == pdpt,
        is_link(m[pdpt][pdpt_slot(va)]) && entry_addr(m[pdpt][pdpt_slot(va)]) == pd,
        is_link(m[pd][pd_slot(va)]) && entry_addr(m[pd][pd_slot(va)]) == pt,
        l3.contains(pdpt),
        l2.contains(pd),
        l1.contains(pt),
    ensures
        forall|x: u64|
            slots_of(x) != slots_of(va) ==> #[trigger] resolve(m.insert(pt, m[pt].update(pt_slot(va), v)), root, x)
                == resolve(m, root, x),
{
    reveal(leaf);
    let m2 = m.insert(pt, m[pt].update(pt_slot(va), v));
    assert forall|x: u64| slots_of(x) != slots_of(va) implies #[trigger] resolve(m2, root, x) == resolve(m, root, x) by {
        let s4 = pml4_slot(x);
        assert(m2[root] == m[root]);
        let e4 = m[root][s4];
        assert(kernel_entry_ok(e4, l3, false));
        lemma_present_nonzero(e4);
        if present(e4) {
            let p = entry_addr(e4);
            assert(m2[p] == m[p]);
            let e3 = m[p][pdpt_slot(x)];
            assert(kernel_entry_ok(e3, l2, true));
            lemma_present_nonzero(e3);
            if present(e3) && !huge(e3) {
                let d = entry_addr(e3);
                assert(m2[d] == m[d]);
                let e2 = m[d][pd_slot(x)];
                assert(kernel_entry_ok(e2, l1, true));
                lemma_present_nonzero(e2);
                if present(e2) && !huge(e2) {
                    let q = entry_addr(e2);
                    if q == pt && pt_slot(x) == pt_slot(va) {
                        assert(is_link(m[d][pd_slot(x)]) && is_link(m[pd][pd_slot(va)]));
                        assert(d == pd && pd_slot(x) == pd_slot(va));
                        assert(is_link(m[p][pdpt_slot(x)]) && is_link(m[pdpt][pdpt_slot(va)]));
                        assert(p == pdpt && pdpt_slot(x) == pdpt_slot(va));
                        assert(s4 == pml4_slot(va));
                    }
                }
            }
        }
    }
}

proof fn lemma_leaf_page_write(
    m: Map<u64, Seq<u64>>,
    root: u64,
    l3: Set<u64>,
    l2: Set<u64>,
    l1: Set<u64>,
    va: u64,
    pdpt: u64,
    pd: u64,
    pt: u64,
    v: u64,
)
    requires
        kernel_layered(m, root, l3, l2, l1),
        kernel_tree(m, root, l3, l2),
        m[root][pml4_slot(va)] != 0 && entry_addr(m[root][pml4_slot(va)]) == pdpt,
        is_link(m[pdpt][pdpt_slot(va)]) && entry_addr(m[pdpt][pdpt_slot(va)]) == pd,
        is_link(m[pd][pd_slot(va)]) && entry_addr(m[pd][pd_slot(va)]) == pt,
        l3.contains(pdpt),
        l2.contains(pd),
        l1.contains(pt),
    ensures
        leaves_kept(m, m.insert(pt, m[pt].update(pt_slot(va), v)), root, va, PAGE_SIZE),
        present(v) ==> leaves_are(m.insert(pt, m[pt].update(pt_slot(va), v)), root, va, PAGE_SIZE, v),
{
    reveal(leaf);
    let m2 = m.insert(pt, m[pt].update(pt_slot(va), v));
    assert forall|x: u64| slots_of(x) != slots_of(va) implies #[trigger] leaf(m2, root, x) == leaf(m, root, x) by {
        let s4 = pml4_slot(x);
        assert(m2[root] == m[root]);
        let e4 = m[root][s4];
        assert(kernel_entry_ok(e4, l3, false));
        lemma_present_nonzero(e4);
        if present(e4) {
            let p = entry_addr(e4);
            assert(m2[p] == m[p]);
            let e3 = m[p][pdpt_slot(x)];
            assert(kernel_entry_ok(e3, l2, true));
            lemma_present_nonzero(e3);
            if present(e3) && !huge(e3) {
                let d = entry_addr(e3);
                assert(m2[d] == m[d]);
                let e2 = m[d][pd_slot(x)];
                assert(kernel_entry_ok(e2, l1, true));
                lemma_present_nonzero(e2);
                if present(e2) && !huge(e2) {
                    let q = entry_addr(e2);
                    if q == pt && pt_slot(x) == pt_slot(va) {
                        assert(is_link(m[d][pd_slot(x)]) && is_link(m[pd][pd_slot(va)]));
                        assert(d == pd && pd_slot(x) == pd_slot(va));
                        assert(is_link(m[p][pdpt_slot(x)]) && is_link(m[pdpt][pdpt_slot(va)]));
                        assert(p == pdpt && pdpt_slot(x) == pdpt_slot(va));
                        assert(s4 == pml4_slot(va));
                    }
                }
            }
        }
    }
    assert forall|x: u64| slots_of(x) == slots_of(va) && present(v) implies #[trigger] leaf(m2, root, x) == Some(
        (v, PAGE_SIZE),
    ) by {
        assert(pml4_slot(x) == pml4_slot(va) && pdpt_slot(x) == pdpt_slot(va) && pd_slot(x) == pd_slot(va)
            && pt_slot(x) == pt_slot(va));
        assert(m2[root] == m[root]);
        lemma_present_nonzero(m[root][pml4_slot(va)]);
        assert(kernel_entry_ok(m[root][pml4_slot(va)], l3, false));
        assert(m2[pdpt] == m[pdpt]);
        assert(m2[pd] == m[pd]);
    }
    lemma_leaves_kept_page(m, m2, root, va, PAGE_SIZE);
    reveal(leaves_are);
    assert forall|x: u64| same_block(x, va, PAGE_SIZE) && present(v) implies #[trigger] leaf(m2, root, x) == Some((v, PAGE_SIZE)) by {
        lemma_block_slots(x, va);
    }
}

/// Any write into a third-layer table keeps one parent per table.
proof fn lemma_k_tree_leaf_write(
    m: Map<u64, Seq<u64>>,
    root: u64,
    l3: Set<u64>,
    l2: Set<u64>,
    l1: Set<u64>,
    t: u64,
    i: int,
    v: u64,
)
    requires
        kernel_layered(m, root, l3, l2, l1),
        kernel_tree(m, root, l3, l2),
        l1.contains(t),
        0 <= i < ENTRIES,
    ensures
        kernel_tree(m.insert(t, m[t].update(i, v)), root, l3, l2),
{
    let m2 = m.insert(t, m[t].update(i, v));
    assert(m2[root] == m[root]);
    assert forall|u: u64| l3.contains(u) || l2.contains(u) implies m2[u] == m[u] by {}
}

/// The kernel's own page tables (the PML4 that the direct map and the
/// identity map live in).
pub struct KernelPageTables {
    root: PhysFrame,
    l3: Ghost<Set<u64>>,
    l2: Ghost<Set<u64>>,
    l1: Ghost<Set<u64>>,
}

/// From `m0` to `m1` the tables went from `t0` to `t1`: no frame left the
/// memory, no frame outside `t0` was written, and each frame that joined
/// the tables is one that `m0` did not hold.
#[verifier::opaque]
pub open spec fn writes_own_tables(m0: Map<u64, Seq<u64>>, m1: Map<u64, Seq<u64>>, t0: Set<u64>, t1: Set<u64>) -> bool {
    &&& forall|f: u64| #[trigger] m0.contains_key(f) ==> m1.contains_key(f)
    &&& forall|f: u64| m0.contains_key(f) && !t0.contains(f) ==> #[trigger] m1[f] == m0[f]
    &&& forall|f: u64| #[trigger] t1.contains(f) ==> t0.contains(f) || !m0.contains_key(f)
}

/// Two such steps make one.
pub proof fn lemma_writes_own_tables_compose(
    m0: Map<u64, Seq<u64>>,
    m1: Map<u64, Seq<u64>>,
    m2: Map<u64, Seq<u64>>,
    t0: Set<u64>,
    t1: Set<u64>,
    t2: Set<u64>,
)
    requires
        writes_own_tables(m0, m1, t0, t1),
        writes_own_tables(m1, m2, t1, t2),
    ensures
        writes_own_tables(m0, m2, t0, t2),
{
    reveal(writes_own_tables);
    assert forall|f: u64| m0.contains_key(f) && !t0.contains(f) implies #[trigger] m2[f] == m0[f] by {
        assert(m1.contains_key(f));
        assert(!t1.contains(f));
        assert(m1[f] == m0[f]);
    }
    assert forall|f: u64| #[trigger] t2.contains(f) implies t0.contains(f) || !m0.contains_key(f) by {
        if m0.contains_key(f) {
            assert(m1.contains_key(f));
        }
    }
}

/// Doing nothing is such a step.
pub proof fn lemma_writes_own_tables_none(m: Map<u64, Seq<u64>>, t: Set<u64>)
    ensures
        writes_own_tables(m, m, t, t),
{
    reveal(writes_own_tables);
}

/// Writing into a table of `t`, or adding a frame that the memory did not
/// hold, is such a step.
pub proof fn lemma_writes_own_tables_write(m: Map<u64, Seq<u64>>, t: Set<u64>, f: u64, row: Seq<u64>)
    requires
        t.contains(f) || !m.contains_key(f),
    ensures
        writes_own_tables(m, m.insert(f, row), t, t),
        !m.contains_key(f) ==> writes_own_tables(m, m.insert(f, row), t, t.insert(f)),
{
    reveal(writes_own_tables);
}

/// The leaf entry for a page at `physical` with `flags`.
proof fn lemma_leaf_entry(physical: u64, flags: u64)
    requires
        physical % 0x1000 == 0,
        physical < 0x10_0000_0000_0000,
        flags & ADDRESS_MASK == 0,
        flags & PRESENT != 0,
    ensures
        present(physical | flags),
        entry_addr(physical | flags) == physical,
{
    assert((physical | flags) & 1 != 0 && (physical | flags) & 0x000f_ffff_ffff_f000 == physical) by (bit_vector)
        requires
            flags & 1 != 0,
            physical % 0x1000 == 0,
            physical < 0x10_0000_0000_0000,
            flags & 0x000f_ffff_ffff_f000 == 0,
    ;
}

impl KernelPageTables {
    pub closed spec fn root_addr(&self) -> u64 {
        self.root.0
    }

    pub closed spec fn inv(&self, m: Map<u64, Seq<u64>>) -> bool {
        &&& kernel_layered(m, self.root.0, self.l3@, self.l2@, self.l1@)
        &&& kernel_tree(m, self.root.0, self.l3@, self.l2@)
    }

    /// The frames of the PML4 and of every table added under it.
    pub closed spec fn tables(&self) -> Set<u64> {
        self.l3@.union(self.l2@).union(self.l1@).insert(self.root.0)
    }

    /// An empty PML4 in a fresh table frame: none where the allocator has
    /// no frame below 4 GiB; in its next such frame where that one is fit
    /// for a table.
    pub fn new(alloc: &mut Allocator, mem: &mut PageTableMemory, heap_phys: u64) -> (r: Option<KernelPageTables>)
        requires
            old(alloc).wf(),
            old(mem).wf(),
        ensures
            (forall|f: u64| !#[trigger] old(alloc).next_frame_below(TABLE_MEMORY_LIMIT, f)) ==> r is None,
            (exists|f: u64| #[trigger] old(alloc).next_frame_below(TABLE_MEMORY_LIMIT, f)) && (forall|f: u64|
                #[trigger] old(alloc).next_frame_below(TABLE_MEMORY_LIMIT, f) ==> table_frame_ok(old(mem)@, f, heap_phys))
                ==> (r matches Some(t) && old(alloc).next_frame_below(TABLE_MEMORY_LIMIT, t.root_addr())),
            supply_kept(*old(alloc), old(mem)@, *final(alloc), final(mem)@, heap_phys, r is None),
            final(alloc).wf(),
            final(mem).wf(),
            r matches Some(t) ==> t.inv(final(mem)@) && !old(mem)@.contains_key(t.root_addr()) && final(mem)@
                == old(mem)@.insert(t.root_addr(), zero_table()) && t.tables() == set![t.root_addr()]
                && t.root_addr() % 0x1000 == 0 && t.root_addr() < TABLE_MEMORY_LIMIT,
            r is None ==> final(mem)@ == old(mem)@,
    {
        let root = match alloc_table(alloc, mem, heap_phys) {
            Some(f) => f,
            None => {
                return None;
            },
        };
        let tables = KernelPageTables {
            root,
            l3: Ghost(Set::empty()),
            l2: Ghost(Set::empty()),
            l1: Ghost(Set::empty()),
        };
        proof {
            lemma_present_nonzero(0);
            assert forall|i: int| 0 <= i < ENTRIES implies kernel_entry_ok(
                #[trigger] mem@[root.0][i],
                Set::<u64>::empty(),
                false,
            ) by {
                assert(mem@[root.0][i] == 0);
            }
            assert forall|i: int| 0 <= i < ENTRIES implies #[trigger] mem@[root.0][i] == 0 by {}
            assert(tables.tables() =~= set![root.0]);
        }
        Some(tables)
    }

    /// The frame of the PML4.
    pub fn page_table_frame(&self) -> (r: PhysFrame)
        ensures
            r.0 == self.root_addr(),
    {
        self.root
    }

    /// Replaces the huge page in slot `index` of `table` (a first-layer
    /// table at `level` 3, a second-layer one at `level` 2) by a link to a
    /// new table of the 512 smaller pages it is made of, each at the same
    /// physical address; `false` where no table frame could be had.
    fn split_huge(
        &mut self,
        mem: &mut PageTableMemory,
        alloc: &mut Allocator,
        heap_phys: u64,
        table: u64,
        index: usize,
        level: u8,
    ) -> (r: bool)
        requires
            old(self).inv(old(mem)@),
            old(mem).wf(),
            old(alloc).wf(),
            2 <= level <= 3,
            level == 3 ==> old(self).l3@.contains(table),
            level == 2 ==> old(self).l2@.contains(table),
            index < ENTRIES,
            huge(old(mem)@[table][index as int]),
        ensures
            final(self).root_addr() == old(self).root_addr(),
            final(self).inv(final(mem)@),
            final(mem).wf(),
            final(alloc).wf(),
            final(self).l3@ == old(self).l3@,
            old(self).l2@.subset_of(final(self).l2@),
            old(self).l1@.subset_of(final(self).l1@),
            forall|f: u64| #[trigger] old(mem)@.contains_key(f) && f != table ==> final(mem)@[f] == old(mem)@[f],
            forall|f: u64| #[trigger] old(mem)@.contains_key(f) ==> final(mem)@.contains_key(f),
            final(mem)@[table] == old(mem)@[table].update(index as int, final(mem)@[table][index as int]),
            r ==> is_link(final(mem)@[table][index as int]),
            !r ==> final(mem)@ == old(mem)@,
            forall|x: u64| #[trigger]
                resolve(final(mem)@, old(self).root_addr(), x) == resolve(old(mem)@, old(self).root_addr(), x),
            writes_own_tables(old(mem)@, final(mem)@, old(self).tables(), final(self).tables()),
            supply_kept(*old(alloc), old(mem)@, *final(alloc), final(mem)@, heap_phys, !r),
            level == 3 ==> leaves_same_off_pdpt(old(mem)@, final(mem)@, old(self).root_addr(), table, index as int),
            level == 2 ==> leaves_same_off_pd(old(mem)@, final(mem)@, old(self).root_addr(), table, index as int),
    {
        let root = self.root.0;
        let ghost m1 = mem@;
        let ghost t0 = self.tables();
        proof {
            lemma_writes_own_tables_none(mem@, self.tables());
        }
        let e = mem.read(table, index);
        proof {
            lemma_present_nonzero(e);
            if level == 3 {
                assert(kernel_entry_ok(e, self.l2@, true));
            } else {
                assert(kernel_entry_ok(e, self.l1@, true));
            }
        }
        let first = if level == 3 { e & GIGABYTE_FRAME_MASK } else { e & TWO_MIB_FRAME_MASK };
        let step: u64 = if level == 3 { 0x20_0000 } else { 0x1000 };
        let bits = if level == 3 { HUGE_LEAF_BITS } else { SPLIT_PAGE_BITS };
        let frame = match alloc_table(alloc, mem, heap_phys) {
            Some(f) => f,
            None => {
                proof {
                    lemma_leaves_same_intro(m1, mem@, root);
                    lemma_leaves_same_off(m1, mem@, root, table, index as int);
                }
                return false;
            },
        };
        let ghost m_alloc = mem@;
        let ghost a_alloc = *alloc;
        proof {
            lemma_k_fresh(m1, root, self.l3@, self.l2@, self.l1@, frame.0);
            if level == 3 {
                assert(first <= 0x000f_ffff_c000_0000) by (bit_vector)
                    requires
                        first == e & 0x000f_ffff_c000_0000u64,
                ;
            } else {
                assert(first <= 0x000f_ffff_ffe0_0000) by (bit_vector)
                    requires
                        first == e & 0x000f_ffff_ffe0_0000u64,
                ;
            }
        }
        fill_run(mem, frame.0, first, step, bits);
        proof {
            let m_fill = mem@;
            let m_zero = m1.insert(frame.0, zero_table());
            let row = run_table(first, step, bits);
            lemma_k_unlinked_row(m_zero, root, self.l3@, self.l2@, self.l1@, frame.0, row);
            assert(m_fill =~= m_zero.insert(frame.0, row));
            assert(!self.l3@.contains(frame.0) && !self.l2@.contains(frame.0) && !self.l1@.contains(frame.0));
            lemma_k_outside_row(m1, root, self.l3@, self.l2@, self.l1@, frame.0, zero_table());
            lemma_k_outside_row(m_zero, root, self.l3@, self.l2@, self.l1@, frame.0, row);
            assert(m_fill[table][index as int] == e);
            if level == 3 {
                assert forall|j: int| 0 <= j < ENTRIES implies kernel_entry_ok(
                    #[trigger] m_fill[frame.0][j],
                    self.l1@,
                    true,
                ) && !is_link(m_fill[frame.0][j]) && m_fill[frame.0][j] == gigabyte_split_entry(e, j) by {
                    law_gigabyte_split_keeps_addresses(e, (j * 0x20_0000) as u64);
                    assert(m_fill[frame.0][j] == gigabyte_split_entry(e, j));
                }
                lemma_k_link(m_fill, root, self.l3@, self.l2@, self.l1@, 3, table, index as int, frame.0);
                lemma_k_tree_link(m_fill, root, self.l3@, self.l2@, self.l1@, 3, table, index as int, frame.0);
                lemma_resolve_split_gigabyte(m_fill, root, self.l3@, self.l2@, self.l1@, table, index as int, frame.0);
            } else {
                assert forall|j: int| 0 <= j < ENTRIES implies #[trigger] m_fill[frame.0][j] == two_mib_split_entry(
                    e,
                    j,
                ) by {}
                lemma_k_link(m_fill, root, self.l3@, self.l2@, self.l1@, 2, table, index as int, frame.0);
                lemma_k_tree_link(m_fill, root, self.l3@, self.l2@, self.l1@, 2, table, index as int, frame.0);
                lemma_resolve_split_two_mib(m_fill, root, self.l3@, self.l2@, self.l1@, table, index as int, frame.0);
            }
            lemma_link(frame.0);
        }
        let ghost m_fill = mem@;
        mem.write(table, index, frame.0 | PRESENT | WRITABLE);
        if level == 3 {
            self.l2 = Ghost(self.l2@.insert(frame.0));
        } else {
            self.l1 = Ghost(self.l1@.insert(frame.0));
        }
        proof {
            let t1 = t0.insert(frame.0);
            let m_zero = m1.insert(frame.0, zero_table());
            lemma_writes_own_tables_write(m1, t0, frame.0, zero_table());
            lemma_writes_own_tables_write(m_zero, t1, frame.0, run_table(first, step, bits));
            assert(m_fill == m_zero.insert(frame.0, run_table(first, step, bits)));
            lemma_writes_own_tables_compose(m1, m_zero, m_fill, t0, t1, t1);
            assert(t1.contains(table));
            lemma_writes_own_tables_write(m_fill, t1, table, m_fill[table].update(index as int, link(frame.0)));
            lemma_writes_own_tables_compose(m1, m_fill, mem@, t0, t1, t1);
            assert(self.tables() =~= t1);
            assert(mem@.dom() =~= m_alloc.dom());
            lemma_supply_same_tables(a_alloc, m_alloc, mem@, heap_phys);
            lemma_supply_chain(*old(alloc), m1, a_alloc, m_alloc, *alloc, mem@, heap_phys, false);
            let m_zero = m1.insert(frame.0, zero_table());
            assert(m_fill[root] == m1[root]);
            if level == 3 {
                assert forall|x: u64| !reaches_pdpt_slot(m1, root, x, table, index as int) implies #[trigger] leaf(
                    mem@,
                    root,
                    x,
                ) == leaf(m1, root, x) by {
                    assert(!reaches_pdpt_slot(m_fill, root, x, table, index as int));
                    assert(leaf(m_zero, root, x) == leaf(m1, root, x));
                    assert(leaf(m_fill, root, x) == leaf(m_zero, root, x));
                }
                lemma_leaves_off_pdpt_intro(m1, mem@, root, table, index as int);
            } else {
                assert forall|x: u64| !reaches_pd_slot(m1, root, x, table, index as int) implies #[trigger] leaf(
                    mem@,
                    root,
                    x,
                ) == leaf(m1, root, x) by {
                    let e4 = m1[root][pml4_slot(x)];
                    assert(kernel_entry_ok(e4, self.l3@, false));
                    lemma_present_nonzero(e4);
                    if present(e4) {
                        assert(m_fill[entry_addr(e4)] == m1[entry_addr(e4)]);
                    }
                    assert(!reaches_pd_slot(m_fill, root, x, table, index as int));
                    assert(leaf(m_zero, root, x) == leaf(m1, root, x));
                    assert(leaf(m_fill, root, x) == leaf(m_zero, root, x));
                }
                lemma_leaves_off_pd_intro(m1, mem@, root, table, index as int);
            }
        }
        true
    }

    /// The table that slot `index` of `table` links, created (from `alloc`)
    /// where the slot is empty.
    fn child(
        &mut self,
        mem: &mut PageTableMemory,
        alloc: &mut Allocator,
        heap_phys: u64,
        table: u64,
        index: usize,
        level: u8,
    ) -> (r: Option<u64>)
        requires
            old(self).inv(old(mem)@),
            old(mem).wf(),
            old(alloc).wf(),
            2 <= level <= 4,
            level == 4 ==> table == old(self).root_addr(),
            level == 3 ==> old(self).l3@.contains(table),
            level == 2 ==> old(self).l2@.contains(table),
            index < ENTRIES,
            !huge(old(mem)@[table][index as int]),
        ensures
            final(self).root_addr() == old(self).root_addr(),
            final(self).inv(final(mem)@),
            final(mem).wf(),
            final(alloc).wf(),
            level != 4 ==> final(self).l3@ == old(self).l3@,
            level != 3 ==> final(self).l2@ == old(self).l2@,
            level != 2 ==> final(self).l1@ == old(self).l1@,
            old(self).l3@.subset_of(final(self).l3@),
            old(self).l2@.subset_of(final(self).l2@),
            old(self).l1@.subset_of(final(self).l1@),
            forall|f: u64| #[trigger] old(mem)@.contains_key(f) && f != table ==> final(mem)@[f] == old(mem)@[f],
            forall|f: u64| #[trigger] old(mem)@.contains_key(f) ==> final(mem)@.contains_key(f),
            final(mem)@[table] == old(mem)@[table] || final(mem)@[table] == old(mem)@[table].update(
                index as int,
                final(mem)@[table][index as int],
            ),
            r matches Some(c) ==> {
                &&& present(final(mem)@[table][index as int])
                &&& !huge(final(mem)@[table][index as int])
                &&& entry_addr(final(mem)@[table][index as int]) == c
                &&& level == 4 ==> final(self).l3@.contains(c)
                &&& level == 3 ==> final(self).l2@.contains(c)
                &&& level == 2 ==> final(self).l1@.contains(c)
            },
            r is None ==> final(mem)@ == old(mem)@,
            forall|x: u64| #[trigger]
                resolve(final(mem)@, old(self).root_addr(), x) == resolve(old(mem)@, old(self).root_addr(), x),
            writes_own_tables(old(mem)@, final(mem)@, old(self).tables(), final(self).tables()),
            supply_kept(*old(alloc), old(mem)@, *final(alloc), final(mem)@, heap_phys, r is None),
            leaves_same(old(mem)@, final(mem)@, old(self).root_addr()),
    {
        proof {
            lemma_writes_own_tables_none(mem@, self.tables());
        }
        let e = mem.read(table, index);
        proof {
            lemma_present_nonzero(e);
            if level == 4 {
                assert(kernel_entry_ok(old(mem)@[table][index as int], self.l3@, false));
            } else if level == 3 {
                assert(kernel_entry_ok(old(mem)@[table][index as int], self.l2@, true));
            } else {
                assert(kernel_entry_ok(old(mem)@[table][index as int], self.l1@, true));
            }
        }
        proof {
            lemma_leaves_same_intro(mem@, mem@, self.root.0);
        }
        if e & PRESENT != 0 {
            return Some(e & ADDRESS_MASK);
        }
        let ghost m0 = mem@;
        let f = match alloc_table(alloc, mem, heap_phys) {
            Some(f) => f,
            None => {
                return None;
            },
        };
        proof {
            lemma_k_fresh(m0, self.root.0, self.l3@, self.l2@, self.l1@, f.0);
            lemma_present_nonzero(0);
            lemma_present_nonzero(e);
            let m1 = m0.insert(f.0, zero_table());
            assert(!self.l3@.contains(f.0) && !self.l2@.contains(f.0) && !self.l1@.contains(f.0));
            lemma_k_outside_row(m0, self.root.0, self.l3@, self.l2@, self.l1@, f.0, zero_table());
            assert forall|j: int| 0 <= j < ENTRIES implies kernel_entry_ok(#[trigger] m1[f.0][j], self.l1@, true)
                && kernel_entry_ok(m1[f.0][j], self.l2@, true) && m1[f.0][j] == 0 && !is_link(m1[f.0][j]) by {
                assert(m1[f.0][j] == 0);
            }
            assert(m1[table] == m0[table]);
            assert(m1[table][index as int] == 0);
            lemma_k_link(m1, self.root.0, self.l3@, self.l2@, self.l1@, level as int, table, index as int, f.0);
            lemma_k_tree_link(m1, self.root.0, self.l3@, self.l2@, self.l1@, level as int, table, index as int, f.0);
            lemma_resolve_link_empty(
                m1,
                self.root.0,
                self.l3@,
                self.l2@,
                self.l1@,
                level as int,
                table,
                index as int,
                f.0,
            );
        }
        let ghost t0 = self.tables();
        let ghost m1 = mem@;
        mem.write(table, index, f.0 | PRESENT | WRITABLE);
        if level == 4 {
            self.l3 = Ghost(self.l3@.insert(f.0));
        } else if level == 3 {
            self.l2 = Ghost(self.l2@.insert(f.0));
        } else {
            self.l1 = Ghost(self.l1@.insert(f.0));
        }
        proof {
            lemma_link(f.0);
            lemma_writes_own_tables_write(m0, t0, f.0, zero_table());
            assert(t0.insert(f.0).contains(table));
            lemma_writes_own_tables_write(m1, t0.insert(f.0), table, m1[table].update(index as int, link(f.0)));
            lemma_writes_own_tables_compose(m0, m1, mem@, t0, t0.insert(f.0), t0.insert(f.0));
            assert(self.tables() =~= t0.insert(f.0));
            assert(mem@.dom() =~= m1.dom());
            lemma_supply_same_tables(*alloc, m1, mem@, heap_phys);
            lemma_supply_chain(*old(alloc), m0, *alloc, m1, *alloc, mem@, heap_phys, false);
            assert forall|x: u64| #[trigger] leaf(mem@, self.root.0, x) == leaf(m0, self.root.0, x) by {
                assert(leaf(m1, self.root.0, x) == leaf(m0, self.root.0, x));
            }
            lemma_leaves_same_intro(m0, mem@, self.root.0);
        }
        Some(f.0)
    }
}

/// The address inside the direct map or identity map that `va` stands for.
pub open spec fn normalized(va: u64) -> int {
    if va >= KERNEL_VIRT_BASE {
        va - KERNEL_VIRT_BASE
    } else {
        va as int
    }
}

impl KernelPageTables {
    /// Walks to the second-layer table of `va`, creating missing tables
    /// from `alloc` and splitting a 1 GiB page on the way into 2 MiB pages
    /// that keep its addresses; gives the two tables below the root on that
    /// walk.
    #[verifier::rlimit(60)]
    #[verifier::spinoff_prover]
    fn walk_to_directory(
        &mut self,
        mem: &mut PageTableMemory,
        alloc: &mut Allocator,
        heap_phys: u64,
        va: u64,
    ) -> (r: Result<(u64, u64), &'static str>)
        requires
            old(self).inv(old(mem)@),
            old(mem).wf(),
            old(alloc).wf(),
        ensures
            final(self).root_addr() == old(self).root_addr(),
            final(self).inv(final(mem)@),
            final(mem).wf(),
            final(alloc).wf(),
            r matches Err(e) ==> e@ == "out of page-table frames"@,
            forall|x: u64| #[trigger]
                resolve(final(mem)@, old(self).root_addr(), x) == resolve(old(mem)@, old(self).root_addr(), x),
            writes_own_tables(old(mem)@, final(mem)@, old(self).tables(), final(self).tables()),
            supply_kept(*old(alloc), old(mem)@, *final(alloc), final(mem)@, heap_phys, r is Err),
            leaves_kept(old(mem)@, final(mem)@, old(self).root_addr(), va, PAGE_SIZE),
            r matches Ok((pdpt, pd)) ==> {
                let m = final(mem)@;
                let root = old(self).root_addr();
                &&& m[root][pml4_slot(va)] != 0 && entry_addr(m[root][pml4_slot(va)]) == pdpt
                &&& is_link(m[pdpt][pdpt_slot(va)]) && entry_addr(m[pdpt][pdpt_slot(va)]) == pd
                &&& final(self).l3@.contains(pdpt)
                &&& final(self).l2@.contains(pd)
            },
    {
        let ghost m_start = mem@;
        let ghost a_start = *alloc;
        let ghost t_start = self.tables();
        proof {
            lemma_leaves_same_intro(m_start, m_start, self.root.0);
            lemma_leaves_kept_same(m_start, m_start, self.root.0, va, PAGE_SIZE);
            lemma_writes_own_tables_none(mem@, t_start);
            reveal_strlit("out of page-table frames");
        }
        let (i4, i3, i2, i1) = slots(va);
        let root = self.root.0;
        // PML4 entries never map pages.
        proof {
            assert(kernel_entry_ok(mem@[root][i4 as int], self.l3@, false));
            lemma_present_nonzero(mem@[root][i4 as int]);
        }
        let ghost ma = mem@;
        let ghost ta = self.tables();
        let ghost aa = *alloc;
        let got = self.child(mem, alloc, heap_phys, root, i4, 4);
        proof {
            lemma_writes_own_tables_compose(m_start, ma, mem@, t_start, ta, self.tables());
            lemma_supply_chain(a_start, m_start, aa, ma, *alloc, mem@, heap_phys, got is None);
            lemma_leaves_kept_same(ma, mem@, self.root.0, va, PAGE_SIZE);
            lemma_leaves_kept_compose(m_start, ma, mem@, self.root.0, va, PAGE_SIZE);
        }
        let pdpt = match got {
            Some(t) => t,
            None => {
                return Err("out of page-table frames");
            },
        };
        let ghost m1 = mem@;
        let ghost r4 = mem@[root][i4 as int];
        proof {
            lemma_present_nonzero(r4);
        }
        let e3 = mem.read(pdpt, i3);
        if e3 & HUGE != 0 {
            let ghost ma = mem@;
            let ghost ta = self.tables();
            let ghost aa = *alloc;
            let ghost la3 = self.l3@;
            let ghost la2 = self.l2@;
            let ghost la1 = self.l1@;
            let split = self.split_huge(mem, alloc, heap_phys, pdpt, i3, 3);
            proof {
                lemma_writes_own_tables_compose(m_start, ma, mem@, t_start, ta, self.tables());
                lemma_supply_chain(a_start, m_start, aa, ma, *alloc, mem@, heap_phys, !split);
                lemma_split_gigabyte_kept(ma, mem@, self.root.0, la3, la2, la1, va, pdpt, PAGE_SIZE);
                lemma_leaves_kept_compose(m_start, ma, mem@, self.root.0, va, PAGE_SIZE);
            }
            if !split {
                return Err("out of page-table frames");
            }
        }
        proof {
            assert(mem@[root][i4 as int] == r4);
            lemma_present_nonzero(e3);
        }
        let ghost ma = mem@;
        let ghost ta = self.tables();
        let ghost aa = *alloc;
        let got = self.child(mem, alloc, heap_phys, pdpt, i3, 3);
        proof {
            lemma_writes_own_tables_compose(m_start, ma, mem@, t_start, ta, self.tables());
            lemma_supply_chain(a_start, m_start, aa, ma, *alloc, mem@, heap_phys, got is None);
            lemma_leaves_kept_same(ma, mem@, self.root.0, va, PAGE_SIZE);
            lemma_leaves_kept_compose(m_start, ma, mem@, self.root.0, va, PAGE_SIZE);
        }
        let pd = match got {
            Some(t) => t,
            None => {
                return Err("out of page-table frames");
            },
        };
        proof {
            assert(mem@[root][i4 as int] == r4);
        }
        Ok((pdpt, pd))
    }

    /// Walks to the last-layer table of `va`, creating missing tables from
    /// `alloc` and splitting a huge page on the way into smaller pages that
    /// keep its addresses; gives the three tables below the root on that walk.
    #[verifier::rlimit(60)]
    #[verifier::spinoff_prover]
    fn walk_to_page_table(
        &mut self,
        mem: &mut PageTableMemory,
        alloc: &mut Allocator,
        heap_phys: u64,
        va: u64,
    ) -> (r: Result<(u64, u64, u64), &'static str>)
        requires
            old(self).inv(old(mem)@),
            old(mem).wf(),
            old(alloc).wf(),
        ensures
            final(self).root_addr() == old(self).root_addr(),
            final(self).inv(final(mem)@),
            final(mem).wf(),
            final(alloc).wf(),
            r matches Err(e) ==> e@ == "out of page-table frames"@,
            forall|x: u64| #[trigger]
                resolve(final(mem)@, old(self).root_addr(), x) == resolve(old(mem)@, old(self).root_addr(), x),
            writes_own_tables(old(mem)@, final(mem)@, old(self).tables(), final(self).tables()),
            supply_kept(*old(alloc), old(mem)@, *final(alloc), final(mem)@, heap_phys, r is Err),
            leaves_kept(old(mem)@, final(mem)@, old(self).root_addr(), va, PAGE_SIZE),
            r matches Ok((pdpt, pd, pt)) ==> {
                let m = final(mem)@;
                let root = old(self).root_addr();
                &&& m[root][pml4_slot(va)] != 0 && entry_addr(m[root][pml4_slot(va)]) == pdpt
                &&& is_link(m[pdpt][pdpt_slot(va)]) && entry_addr(m[pdpt][pdpt_slot(va)]) == pd
                &&& is_link(m[pd][pd_slot(va)]) && entry_addr(m[pd][pd_slot(va)]) == pt
                &&& final(self).l3@.contains(pdpt)
                &&& final(self).l2@.contains(pd)
                &&& final(self).l1@.contains(pt)
            },
    {
        let ghost m_start = mem@;
        let ghost a_start = *alloc;
        let ghost t_start = self.tables();
        proof {
            reveal_strlit("out of page-table frames");
        }
        let (i4, i3, i2, i1) = slots(va);
        let root = self.root.0;
        let (pdpt, pd) = match self.walk_to_directory(mem, alloc, heap_phys, va) {
            Ok(t) => t,
            Err(e) => {
                return Err(e);
            },
        };
        let ghost r4 = mem@[root][i4 as int];
        let ghost m2 = mem@;
        let ghost r3 = mem@[pdpt][i3 as int];
        proof {
            assert(mem@[root][i4 as int] == r4);
        }
        let e2 = mem.read(pd, i2);
        if e2 & HUGE != 0 {
            let ghost ma = mem@;
            let ghost ta = self.tables();
            let ghost aa = *alloc;
            let ghost la3 = self.l3@;
            let ghost la2 = self.l2@;
            let ghost la1 = self.l1@;
            let split = self.split_huge(mem, alloc, heap_phys, pd, i2, 2);
            proof {
                lemma_writes_own_tables_compose(m_start, ma, mem@, t_start, ta, self.tables());
                lemma_supply_chain(a_start, m_start, aa, ma, *alloc, mem@, heap_phys, !split);
                lemma_split_two_mib_kept(ma, mem@, self.root.0, la3, la2, la1, va, pdpt, pd, PAGE_SIZE);
                lemma_leaves_kept_compose(m_start, ma, mem@, self.root.0, va, PAGE_SIZE);
            }
            if !split {
                return Err("out of page-table frames");
            }
        }
        proof {
            assert(mem@[root][i4 as int] == r4);
            assert(mem@[pdpt][i3 as int] == r3);
            lemma_present_nonzero(e2);
        }
        let ghost ma = mem@;
        let ghost ta = self.tables();
        let ghost aa = *alloc;
        let got = self.child(mem, alloc, heap_phys, pd, i2, 2);
        proof {
            lemma_writes_own_tables_compose(m_start, ma, mem@, t_start, ta, self.tables());
            lemma_supply_chain(a_start, m_start, aa, ma, *alloc, mem@, heap_phys, got is None);
            lemma_leaves_kept_same(ma, mem@, self.root.0, va, PAGE_SIZE);
            lemma_leaves_kept_compose(m_start, ma, mem@, self.root.0, va, PAGE_SIZE);
        }
        let pt = match got {
            Some(t) => t,
            None => {
                return Err("out of page-table frames");
            },
        };
        proof {
            assert(mem@[root][i4 as int] == r4);
            assert(mem@[pdpt][i3 as int] == r3);
            lemma_present_nonzero(r4);
        }
        Ok((pdpt, pd, pt))
    }
}

impl KernelPageTables {
    /// Maps the 4 KiB page at `va` (a direct-map or identity-map address)
    /// to `physical` with `flags`, splitting a 1 GiB or 2 MiB page that
    /// covers it into smaller pages that keep its addresses, and creating
    /// missing tables from `alloc`.
    /// With a sound table supply (`table_supply_ok`), running out of page-table frames means the allocator has none below 4 GiB left (`supply_kept`).
    #[verifier::rlimit(100)]
    #[verifier::spinoff_prover]
    pub fn map_page(
        &mut self,
        mem: &mut PageTableMemory,
        alloc: &mut Allocator,
        heap_phys: u64,
        va: VirtAddr,
        physical: PhysAddr,
        flags: crate::mm::paging::PageFlags,
    ) -> (r: Result<(), &'static str>)
        requires
            old(self).inv(old(mem)@),
            old(mem).wf(),
            old(alloc).wf(),
        ensures
            final(self).root_addr() == old(self).root_addr(),
            final(self).inv(final(mem)@),
            final(mem).wf(),
            final(alloc).wf(),
            (va.0 % 0x1000 != 0 || physical.0 % 0x1000 != 0) ==> (r matches Err(e) && e@ == "unaligned page mapping"@)
                && final(mem)@ == old(mem)@,
            (va.0 % 0x1000 == 0 && physical.0 % 0x1000 == 0 && normalized(va.0) >= 0x8000_0000_0000) ==> (r matches Err(
                e,
            ) && e@ == "address outside direct map"@) && final(mem)@ == old(mem)@,
            (va.0 % 0x1000 == 0 && physical.0 % 0x1000 == 0 && normalized(va.0) < 0x8000_0000_0000) ==> (r is Ok || (
            r matches Err(e) && e@ == "out of page-table frames"@)),
            (r is Ok && flags.0 & ADDRESS_MASK == 0 && flags.0 & PRESENT != 0 && physical.0 < 0x10_0000_0000_0000)
                ==> forall|x: u64|
                slots_of(x) == slots_of(va.0) ==> #[trigger] resolve(final(mem)@, old(self).root_addr(), x) == Some(
                    physical.0 + x % 0x1000,
                ),
            forall|x: u64|
                slots_of(x) != slots_of(va.0) ==> #[trigger] resolve(final(mem)@, old(self).root_addr(), x) == resolve(
                    old(mem)@,
                    old(self).root_addr(),
                    x,
                ),
            r is Err ==> forall|x: u64| #[trigger]
                resolve(final(mem)@, old(self).root_addr(), x) == resolve(old(mem)@, old(self).root_addr(), x),
            writes_own_tables(old(mem)@, final(mem)@, old(self).tables(), final(self).tables()),
            supply_kept(
                *old(alloc),
                old(mem)@,
                *final(alloc),
                final(mem)@,
                heap_phys,
                r matches Err(e) && e@ == "out of page-table frames"@,
            ),
            leaves_kept(old(mem)@, final(mem)@, old(self).root_addr(), va.0, PAGE_SIZE),
            (r is Ok && flags.0 & ADDRESS_MASK == 0 && flags.0 & PRESENT != 0 && physical.0 < 0x10_0000_0000_0000)
                ==> leaves_are(final(mem)@, old(self).root_addr(), va.0, PAGE_SIZE, physical.0 | flags.0),
    {
        let ghost m_start = mem@;
        let ghost a_start = *alloc;
        proof {
            lemma_leaves_same_intro(m_start, m_start, self.root.0);
            lemma_leaves_kept_same(m_start, m_start, self.root.0, va.0, PAGE_SIZE);
        }
        let ghost t_start = self.tables();
        proof {
            lemma_writes_own_tables_none(mem@, t_start);
        }
        proof {
            reveal_strlit("unaligned page mapping");
            reveal_strlit("address outside direct map");
            reveal_strlit("out of page-table frames");
            assert("unaligned page mapping"@.len() != "out of page-table frames"@.len());
            assert("address outside direct map"@.len() != "out of page-table frames"@.len());
        }
        if !page_aligned(va.0) || !page_aligned(physical.0) {
            return Err("unaligned page mapping");
        }
        let direct = va.0 >= KERNEL_VIRT_BASE;
        let normalized = if direct { va.0 - KERNEL_VIRT_BASE } else { va.0 };
        if normalized >= 0x8000_0000_0000 {
            return Err("address outside direct map");
        }
        let (i4, i3, i2, i1) = slots(va.0);
        let root = self.root.0;
        let ghost ma = mem@;
        let ghost ta = self.tables();
        let ghost aa = *alloc;
        let walked = self.walk_to_page_table(mem, alloc, heap_phys, va.0);
        proof {
            lemma_writes_own_tables_compose(m_start, ma, mem@, t_start, ta, self.tables());
            lemma_supply_chain(a_start, m_start, aa, ma, *alloc, mem@, heap_phys, walked is Err);
            lemma_leaves_kept_compose(m_start, ma, mem@, root, va.0, PAGE_SIZE);
        }
        let (pdpt, pd, pt) = match walked {
            Ok(t) => t,
            Err(e) => {
                return Err(e);
            },
        };
        let ghost m3 = mem@;
        let ghost r4 = mem@[root][i4 as int];
        let ghost r3 = mem@[pdpt][i3 as int];
        let ghost r2 = mem@[pd][i2 as int];
        proof {
            lemma_k_leaf_write(m3, root, self.l3@, self.l2@, self.l1@, pt, i1 as int, physical.0 | flags.0);
            lemma_k_tree_leaf_write(m3, root, self.l3@, self.l2@, self.l1@, pt, i1 as int, physical.0 | flags.0);
            lemma_present_nonzero(r4);
            lemma_resolve_leaf(m3, root, self.l3@, self.l2@, self.l1@, va.0, pdpt, pd, pt, physical.0 | flags.0);
            lemma_leaf_page_write(m3, root, self.l3@, self.l2@, self.l1@, va.0, pdpt, pd, pt, physical.0 | flags.0);
        }
        mem.write(pt, i1, physical.0 | flags.0);
        proof {
            assert(self.tables().contains(pt));
            lemma_writes_own_tables_write(m3, self.tables(), pt, m3[pt].update(i1 as int, physical.0 | flags.0));
            lemma_writes_own_tables_compose(m_start, m3, mem@, t_start, self.tables(), self.tables());
            assert(mem@.dom() =~= m3.dom());
            lemma_supply_same_tables(*alloc, m3, mem@, heap_phys);
            lemma_supply_chain(a_start, m_start, *alloc, m3, *alloc, mem@, heap_phys, false);
            lemma_leaves_kept_compose(m_start, m3, mem@, root, va.0, PAGE_SIZE);
            assert(mem@[root][i4 as int] == r4);
            assert(mem@[pdpt][i3 as int] == r3);
            assert(mem@[pd][i2 as int] == r2);
            if flags.0 & ADDRESS_MASK == 0 && flags.0 & PRESENT != 0 && physical.0 < 0x10_0000_0000_0000 {
                lemma_leaf_entry(physical.0, flags.0);
                assert forall|x: u64| slots_of(x) == slots_of(va.0) implies #[trigger] resolve(mem@, root, x) == Some(
                    physical.0 + x % 0x1000,
                ) by {
                    assert(pml4_slot(x) == i4 && pdpt_slot(x) == i3 && pd_slot(x) == i2 && pt_slot(x) == i1);
                }
            }
        }
        Ok(())
    }
}

/// The offset of `x` inside the lower or upper half of the address space.
pub open spec fn low47(x: u64) -> u64 {
    x % 0x8000_0000_0000
}

/// `x` lies in the upper half of the address space.
pub open spec fn upper_half(x: u64) -> bool {
    (x / 0x8000_0000_0000) % 2 == 1
}

/// `x` and `va` fall in the same `size`-aligned block of the same half.
pub open spec fn same_block(x: u64, va: u64, size: u64) -> bool {
    upper_half(x) == upper_half(va) && low47(x) / size == low47(va) / size
}

/// The address of physical `p` in the direct map (`direct`) or the
/// identity map.
pub open spec fn map_address(p: u64, direct: bool) -> u64 {
    if direct {
        (KERNEL_VIRT_BASE + p) as u64
    } else {
        p
    }
}

/// Splitting the 1 GiB page on `va`'s walk changes only leaves of
/// addresses that that page held.
proof fn lemma_split_gigabyte_kept(
    m0: Map<u64, Seq<u64>>,
    m1: Map<u64, Seq<u64>>,
    root: u64,
    l3: Set<u64>,
    l2: Set<u64>,
    l1: Set<u64>,
    va: u64,
    pdpt: u64,
    size: u64,
)
    requires
        kernel_layered(m0, root, l3, l2, l1),
        kernel_tree(m0, root, l3, l2),
        m0[root][pml4_slot(va)] != 0 && entry_addr(m0[root][pml4_slot(va)]) == pdpt,
        l3.contains(pdpt),
        huge(m0[pdpt][pdpt_slot(va)]),
        leaves_same_off_pdpt(m0, m1, root, pdpt, pdpt_slot(va)),
    ensures
        leaves_kept(m0, m1, root, va, size),
{
    reveal(leaves_same_off_pdpt);
    reveal(leaf);
    reveal(leaves_kept);
    assert forall|x: u64| #[trigger] leaf(m1, root, x) == leaf(m0, root, x) || same_block(x, va, size) || (leaf(
        m0,
        root,
        x,
    ) matches Some((e, s)) && s > PAGE_SIZE && same_block(x, va, s)) by {
        if reaches_pdpt_slot(m0, root, x, pdpt, pdpt_slot(va)) {
            lemma_present_nonzero(m0[root][pml4_slot(x)]);
            assert(pml4_slot(x) == pml4_slot(va));
            lemma_block_slots(x, va);
            let e3 = m0[pdpt][pdpt_slot(va)];
            assert(kernel_entry_ok(e3, l2, true));
            lemma_present_nonzero(e3);
            assert(leaf(m0, root, x) == Some((e3, GIGABYTE)));
        }
    }
}

/// Splitting the 2 MiB page on `va`'s walk changes only leaves of
/// addresses that that page held.
proof fn lemma_split_two_mib_kept(
    m0: Map<u64, Seq<u64>>,
    m1: Map<u64, Seq<u64>>,
    root: u64,
    l3: Set<u64>,
    l2: Set<u64>,
    l1: Set<u64>,
    va: u64,
    pdpt: u64,
    pd: u64,
    size: u64,
)
    requires
        kernel_layered(m0, root, l3, l2, l1),
        kernel_tree(m0, root, l3, l2),
        m0[root][pml4_slot(va)] != 0 && entry_addr(m0[root][pml4_slot(va)]) == pdpt,
        is_link(m0[pdpt][pdpt_slot(va)]) && entry_addr(m0[pdpt][pdpt_slot(va)]) == pd,
        l3.contains(pdpt),
        l2.contains(pd),
        huge(m0[pd][pd_slot(va)]),
        leaves_same_off_pd(m0, m1, root, pd, pd_slot(va)),
    ensures
        leaves_kept(m0, m1, root, va, size),
{
    reveal(leaves_same_off_pd);
    reveal(leaf);
    reveal(leaves_kept);
    assert forall|x: u64| #[trigger] leaf(m1, root, x) == leaf(m0, root, x) || same_block(x, va, size) || (leaf(
        m0,
        root,
        x,
    ) matches Some((e, s)) && s > PAGE_SIZE && same_block(x, va, s)) by {
        if reaches_pd_slot(m0, root, x, pd, pd_slot(va)) {
            let e4 = m0[root][pml4_slot(x)];
            assert(kernel_entry_ok(e4, l3, false));
            lemma_present_nonzero(e4);
            let p = entry_addr(e4);
            assert(l3.contains(p));
            let e3 = m0[p][pdpt_slot(x)];
            assert(is_link(m0[p][pdpt_slot(x)]) && is_link(m0[pdpt][pdpt_slot(va)]));
            assert(p == pdpt && pdpt_slot(x) == pdpt_slot(va));
            assert(pml4_slot(x) == pml4_slot(va));
            lemma_block_slots(x, va);
            let e2 = m0[pd][pd_slot(va)];
            assert(kernel_entry_ok(e2, l1, true));
            lemma_present_nonzero(e2);
            assert(leaf(m0, root, x) == Some((e2, TWO_MIB)));
        }
    }
}

/// The slots of the walk that a 1 GiB, 2 MiB or 4 KiB block shares are
/// those that name the block.
proof fn lemma_block_slots(a: u64, b: u64)
    ensures
        (pml4_slot(a) == pml4_slot(b) && pdpt_slot(a) == pdpt_slot(b)) == same_block(a, b, GIGABYTE),
        (pml4_slot(a) == pml4_slot(b) && pdpt_slot(a) == pdpt_slot(b) && pd_slot(a) == pd_slot(b)) == same_block(
            a,
            b,
            TWO_MIB,
        ),
        (slots_of(a) == slots_of(b)) == same_block(a, b, PAGE_SIZE),
{
    assert((((a / 0x80_0000_0000) % 512 == (b / 0x80_0000_0000) % 512 && (a / 0x4000_0000) % 512 == (b
        / 0x4000_0000) % 512) == ((a / 0x8000_0000_0000) % 2 == (b / 0x8000_0000_0000) % 2 && (a
        % 0x8000_0000_0000) / 0x4000_0000 == (b % 0x8000_0000_0000) / 0x4000_0000)) && (((a / 0x80_0000_0000) % 512
        == (b / 0x80_0000_0000) % 512 && (a / 0x4000_0000) % 512 == (b / 0x4000_0000) % 512 && (a / 0x20_0000) % 512
        == (b / 0x20_0000) % 512) == ((a / 0x8000_0000_0000) % 2 == (b / 0x8000_0000_0000) % 2 && (a
        % 0x8000_0000_0000) / 0x20_0000 == (b % 0x8000_0000_0000) / 0x20_0000)) && (((a / 0x80_0000_0000) % 512 == (b
        / 0x80_0000_0000) % 512 && (a / 0x4000_0000) % 512 == (b / 0x4000_0000) % 512 && (a / 0x20_0000) % 512 == (b
        / 0x20_0000) % 512 && (a / 0x1000) % 512 == (b / 0x1000) % 512) == ((a / 0x8000_0000_0000) % 2 == (b
        / 0x8000_0000_0000) % 2 && (a % 0x8000_0000_0000) / 0x1000 == (b % 0x8000_0000_0000) / 0x1000))) by (bit_vector);
}

/// A huge leaf at an aligned physical address, and the flags that kernel
/// mappings use, are encoded as the walk reads them.
proof fn lemma_huge_leaf_entry(physical: u64)
    requires
        physical < 0x10_0000_0000_0000,
    ensures
        physical % 0x20_0000 == 0 ==> present(physical | HUGE_LEAF_BITS) && huge(physical | HUGE_LEAF_BITS) && (
        physical | HUGE_LEAF_BITS) & TWO_MIB_FRAME_MASK == physical,
        physical % 0x4000_0000 == 0 ==> (physical | HUGE_LEAF_BITS) & GIGABYTE_FRAME_MASK == physical,
        PRESENT & ADDRESS_MASK == 0,
        (PRESENT | WRITABLE | crate::mm::paging::NO_EXECUTE) & ADDRESS_MASK == 0,
        (PRESENT | WRITABLE | crate::mm::paging::NO_EXECUTE) & PRESENT != 0,
        PRESENT & PRESENT != 0,
        (PRESENT | crate::mm::paging::NO_EXECUTE) & ADDRESS_MASK == 0,
        (PRESENT | crate::mm::paging::NO_EXECUTE) & PRESENT != 0,
{
    assert((physical % 0x20_0000 == 0 ==> (physical | 0x83u64) & 1 != 0 && (physical | 0x83u64) & 0x80 != 0 && (
    physical | 0x83u64) & 0x000f_ffff_ffe0_0000u64 == physical) && (physical % 0x4000_0000 == 0 ==> (physical
        | 0x83u64) & 0x000f_ffff_c000_0000u64 == physical) && 1u64 & 0x000f_ffff_ffff_f000u64 == 0 && (1u64 | 2u64
        | 0x8000_0000_0000_0000u64) & 0x000f_ffff_ffff_f000u64 == 0 && (1u64 | 2u64 | 0x8000_0000_0000_0000u64) & 1u64
        != 0 && 1u64 & 1u64 != 0 && (1u64 | 0x8000_0000_0000_0000u64) & 0x000f_ffff_ffff_f000u64 == 0 && (1u64
        | 0x8000_0000_0000_0000u64) & 1u64 != 0) by (bit_vector)
        requires
            physical < 0x10_0000_0000_0000,
    ;
}

/// The flags of kernel mappings hold no address bits and are present.
pub proof fn lemma_kernel_flags()
    ensures
        PRESENT & ADDRESS_MASK == 0 && PRESENT & PRESENT != 0,
        (PRESENT | WRITABLE | crate::mm::paging::NO_EXECUTE) & ADDRESS_MASK == 0,
        (PRESENT | WRITABLE | crate::mm::paging::NO_EXECUTE) & PRESENT != 0,
        (PRESENT | crate::mm::paging::NO_EXECUTE) & ADDRESS_MASK == 0,
        (PRESENT | crate::mm::paging::NO_EXECUTE) & PRESENT != 0,
{
    lemma_huge_leaf_entry(0);
}

/// Writing a huge leaf into a first-layer (`level` 3) or second-layer
/// (`level` 2) table keeps the layers and one parent per table.
proof fn lemma_k_huge_write(
    m: Map<u64, Seq<u64>>,
    root: u64,
    l3: Set<u64>,
    l2: Set<u64>,
    l1: Set<u64>,
    level: int,
    t: u64,
    i: int,
    v: u64,
)
    requires
        kernel_layered(m, root, l3, l2, l1),
        kernel_tree(m, root, l3, l2),
        2 <= level <= 3,
        level == 3 ==> l3.contains(t),
        level == 2 ==> l2.contains(t),
        0 <= i < ENTRIES,
        present(v) && huge(v),
    ensures
        kernel_layered(m.insert(t, m[t].update(i, v)), root, l3, l2, l1),
        kernel_tree(m.insert(t, m[t].update(i, v)), root, l3, l2),
{
    let m2 = m.insert(t, m[t].update(i, v));
    assert(m2[root] == m[root]);
    assert forall|u: u64, j: int| l3.contains(u) && 0 <= j < ENTRIES implies kernel_entry_ok(
        #[trigger] m2[u][j],
        l2,
        true,
    ) by {
        if !(u == t && j == i) {
            assert(m2[u][j] == m[u][j]);
        }
    }
    assert forall|u: u64, j: int| l2.contains(u) && 0 <= j < ENTRIES implies kernel_entry_ok(
        #[trigger] m2[u][j],
        l1,
        true,
    ) by {
        if !(u == t && j == i) {
            assert(m2[u][j] == m[u][j]);
        }
    }
    assert forall|u: u64, a: int, w: u64, b: int|
        l3.contains(u) && l3.contains(w) && 0 <= a < ENTRIES && 0 <= b < ENTRIES && is_link(#[trigger] m2[u][a])
            && is_link(#[trigger] m2[w][b]) && entry_addr(m2[u][a]) == entry_addr(m2[w][b]) implies u == w && a
        == b by {
        if !(u == t && a == i) && !(w == t && b == i) {
            assert(m2[u][a] == m[u][a] && m2[w][b] == m[w][b]);
        }
    }
    assert forall|u: u64, a: int, w: u64, b: int|
        l2.contains(u) && l2.contains(w) && 0 <= a < ENTRIES && 0 <= b < ENTRIES && is_link(#[trigger] m2[u][a])
            && is_link(#[trigger] m2[w][b]) && entry_addr(m2[u][a]) == entry_addr(m2[w][b]) implies u == w && a
        == b by {
        if !(u == t && a == i) && !(w == t && b == i) {
            assert(m2[u][a] == m[u][a] && m2[w][b] == m[w][b]);
        }
    }
}

/// Writing a 1 GiB leaf into the first-layer table that slot
/// `pml4_slot(va)` of the PML4 links: the addresses of `va`'s gigabyte
/// resolve through it, all others as before.
proof fn lemma_resolve_gigabyte_write(
    m: Map<u64, Seq<u64>>,
    root: u64,
    l3: Set<u64>,
    l2: Set<u64>,
    l1: Set<u64>,
    va: u64,
    pdpt: u64,
    v: u64,
)
    requires
        kernel_layered(m, root, l3, l2, l1),
        kernel_tree(m, root, l3, l2),
        m[root][pml4_slot(va)] != 0 && entry_addr(m[root][pml4_slot(va)]) == pdpt,
        l3.contains(pdpt),
        present(v) && huge(v),
    ensures
        forall|x: u64|
            #![trigger resolve(m.insert(pdpt, m[pdpt].update(pdpt_slot(va), v)), root, x)]
            !(pml4_slot(x) == pml4_slot(va) && pdpt_slot(x) == pdpt_slot(va)) ==> resolve(
                m.insert(pdpt, m[pdpt].update(pdpt_slot(va), v)),
                root,
                x,
            ) == resolve(m, root, x),
        forall|x: u64|
            #![trigger resolve(m.insert(pdpt, m[pdpt].update(pdpt_slot(va), v)), root, x)]
            (pml4_slot(x) == pml4_slot(va) && pdpt_slot(x) == pdpt_slot(va)) ==> resolve(
                m.insert(pdpt, m[pdpt].update(pdpt_slot(va), v)),
                root,
                x,
            ) == Some((v & GIGABYTE_FRAME_MASK) + x % 0x4000_0000),
        forall|x: u64|
            #![trigger leaf(m.insert(pdpt, m[pdpt].update(pdpt_slot(va), v)), root, x)]
            !(pml4_slot(x) == pml4_slot(va) && pdpt_slot(x) == pdpt_slot(va)) ==> leaf(m.insert(pdpt, m[pdpt].update(pdpt_slot(va), v)), root, x) == leaf(m, root, x),
        forall|x: u64|
            #![trigger leaf(m.insert(pdpt, m[pdpt].update(pdpt_slot(va), v)), root, x)]
            (pml4_slot(x) == pml4_slot(va) && pdpt_slot(x) == pdpt_slot(va)) ==> leaf(m.insert(pdpt, m[pdpt].update(pdpt_slot(va), v)), root, x) == Some((v, GIGABYTE)),
{
    reveal(leaf);
    let m2 = m.insert(pdpt, m[pdpt].update(pdpt_slot(va), v));
    assert(m2[root] == m[root]);
    assert forall|x: u64| #![trigger resolve(m2, root, x)] true implies (!(pml4_slot(x) == pml4_slot(va) && pdpt_slot(x)
        == pdpt_slot(va)) ==> resolve(m2, root, x) == resolve(m, root, x)) && ((pml4_slot(x) == pml4_slot(va)
        && pdpt_slot(x) == pdpt_slot(va)) ==> resolve(m2, root, x) == Some(
        (v & GIGABYTE_FRAME_MASK) + x % 0x4000_0000,
    )) by {
        let e4 = m[root][pml4_slot(x)];
        assert(kernel_entry_ok(e4, l3, false));
        lemma_present_nonzero(e4);
        if present(e4) {
            let p = entry_addr(e4);
            if p == pdpt && pdpt_slot(x) == pdpt_slot(va) {
                assert(pml4_slot(x) == pml4_slot(va));
            } else {
                assert(m2[p][pdpt_slot(x)] == m[p][pdpt_slot(x)]);
                let e3 = m[p][pdpt_slot(x)];
                assert(kernel_entry_ok(e3, l2, true));
                lemma_present_nonzero(e3);
                if present(e3) && !huge(e3) {
                    let d = entry_addr(e3);
                    assert(m2[d] == m[d]);
                    let e2 = m[d][pd_slot(x)];
                    assert(kernel_entry_ok(e2, l1, true));
                    lemma_present_nonzero(e2);
                    if present(e2) && !huge(e2) {
                        assert(m2[entry_addr(e2)] == m[entry_addr(e2)]);
                    }
                }
            }
        } else {
            assert(pml4_slot(x) != pml4_slot(va));
        }
    }
    assert forall|x: u64| #![trigger leaf(m2, root, x)] true implies (!(pml4_slot(x) == pml4_slot(va) && pdpt_slot(x) == pdpt_slot(va)) ==> leaf(m2, root, x) == leaf(m, root, x)) && ((pml4_slot(x) == pml4_slot(va) && pdpt_slot(x) == pdpt_slot(va)) ==> leaf(m2, root, x) == Some((v, GIGABYTE))) by {
        let e4 = m[root][pml4_slot(x)];
        assert(kernel_entry_ok(e4, l3, false));
        lemma_present_nonzero(e4);
        if present(e4) {
            let p = entry_addr(e4);
            if p == pdpt && pdpt_slot(x) == pdpt_slot(va) {
                assert(pml4_slot(x) == pml4_slot(va));
            } else {
                assert(m2[p][pdpt_slot(x)] == m[p][pdpt_slot(x)]);
                let e3 = m[p][pdpt_slot(x)];
                assert(kernel_entry_ok(e3, l2, true));
                lemma_present_nonzero(e3);
                if present(e3) && !huge(e3) {
                    let d = entry_addr(e3);
                    assert(m2[d] == m[d]);
                    let e2 = m[d][pd_slot(x)];
                    assert(kernel_entry_ok(e2, l1, true));
                    lemma_present_nonzero(e2);
                    if present(e2) && !huge(e2) {
                        assert(m2[entry_addr(e2)] == m[entry_addr(e2)]);
                    }
                }
            }
        } else {
            assert(pml4_slot(x) != pml4_slot(va));
        }
    }
}

/// Writing a 2 MiB leaf into the second-layer table that `va`'s walk
/// reaches: the addresses of `va`'s 2 MiB block resolve through it, all
/// others as before.
proof fn lemma_resolve_two_mib_write(
    m: Map<u64, Seq<u64>>,
    root: u64,
    l3: Set<u64>,
    l2: Set<u64>,
    l1: Set<u64>,
    va: u64,
    pdpt: u64,
    pd: u64,
    v: u64,
)
    requires
        kernel_layered(m, root, l3, l2, l1),
        kernel_tree(m, root, l3, l2),
        m[root][pml4_slot(va)] != 0 && entry_addr(m[root][pml4_slot(va)]) == pdpt,
        is_link(m[pdpt][pdpt_slot(va)]) && entry_addr(m[pdpt][pdpt_slot(va)]) == pd,
        l3.contains(pdpt),
        l2.contains(pd),
        present(v) && huge(v),
    ensures
        forall|x: u64|
            #![trigger resolve(m.insert(pd, m[pd].update(pd_slot(va), v)), root, x)]
            !(pml4_slot(x) == pml4_slot(va) && pdpt_slot(x) == pdpt_slot(va) && pd_slot(x) == pd_slot(va))
                ==> resolve(m.insert(pd, m[pd].update(pd_slot(va), v)), root, x) == resolve(m, root, x),
        forall|x: u64|
            #![trigger resolve(m.insert(pd, m[pd].update(pd_slot(va), v)), root, x)]
            (pml4_slot(x) == pml4_slot(va) && pdpt_slot(x) == pdpt_slot(va) && pd_slot(x) == pd_slot(va)) ==> resolve(
                m.insert(pd, m[pd].update(pd_slot(va), v)),
                root,
                x,
            ) == Some((v & TWO_MIB_FRAME_MASK) + x % 0x20_0000),
        forall|x: u64|
            #![trigger leaf(m.insert(pd, m[pd].update(pd_slot(va), v)), root, x)]
            !(pml4_slot(x) == pml4_slot(va) && pdpt_slot(x) == pdpt_slot(va) && pd_slot(x) == pd_slot(va)) ==> leaf(m.insert(pd, m[pd].update(pd_slot(va), v)), root, x) == leaf(m, root, x),
        forall|x: u64|
            #![trigger leaf(m.insert(pd, m[pd].update(pd_slot(va), v)), root, x)]
            (pml4_slot(x) == pml4_slot(va) && pdpt_slot(x) == pdpt_slot(va) && pd_slot(x) == pd_slot(va)) ==> leaf(m.insert(pd, m[pd].update(pd_slot(va), v)), root, x) == Some((v, TWO_MIB)),
{
    reveal(leaf);
    let m2 = m.insert(pd, m[pd].update(pd_slot(va), v));
    assert(m2[root] == m[root]);
    assert forall|x: u64| #![trigger resolve(m2, root, x)] true implies (!(pml4_slot(x) == pml4_slot(va) && pdpt_slot(x)
        == pdpt_slot(va) && pd_slot(x) == pd_slot(va)) ==> resolve(m2, root, x) == resolve(m, root, x)) && ((
    pml4_slot(x) == pml4_slot(va) && pdpt_slot(x) == pdpt_slot(va) && pd_slot(x) == pd_slot(va)) ==> resolve(
        m2,
        root,
        x,
    ) == Some((v & TWO_MIB_FRAME_MASK) + x % 0x20_0000)) by {
        let e4 = m[root][pml4_slot(x)];
        assert(kernel_entry_ok(e4, l3, false));
        lemma_present_nonzero(e4);
        if present(e4) {
            let p = entry_addr(e4);
            assert(m2[p] == m[p]);
            let e3 = m[p][pdpt_slot(x)];
            assert(kernel_entry_ok(e3, l2, true));
            lemma_present_nonzero(e3);
            if present(e3) && !huge(e3) {
                let d = entry_addr(e3);
                if d == pd && pd_slot(x) == pd_slot(va) {
                    assert(is_link(m[p][pdpt_slot(x)]) && is_link(m[pdpt][pdpt_slot(va)]));
                    assert(p == pdpt && pdpt_slot(x) == pdpt_slot(va));
                    assert(pml4_slot(x) == pml4_slot(va));
                } else {
                    assert(m2[d][pd_slot(x)] == m[d][pd_slot(x)]);
                    let e2 = m[d][pd_slot(x)];
                    assert(kernel_entry_ok(e2, l1, true));
                    lemma_present_nonzero(e2);
                    if present(e2) && !huge(e2) {
                        assert(m2[entry_addr(e2)] == m[entry_addr(e2)]);
                    }
                }
            } else {
                if pml4_slot(x) == pml4_slot(va) && pdpt_slot(x) == pdpt_slot(va) {
                    assert(p == pdpt);
                }
            }
        } else {
            assert(pml4_slot(x) != pml4_slot(va));
        }
    }
    assert forall|x: u64| #![trigger leaf(m2, root, x)] true implies (!(pml4_slot(x) == pml4_slot(va) && pdpt_slot(x) == pdpt_slot(va) && pd_slot(x) == pd_slot(va)) ==> leaf(m2, root, x) == leaf(m, root, x)) && ((pml4_slot(x) == pml4_slot(va) && pdpt_slot(x) == pdpt_slot(va) && pd_slot(x) == pd_slot(va)) ==> leaf(m2, root, x) == Some((v, TWO_MIB))) by {
        let e4 = m[root][pml4_slot(x)];
        assert(kernel_entry_ok(e4, l3, false));
        lemma_present_nonzero(e4);
        if present(e4) {
            let p = entry_addr(e4);
            assert(m2[p] == m[p]);
            let e3 = m[p][pdpt_slot(x)];
            assert(kernel_entry_ok(e3, l2, true));
            lemma_present_nonzero(e3);
            if present(e3) && !huge(e3) {
                let d = entry_addr(e3);
                if d == pd && pd_slot(x) == pd_slot(va) {
                    assert(is_link(m[p][pdpt_slot(x)]) && is_link(m[pdpt][pdpt_slot(va)]));
                    assert(p == pdpt && pdpt_slot(x) == pdpt_slot(va));
                    assert(pml4_slot(x) == pml4_slot(va));
                } else {
                    assert(m2[d][pd_slot(x)] == m[d][pd_slot(x)]);
                    let e2 = m[d][pd_slot(x)];
                    assert(kernel_entry_ok(e2, l1, true));
                    lemma_present_nonzero(e2);
                    if present(e2) && !huge(e2) {
                        assert(m2[entry_addr(e2)] == m[entry_addr(e2)]);
                    }
                }
            } else {
                if pml4_slot(x) == pml4_slot(va) && pdpt_slot(x) == pdpt_slot(va) {
                    assert(p == pdpt);
                }
            }
        } else {
            assert(pml4_slot(x) != pml4_slot(va));
        }
    }
}

impl KernelPageTables {
    /// Maps the `size`-byte block (4 KiB, 2 MiB or 1 GiB) at `va` to
    /// `physical`: a 4 KiB page through `map_page`, a larger block as one
    /// huge leaf that replaces whatever its slot held (a 1 GiB page that
    /// covers a 2 MiB block is split first).
    fn map_leaf(
        &mut self,
        mem: &mut PageTableMemory,
        alloc: &mut Allocator,
        heap_phys: u64,
        va: VirtAddr,
        physical: PhysAddr,
        size: u64,
        flags: crate::mm::paging::PageFlags,
    ) -> (r: Result<(), &'static str>)
        requires
            old(self).inv(old(mem)@),
            old(mem).wf(),
            old(alloc).wf(),
            size == PAGE_SIZE || size == TWO_MIB || size == GIGABYTE,
            size != PAGE_SIZE ==> va.0 % size == 0 && physical.0 % size == 0,
            physical.0 < 0x10_0000_0000_0000,
            flags.0 & ADDRESS_MASK == 0,
            flags.0 & PRESENT != 0,
        ensures
            final(self).root_addr() == old(self).root_addr(),
            final(self).inv(final(mem)@),
            final(mem).wf(),
            final(alloc).wf(),
            size == PAGE_SIZE && (va.0 % 0x1000 != 0 || physical.0 % 0x1000 != 0) ==> (r matches Err(e) && e@
                == "unaligned page mapping"@) && final(mem)@ == old(mem)@,
            size == PAGE_SIZE && va.0 % 0x1000 == 0 && physical.0 % 0x1000 == 0 && normalized(va.0)
                >= 0x8000_0000_0000 ==> (r matches Err(e) && e@ == "address outside direct map"@) && final(mem)@
                == old(mem)@,
            size != PAGE_SIZE && normalized(va.0) >= 0x8000_0000_0000 ==> (r matches Err(e) && e@
                == "physical range exceeds four-level canonical coverage"@) && final(mem)@ == old(mem)@,
            va.0 % 0x1000 == 0 && physical.0 % 0x1000 == 0 && normalized(va.0) < 0x8000_0000_0000 ==> (r is Ok || (
            r matches Err(e) && e@ == "out of page-table frames"@)),
            r is Ok ==> forall|x: u64|
                same_block(x, va.0, size) ==> #[trigger] resolve(final(mem)@, old(self).root_addr(), x) == Some(
                    physical.0 + x % size,
                ),
            forall|x: u64|
                !same_block(x, va.0, size) ==> #[trigger] resolve(final(mem)@, old(self).root_addr(), x) == resolve(
                    old(mem)@,
                    old(self).root_addr(),
                    x,
                ),
            r is Err ==> forall|x: u64| #[trigger]
                resolve(final(mem)@, old(self).root_addr(), x) == resolve(old(mem)@, old(self).root_addr(), x),
            writes_own_tables(old(mem)@, final(mem)@, old(self).tables(), final(self).tables()),
            supply_kept(
                *old(alloc),
                old(mem)@,
                *final(alloc),
                final(mem)@,
                heap_phys,
                r matches Err(e) && e@ == "out of page-table frames"@,
            ),
            leaves_kept(old(mem)@, final(mem)@, old(self).root_addr(), va.0, size),
            r is Ok ==> leaves_are(
                final(mem)@,
                old(self).root_addr(),
                va.0,
                size,
                if size == PAGE_SIZE {
                    physical.0 | flags.0
                } else {
                    physical.0 | HUGE_LEAF_BITS
                },
            ),
    {
        let ghost m0 = mem@;
        let ghost a_start = *alloc;
        let ghost t_start = self.tables();
        proof {
            lemma_writes_own_tables_none(mem@, t_start);
            reveal_strlit("physical range exceeds four-level canonical coverage");
            reveal_strlit("out of page-table frames");
            assert("physical range exceeds four-level canonical coverage"@.len() != "out of page-table frames"@.len());
        }
        proof {
            assert forall|x: u64|
                #![trigger same_block(x, va.0, size)]
                (slots_of(x) == slots_of(va.0)) == same_block(x, va.0, PAGE_SIZE) && (pml4_slot(x) == pml4_slot(va.0)
                    && pdpt_slot(x) == pdpt_slot(va.0)) == same_block(x, va.0, GIGABYTE) && (pml4_slot(x)
                    == pml4_slot(va.0) && pdpt_slot(x) == pdpt_slot(va.0) && pd_slot(x) == pd_slot(va.0))
                    == same_block(x, va.0, TWO_MIB) by {
                lemma_block_slots(x, va.0);
            }
        }
        if size == PAGE_SIZE {
            let r = self.map_page(mem, alloc, heap_phys, va, physical, flags);
            proof {
                assert forall|x: u64| !same_block(x, va.0, size) implies #[trigger] resolve(mem@, self.root.0, x)
                    == resolve(m0, self.root.0, x) by {
                    assert(slots_of(x) != slots_of(va.0));
                }
                if r is Ok {
                    assert forall|x: u64| same_block(x, va.0, size) implies #[trigger] resolve(mem@, self.root.0, x)
                        == Some(physical.0 + x % size) by {
                        assert(slots_of(x) == slots_of(va.0));
                    }
                }
            }
            return r;
        }
        proof {
            lemma_leaves_same_intro(m0, m0, self.root.0);
            lemma_leaves_kept_same(m0, m0, self.root.0, va.0, size);
        }
        let direct = va.0 >= KERNEL_VIRT_BASE;
        let normalized = if direct { va.0 - KERNEL_VIRT_BASE } else { va.0 };
        if normalized >= crate::mm::paging::DIRECT_MAP_LIMIT {
            return Err("physical range exceeds four-level canonical coverage");
        }
        let (i4, i3, i2, i1) = slots(va.0);
        let root = self.root.0;
        proof {
            assert(kernel_entry_ok(mem@[root][i4 as int], self.l3@, false));
            lemma_present_nonzero(mem@[root][i4 as int]);
            lemma_huge_leaf_entry(physical.0);
            assert(physical.0 % 0x20_0000 == 0) by (nonlinear_arith)
                requires
                    size == 0x20_0000 || size == 0x4000_0000,
                    physical.0 % size == 0,
            ;
        }
        let entry = physical.0 | HUGE_LEAF_BITS;
        let ghost ma = mem@;
        let ghost ta = self.tables();
        let ghost aa = *alloc;
        if size == GIGABYTE {
            let got = self.child(mem, alloc, heap_phys, root, i4, 4);
            proof {
                lemma_writes_own_tables_compose(m0, ma, mem@, t_start, ta, self.tables());
                lemma_supply_chain(a_start, m0, aa, ma, *alloc, mem@, heap_phys, got is None);
                lemma_leaves_kept_same(ma, mem@, root, va.0, size);
            }
            let pdpt = match got {
                Some(t) => t,
                None => {
                    return Err("out of page-table frames");
                },
            };
            let ghost m1 = mem@;
            proof {
                lemma_present_nonzero(mem@[root][i4 as int]);
                lemma_k_huge_write(m1, root, self.l3@, self.l2@, self.l1@, 3, pdpt, i3 as int, entry);
                lemma_resolve_gigabyte_write(m1, root, self.l3@, self.l2@, self.l1@, va.0, pdpt, entry);
            }
            mem.write(pdpt, i3, entry);
            proof {
                assert(self.tables().contains(pdpt));
                lemma_writes_own_tables_write(m1, self.tables(), pdpt, m1[pdpt].update(i3 as int, entry));
                lemma_writes_own_tables_compose(m0, m1, mem@, t_start, self.tables(), self.tables());
                assert(mem@.dom() =~= m1.dom());
                lemma_supply_same_tables(*alloc, m1, mem@, heap_phys);
                lemma_supply_chain(a_start, m0, *alloc, m1, *alloc, mem@, heap_phys, false);
                assert forall|x: u64| same_block(x, va.0, size) implies #[trigger] resolve(mem@, root, x) == Some(
                    physical.0 + x % size,
                ) by {
                    assert(resolve(mem@, root, x) == Some((entry & GIGABYTE_FRAME_MASK) + x % 0x4000_0000));
                }
                lemma_huge_write_leaves(m1, mem@, root, va.0, size, entry);
                lemma_leaves_kept_compose(ma, m1, mem@, root, va.0, size);
            }
        } else {
            let walked = self.walk_to_directory(mem, alloc, heap_phys, va.0);
            proof {
                lemma_writes_own_tables_compose(m0, ma, mem@, t_start, ta, self.tables());
                lemma_supply_chain(a_start, m0, aa, ma, *alloc, mem@, heap_phys, walked is Err);
                lemma_leaves_kept_widen(ma, mem@, root, va.0, PAGE_SIZE, size);
            }
            let (pdpt, pd) = match walked {
                Ok(t) => t,
                Err(e) => {
                    return Err(e);
                },
            };
            let ghost m2 = mem@;
            proof {
                lemma_k_huge_write(m2, root, self.l3@, self.l2@, self.l1@, 2, pd, i2 as int, entry);
                lemma_resolve_two_mib_write(m2, root, self.l3@, self.l2@, self.l1@, va.0, pdpt, pd, entry);
            }
            mem.write(pd, i2, entry);
            proof {
                assert(self.tables().contains(pd));
                lemma_writes_own_tables_write(m2, self.tables(), pd, m2[pd].update(i2 as int, entry));
                lemma_writes_own_tables_compose(m0, m2, mem@, t_start, self.tables(), self.tables());
                assert(mem@.dom() =~= m2.dom());
                lemma_supply_same_tables(*alloc, m2, mem@, heap_phys);
                lemma_supply_chain(a_start, m0, *alloc, m2, *alloc, mem@, heap_phys, false);
                assert forall|x: u64| same_block(x, va.0, size) implies #[trigger] resolve(mem@, root, x) == Some(
                    physical.0 + x % size,
                ) by {
                    assert(resolve(mem@, root, x) == Some((entry & TWO_MIB_FRAME_MASK) + x % 0x20_0000));
                }
                lemma_huge_write_leaves(m2, mem@, root, va.0, size, entry);
                lemma_leaves_kept_compose(ma, m2, mem@, root, va.0, size);
            }
        }
        proof {
            lemma_leaves_kept_compose(m0, ma, mem@, root, va.0, size);
        }
        Ok(())
    }
}

/// What is kept around a small block is kept around the larger block that
/// holds it.
proof fn lemma_leaves_kept_widen(m0: Map<u64, Seq<u64>>, m1: Map<u64, Seq<u64>>, root: u64, va: u64, s1: u64, s2: u64)
    requires
        leaves_kept(m0, m1, root, va, s1),
        s1 == PAGE_SIZE || s1 == TWO_MIB || s1 == GIGABYTE,
        s2 == PAGE_SIZE || s2 == TWO_MIB || s2 == GIGABYTE,
        s1 <= s2,
    ensures
        leaves_kept(m0, m1, root, va, s2),
{
    reveal(leaves_kept);
    assert forall|x: u64| #[trigger] leaf(m1, root, x) == leaf(m0, root, x) || same_block(x, va, s2) || (leaf(
        m0,
        root,
        x,
    ) matches Some((e, s)) && s > PAGE_SIZE && same_block(x, va, s)) by {
        lemma_block_slots(x, va);
    }
}

/// A huge leaf written over `va`'s whole block of `size` bytes, and nothing
/// else changed, leaves that block mapped by it.
proof fn lemma_huge_write_leaves(m0: Map<u64, Seq<u64>>, m1: Map<u64, Seq<u64>>, root: u64, va: u64, size: u64, v: u64)
    requires
        size == TWO_MIB || size == GIGABYTE,
        forall|x: u64| !same_block(x, va, size) ==> #[trigger] leaf(m1, root, x) == leaf(m0, root, x),
        forall|x: u64| same_block(x, va, size) ==> #[trigger] leaf(m1, root, x) == Some((v, size)),
    ensures
        leaves_kept(m0, m1, root, va, size),
        leaves_are(m1, root, va, size, v),
{
    reveal(leaves_kept);
    reveal(leaves_are);
}

/// Where physical `p` lands in the direct map or the identity map.
proof fn lemma_map_address(p: u64, direct: bool)
    requires
        p < 0x8000_0000_0000,
    ensures
        low47(map_address(p, direct)) == p,
        upper_half(map_address(p, direct)) == direct,
        normalized(map_address(p, direct)) == p,
        map_address(p, direct) % 0x1000 == p % 0x1000,
        map_address(p, direct) % 0x20_0000 == p % 0x20_0000,
        map_address(p, direct) % 0x4000_0000 == p % 0x4000_0000,
{
}

/// The flags a kernel mapping of memory of `kind` gets: read-only and
/// executable for reserved ranges, device flags for MMIO, writable and
/// not executable for the rest.
pub open spec fn kind_flags(kind: PhysicalMemoryKind) -> u64 {
    if kind == PhysicalMemoryKind::Reserved {
        PRESENT
    } else {
        PRESENT | WRITABLE | crate::mm::paging::NO_EXECUTE
    }
}

/// Changes to the mapping of `[start, end)` reach only the addresses of
/// its 4 KiB pages in the half that `direct` picks.
pub open spec fn in_mapped_pages(x: u64, start: u64, end: int, direct: bool) -> bool {
    upper_half(x) == direct && start / 0x1000 <= low47(x) / 0x1000 && low47(x) / 0x1000 < (end + 0xfff) / 0x1000
}

/// From `m0` to `m`, an address either kept its resolution or came to
/// resolve to the physical address it stands for in the identity map or
/// the direct map.
#[verifier::opaque]
pub open spec fn only_identity_changes(m0: Map<u64, Seq<u64>>, m: Map<u64, Seq<u64>>, root: u64) -> bool {
    forall|x: u64| #[trigger]
        resolve(m, root, x) == resolve(m0, root, x) || resolve(m, root, x) == Some(low47(x) as int)
}

/// `map_range` has mapped `[start, physical)` (as far as it lies below
/// `end`), and what lies outside its pages resolves as in `m0`.
#[verifier::opaque]
pub open spec fn range_progress(
    m0: Map<u64, Seq<u64>>,
    m: Map<u64, Seq<u64>>,
    root: u64,
    start: u64,
    end: u64,
    physical: int,
    direct: bool,
) -> bool {
    &&& forall|p: u64|
        start <= p < physical && p < end ==> #[trigger] resolve(m, root, map_address(p, direct)) == Some(p as int)
    &&& forall|x: u64| !in_mapped_pages(x, start, physical, direct) ==> #[trigger] resolve(m, root, x) == resolve(m0, root, x)
    &&& only_identity_changes(m0, m, root)
}

/// One leaf of `map_range`: the `size`-byte leaf at `physical` extends the
/// mapped prefix of the range, and what lies outside the pages mapped so
/// far still resolves as it did at the start.
proof fn lemma_range_step(
    m0: Map<u64, Seq<u64>>,
    before: Map<u64, Seq<u64>>,
    after: Map<u64, Seq<u64>>,
    root: u64,
    start: u64,
    end: u64,
    physical: u64,
    size: u64,
    direct: bool,
)
    requires
        start <= physical < end <= 0x8000_0000_0000,
        size == PAGE_SIZE || size == TWO_MIB || size == GIGABYTE,
        physical % size == 0,
        physical % 0x1000 == 0,
        size != PAGE_SIZE ==> physical + size <= end,
        range_progress(m0, before, root, start, end, physical as int, direct),
        forall|x: u64|
            same_block(x, map_address(physical, direct), size) ==> #[trigger] resolve(after, root, x) == Some(
                physical + x % size,
            ),
        forall|x: u64|
            !same_block(x, map_address(physical, direct), size) ==> #[trigger] resolve(after, root, x) == resolve(
                before,
                root,
                x,
            ),
    ensures
        range_progress(m0, after, root, start, end, physical + size, direct),
{
    reveal(range_progress);
    let va = map_address(physical, direct);
    lemma_map_address(physical, direct);
    assert forall|p: u64| start <= p < physical + size && p < end implies #[trigger] resolve(
        after,
        root,
        map_address(p, direct),
    ) == Some(p as int) by {
        lemma_map_address(p, direct);
        let x = map_address(p, direct);
        if size == PAGE_SIZE {
            if p < physical {
                assert(p / 0x1000 < physical / 0x1000);
            } else {
                assert(p / 0x1000 == physical / 0x1000);
            }
        } else if size == TWO_MIB {
            if p < physical {
                assert(p / 0x20_0000 < physical / 0x20_0000);
            } else {
                assert(p / 0x20_0000 == physical / 0x20_0000);
            }
        } else {
            if p < physical {
                assert(p / 0x4000_0000 < physical / 0x4000_0000);
            } else {
                assert(p / 0x4000_0000 == physical / 0x4000_0000);
            }
        }
    }
    lemma_range_frame(m0, before, after, root, start, end, physical, size, direct);
    lemma_leaf_identity(m0, before, after, root, physical, size, direct);
}

/// A leaf that maps a block of the identity map or the direct map to the
/// physical block it stands for adds only resolutions to the addresses'
/// own physical addresses.
proof fn lemma_leaf_identity(
    m0: Map<u64, Seq<u64>>,
    before: Map<u64, Seq<u64>>,
    after: Map<u64, Seq<u64>>,
    root: u64,
    physical: u64,
    size: u64,
    direct: bool,
)
    requires
        physical < 0x8000_0000_0000,
        size == PAGE_SIZE || size == TWO_MIB || size == GIGABYTE,
        physical % size == 0,
        only_identity_changes(m0, before, root),
        forall|x: u64|
            same_block(x, map_address(physical, direct), size) ==> #[trigger] resolve(after, root, x) == Some(
                physical + x % size,
            ),
        forall|x: u64|
            !same_block(x, map_address(physical, direct), size) ==> #[trigger] resolve(after, root, x) == resolve(
                before,
                root,
                x,
            ),
    ensures
        only_identity_changes(m0, after, root),
{
    reveal(only_identity_changes);
    let va = map_address(physical, direct);
    lemma_map_address(physical, direct);
    assert forall|x: u64| #[trigger]
        resolve(after, root, x) == resolve(m0, root, x) || resolve(after, root, x) == Some(low47(x) as int) by {
        if same_block(x, va, size) {
            lemma_low47_offsets(x);
            if size == PAGE_SIZE {
                assert(low47(x) / 0x1000 == physical / 0x1000);
            } else if size == TWO_MIB {
                assert(low47(x) / 0x20_0000 == physical / 0x20_0000);
            } else {
                assert(low47(x) / 0x4000_0000 == physical / 0x4000_0000);
            }
        } else {
            assert(resolve(before, root, x) == resolve(m0, root, x) || resolve(before, root, x) == Some(
                low47(x) as int,
            ));
        }
    }
}

/// An address's offset in its page, 2 MiB or 1 GiB block is that of its
/// offset in its half.
proof fn lemma_low47_offsets(x: u64)
    ensures
        x % 0x1000 == low47(x) % 0x1000,
        x % 0x20_0000 == low47(x) % 0x20_0000,
        x % 0x4000_0000 == low47(x) % 0x4000_0000,
{
    assert(x % 0x1000 == (x % 0x8000_0000_0000) % 0x1000) by (nonlinear_arith);
    assert(x % 0x20_0000 == (x % 0x8000_0000_0000) % 0x20_0000) by (nonlinear_arith);
    assert(x % 0x4000_0000 == (x % 0x8000_0000_0000) % 0x4000_0000) by (nonlinear_arith);
}

/// Whatever one leaf of `map_range` did, it changed only addresses of the
/// pages of its own block, which the range's pages include.
proof fn lemma_range_frame(
    m0: Map<u64, Seq<u64>>,
    before: Map<u64, Seq<u64>>,
    after: Map<u64, Seq<u64>>,
    root: u64,
    start: u64,
    end: u64,
    physical: u64,
    size: u64,
    direct: bool,
)
    requires
        start <= physical < end <= 0x8000_0000_0000,
        size == PAGE_SIZE || size == TWO_MIB || size == GIGABYTE,
        physical % size == 0,
        physical % 0x1000 == 0,
        size != PAGE_SIZE ==> physical + size <= end,
        range_progress(m0, before, root, start, end, physical as int, direct),
        forall|x: u64|
            !same_block(x, map_address(physical, direct), size) ==> #[trigger] resolve(after, root, x) == resolve(
                before,
                root,
                x,
            ),
    ensures
        forall|x: u64|
            !in_mapped_pages(x, start, physical + size, direct) ==> #[trigger] resolve(after, root, x) == resolve(
                m0,
                root,
                x,
            ),
        forall|x: u64|
            !in_mapped_pages(x, start, end as int, direct) ==> #[trigger] resolve(after, root, x) == resolve(
                m0,
                root,
                x,
            ),
{
    reveal(range_progress);
    let va = map_address(physical, direct);
    lemma_map_address(physical, direct);
    assert forall|x: u64| !in_mapped_pages(x, start, physical + size, direct) implies #[trigger] resolve(
        after,
        root,
        x,
    ) == resolve(m0, root, x) by {
        if same_block(x, va, size) {
            if size == PAGE_SIZE {
                assert(low47(x) / 0x1000 == physical / 0x1000);
            } else if size == TWO_MIB {
                assert(low47(x) / 0x20_0000 == physical / 0x20_0000);
                assert(physical <= low47(x) < physical + 0x20_0000);
            } else {
                assert(low47(x) / 0x4000_0000 == physical / 0x4000_0000);
                assert(physical <= low47(x) < physical + 0x4000_0000);
            }
        }
    }
    assert((physical + size + 0xfff) / 0x1000 <= (end + 0xfff) / 0x1000);
}

impl KernelPageTables {
    /// One leaf of `map_range`: the `size`-byte block at `physical` in the
    /// direct map (`direct`) or the identity map.
    fn map_range_leaf(
        &mut self,
        mem: &mut PageTableMemory,
        alloc: &mut Allocator,
        heap_phys: u64,
        m0: Ghost<Map<u64, Seq<u64>>>,
        start: u64,
        end: u64,
        physical: u64,
        size: u64,
        direct: bool,
        flags: crate::mm::paging::PageFlags,
    ) -> (r: Result<(), &'static str>)
        requires
            old(self).inv(old(mem)@),
            old(mem).wf(),
            old(alloc).wf(),
            start <= physical < end <= 0x8000_0000_0000,
            size == PAGE_SIZE || size == TWO_MIB || size == GIGABYTE,
            size != PAGE_SIZE ==> physical % size == 0 && physical + size <= end,
            physical % 0x1000 != 0 ==> size == PAGE_SIZE,
            flags.0 & ADDRESS_MASK == 0,
            flags.0 & PRESENT != 0,
            range_progress(m0@, old(mem)@, old(self).root_addr(), start, end, physical as int, direct),
        ensures
            final(self).root_addr() == old(self).root_addr(),
            final(self).inv(final(mem)@),
            final(mem).wf(),
            final(alloc).wf(),
            physical % 0x1000 != 0 ==> (r matches Err(e) && e@ == "unaligned page mapping"@) && final(mem)@ == old(
                mem,
            )@,
            physical % 0x1000 == 0 ==> (r is Ok || (r matches Err(e) && e@ == "out of page-table frames"@)),
            r is Ok ==> range_progress(m0@, final(mem)@, old(self).root_addr(), start, end, physical + size, direct),
            r is Err && physical % 0x1000 == 0 ==> forall|x: u64|
                !in_mapped_pages(x, start, end as int, direct) ==> #[trigger] resolve(
                    final(mem)@,
                    old(self).root_addr(),
                    x,
                ) == resolve(m0@, old(self).root_addr(), x),
            r is Err ==> only_identity_changes(m0@, final(mem)@, old(self).root_addr()),
            writes_own_tables(old(mem)@, final(mem)@, old(self).tables(), final(self).tables()),
            supply_kept(
                *old(alloc),
                old(mem)@,
                *final(alloc),
                final(mem)@,
                heap_phys,
                r matches Err(e) && e@ == "out of page-table frames"@,
            ),
            leaves_kept(old(mem)@, final(mem)@, old(self).root_addr(), map_address(physical, direct), size),
            r is Ok ==> leaves_are(
                final(mem)@,
                old(self).root_addr(),
                map_address(physical, direct),
                size,
                if size == PAGE_SIZE {
                    physical | flags.0
                } else {
                    physical | HUGE_LEAF_BITS
                },
            ),
    {
        let va = VirtAddr(if direct { KERNEL_VIRT_BASE + physical } else { physical });
        let ghost before = mem@;
        let ghost root = self.root.0;
        proof {
            lemma_map_address(physical, direct);
            assert(va.0 == map_address(physical, direct));
            assert(normalized(va.0) == physical);
        }
        if size == GIGABYTE {
            proof {
                assert(va.0 % 0x4000_0000 == 0 && physical % 0x4000_0000 == 0);
            }
            let r = self.map_leaf(mem, alloc, heap_phys, va, PhysAddr(physical), GIGABYTE, flags);
            proof {
                assert(physical % 0x1000 == 0) by (nonlinear_arith)
                    requires
                        physical % 0x4000_0000 == 0,
                ;
                if r is Ok {
                    lemma_range_step(m0@, before, mem@, root, start, end, physical, size, direct);
                } else {
                    lemma_range_frame(m0@, before, mem@, root, start, end, physical, size, direct);
                    reveal(range_progress);
                    reveal(only_identity_changes);
                }
            }
            r
        } else if size == TWO_MIB {
            proof {
                assert(va.0 % 0x20_0000 == 0 && physical % 0x20_0000 == 0);
            }
            let r = self.map_leaf(mem, alloc, heap_phys, va, PhysAddr(physical), TWO_MIB, flags);
            proof {
                assert(physical % 0x1000 == 0) by (nonlinear_arith)
                    requires
                        physical % 0x20_0000 == 0,
                ;
                if r is Ok {
                    lemma_range_step(m0@, before, mem@, root, start, end, physical, size, direct);
                } else {
                    lemma_range_frame(m0@, before, mem@, root, start, end, physical, size, direct);
                    reveal(range_progress);
                    reveal(only_identity_changes);
                }
            }
            r
        } else {
            let r = self.map_leaf(mem, alloc, heap_phys, va, PhysAddr(physical), PAGE_SIZE, flags);
            proof {
                if physical % 0x1000 == 0 {
                    if r is Ok {
                        lemma_range_step(m0@, before, mem@, root, start, end, physical, size, direct);
                    } else {
                        lemma_range_frame(m0@, before, mem@, root, start, end, physical, size, direct);
                    }
                }
                if r is Err {
                    reveal(range_progress);
                    reveal(only_identity_changes);
                }
            }
            r
        }
    }

    /// Maps `[start, end)` into the direct map (`direct`) or the identity
    /// map, leaf by leaf from `start`: each leaf the largest page that is
    /// aligned and fits (1 GiB only where `gigabyte_pages`, MMIO always
    /// 4 KiB), with the flags that `kind` calls for on a 4 KiB page and the
    /// fixed huge-leaf bits on a larger one. On success every chunk of
    /// `planned_chunks` is mapped by leaves of its size with its entry
    /// (`chunk_mapped`).
    /// With a sound table supply (`table_supply_ok`), running out of page-table frames means the allocator has none below 4 GiB left (`supply_kept`).
    #[verifier::rlimit(80)]
    #[verifier::spinoff_prover]
    pub fn map_range(
        &mut self,
        mem: &mut PageTableMemory,
        alloc: &mut Allocator,
        heap_phys: u64,
        start: u64,
        end: u64,
        direct: bool,
        kind: PhysicalMemoryKind,
        gigabyte_pages: bool,
    ) -> (r: Result<(), &'static str>)
        requires
            old(self).inv(old(mem)@),
            old(mem).wf(),
            old(alloc).wf(),
        ensures
            final(self).root_addr() == old(self).root_addr(),
            final(self).inv(final(mem)@),
            final(mem).wf(),
            final(alloc).wf(),
            start >= end ==> r is Ok && final(mem)@ == old(mem)@,
            start < end && end > 0x8000_0000_0000 ==> (r matches Err(e) && e@
                == "physical range exceeds four-level canonical coverage"@) && final(mem)@ == old(mem)@,
            start < end && end <= 0x8000_0000_0000 && start % 0x1000 != 0 ==> (r matches Err(e) && e@
                == "unaligned page mapping"@) && final(mem)@ == old(mem)@,
            start < end && end <= 0x8000_0000_0000 && start % 0x1000 == 0 ==> (r is Ok || (r matches Err(e) && e@
                == "out of page-table frames"@)),
            r is Ok ==> forall|p: u64|
                start <= p < end ==> #[trigger] resolve(final(mem)@, old(self).root_addr(), map_address(p, direct))
                    == Some(p as int),
            r is Ok ==> range_mapped(final(mem)@, old(self).root_addr(), start, end, direct),
            forall|x: u64|
                !in_mapped_pages(x, start, end as int, direct) ==> #[trigger] resolve(
                    final(mem)@,
                    old(self).root_addr(),
                    x,
                ) == resolve(old(mem)@, old(self).root_addr(), x),
            only_identity_changes(old(mem)@, final(mem)@, old(self).root_addr()),
            writes_own_tables(old(mem)@, final(mem)@, old(self).tables(), final(self).tables()),
            supply_kept(
                *old(alloc),
                old(mem)@,
                *final(alloc),
                final(mem)@,
                heap_phys,
                r matches Err(e) && e@ == "out of page-table frames"@,
            ),
            r is Ok ==> forall|i: int|
                0 <= i < planned_chunks(start as int, end as int, direct, kind, gigabyte_pages).len()
                    ==> #[trigger] chunk_mapped(
                    final(mem)@,
                    old(self).root_addr(),
                    planned_chunks(start as int, end as int, direct, kind, gigabyte_pages)[i],
                    direct,
                    kind,
                ),
    {
        let ghost m0 = mem@;
        let ghost a0 = *alloc;
        let ghost root = self.root.0;
        let ghost mut done: Seq<MappingChunk> = Seq::empty();
        let ghost t0 = self.tables();
        proof {
            lemma_writes_own_tables_none(mem@, t0);
        }
        proof {
            reveal(only_identity_changes);
            reveal(range_mapped);
            reveal_strlit("physical range exceeds four-level canonical coverage");
            reveal_strlit("out of page-table frames");
            assert("physical range exceeds four-level canonical coverage"@.len() != "out of page-table frames"@.len());
        }
        if start >= end {
            return Ok(());
        }
        let limit = if direct {
            crate::mm::paging::DIRECT_MAP_LIMIT
        } else {
            crate::mm::paging::IDENTITY_MAP_LIMIT
        };
        if end > limit {
            return Err("physical range exceeds four-level canonical coverage");
        }
        let flags = if kind == PhysicalMemoryKind::Reserved {
            crate::mm::paging::PageFlags::kernel_text()
        } else if kind == PhysicalMemoryKind::Mmio {
            crate::mm::paging::PageFlags::mmio()
        } else {
            crate::mm::paging::PageFlags::writable()
        };
        proof {
            lemma_huge_leaf_entry(0);
            reveal(range_progress);
        }
        let mut physical = start;
        while physical < end
            invariant
                self.inv(mem@),
                mem.wf(),
                alloc.wf(),
                self.root_addr() == root,
                root == old(self).root_addr(),
                m0 == old(mem)@,
                start <= physical,
                physical < end + 0x1000,
                start < end <= 0x8000_0000_0000,
                physical % 0x1000 == start % 0x1000,
                physical == start ==> mem@ == m0,
                physical != start ==> start % 0x1000 == 0,
                flags.0 == kind_flags(kind),
                flags.0 & ADDRESS_MASK == 0,
                flags.0 & PRESENT != 0,
                range_progress(m0, mem@, root, start, end, physical as int, direct),
                t0 == old(self).tables(),
                writes_own_tables(m0, mem@, t0, self.tables()),
                a0 == *old(alloc),
                supply_kept(a0, m0, *alloc, mem@, heap_phys, false),
                planned_chunks(start as int, end as int, direct, kind, gigabyte_pages) == done + planned_chunks(
                    physical as int,
                    end as int,
                    direct,
                    kind,
                    gigabyte_pages,
                ),
                forall|i: int| 0 <= i < done.len() ==> #[trigger] chunk_done(mem@, root, done[i], direct, kind, physical as int),
            decreases end + 0x1000 - physical,
        {
            let remaining = end - physical;
            let size = if kind != PhysicalMemoryKind::Mmio && gigabyte_pages && physical % GIGABYTE == 0 && remaining
                >= GIGABYTE {
                GIGABYTE
            } else if kind != PhysicalMemoryKind::Mmio && physical % TWO_MIB == 0 && remaining >= TWO_MIB {
                TWO_MIB
            } else {
                PAGE_SIZE
            };
            proof {
                assert(physical % 0x4000_0000 == 0 ==> physical % 0x1000 == 0) by (nonlinear_arith);
                assert(physical % 0x20_0000 == 0 ==> physical % 0x1000 == 0) by (nonlinear_arith);
                if size == PAGE_SIZE {
                    assert((physical + size) % 0x1000 == physical % 0x1000);
                } else if size == TWO_MIB {
                    assert((physical + size) % 0x1000 == 0);
                } else {
                    assert((physical + size) % 0x1000 == 0);
                }
            }
            let ghost ma = mem@;
            let ghost ta = self.tables();
            let ghost aa = *alloc;
            let leaf = self.map_range_leaf(mem, alloc, heap_phys, Ghost(m0), start, end, physical, size, direct, flags);
            proof {
                lemma_writes_own_tables_compose(m0, ma, mem@, t0, ta, self.tables());
                lemma_supply_chain(
                    a0,
                    m0,
                    aa,
                    ma,
                    *alloc,
                    mem@,
                    heap_phys,
                    leaf matches Err(e) && e@ == "out of page-table frames"@,
                );
            }
            match leaf {
                Ok(()) => {},
                Err(e) => {
                    return Err(e);
                },
            }
            proof {
                let c = MappingChunk {
                    physical_start: physical,
                    virtual_start: virtual_for(physical as int, direct) as u64,
                    size,
                    page_size: leaf_for(physical as int, end as int, kind, gigabyte_pages).1,
                };
                let rest = planned_chunks((physical + size) as int, end as int, direct, kind, gigabyte_pages);
                assert(leaf_for(physical as int, end as int, kind, gigabyte_pages).0 == size);
                assert(planned_chunks(physical as int, end as int, direct, kind, gigabyte_pages) == seq![c] + rest);
                assert(done.push(c) + rest =~= done + (seq![c] + rest));
                lemma_chunks_kept(ma, mem@, root, done, direct, kind, physical, size);
                assert(physical % size == 0) by (nonlinear_arith)
                    requires
                        size == 0x1000 || size == 0x20_0000 || size == 0x4000_0000,
                        physical % 0x1000 == 0,
                        size == 0x20_0000 ==> physical % 0x20_0000 == 0,
                        size == 0x4000_0000 ==> physical % 0x4000_0000 == 0,
                ;
                assert(chunk_done(mem@, root, c, direct, kind, physical + size));
                done = done.push(c);
            }
            physical = physical + size;
        }
        proof {
            assert((physical + 0xfff) / 0x1000 <= (end + 0xfff) / 0x1000) by (nonlinear_arith)
                requires
                    physical % 0x1000 == 0,
                    physical < end + 0x1000,
            ;
            reveal(range_progress);
            assert(planned_chunks(start as int, end as int, direct, kind, gigabyte_pages) =~= done);
            assert forall|i: int| 0 <= i < done.len() implies #[trigger] chunk_mapped(mem@, root, done[i], direct, kind) by {
                assert(chunk_done(mem@, root, done[i], direct, kind, physical as int));
            }
        }
        Ok(())
    }
}

/// The leaf entry that maps the chunk `c` of a plan for memory of `kind`:
/// a 4 KiB page with the flags of `kind`, a huge page with the fixed
/// huge-leaf bits.
pub open spec fn chunk_entry(c: MappingChunk, kind: PhysicalMemoryKind) -> u64 {
    if c.size == PAGE_SIZE {
        c.physical_start | kind_flags(kind)
    } else {
        c.physical_start | HUGE_LEAF_BITS
    }
}

/// Every address of chunk `c`, in the direct map (`direct`) or the identity
/// map, has as its leaf one page of the chunk's size with the chunk's entry.
pub open spec fn chunk_mapped(
    m: Map<u64, Seq<u64>>,
    root: u64,
    c: MappingChunk,
    direct: bool,
    kind: PhysicalMemoryKind,
) -> bool {
    leaves_are(m, root, map_address(c.physical_start, direct), c.size, chunk_entry(c, kind))
}

/// Chunk `c`, aligned to its size and ending at or below `bound`, is mapped.
pub open spec fn chunk_done(
    m: Map<u64, Seq<u64>>,
    root: u64,
    c: MappingChunk,
    direct: bool,
    kind: PhysicalMemoryKind,
    bound: int,
) -> bool {
    &&& c.size == PAGE_SIZE || c.size == TWO_MIB || c.size == GIGABYTE
    &&& c.physical_start % c.size == 0
    &&& c.physical_start + c.size <= bound
    &&& bound <= 0x8000_0000_0000
    &&& chunk_mapped(m, root, c, direct, kind)
}

/// A block aligned to `s` holds exactly the addresses that share its
/// quotient by `s`.
proof fn lemma_aligned_block(y: int, p: int, s: int)
    requires
        s > 0,
        y >= 0,
        p >= 0,
        p % s == 0,
        y / s == p / s,
    ensures
        p <= y < p + s,
{
    vstd::arithmetic::div_mod::lemma_fundamental_div_mod(y, s);
    vstd::arithmetic::div_mod::lemma_fundamental_div_mod(p, s);
}

/// A leaf written from `physical` on keeps the chunks mapped below it.
proof fn lemma_chunks_kept(
    m0: Map<u64, Seq<u64>>,
    m1: Map<u64, Seq<u64>>,
    root: u64,
    done: Seq<MappingChunk>,
    direct: bool,
    kind: PhysicalMemoryKind,
    physical: u64,
    size: u64,
)
    requires
        forall|i: int| 0 <= i < done.len() ==> #[trigger] chunk_done(m0, root, done[i], direct, kind, physical as int),
        leaves_kept(m0, m1, root, map_address(physical, direct), size),
        size == PAGE_SIZE || size == TWO_MIB || size == GIGABYTE,
        physical % size == 0,
        physical + size <= 0x8000_0000_0000,
    ensures
        forall|i: int|
            0 <= i < done.len() ==> #[trigger] chunk_done(m1, root, done[i], direct, kind, physical + size),
{
    let va = map_address(physical, direct);
    lemma_map_address(physical, direct);
    assert forall|i: int| 0 <= i < done.len() implies #[trigger] chunk_done(
        m1,
        root,
        done[i],
        direct,
        kind,
        physical + size,
    ) by {
        let c = done[i];
        assert(chunk_done(m0, root, c, direct, kind, physical as int));
        let vc = map_address(c.physical_start, direct);
        lemma_map_address(c.physical_start, direct);
        reveal(leaves_are);
        reveal(leaves_kept);
        assert forall|x: u64| same_block(x, vc, c.size) implies #[trigger] leaf(m1, root, x) == Some(
            (chunk_entry(c, kind), c.size),
        ) by {
            assert(leaf(m0, root, x) == Some((chunk_entry(c, kind), c.size)));
            let y = low47(x) as int;
            lemma_aligned_block(y, c.physical_start as int, c.size as int);
            if same_block(x, va, size) {
                lemma_aligned_block(y, physical as int, size as int);
            }
            if c.size > PAGE_SIZE && same_block(x, va, c.size) {
                lemma_aligned_block(physical as int, c.physical_start as int, c.size as int);
            }
        }
    }
}

/// Every address of `[start, end)` below 128 TiB resolves, through the
/// identity map or (`direct`) the direct map, to itself.
#[verifier::opaque]
pub open spec fn range_mapped(m: Map<u64, Seq<u64>>, root: u64, start: u64, end: u64, direct: bool) -> bool {
    forall|p: u64|
        start <= p < end && p < 0x8000_0000_0000 ==> #[trigger] resolve(m, root, map_address(p, direct)) == Some(
            p as int,
        )
}

/// A range that resolves to itself keeps doing so through changes that
/// only map addresses to themselves.
pub proof fn lemma_mapped_stays(
    m1: Map<u64, Seq<u64>>,
    m2: Map<u64, Seq<u64>>,
    root: u64,
    start: u64,
    end: u64,
    direct: bool,
)
    requires
        range_mapped(m1, root, start, end, direct),
        only_identity_changes(m1, m2, root),
    ensures
        range_mapped(m2, root, start, end, direct),
{
    reveal(range_mapped);
    reveal(only_identity_changes);
    assert forall|p: u64| start <= p < end && p < 0x8000_0000_0000 implies #[trigger] resolve(
        m2,
        root,
        map_address(p, direct),
    ) == Some(p as int) by {
        lemma_map_address(p, direct);
        assert(resolve(m2, root, map_address(p, direct)) == resolve(m1, root, map_address(p, direct)) || resolve(
            m2,
            root,
            map_address(p, direct),
        ) == Some(low47(map_address(p, direct)) as int));
    }
}

/// Changes that only map addresses to themselves compose.
pub proof fn lemma_identity_changes_compose(a: Map<u64, Seq<u64>>, b: Map<u64, Seq<u64>>, c: Map<u64, Seq<u64>>, root: u64)
    requires
        only_identity_changes(a, b, root),
        only_identity_changes(b, c, root),
    ensures
        only_identity_changes(a, c, root),
{
    reveal(only_identity_changes);
    assert forall|x: u64| #[trigger]
        resolve(c, root, x) == resolve(a, root, x) || resolve(c, root, x) == Some(low47(x) as int) by {
        assert(resolve(c, root, x) == resolve(b, root, x) || resolve(c, root, x) == Some(low47(x) as int));
        assert(resolve(b, root, x) == resolve(a, root, x) || resolve(b, root, x) == Some(low47(x) as int));
    }
}

/// No change is such a change.
pub proof fn lemma_identity_changes_none(a: Map<u64, Seq<u64>>, root: u64)
    ensures
        only_identity_changes(a, a, root),
{
    reveal(only_identity_changes);
}

/// Two adjacent ranges that resolve to themselves make one.
pub proof fn lemma_mapped_join(m: Map<u64, Seq<u64>>, root: u64, a: u64, b: u64, c: u64, direct: bool)
    requires
        range_mapped(m, root, a, b, direct),
        range_mapped(m, root, b, c, direct),
    ensures
        range_mapped(m, root, a, c, direct),
{
    reveal(range_mapped);
}

/// An empty range resolves to itself.
pub proof fn lemma_mapped_empty(m: Map<u64, Seq<u64>>, root: u64, a: u64, direct: bool)
    ensures
        range_mapped(m, root, a, a, direct),
{
    reveal(range_mapped);
}

impl KernelPageTables {
    /// Maps the 4 KiB page at physical `p` at its direct-map address with
    /// `flags`.
    /// With a sound table supply (`table_supply_ok`), running out of page-table frames means the allocator has none below 4 GiB left (`supply_kept`).
    pub fn map_direct_page(
        &mut self,
        mem: &mut PageTableMemory,
        alloc: &mut Allocator,
        heap_phys: u64,
        p: u64,
        flags: crate::mm::paging::PageFlags,
    ) -> (r: Result<(), &'static str>)
        requires
            old(self).inv(old(mem)@),
            old(mem).wf(),
            old(alloc).wf(),
            p % 0x1000 == 0,
            p < 0x8000_0000_0000,
            flags.0 & ADDRESS_MASK == 0,
            flags.0 & PRESENT != 0,
        ensures
            final(self).root_addr() == old(self).root_addr(),
            final(self).inv(final(mem)@),
            final(mem).wf(),
            final(alloc).wf(),
            r is Ok || (r matches Err(e) && e@ == "out of page-table frames"@),
            r is Ok ==> range_mapped(final(mem)@, old(self).root_addr(), p, (p + 0x1000) as u64, true),
            only_identity_changes(old(mem)@, final(mem)@, old(self).root_addr()),
            writes_own_tables(old(mem)@, final(mem)@, old(self).tables(), final(self).tables()),
            supply_kept(*old(alloc), old(mem)@, *final(alloc), final(mem)@, heap_phys, r is Err),
    {
        let ghost m0 = mem@;
        let va = VirtAddr(KERNEL_VIRT_BASE + p);
        proof {
            lemma_map_address(p, true);
            assert(va.0 % 0x1000 == 0);
        }
        let r = self.map_page(mem, alloc, heap_phys, va, PhysAddr(p), flags);
        proof {
            let root = self.root.0;
            reveal(only_identity_changes);
            reveal(range_mapped);
            assert forall|x: u64| #[trigger]
                resolve(mem@, root, x) == resolve(m0, root, x) || resolve(mem@, root, x) == Some(low47(x) as int) by {
                lemma_block_slots(x, va.0);
                if r is Ok && slots_of(x) == slots_of(va.0) {
                    lemma_low47_offsets(x);
                    assert(low47(x) / 0x1000 == p / 0x1000);
                }
            }
            if r is Ok {
                assert forall|q: u64| p <= q < p + 0x1000 && q < 0x8000_0000_0000 implies #[trigger] resolve(
                    mem@,
                    root,
                    map_address(q, true),
                ) == Some(q as int) by {
                    lemma_map_address(q, true);
                    lemma_block_slots(map_address(q, true), va.0);
                    assert(q / 0x1000 == p / 0x1000);
                }
            }
        }
        r
    }
}

/// Directories in the bootstrap identity map, one per GiB it covers.
pub const BOOTSTRAP_PD_COUNT: usize = 16;

/// The frame of bootstrap directory `i`: the directories lie one after
/// another from `pd_base`.
pub open spec fn bootstrap_pd(pd_base: u64, i: int) -> u64 {
    (pd_base + i * 0x1000) as u64
}

/// The bootstrap tables: `pdpt` links the 16 directories from `pd_base`,
/// directory `i` maps the `i`th GiB with 2 MiB pages, writable.
pub open spec fn bootstrap_tables(m: Map<u64, Seq<u64>>, pdpt: u64, pd_base: u64) -> bool {
    &&& m.contains_key(pdpt)
    &&& m[pdpt] == Seq::new(
        ENTRIES as nat,
        |i: int| if i < BOOTSTRAP_PD_COUNT { link(bootstrap_pd(pd_base, i)) } else { 0u64 },
    )
    &&& forall|i: int|
        0 <= i < BOOTSTRAP_PD_COUNT ==> #[trigger] m.contains_key(bootstrap_pd(pd_base, i)) && m[bootstrap_pd(
            pd_base,
            i,
        )] == run_table((i * 0x4000_0000) as u64, 0x20_0000, HUGE_LEAF_BITS)
}

/// What the bootstrap identity map resolves `x` to: the first 16 GiB of
/// the PML4's first slot to themselves, nothing else.
pub open spec fn bootstrap_resolve(x: u64) -> Option<int> {
    if pml4_slot(x) == 0 && pdpt_slot(x) < BOOTSTRAP_PD_COUNT {
        Some(x as int % 0x80_0000_0000)
    } else {
        None
    }
}

/// The frames of the bootstrap tables can be linked and hold no other
/// table of the set.
pub open spec fn bootstrap_frames_ok(pml4: u64, pdpt: u64, pd_base: u64) -> bool {
    &&& pml4 % 0x1000 == 0 && pdpt % 0x1000 == 0 && pd_base % 0x1000 == 0
    &&& pml4 < 0x10_0000_0000_0000 && pdpt < 0x10_0000_0000_0000
    &&& pd_base + BOOTSTRAP_PD_COUNT * 0x1000 <= 0x10_0000_0000_0000
    &&& pml4 != pdpt
    &&& !(pd_base <= pml4 < pd_base + BOOTSTRAP_PD_COUNT * 0x1000)
    &&& !(pd_base <= pdpt < pd_base + BOOTSTRAP_PD_COUNT * 0x1000)
}

/// A walk whose first step reaches the bootstrap `pdpt` resolves as the
/// bootstrap identity map does.
proof fn lemma_bootstrap_walk(m: Map<u64, Seq<u64>>, root: u64, pdpt: u64, pd_base: u64, x: u64)
    requires
        bootstrap_tables(m, pdpt, pd_base),
        pd_base % 0x1000 == 0,
        pd_base + BOOTSTRAP_PD_COUNT * 0x1000 <= 0x10_0000_0000_0000,
        pdpt % 0x1000 == 0,
        pdpt < 0x10_0000_0000_0000,
        m.contains_key(root),
        m[root].len() == ENTRIES,
        pml4_slot(x) == 0 ==> m[root][0] == link(pdpt),
        pml4_slot(x) != 0 ==> m[root][pml4_slot(x)] == 0,
    ensures
        resolve(m, root, x) == bootstrap_resolve(x),
{
    lemma_link(pdpt);
    lemma_present_nonzero(0);
    if pml4_slot(x) == 0 {
        let i = pdpt_slot(x);
        if i < BOOTSTRAP_PD_COUNT {
            let pd = bootstrap_pd(pd_base, i);
            lemma_link(pd);
            let e = pd_slot(x);
            let physical = (i * 0x4000_0000 + e * 0x20_0000) as u64;
            assert(0 <= e < 512);
            assert(m.contains_key(pd));
            assert(m[pd] == run_table((i * 0x4000_0000) as u64, 0x20_0000, HUGE_LEAF_BITS));
            assert(((i * 0x4000_0000) as u64) == i * 0x4000_0000);
            assert(m[pd][e] == ((i * 0x4000_0000 + e * 0x20_0000) as u64) | HUGE_LEAF_BITS);
            assert(physical % 0x20_0000 == 0 && physical < 0x4_0000_0000);
            lemma_huge_leaf_entry(physical);
            assert(physical + x % 0x20_0000 == x as int % 0x80_0000_0000) by (bit_vector)
                requires
                    physical == (((x / 0x4000_0000) % 512) * 0x4000_0000 + ((x / 0x20_0000) % 512) * 0x20_0000),
            ;
        }
    }
}

/// Builds the temporary identity map of the first 16 GiB: `pml4` gets
/// `pdpt` in its first slot and nothing else, `pdpt` the 16 directories
/// from `pd_base`, and directory `i` the 2 MiB pages of the `i`th GiB.
pub fn install_bootstrap_identity_map(mem: &mut PageTableMemory, pml4: u64, pdpt: u64, pd_base: u64)
    requires
        old(mem).wf(),
        bootstrap_frames_ok(pml4, pdpt, pd_base),
        old(mem)@.contains_key(pml4),
        old(mem)@.contains_key(pdpt),
        forall|i: int| 0 <= i < BOOTSTRAP_PD_COUNT ==> #[trigger] old(mem)@.contains_key(bootstrap_pd(pd_base, i)),
    ensures
        final(mem).wf(),
        bootstrap_tables(final(mem)@, pdpt, pd_base),
        final(mem)@[pml4] == zero_table().update(0, link(pdpt)),
        final(mem)@.dom() == old(mem)@.dom(),
        forall|f: u64|
            old(mem)@.contains_key(f) && f != pml4 && f != pdpt && !(pd_base <= f < pd_base + BOOTSTRAP_PD_COUNT
                * 0x1000) ==> #[trigger] final(mem)@[f] == old(mem)@[f],
        forall|x: u64| #[trigger] resolve(final(mem)@, pml4, x) == bootstrap_resolve(x),
{
    let ghost m0 = mem@;
    fill_run(mem, pml4, 0, 0, 0);
    fill_run(mem, pdpt, 0, 0, 0);
    proof {
        lemma_link(pdpt);
        assert(run_table(0, 0, 0) =~= zero_table()) by {
            assert forall|i: int| 0 <= i < ENTRIES implies run_table(0, 0, 0)[i] == 0u64 by {
                assert(0u64 | 0u64 == 0u64) by (bit_vector);
            }
        }
    }
    mem.write(pml4, 0, pdpt | PRESENT | WRITABLE);
    let ghost m1 = mem@;
    let mut index: usize = 0;
    while index < BOOTSTRAP_PD_COUNT
        invariant
            mem.wf(),
            bootstrap_frames_ok(pml4, pdpt, pd_base),
            0 <= index <= BOOTSTRAP_PD_COUNT,
            mem@.dom() == m0.dom(),
            forall|i: int| 0 <= i < BOOTSTRAP_PD_COUNT ==> #[trigger] m0.contains_key(bootstrap_pd(pd_base, i)),
            m0.contains_key(pml4) && m0.contains_key(pdpt),
            mem@[pml4] == zero_table().update(0, link(pdpt)),
            mem@[pdpt] == Seq::new(
                ENTRIES as nat,
                |i: int| if i < index { link(bootstrap_pd(pd_base, i)) } else { 0u64 },
            ),
            forall|i: int|
                0 <= i < index ==> #[trigger] mem@[bootstrap_pd(pd_base, i)] == run_table(
                    (i * 0x4000_0000) as u64,
                    0x20_0000,
                    HUGE_LEAF_BITS,
                ),
            forall|f: u64|
                m0.contains_key(f) && f != pml4 && f != pdpt && !(pd_base <= f < pd_base + BOOTSTRAP_PD_COUNT
                    * 0x1000) ==> #[trigger] mem@[f] == m0[f],
        decreases BOOTSTRAP_PD_COUNT - index,
    {
        let pd = pd_base + (index as u64) * 0x1000;
        let ghost before = mem@;
        proof {
            assert(pd == bootstrap_pd(pd_base, index as int));
            assert(m0.contains_key(bootstrap_pd(pd_base, index as int)));
            assert(mem@.dom().contains(pd));
        }
        fill_run(mem, pd, (index as u64) * 0x4000_0000, 0x20_0000, HUGE_LEAF_BITS);
        proof {
            assert(pd == bootstrap_pd(pd_base, index as int));
            lemma_link(pd);
        }
        mem.write(pdpt, index, pd | PRESENT | WRITABLE);
        proof {
            assert(mem@[pdpt] =~= Seq::new(
                ENTRIES as nat,
                |i: int| if i < index + 1 { link(bootstrap_pd(pd_base, i)) } else { 0u64 },
            ));
            assert forall|i: int| 0 <= i < index + 1 implies #[trigger] mem@[bootstrap_pd(pd_base, i)] == run_table(
                (i * 0x4000_0000) as u64,
                0x20_0000,
                HUGE_LEAF_BITS,
            ) by {
                if i < index {
                    assert(bootstrap_pd(pd_base, i) != pd);
                }
            }
        }
        index = index + 1;
    }
    proof {
        assert forall|x: u64| #[trigger] resolve(mem@, pml4, x) == bootstrap_resolve(x) by {
            lemma_bootstrap_walk(mem@, pml4, pdpt, pd_base, x);
        }
    }
}

impl KernelPageTables {
    /// Hands the PML4's first slot back to the bootstrap identity window
    /// (the tables from `install_bootstrap_identity_map`), so that device
    /// memory low in the address space stays reachable through it; the
    /// tables are then done, and their PML4 frame is returned for loading.
    pub fn finish_with_bootstrap_window(self, mem: &mut PageTableMemory, pdpt: u64, pd_base: u64) -> (r: PhysFrame)
        requires
            self.inv(old(mem)@),
            old(mem).wf(),
            bootstrap_tables(old(mem)@, pdpt, pd_base),
            bootstrap_frames_ok(self.root_addr(), pdpt, pd_base),
        ensures
            final(mem).wf(),
            r.0 == self.root_addr(),
            final(mem)@ == old(mem)@.insert(self.root_addr(), old(mem)@[self.root_addr()].update(0, link(pdpt))),
            forall|x: u64|
                pml4_slot(x) != 0 ==> #[trigger] resolve(final(mem)@, self.root_addr(), x) == resolve(
                    old(mem)@,
                    self.root_addr(),
                    x,
                ),
            forall|x: u64|
                pml4_slot(x) == 0 ==> #[trigger] resolve(final(mem)@, self.root_addr(), x) == bootstrap_resolve(x),
            forall|x: u64|
                pml4_slot(x) != 0 ==> #[trigger] leaf(final(mem)@, self.root_addr(), x) == leaf(
                    old(mem)@,
                    self.root_addr(),
                    x,
                ),
    {
        let ghost m0 = mem@;
        let root = self.root.0;
        mem.write(root, 0, pdpt | PRESENT | WRITABLE);
        proof {
            let m = mem@;
            assert forall|i: int| 0 <= i < BOOTSTRAP_PD_COUNT implies m[bootstrap_pd(pd_base, i)] == m0[bootstrap_pd(
                pd_base,
                i,
            )] && #[trigger] m.contains_key(bootstrap_pd(pd_base, i)) by {}
            assert(bootstrap_tables(m, pdpt, pd_base));
            assert forall|x: u64| pml4_slot(x) == 0 implies #[trigger] resolve(m, root, x) == bootstrap_resolve(x) by {
                lemma_bootstrap_walk(m, root, pdpt, pd_base, x);
            }
            assert forall|x: u64| pml4_slot(x) != 0 implies #[trigger] resolve(m, root, x) == resolve(m0, root, x) by {
                let e4 = m0[root][pml4_slot(x)];
                assert(m[root][pml4_slot(x)] == e4);
                assert(kernel_entry_ok(e4, self.l3@, false));
                lemma_present_nonzero(e4);
                if present(e4) {
                    let p = entry_addr(e4);
                    assert(m[p] == m0[p]);
                    let e3 = m0[p][pdpt_slot(x)];
                    assert(kernel_entry_ok(e3, self.l2@, true));
                    lemma_present_nonzero(e3);
                    if present(e3) && !huge(e3) {
                        let d = entry_addr(e3);
                        assert(m[d] == m0[d]);
                        let e2 = m0[d][pd_slot(x)];
                        assert(kernel_entry_ok(e2, self.l1@, true));
                        lemma_present_nonzero(e2);
                        if present(e2) && !huge(e2) {
                            assert(m[entry_addr(e2)] == m0[entry_addr(e2)]);
                        }
                    }
                }
            }
            reveal(leaf);
            assert forall|x: u64| pml4_slot(x) != 0 implies #[trigger] leaf(m, root, x) == leaf(m0, root, x) by {
                let e4 = m0[root][pml4_slot(x)];
                assert(m[root][pml4_slot(x)] == e4);
                assert(kernel_entry_ok(e4, self.l3@, false));
                lemma_present_nonzero(e4);
                if present(e4) {
                    let p = entry_addr(e4);
                    assert(m[p] == m0[p]);
                    let e3 = m0[p][pdpt_slot(x)];
                    assert(kernel_entry_ok(e3, self.l2@, true));
                    lemma_present_nonzero(e3);
                    if present(e3) && !huge(e3) {
                        let d = entry_addr(e3);
                        assert(m[d] == m0[d]);
                        let e2 = m0[d][pd_slot(x)];
                        assert(kernel_entry_ok(e2, self.l1@, true));
                        lemma_present_nonzero(e2);
                        if present(e2) && !huge(e2) {
                            assert(m[entry_addr(e2)] == m0[entry_addr(e2)]);
                        }
                    }
                }
            }
        }
        self.root
    }
}

/// Chunks of the direct map stay mapped through changes that keep the
/// leaves of every address outside the first slot of the root.
pub proof fn lemma_direct_chunks_kept(
    m0: Map<u64, Seq<u64>>,
    m1: Map<u64, Seq<u64>>,
    root: u64,
    chunks: Seq<MappingChunk>,
    kind: PhysicalMemoryKind,
)
    requires
        forall|x: u64| pml4_slot(x) != 0 ==> #[trigger] leaf(m1, root, x) == leaf(m0, root, x),
        forall|i: int| 0 <= i < chunks.len() ==> #[trigger] chunk_mapped(m0, root, chunks[i], true, kind),
        forall|i: int| 0 <= i < chunks.len() ==> (#[trigger] chunks[i]).physical_start < 0x8000_0000_0000,
    ensures
        forall|i: int| 0 <= i < chunks.len() ==> #[trigger] chunk_mapped(m1, root, chunks[i], true, kind),
{
    assert forall|i: int| 0 <= i < chunks.len() implies #[trigger] chunk_mapped(m1, root, chunks[i], true, kind) by {
        let c = chunks[i];
        assert(chunk_mapped(m0, root, c, true, kind));
        assert(c.physical_start < 0x8000_0000_0000);
        reveal(leaves_are);
        assert forall|x: u64| same_block(x, map_address(c.physical_start, true), c.size) implies #[trigger] leaf(
            m1,
            root,
            x,
        ) == Some((chunk_entry(c, kind), c.size)) by {
            assert(leaf(m0, root, x) == Some((chunk_entry(c, kind), c.size)));
            lemma_map_address(c.physical_start, true);
            assert((x / 0x8000_0000_0000) % 2 == 1 ==> (x / 0x80_0000_0000) % 512 != 0) by (bit_vector);
        }
    }
}

/// A walk from a PML4 whose first slot links the bootstrap `pdpt`, and
/// whose other slots are empty, resolves as the bootstrap identity map.
pub proof fn lemma_bootstrap_walk_pub(m: Map<u64, Seq<u64>>, pml4: u64, pdpt: u64, pd_base: u64, x: u64)
    requires
        bootstrap_tables(m, pdpt, pd_base),
        bootstrap_frames_ok(pml4, pdpt, pd_base),
        m.contains_key(pml4),
        m[pml4] == zero_table().update(0, link(pdpt)),
    ensures
        resolve(m, pml4, x) == bootstrap_resolve(x),
{
    lemma_bootstrap_walk(m, pml4, pdpt, pd_base, x);
}

/// An empty PML4 resolves nothing.
pub proof fn lemma_empty_root_resolves_nothing(m: Map<u64, Seq<u64>>, root: u64, x: u64)
    requires
        m.contains_key(root),
        m[root] == zero_table(),
    ensures
        resolve(m, root, x) is None,
{
    lemma_present_nonzero(0);
}

/// The last byte, plus one, that `map_all_memory` maps for `highest`: the
/// next 2 MiB boundary.
pub open spec fn two_mib_ceil(highest: u64) -> int {
    if highest % 0x20_0000 == 0 {
        highest as int
    } else {
        highest - highest % 0x20_0000 + 0x20_0000
    }
}

impl KernelPageTables {
    /// Maps the first `highest` bytes of physical memory in one half (the
    /// direct map where `direct`): 1 GiB pages for every whole GiB, then
    /// 2 MiB pages up to the first 2 MiB boundary at or past `highest`.
    fn map_all_of_half(
        &mut self,
        mem: &mut PageTableMemory,
        alloc: &mut Allocator,
        heap_phys: u64,
        highest: u64,
        direct: bool,
    ) -> (r: bool)
        requires
            old(self).inv(old(mem)@),
            old(mem).wf(),
            old(alloc).wf(),
            highest <= 0x80_0000_0000,
        ensures
            final(self).root_addr() == old(self).root_addr(),
            final(self).inv(final(mem)@),
            final(mem).wf(),
            final(alloc).wf(),
            only_identity_changes(old(mem)@, final(mem)@, old(self).root_addr()),
            writes_own_tables(old(mem)@, final(mem)@, old(self).tables(), final(self).tables()),
            r ==> range_mapped(final(mem)@, old(self).root_addr(), 0, two_mib_ceil(highest) as u64, direct),
    {
        let ghost m0 = mem@;
        let ghost root = self.root.0;
        let ghost t0 = self.tables();
        let end = if highest % TWO_MIB == 0 { highest } else { highest - highest % TWO_MIB + TWO_MIB };
        proof {
            lemma_writes_own_tables_none(m0, t0);
            reveal(range_progress);
            reveal(only_identity_changes);
            lemma_kernel_flags();
        }
        let flags = crate::mm::paging::PageFlags::writable();
        let mut physical: u64 = 0;
        while physical < end
            invariant
                self.inv(mem@),
                mem.wf(),
                alloc.wf(),
                self.root_addr() == root,
                root == old(self).root_addr(),
                m0 == old(mem)@,
                t0 == old(self).tables(),
                end == two_mib_ceil(highest),
                highest <= 0x80_0000_0000,
                physical <= end,
                physical % 0x20_0000 == 0,
                flags.0 & ADDRESS_MASK == 0,
                flags.0 & PRESENT != 0,
                range_progress(m0, mem@, root, 0, end, physical as int, direct),
                writes_own_tables(m0, mem@, t0, self.tables()),
            decreases end - physical,
        {
            let size = if physical % GIGABYTE == 0 && highest - physical >= GIGABYTE {
                GIGABYTE
            } else {
                TWO_MIB
            };
            proof {
                assert(physical % 0x1000 == 0) by (nonlinear_arith)
                    requires
                        physical % 0x20_0000 == 0,
                ;
                assert(physical + 0x20_0000 <= end);
                if size == GIGABYTE {
                    assert((physical + size) % 0x20_0000 == 0) by (nonlinear_arith)
                        requires
                            physical % 0x4000_0000 == 0,
                            size == 0x4000_0000,
                    ;
                }
            }
            let ghost ma = mem@;
            let ghost ta = self.tables();
            let leaf = self.map_range_leaf(mem, alloc, heap_phys, Ghost(m0), 0, end, physical, size, direct, flags);
            proof {
                lemma_writes_own_tables_compose(m0, ma, mem@, t0, ta, self.tables());
            }
            if leaf.is_err() {
                proof {
                    reveal(range_progress);
                }
                return false;
            }
            physical = physical + size;
        }
        proof {
            reveal(range_progress);
            reveal(range_mapped);
        }
        true
    }

    /// Maps the first `highest` bytes of physical memory (rounded up to
    /// 2 MiB) in the identity map and then in the direct map, with 1 GiB
    /// pages for every whole GiB and 2 MiB pages for the rest; `false` where
    /// table frames ran out, which ends the work.
    pub fn map_all_memory(
        &mut self,
        mem: &mut PageTableMemory,
        alloc: &mut Allocator,
        heap_phys: u64,
        highest: u64,
    ) -> (r: bool)
        requires
            old(self).inv(old(mem)@),
            old(mem).wf(),
            old(alloc).wf(),
            highest <= 0x80_0000_0000,
        ensures
            final(self).root_addr() == old(self).root_addr(),
            final(self).inv(final(mem)@),
            final(mem).wf(),
            final(alloc).wf(),
            only_identity_changes(old(mem)@, final(mem)@, old(self).root_addr()),
            writes_own_tables(old(mem)@, final(mem)@, old(self).tables(), final(self).tables()),
            r ==> range_mapped(final(mem)@, old(self).root_addr(), 0, highest, false),
            r ==> range_mapped(final(mem)@, old(self).root_addr(), 0, highest, true),
    {
        let ghost m0 = mem@;
        let ghost t0 = self.tables();
        if !self.map_all_of_half(mem, alloc, heap_phys, highest, false) {
            return false;
        }
        let ghost m1 = mem@;
        let ghost t1 = self.tables();
        let done = self.map_all_of_half(mem, alloc, heap_phys, highest, true);
        proof {
            lemma_identity_changes_compose(m0, m1, mem@, self.root.0);
            lemma_writes_own_tables_compose(m0, m1, mem@, t0, t1, self.tables());
            if done {
                lemma_mapped_stays(m1, mem@, self.root.0, 0, two_mib_ceil(highest) as u64, false);
                reveal(range_mapped);
            }
        }
        done
    }
}

} // verus!
