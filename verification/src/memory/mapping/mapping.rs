//! An Sv39 address space: a root page table, the tables below it, and the
//! walk that translates a virtual page.
use vstd::prelude::*;
use crate::memory::MemoryResult;
use crate::memory::address::{
    PhysicalAddress, PhysicalPageNumber, VirtualAddress, VirtualPageNumber, level_index, vpn_key,
    lemma_level_index_bound,
};
use crate::memory::frame::allocator::{Allocator, FrameAllocator, NO_FREE_FRAME};
use crate::memory::frame::frame_tracker::FrameTracker;
use crate::memory::mapping::page_table::{PageTableTracker, ENTRY_COUNT};
use crate::memory::mapping::page_table_entry::{PageTableEntry, Flags, VALID, MAX_PPN};
use crate::memory::mapping::segment::{MapType, Segment};
use riscv::register::satp::Satp;
use crate::memory::address::AddressValue;

verus! {

/// The index that key `k` (a 27-bit page key) selects in the table at `level`.
pub open spec fn key_index(k: nat, level: int) -> int {
    if level == 0 {
        (k / 0x4_0000) as int
    } else if level == 1 {
        ((k / 0x200) % 512) as int
    } else {
        (k % 512) as int
    }
}

/// The most page tables that mapping the pages `vpn0 .. vpn0 + n` in turn
/// can create: two for the first page, and two more for each later page
/// that starts a new bottom-level table (a page number that is a multiple
/// of 512); the other pages reuse the tables of the page before them.
pub open spec fn tables_budget(vpn0: int, n: int) -> int {
    if n <= 0 {
        0
    } else {
        2 + 2 * ((vpn0 + n - 1) / 512 - vpn0 / 512)
    }
}

/// The budget grows with the run, by two at most per page, and is at most
/// two frames per page.
pub proof fn lemma_budget(vpn0: int, i: int, n: int)
    requires
        vpn0 >= 0,
        0 <= i < n,
    ensures
        tables_budget(vpn0, i) <= tables_budget(vpn0, i + 1) <= tables_budget(vpn0, n),
        i == 0 ==> tables_budget(vpn0, i + 1) == 2,
        i > 0 && (vpn0 + i) % 512 == 0 ==> tables_budget(vpn0, i + 1) == tables_budget(vpn0, i) + 2,
        tables_budget(vpn0, n) <= 2 * n,
{
    if i > 0 {
        assert((vpn0 + i - 1) / 512 <= (vpn0 + i) / 512) by (nonlinear_arith)
            requires
                vpn0 + i >= 1,
        ;
    }
    assert((vpn0 + i) / 512 <= (vpn0 + n - 1) / 512) by (nonlinear_arith)
        requires
            i <= n - 1,
            vpn0 + i >= 0,
    ;
    assert(vpn0 / 512 <= (vpn0 + i) / 512) by (nonlinear_arith)
        requires
            vpn0 >= 0,
            i >= 0,
    ;
    if i > 0 && (vpn0 + i) % 512 == 0 {
        assert((vpn0 + i) / 512 == (vpn0 + i - 1) / 512 + 1) by (nonlinear_arith)
            requires
                (vpn0 + i) % 512 == 0,
                vpn0 + i >= 1,
        ;
    }
    assert((vpn0 + n - 1) / 512 - vpn0 / 512 <= n - 1) by (nonlinear_arith)
        requires
            vpn0 >= 0,
            n >= 1,
    ;
}

/// The indices a page selects are the ones its key selects.
pub proof fn lemma_key_index(vpn: u64)
    ensures
        vpn_key(vpn) < 0x800_0000,
        key_index(vpn_key(vpn), 0) == level_index(vpn, 0),
        key_index(vpn_key(vpn), 1) == level_index(vpn, 1),
        key_index(vpn_key(vpn), 2) == level_index(vpn, 2),
{
    lemma_level_index_bound(vpn);
    let a = level_index(vpn, 0);
    let b = level_index(vpn, 1);
    let c = level_index(vpn, 2);
    lemma_split_key(a, b, c);
}

/// A key is spelled by its three indices, and the indices come back from it.
proof fn lemma_split_key(a: int, b: int, c: int)
    requires
        0 <= a < 512,
        0 <= b < 512,
        0 <= c < 512,
    ensures
        a * 0x4_0000 + b * 0x200 + c < 0x800_0000,
        key_index((a * 0x4_0000 + b * 0x200 + c) as nat, 0) == a,
        key_index((a * 0x4_0000 + b * 0x200 + c) as nat, 1) == b,
        key_index((a * 0x4_0000 + b * 0x200 + c) as nat, 2) == c,
{
    let k = a * 0x4_0000 + b * 0x200 + c;
    assert(k / 0x4_0000 == a) by (nonlinear_arith)
        requires
            k == a * 0x4_0000 + b * 0x200 + c,
            0 <= b < 512,
            0 <= c < 512,
    ;
    assert(k / 0x200 == a * 512 + b) by (nonlinear_arith)
        requires
            k == a * 0x4_0000 + b * 0x200 + c,
            0 <= c < 512,
    ;
    assert((a * 512 + b) % 512 == b) by (nonlinear_arith)
        requires
            0 <= b < 512,
            0 <= a,
    ;
    assert(k % 512 == c) by (nonlinear_arith)
        requires
            k == a * 0x4_0000 + b * 0x200 + c,
            0 <= c < 512,
            0 <= a,
            0 <= b,
    ;
}

/// Two keys below 2^27 that select the same three indices are the same key.
proof fn lemma_key_indices_injective(k1: nat, k2: nat)
    requires
        k1 < 0x800_0000,
        k2 < 0x800_0000,
        key_index(k1, 0) == key_index(k2, 0),
        key_index(k1, 1) == key_index(k2, 1),
        key_index(k1, 2) == key_index(k2, 2),
    ensures
        k1 == k2,
{
    assert(k1 == key_index(k1, 0) * 0x4_0000 + key_index(k1, 1) * 0x200 + key_index(k1, 2))
        by (nonlinear_arith)
        requires
            k1 < 0x800_0000,
    ;
    assert(k2 == key_index(k2, 0) * 0x4_0000 + key_index(k2, 1) * 0x200 + key_index(k2, 2))
        by (nonlinear_arith)
        requires
            k2 < 0x800_0000,
    ;
}

/// A key's indices are each below 512.
proof fn lemma_key_index_bound(k: nat)
    requires
        k < 0x800_0000,
    ensures
        0 <= key_index(k, 0) < 512,
        0 <= key_index(k, 1) < 512,
        0 <= key_index(k, 2) < 512,
{
}

/// An address space: the frames of its page tables, the entries those tables
/// hold (512 per table, table by table), and the root table's frame.
pub struct Mapping {
    page_tables: Vec<PageTableTracker>,
    entries: Vec<PageTableEntry>,
    depth: Ghost<Seq<int>>,
    pub root_ppn: PhysicalPageNumber,
}

impl Mapping {
    /// The frame of the root table.
    pub closed spec fn root(self) -> u64 {
        self.root_ppn.0
    }

    /// How many page tables the address space holds.
    pub closed spec fn table_count(self) -> nat {
        self.page_tables@.len()
    }

    /// The frame of table `t`.
    pub closed spec fn table_ppn(self, t: int) -> u64 {
        self.page_tables@[t].0.0.0
    }

    /// Entry `i` of table `t`.
    pub closed spec fn slot(self, t: int, i: int) -> PageTableEntry {
        self.entries@[t * 512 + i]
    }

    /// How far table `t` lies below the root (the root is at 0).
    pub closed spec fn level(self, t: int) -> int {
        self.depth@[t]
    }

    /// Whether some table of this address space lives in frame `ppn`.
    pub open spec fn uses_frame(self, ppn: u64) -> bool {
        exists|t: int| 0 <= t < self.table_count() && #[trigger] self.table_ppn(t) == ppn
    }

    /// The table that lives in frame `ppn`.
    pub open spec fn table_of(self, ppn: u64) -> int {
        choose|t: int| 0 <= t < self.table_count() && #[trigger] self.table_ppn(t) == ppn
    }

    /// The table at the bottom level that the walk for key `k` reaches, if
    /// the two entries on the way are in use.
    pub open spec fn leaf_table(self, k: nat) -> Option<int> {
        let e0 = self.slot(0, key_index(k, 0));
        if e0.is_empty_spec() {
            None
        } else {
            let t1 = self.table_of(e0.ppn_spec());
            let e1 = self.slot(t1, key_index(k, 1));
            if e1.is_empty_spec() {
                None
            } else {
                Some(self.table_of(e1.ppn_spec()))
            }
        }
    }

    /// How many tables the walk for key `k` still lacks: two when the root
    /// entry is unused, one when the middle entry is, none otherwise.
    pub open spec fn tables_missing(self, k: nat) -> nat {
        let e0 = self.slot(0, key_index(k, 0));
        if e0.is_empty_spec() {
            2
        } else if self.slot(self.table_of(e0.ppn_spec()), key_index(k, 1)).is_empty_spec() {
            1
        } else {
            0
        }
    }

    /// Mapping page `vpn0 + i` of a run takes no more tables than the budget
    /// grows by, once the page before it reaches a bottom-level table.
    pub proof fn lemma_budget_covers(self, vpn0: u64, i: int, n: int)
        requires
            0 <= i < n,
            vpn0 + n <= u64::MAX + 1,
            i > 0 ==> self.leaf_table(vpn_key((vpn0 + i - 1) as u64)) is Some,
        ensures
            self.tables_missing(vpn_key((vpn0 + i) as u64)) + tables_budget(vpn0 as int, i) <= tables_budget(vpn0 as int, i + 1),
            tables_budget(vpn0 as int, i + 1) <= tables_budget(vpn0 as int, n),
    {
        lemma_budget(vpn0 as int, i, n);
        if i > 0 && (vpn0 + i) % 512 != 0 {
            let a = vpn0 + i - 1;
            let ka = vpn_key(a as u64);
            let kb = vpn_key((vpn0 + i) as u64);
            assert(kb == ka + 1 && (ka + 1) % 512 != 0) by (nonlinear_arith)
                requires
                    ka == a % 0x800_0000,
                    kb == (a + 1) % 0x800_0000,
                    (a + 1) % 512 != 0,
                    a >= 0,
            ;
            assert(key_index(kb, 0) == key_index(ka, 0) && key_index(kb, 1) == key_index(ka, 1)) by (nonlinear_arith)
                requires
                    kb == ka + 1,
                    (ka + 1) % 512 != 0,
                    key_index(kb, 0) == kb / 0x4_0000,
                    key_index(ka, 0) == ka / 0x4_0000,
                    key_index(kb, 1) == (kb / 0x200) % 512,
                    key_index(ka, 1) == (ka / 0x200) % 512,
            ;
        }
    }

    /// The entry the walk for key `k` ends at, if it reaches one in use.
    pub open spec fn walk(self, k: nat) -> Option<PageTableEntry> {
        match self.leaf_table(k) {
            None => None,
            Some(t2) => {
                let e2 = self.slot(t2, key_index(k, 2));
                if e2.is_empty_spec() {
                    None
                } else {
                    Some(e2)
                }
            },
        }
    }

    /// The translation: each mapped page key and the entry that maps it.
    pub open spec fn view(self) -> Map<nat, PageTableEntry> {
        Map::new(|k: nat| k < 0x800_0000 && self.walk(k) is Some, |k: nat| self.walk(k)->0)
    }

    /// What `lookup` finds for `va`: the translated address and the bottom
    /// entry, once the walk reaches a bottom-level table.
    pub open spec fn lookup_spec(self, va: u64) -> Option<(u64, PageTableEntry)> {
        let k = vpn_key(va / 4096);
        match self.leaf_table(k) {
            None => None,
            Some(t2) => {
                let e2 = self.slot(t2, key_index(k, 2));
                Some(((e2.ppn_spec() * 4096 + va % 4096) as u64, e2))
            },
        }
    }

    /// The address space is well formed: 512 entries per table, the root
    /// first, tables in distinct frames, every entry in use above the bottom
    /// level points to a table one level down, and no two such entries point
    /// to the same table.
    pub closed spec fn wf(self) -> bool {
        &&& self.table_count() >= 1
        &&& self.entry_count() == 512 * self.table_count()
        &&& self.depth_count() == self.table_count()
        &&& self.table_ppn(0) == self.root_ppn.0
        &&& self.level(0) == 0
        &&& forall|t: int| 0 < t < self.table_count() ==> #[trigger] self.level(t) == 1 || self.level(t) == 2
        &&& forall|t: int| 0 <= t < self.table_count() ==> #[trigger] self.table_ppn(t) <= MAX_PPN
        &&& forall|t: int, u: int|
            0 <= t < self.table_count() && 0 <= u < self.table_count() && t != u ==> #[trigger] self.table_ppn(t)
                != #[trigger] self.table_ppn(u)
        &&& forall|t: int, i: int|
            0 <= t < self.table_count() && 0 <= i < 512 && self.level(t) < 2 && !(
            #[trigger] self.slot(t, i)).is_empty_spec() ==> self.links_down(t, i)
        &&& forall|t: int, i: int, u: int, j: int|
            0 <= t < self.table_count() && 0 <= i < 512 && 0 <= u < self.table_count() && 0 <= j < 512
                && self.level(t) < 2 && self.level(u) < 2 && !(#[trigger] self.slot(t, i)).is_empty_spec()
                && !(#[trigger] self.slot(u, j)).is_empty_spec() && (t != u || i != j) ==> self.slot(t, i).ppn_spec()
                != self.slot(u, j).ppn_spec()
    }

    /// Entry `i` of table `t` points to a table one level below `t`.
    pub open spec fn links_down(self, t: int, i: int) -> bool {
        &&& self.uses_frame(self.slot(t, i).ppn_spec())
        &&& self.level(self.table_of(self.slot(t, i).ppn_spec())) == self.level(t) + 1
    }

    /// Number of entries held.
    pub closed spec fn entry_count(self) -> nat {
        self.entries@.len()
    }

    /// Number of table levels recorded.
    pub closed spec fn depth_count(self) -> nat {
        self.depth@.len()
    }

    /// No frame of this address space is among the frames `allocator` may still hand out.
    pub open spec fn frames_outside<T: Allocator>(self, allocator: FrameAllocator<T>) -> bool {
        forall|t: int|
            0 <= t < self.table_count() ==> !allocator.free_frames().contains(
                #[trigger] self.table_ppn(t),
            )
    }

    /// The table in frame `ppn` is found where it is.
    proof fn lemma_table_of(self, t: int)
        requires
            self.wf(),
            0 <= t < self.table_count(),
        ensures
            self.uses_frame(self.table_ppn(t)),
            self.table_of(self.table_ppn(t)) == t,
    {
        assert(self.table_ppn(t) == self.table_ppn(t));
    }

    /// A frame in use holds exactly one table.
    proof fn lemma_table_of_used(self, ppn: u64)
        requires
            self.wf(),
            self.uses_frame(ppn),
        ensures
            0 <= self.table_of(ppn) < self.table_count(),
            self.table_ppn(self.table_of(ppn)) == ppn,
    {
    }

    /// An empty address space whose root table lives in a frame taken from
    /// `allocator`; fails with `NO_FREE_FRAME` when there is none.
    pub fn new<T: Allocator>(allocator: &mut FrameAllocator<T>) -> (r: MemoryResult<Mapping>)
        requires
            old(allocator).wf(),
        ensures
            final(allocator).wf(),
            match r {
                Ok(m) => {
                    &&& m.wf()
                    &&& m@ == Map::<nat, PageTableEntry>::empty()
                    &&& old(allocator).free_frames().contains(m.root())
                    &&& final(allocator).free_frames() == old(allocator).free_frames().remove(m.root())
                    &&& final(allocator).free_count() + 1 == old(allocator).free_count()
                    &&& m.frames_outside(*final(allocator))
                    &&& m.table_count() == 1
                    &&& forall|va: u64| #[trigger] m.lookup_spec(va) is None
                },
                Err(e) => {
                    &&& e == NO_FREE_FRAME
                    &&& old(allocator).free_count() == 0
                    &&& final(allocator).free_count() == 0
                    &&& final(allocator).free_frames() == old(allocator).free_frames()
                },
            },
    {
        let frame = match allocator.allocate() {
            Ok(frame) => frame,
            Err(e) => {
                return Err(e);
            },
        };
        let (root_table, table) = PageTableTracker::new(frame);
        let root_ppn = root_table.page_number();
        let mut page_tables: Vec<PageTableTracker> = Vec::new();
        page_tables.push(root_table);
        let ghost depth: Seq<int> = seq![0int];
        let m = Mapping { page_tables, entries: table.entries, depth: Ghost(depth), root_ppn };
        proof {
            assert(m.table_ppn(0) == root_ppn.0);
            assert forall|t: int, i: int| 0 <= t < 1 && 0 <= i < 512 implies (#[trigger] m.slot(t, i)).is_empty_spec() by {
                assert(t == 0);
                assert(m.entries@[t * 512 + i].word() == 0);
            }
            assert(m@ =~= Map::<nat, PageTableEntry>::empty()) by {
                assert forall|k: nat| k < 0x800_0000 implies m.walk(k) is None by {
                    lemma_key_index_bound(k);
                    assert(m.slot(0, key_index(k, 0)).is_empty_spec());
                }
            }
            assert forall|va: u64| #[trigger] m.lookup_spec(va) is None by {
                let k = vpn_key(va / 4096);
                assert(k < 0x800_0000);
                lemma_key_index_bound(k);
                assert(m.slot(0, key_index(k, 0)).is_empty_spec());
            }
        }
        Ok(m)
    }

    /// Finds the table that lives in frame `ppn`.
    fn find_table(&self, ppn: PhysicalPageNumber) -> (r: usize)
        requires
            self.wf(),
            self.uses_frame(ppn.0),
        ensures
            r < self.table_count(),
            r == self.table_of(ppn.0),
    {
        let mut t: usize = 0;
        while t < self.page_tables.len()
            invariant
                self.wf(),
                self.uses_frame(ppn.0),
                t <= self.table_count(),
                forall|u: int| 0 <= u < t ==> #[trigger] self.table_ppn(u) != ppn.0,
            decreases self.table_count() - t,
        {
            if self.page_tables[t].page_number().0 == ppn.0 {
                proof {
                    self.lemma_table_of(t as int);
                }
                return t;
            }
            t = t + 1;
        }
        proof {
            let u = self.table_of(ppn.0);
            self.lemma_table_of_used(ppn.0);
        }
        0
    }

    /// Entry `i` of table `t`.
    fn get_slot(&self, t: usize, i: usize) -> (r: PageTableEntry)
        requires
            self.wf(),
            t < self.table_count(),
            i < 512,
        ensures
            r == self.slot(t as int, i as int),
    {
        let len = self.entries.len();
        proof {
            let n = self.table_count();
            assert(t * 512 + i < 512 * n) by (nonlinear_arith)
                requires
                    t < n,
                    i < 512,
            ;
        }
        self.entries[t * ENTRY_COUNT + i]
    }

    /// Linking a fresh, empty table below an unused entry keeps the address
    /// space well formed and changes no translation.
    proof fn lemma_link_fresh_table(old: Mapping, new: Mapping, t: int, slot: int, p: u64)
        requires
            old.wf(),
            0 <= t < old.table_count(),
            old.level(t) < 2,
            0 <= slot < 512,
            old.slot(t, slot).is_empty_spec(),
            !old.uses_frame(p),
            p <= MAX_PPN,
            new.table_count() == old.table_count() + 1,
            new.root_ppn == old.root_ppn,
            new.entry_count() == 512 * new.table_count(),
            new.depth_count() == new.table_count(),
            forall|u: int|
                0 <= u < old.table_count() ==> #[trigger] new.table_ppn(u) == old.table_ppn(u)
                    && new.level(u) == old.level(u),
            new.table_ppn(old.table_count() as int) == p,
            new.level(old.table_count() as int) == old.level(t) + 1,
            forall|u: int, i: int|
                0 <= u < old.table_count() && 0 <= i < 512 && (u != t || i != slot) ==> #[trigger] new.slot(u, i)
                    == old.slot(u, i),
            forall|i: int| 0 <= i < 512 ==> (#[trigger] new.slot(old.table_count() as int, i)).is_empty_spec(),
            !new.slot(t, slot).is_empty_spec(),
            new.slot(t, slot).ppn_spec() == p,
        ensures
            new.wf(),
            new@ == old@,
            new.table_of(p) == old.table_count(),
            forall|u: int| 0 <= u < old.table_count() ==> #[trigger] new.table_of(old.table_ppn(u)) == u,
    {
        let n = old.table_count() as int;
        assert(new.table_ppn(n) == p);
        assert(new.table_ppn(0) == old.table_ppn(0));
        assert(new.level(0) == 0);
        assert(new.table_ppn(0) == new.root_ppn.0);
        assert forall|a: int, b: int|
            0 <= a < new.table_count() && 0 <= b < new.table_count() && a != b implies #[trigger] new.table_ppn(a)
                != #[trigger] new.table_ppn(b) by {
            if a < n && b < n {
                assert(old.table_ppn(a) != old.table_ppn(b));
            } else if a == n {
                assert(old.table_ppn(b) == new.table_ppn(b));
                assert(old.uses_frame(old.table_ppn(b)));
            } else {
                assert(old.table_ppn(a) == new.table_ppn(a));
                assert(old.uses_frame(old.table_ppn(a)));
            }
        }
        assert forall|u: int| 0 <= u < new.table_count() implies #[trigger] new.table_of(new.table_ppn(u)) == u by {
            assert(new.uses_frame(new.table_ppn(u)));
            let c = new.table_of(new.table_ppn(u));
            assert(new.table_ppn(c) == new.table_ppn(u));
        }
        assert forall|u: int| 0 <= u < old.table_count() implies #[trigger] new.table_of(old.table_ppn(u)) == u by {
            assert(new.table_ppn(u) == old.table_ppn(u));
            assert(new.table_of(new.table_ppn(u)) == u);
        }
        assert(new.table_of(new.table_ppn(n)) == n);
        // a frame used by the old tables is used by the same table in the new one
        assert forall|q: u64| old.uses_frame(q) implies new.uses_frame(q) && new.table_of(q) == old.table_of(q) by {
            let u = old.table_of(q);
            assert(old.table_ppn(u) == q);
            assert(new.table_of(old.table_ppn(u)) == u);
            assert(new.table_ppn(u) == q);
        }
        assert forall|u: int, i: int|
            0 <= u < new.table_count() && 0 <= i < 512 && new.level(u) < 2 && !(
            #[trigger] new.slot(u, i)).is_empty_spec() implies new.links_down(u, i) by {
            if u == t && i == slot {
                assert(new.table_ppn(t) == old.table_ppn(t));
                assert(new.table_of(p) == n);
            } else if u == n {
                assert(new.slot(n, i).is_empty_spec());
            } else {
                assert(new.slot(u, i) == old.slot(u, i));
                assert(new.table_ppn(u) == old.table_ppn(u));
                assert(old.links_down(u, i));
                let c = old.table_of(old.slot(u, i).ppn_spec());
                assert(old.table_ppn(c) == old.slot(u, i).ppn_spec());
                assert(new.table_of(old.table_ppn(c)) == c);
                assert(new.table_ppn(c) == old.table_ppn(c));
            }
        }
        assert forall|u: int, i: int, v: int, j: int|
            0 <= u < new.table_count() && 0 <= i < 512 && 0 <= v < new.table_count() && 0 <= j < 512
                && new.level(u) < 2 && new.level(v) < 2 && !(#[trigger] new.slot(u, i)).is_empty_spec()
                && !(#[trigger] new.slot(v, j)).is_empty_spec() && (u != v || i != j) implies new.slot(u, i).ppn_spec()
                != new.slot(v, j).ppn_spec() by {
            if u == n {
                assert(new.slot(n, i).is_empty_spec());
            }
            if v == n {
                assert(new.slot(n, j).is_empty_spec());
            }
            assert(new.table_ppn(u) == old.table_ppn(u));
            assert(new.table_ppn(v) == old.table_ppn(v));
            if u == t && i == slot {
                assert(new.slot(v, j) == old.slot(v, j));
                assert(old.links_down(v, j));
            } else if v == t && j == slot {
                assert(new.slot(u, i) == old.slot(u, i));
                assert(old.links_down(u, i));
            } else {
                assert(new.slot(u, i) == old.slot(u, i));
                assert(new.slot(v, j) == old.slot(v, j));
            }
        }
        assert forall|k: nat| k < 0x800_0000 implies #[trigger] new.walk(k) == old.walk(k) by {
            lemma_key_index_bound(k);
            let i0 = key_index(k, 0);
            let i1 = key_index(k, 1);
            let i2 = key_index(k, 2);
            if t == 0 && i0 == slot {
                let t1 = new.table_of(p);
                assert(new.slot(t1, i1).is_empty_spec());
            } else {
                assert(new.slot(0, i0) == old.slot(0, i0));
                let e0 = old.slot(0, i0);
                if !e0.is_empty_spec() {
                    assert(old.links_down(0, i0));
                    let t1 = old.table_of(e0.ppn_spec());
                    assert(new.table_of(e0.ppn_spec()) == t1);
                    assert(old.level(t1) == 1);
                    if t1 == t && i1 == slot {
                        assert(new.slot(t1, i1).ppn_spec() == p);
                        assert(new.slot(new.table_of(p), i2).is_empty_spec());
                    } else {
                        assert(new.slot(t1, i1) == old.slot(t1, i1));
                        let e1 = old.slot(t1, i1);
                        if !e1.is_empty_spec() {
                            assert(old.links_down(t1, i1));
                            let t2 = old.table_of(e1.ppn_spec());
                            assert(new.table_of(e1.ppn_spec()) == t2);
                            assert(old.level(t2) == 2);
                            assert(new.slot(t2, i2) == old.slot(t2, i2));
                        }
                    }
                }
            }
        }
        assert forall|u: int| 0 < u < new.table_count() implies #[trigger] new.level(u) == 1 || new.level(u) == 2 by {
            if u < n {
                assert(new.table_ppn(u) == old.table_ppn(u));
            } else {
                assert(new.table_ppn(t) == old.table_ppn(t));
                if t > 0 {
                    assert(old.level(t) == 1 || old.level(t) == 2);
                }
            }
        }
        assert(new@ =~= old@);
    }

    /// Steps from table `t` through its entry `slot` to the table below,
    /// first linking a fresh table (from a frame of `allocator`) when the
    /// entry is unused. Fails with `NO_FREE_FRAME` when a table is needed
    /// and no frame is left.
    fn descend<T: Allocator>(&mut self, t: usize, slot: usize, allocator: &mut FrameAllocator<T>) -> (r: MemoryResult<usize>)
        requires
            old(self).wf(),
            old(allocator).wf(),
            old(self).frames_outside(*old(allocator)),
            t < old(self).table_count(),
            old(self).level(t as int) < 2,
            slot < 512,
        ensures
            final(self).wf(),
            final(allocator).wf(),
            final(self).frames_outside(*final(allocator)),
            final(self)@ == old(self)@,
            final(self).root_ppn == old(self).root_ppn,
            final(self).table_count() >= old(self).table_count(),
            forall|u: int|
                0 <= u < old(self).table_count() ==> #[trigger] final(self).table_ppn(u) == old(self).table_ppn(u)
                    && final(self).level(u) == old(self).level(u),
            forall|u: int, i: int|
                0 <= u < old(self).table_count() && 0 <= i < 512 && !old(self).slot(u, i).is_empty_spec()
                    ==> #[trigger] final(self).slot(u, i) == old(self).slot(u, i),
            final(allocator).free_frames().subset_of(old(allocator).free_frames()),
            forall|q: u64|
                #[trigger] final(self).uses_frame(q) ==> old(self).uses_frame(q) || old(allocator).free_frames().contains(q),
            forall|q: u64|
                old(allocator).free_frames().contains(q) && !final(allocator).free_frames().contains(q) ==> #[trigger] final(self).uses_frame(q),
            forall|q: u64| #[trigger] old(self).uses_frame(q) ==> final(self).uses_frame(q),
            final(allocator).start() == old(allocator).start(),
            final(allocator).free_count() <= old(allocator).free_count() <= final(allocator).free_count() + 1,
            !old(self).slot(t as int, slot as int).is_empty_spec() ==> final(allocator).free_count() == old(allocator).free_count(),
            r is Ok <==> (!old(self).slot(t as int, slot as int).is_empty_spec() || old(allocator).free_count() >= 1),
            r is Ok && old(self).slot(t as int, slot as int).is_empty_spec() ==> final(allocator).free_count() + 1 == old(allocator).free_count(),
            !old(self).slot(t as int, slot as int).is_empty_spec() ==> *final(self) == *old(self),
            !old(self).slot(t as int, slot as int).is_empty_spec() ==> *final(allocator) == *old(allocator),
            r is Ok && old(self).slot(t as int, slot as int).is_empty_spec() ==> forall|i: int|
                0 <= i < 512 ==> (#[trigger] final(self).slot(r->Ok_0 as int, i)).is_empty_spec(),
            match r {
                Ok(c) => {
                    &&& c < final(self).table_count()
                    &&& final(self).level(c as int) == old(self).level(t as int) + 1
                    &&& !final(self).slot(t as int, slot as int).is_empty_spec()
                    &&& final(self).table_of(final(self).slot(t as int, slot as int).ppn_spec()) == c
                },
                Err(e) => {
                    &&& e == NO_FREE_FRAME
                    &&& final(allocator).free_count() == 0
                    &&& old(allocator).free_count() == 0
                    &&& final(allocator).free_frames() == old(allocator).free_frames()
                },
            },
    {
        let e = self.get_slot(t, slot);
        if !e.is_empty() {
            proof {
                assert(self.links_down(t as int, slot as int));
            }
            let c = self.find_table(e.page_number());
            return Ok(c);
        }
        let frame = match allocator.allocate() {
            Ok(frame) => frame,
            Err(err) => {
                return Err(err);
            },
        };
        let ghost old_self = *self;
        let n = self.page_tables.len();
        let new_ppn = frame.page_number();
        proof {
            if old_self.uses_frame(new_ppn.0) {
                let u = old_self.table_of(new_ppn.0);
                assert(old_self.table_ppn(u) == new_ppn.0);
            }
        }
        let (tracker, mut table) = PageTableTracker::new(frame);
        let ghost zeros = table.entries@;
        self.page_tables.push(tracker);
        self.entries.append(&mut table.entries);
        proof {
            self.depth@ = self.depth@.push(old_self.level(t as int) + 1);
        }
        let len = self.entries.len();
        proof {
            assert(t * 512 + slot < 512 * n) by (nonlinear_arith)
                requires
                    t < n,
                    slot < 512,
            ;
        }
        let link = PageTableEntry::new(new_ppn, Flags(VALID));
        self.entries[t * ENTRY_COUNT + slot] = link;
        proof {
            let nn = n as int;
            assert(self.table_count() == nn + 1);
            assert forall|u: int| 0 <= u < nn implies #[trigger] self.table_ppn(u) == old_self.table_ppn(u)
                && self.level(u) == old_self.level(u) by {
                assert(self.page_tables@[u] == old_self.page_tables@[u]);
            }
            assert forall|u: int, i: int|
                0 <= u < nn && 0 <= i < 512 && (u != t || i != slot) implies #[trigger] self.slot(u, i)
                    == old_self.slot(u, i) by {
                assert(u * 512 + i < nn * 512) by (nonlinear_arith)
                    requires
                        u < nn,
                        i < 512,
                ;
                assert(u * 512 + i != t * 512 + slot) by (nonlinear_arith)
                    requires
                        u != t || i != slot,
                        0 <= i < 512,
                        0 <= slot < 512,
                ;
            }
            assert forall|i: int| 0 <= i < 512 implies (#[trigger] self.slot(nn, i)).is_empty_spec() by {
                assert(nn * 512 + i != t * 512 + slot) by (nonlinear_arith)
                    requires
                        t < nn,
                        0 <= i < 512,
                        0 <= slot < 512,
                ;
                assert(self.entries@[nn * 512 + i] == zeros[i]) by {
                    assert(nn * 512 + i >= old_self.entries@.len());
                }
            }
            assert(self.slot(t as int, slot as int) == link);
            Mapping::lemma_link_fresh_table(old_self, *self, t as int, slot as int, new_ppn.0);
            assert forall|q: u64| #[trigger] self.uses_frame(q) implies old_self.uses_frame(q) || q == new_ppn.0 by {
                let u = choose|u: int| 0 <= u < self.table_count() && #[trigger] self.table_ppn(u) == q;
                if u < nn {
                    assert(old_self.table_ppn(u) == q);
                }
            }
            assert forall|u: int| 0 <= u < self.table_count() implies !allocator.free_frames().contains(
                #[trigger] self.table_ppn(u),
            ) by {
                if u < nn {
                    assert(self.table_ppn(u) == old_self.table_ppn(u));
                }
            }
            assert(self.table_ppn(nn) == new_ppn.0);
            assert(self.uses_frame(new_ppn.0));
            assert forall|q: u64| #[trigger] old_self.uses_frame(q) implies self.uses_frame(q) by {
                let u = choose|u: int| 0 <= u < old_self.table_count() && #[trigger] old_self.table_ppn(u) == q;
                assert(self.table_ppn(u) == q);
            }
        }
        Ok(n)
    }

    /// The walk for key `k`, when it reaches a bottom table, goes through a
    /// middle table (level 1) and ends in a bottom table (level 2).
    proof fn lemma_leaf_levels(self, k: nat)
        requires
            self.wf(),
            k < 0x800_0000,
            self.leaf_table(k) is Some,
        ensures
            ({
                let e0 = self.slot(0, key_index(k, 0));
                let t1 = self.table_of(e0.ppn_spec());
                let e1 = self.slot(t1, key_index(k, 1));
                let t2 = self.table_of(e1.ppn_spec());
                &&& !e0.is_empty_spec()
                &&& 0 <= t1 < self.table_count()
                &&& self.level(t1) == 1
                &&& self.table_ppn(t1) == e0.ppn_spec()
                &&& !e1.is_empty_spec()
                &&& 0 <= t2 < self.table_count()
                &&& self.level(t2) == 2
                &&& self.table_ppn(t2) == e1.ppn_spec()
                &&& self.leaf_table(k) == Some(t2)
            }),
    {
        lemma_key_index_bound(k);
        let e0 = self.slot(0, key_index(k, 0));
        assert(self.links_down(0, key_index(k, 0)));
        let t1 = self.table_of(e0.ppn_spec());
        let e1 = self.slot(t1, key_index(k, 1));
        assert(self.links_down(t1, key_index(k, 1)));
    }

    /// Two keys whose walks end in the same bottom table are told apart by
    /// their bottom index only.
    proof fn lemma_leaf_table_injective(self, k1: nat, k2: nat)
        requires
            self.wf(),
            k1 < 0x800_0000,
            k2 < 0x800_0000,
            self.leaf_table(k1) is Some,
            self.leaf_table(k1) == self.leaf_table(k2),
            key_index(k1, 2) == key_index(k2, 2),
        ensures
            k1 == k2,
    {
        self.lemma_leaf_levels(k1);
        self.lemma_leaf_levels(k2);
        lemma_key_index_bound(k1);
        lemma_key_index_bound(k2);
        let a0 = self.slot(0, key_index(k1, 0));
        let b0 = self.slot(0, key_index(k2, 0));
        let a1 = self.slot(self.table_of(a0.ppn_spec()), key_index(k1, 1));
        let b1 = self.slot(self.table_of(b0.ppn_spec()), key_index(k2, 1));
        assert(a1.ppn_spec() == b1.ppn_spec());
        assert(self.table_of(a0.ppn_spec()) == self.table_of(b0.ppn_spec()));
        assert(key_index(k1, 1) == key_index(k2, 1));
        assert(a0.ppn_spec() == b0.ppn_spec());
        assert(key_index(k1, 0) == key_index(k2, 0));
        lemma_key_indices_injective(k1, k2);
    }

    /// Writing entry `e` into the unused bottom slot of key `key` keeps the
    /// address space well formed and maps exactly that key to `e`.
    proof fn lemma_set_leaf(old: Mapping, new: Mapping, key: nat, t2: int, e: PageTableEntry)
        requires
            old.wf(),
            key < 0x800_0000,
            old.leaf_table(key) == Some(t2),
            old.slot(t2, key_index(key, 2)).is_empty_spec(),
            new.table_count() == old.table_count(),
            new.root_ppn == old.root_ppn,
            new.entry_count() == old.entry_count(),
            new.depth_count() == old.depth_count(),
            forall|u: int| 0 <= u < old.table_count() ==> #[trigger] new.table_ppn(u) == old.table_ppn(u) && new.level(u) == old.level(u),
            forall|u: int, i: int|
                0 <= u < old.table_count() && 0 <= i < 512 && (u != t2 || i != key_index(key, 2)) ==> #[trigger] new.slot(u, i)
                    == old.slot(u, i),
            new.slot(t2, key_index(key, 2)) == e,
        ensures
            new.wf(),
            new@ == (if e.is_empty_spec() { old@ } else { old@.insert(key, e) }),
            forall|k: nat| k < 0x800_0000 ==> #[trigger] new.leaf_table(k) == old.leaf_table(k),
    {
        old.lemma_leaf_levels(key);
        let i2 = key_index(key, 2);
        lemma_key_index_bound(key);
        assert(old.level(t2) == 2);
        assert forall|u: int| 0 <= u < new.table_count() implies #[trigger] new.table_of(new.table_ppn(u)) == u by {
            assert(new.table_ppn(u) == old.table_ppn(u));
            assert(new.uses_frame(new.table_ppn(u)));
            let c = new.table_of(new.table_ppn(u));
            assert(new.table_ppn(c) == old.table_ppn(c));
            if c != u {
                assert(old.table_ppn(c) != old.table_ppn(u));
            }
        }
        assert forall|q: u64| old.uses_frame(q) implies new.uses_frame(q) && new.table_of(q) == old.table_of(q) by {
            let u = old.table_of(q);
            assert(old.table_ppn(u) == q);
            assert(new.table_ppn(u) == q);
            assert(new.table_of(new.table_ppn(u)) == u);
        }
        assert(new.table_ppn(0) == old.table_ppn(0));
        assert forall|u: int| 0 < u < new.table_count() implies #[trigger] new.level(u) == 1 || new.level(u) == 2 by {
            assert(new.table_ppn(u) == old.table_ppn(u));
        }
        assert forall|u: int| 0 <= u < new.table_count() implies #[trigger] new.table_ppn(u) <= MAX_PPN by {
            assert(new.table_ppn(u) == old.table_ppn(u));
        }
        assert forall|a: int, b: int|
            0 <= a < new.table_count() && 0 <= b < new.table_count() && a != b implies #[trigger] new.table_ppn(a)
                != #[trigger] new.table_ppn(b) by {
            assert(new.table_ppn(a) == old.table_ppn(a));
            assert(new.table_ppn(b) == old.table_ppn(b));
        }
        assert forall|u: int, i: int|
            0 <= u < new.table_count() && 0 <= i < 512 && new.level(u) < 2 && !(
            #[trigger] new.slot(u, i)).is_empty_spec() implies new.links_down(u, i) by {
            assert(new.table_ppn(u) == old.table_ppn(u));
            assert(u != t2);
            assert(new.slot(u, i) == old.slot(u, i));
            assert(old.links_down(u, i));
            let c = old.table_of(old.slot(u, i).ppn_spec());
            assert(new.table_ppn(c) == old.table_ppn(c));
        }
        assert forall|u: int, i: int, v: int, j: int|
            0 <= u < new.table_count() && 0 <= i < 512 && 0 <= v < new.table_count() && 0 <= j < 512
                && new.level(u) < 2 && new.level(v) < 2 && !(#[trigger] new.slot(u, i)).is_empty_spec()
                && !(#[trigger] new.slot(v, j)).is_empty_spec() && (u != v || i != j) implies new.slot(u, i).ppn_spec()
                != new.slot(v, j).ppn_spec() by {
            assert(new.table_ppn(u) == old.table_ppn(u));
            assert(new.table_ppn(v) == old.table_ppn(v));
            assert(new.slot(u, i) == old.slot(u, i));
            assert(new.slot(v, j) == old.slot(v, j));
        }
        assert(new.wf());
        assert forall|k: nat| k < 0x800_0000 implies #[trigger] new.leaf_table(k) == old.leaf_table(k) by {
            lemma_key_index_bound(k);
            let i0 = key_index(k, 0);
            assert(new.slot(0, i0) == old.slot(0, i0));
            let e0 = old.slot(0, i0);
            if !e0.is_empty_spec() {
                assert(old.links_down(0, i0));
                let t1 = old.table_of(e0.ppn_spec());
                assert(new.table_of(e0.ppn_spec()) == t1);
                assert(old.level(t1) == 1);
                assert(new.slot(t1, key_index(k, 1)) == old.slot(t1, key_index(k, 1)));
                let e1 = old.slot(t1, key_index(k, 1));
                if !e1.is_empty_spec() {
                    assert(old.links_down(t1, key_index(k, 1)));
                    assert(new.table_of(e1.ppn_spec()) == old.table_of(e1.ppn_spec()));
                }
            }
        }
        assert forall|k: nat| k < 0x800_0000 && k != key implies #[trigger] new.walk(k) == old.walk(k) by {
            assert(new.leaf_table(k) == old.leaf_table(k));
            if old.leaf_table(k) is Some {
                let tk = old.leaf_table(k)->0;
                old.lemma_leaf_levels(k);
                lemma_key_index_bound(k);
                if tk == t2 && key_index(k, 2) == i2 {
                    old.lemma_leaf_table_injective(k, key);
                }
                assert(new.slot(tk, key_index(k, 2)) == old.slot(tk, key_index(k, 2)));
            }
        }
        assert(new.leaf_table(key) == Some(t2));
        if e.is_empty_spec() {
            assert(new@ =~= old@);
        } else {
            assert(new@ =~= old@.insert(key, e));
        }
    }

    /// Finds the bottom-level entry for `vpn`, creating the missing tables on
    /// the way with frames from `allocator`. Returns the table and the index
    /// of the entry; fails with `NO_FREE_FRAME` when a table is needed and no
    /// frame is left. No translation changes.
    pub fn find_entry<T: Allocator>(&mut self, vpn: VirtualPageNumber, allocator: &mut FrameAllocator<T>) -> (r: MemoryResult<(usize, usize)>)
        requires
            old(self).wf(),
            old(allocator).wf(),
            old(self).frames_outside(*old(allocator)),
        ensures
            final(self).wf(),
            final(allocator).wf(),
            final(self).frames_outside(*final(allocator)),
            final(self)@ == old(self)@,
            final(self).root() == old(self).root(),
            final(allocator).free_frames().subset_of(old(allocator).free_frames()),
            forall|q: u64|
                #[trigger] final(self).uses_frame(q) ==> old(self).uses_frame(q) || old(allocator).free_frames().contains(q),
            forall|q: u64|
                old(allocator).free_frames().contains(q) && !final(allocator).free_frames().contains(q) ==> #[trigger] final(self).uses_frame(q),
            forall|q: u64| #[trigger] old(self).uses_frame(q) ==> final(self).uses_frame(q),
            final(allocator).start() == old(allocator).start(),
            final(allocator).free_count() <= old(allocator).free_count() <= final(allocator).free_count() + 2,
            r is Ok <==> old(allocator).free_count() >= old(self).tables_missing(vpn_key(vpn.0)),
            r is Ok ==> final(allocator).free_count() + old(self).tables_missing(vpn_key(vpn.0)) == old(allocator).free_count(),
            old(self).tables_missing(vpn_key(vpn.0)) == 0 ==> *final(self) == *old(self) && *final(allocator) == *old(allocator),
            match r {
                Ok((t, i)) => {
                    &&& t < final(self).table_count()
                    &&& i == key_index(vpn_key(vpn.0), 2)
                    &&& final(self).leaf_table(vpn_key(vpn.0)) == Some(t as int)
                },
                Err(e) => {
                    &&& e == NO_FREE_FRAME
                    &&& final(allocator).free_count() == 0
                },
            },
    {
        let levels = vpn.levels();
        proof {
            lemma_key_index(vpn.0);
        }
        let ghost s0 = *self;
        let t1 = match self.descend(0, levels[0], allocator) {
            Ok(c) => c,
            Err(e) => {
                return Err(e);
            },
        };
        let ghost s1 = *self;
        let ghost a1 = *allocator;
        proof {
            let k = vpn_key(vpn.0);
            if !s0.slot(0, key_index(k, 0)).is_empty_spec() {
                assert(s1 == s0);
                s0.lemma_table_of(t1 as int);
            } else {
                assert(s1.slot(t1 as int, key_index(k, 1)).is_empty_spec());
            }
        }
        let t2 = match self.descend(t1, levels[1], allocator) {
            Ok(c) => c,
            Err(e) => {
                proof {
                    assert forall|q: u64| old(allocator).free_frames().contains(q) && !allocator.free_frames().contains(q) implies #[trigger] self.uses_frame(q) by {
                        assert(!a1.free_frames().contains(q));
                        assert(s1.uses_frame(q));
                        let u = choose|u: int| 0 <= u < s1.table_count() && #[trigger] s1.table_ppn(u) == q;
                        assert(self.table_ppn(u) == q);
                    }
                }
                return Err(e);
            },
        };
        proof {
            let k = vpn_key(vpn.0);
            let i0 = key_index(k, 0);
            if !s0.slot(0, i0).is_empty_spec() {
                assert(s1 == s0);
            }
            assert forall|q: u64| #[trigger] self.uses_frame(q) implies s0.uses_frame(q) || old(allocator).free_frames().contains(q) by {
                if !s1.uses_frame(q) {
                    assert(old(allocator).free_frames().contains(q));
                }
            }
            assert forall|q: u64| old(allocator).free_frames().contains(q) && !allocator.free_frames().contains(q) implies #[trigger] self.uses_frame(q) by {
                if s1.uses_frame(q) {
                    let u = choose|u: int| 0 <= u < s1.table_count() && #[trigger] s1.table_ppn(u) == q;
                    assert(self.table_ppn(u) == q);
                }
            }
            let i1 = key_index(k, 1);
            assert(s1.table_ppn(0) == s0.table_ppn(0));
            assert(self.table_ppn(0) == s1.table_ppn(0));
            assert(self.slot(0, i0) == s1.slot(0, i0));
            let p1 = s1.slot(0, i0).ppn_spec();
            s1.lemma_table_of(t1 as int);
            assert(self.table_ppn(t1 as int) == s1.table_ppn(t1 as int));
            self.lemma_table_of(t1 as int);
            assert(self.table_of(p1) == t1);
        }
        Ok((t2, levels[2]))
    }

    /// Maps page `vpn` to frame `ppn` with `flags`, creating missing tables
    /// with frames from `allocator`. The page must not be mapped yet (the
    /// entry must be unused). Fails with `NO_FREE_FRAME`, mapping nothing,
    /// when a table is needed and no frame is left.
    pub fn map_one<T: Allocator>(
        &mut self,
        vpn: VirtualPageNumber,
        ppn: PhysicalPageNumber,
        flags: Flags,
        allocator: &mut FrameAllocator<T>,
    ) -> (r: MemoryResult<()>)
        requires
            old(self).wf(),
            old(allocator).wf(),
            old(self).frames_outside(*old(allocator)),
            !old(self)@.contains_key(vpn_key(vpn.0)),
            ppn.0 <= MAX_PPN,
        ensures
            final(self).wf(),
            final(allocator).wf(),
            final(self).frames_outside(*final(allocator)),
            final(self).root() == old(self).root(),
            final(allocator).free_frames().subset_of(old(allocator).free_frames()),
            forall|q: u64|
                #[trigger] final(self).uses_frame(q) ==> old(self).uses_frame(q) || old(allocator).free_frames().contains(q),
            forall|q: u64|
                old(allocator).free_frames().contains(q) && !final(allocator).free_frames().contains(q) ==> #[trigger] final(self).uses_frame(q),
            forall|q: u64| #[trigger] old(self).uses_frame(q) ==> final(self).uses_frame(q),
            final(allocator).start() == old(allocator).start(),
            final(allocator).free_count() <= old(allocator).free_count() <= final(allocator).free_count() + 2,
            r is Ok <==> old(allocator).free_count() >= old(self).tables_missing(vpn_key(vpn.0)),
            r is Ok ==> final(allocator).free_count() + old(self).tables_missing(vpn_key(vpn.0)) == old(allocator).free_count(),
            r is Ok ==> final(self).leaf_table(vpn_key(vpn.0)) is Some,
            match r {
                Ok(()) => final(self)@ == Self::mapped_one(old(self)@, vpn.0, ppn.0, flags.0),
                Err(e) => {
                    &&& e == NO_FREE_FRAME
                    &&& final(allocator).free_count() == 0
                    &&& final(self)@ == old(self)@
                },
            },
    {
        let found = self.find_entry(vpn, allocator);
        let (t, i) = match found {
            Ok(at) => at,
            Err(e) => {
                return Err(e);
            },
        };
        let ghost s1 = *self;
        let ghost key = vpn_key(vpn.0);
        proof {
            lemma_key_index(vpn.0);
            s1.lemma_leaf_levels(key);
            assert(!s1@.contains_key(key));
            assert(s1.slot(t as int, i as int).is_empty_spec());
        }
        let entry = PageTableEntry::new(ppn, flags);
        let len = self.entries.len();
        proof {
            assert(t * 512 + i < 512 * s1.table_count()) by (nonlinear_arith)
                requires
                    t < s1.table_count(),
                    i < 512,
            ;
        }
        self.entries[t * ENTRY_COUNT + i] = entry;
        proof {
            let n = s1.table_count();
            assert forall|u: int| 0 <= u < n implies #[trigger] self.table_ppn(u) == s1.table_ppn(u) && self.level(u) == s1.level(u) by {
            }
            assert forall|u: int, v: int|
                0 <= u < n && 0 <= v < 512 && (u != t || v != i) implies #[trigger] self.slot(u, v)
                    == s1.slot(u, v) by {
                assert(u * 512 + v != t * 512 + i) by (nonlinear_arith)
                    requires
                        u != t || v != i,
                        0 <= v < 512,
                        0 <= i < 512,
                ;
            }
            Mapping::lemma_set_leaf(s1, *self, key, t as int, entry);
            assert forall|q: u64| #[trigger] self.uses_frame(q) implies s1.uses_frame(q) by {
                let u = choose|u: int| 0 <= u < self.table_count() && #[trigger] self.table_ppn(u) == q;
                assert(s1.table_ppn(u) == q);
            }
            assert forall|q: u64| old(allocator).free_frames().contains(q) && !allocator.free_frames().contains(q) implies #[trigger] self.uses_frame(q) by {
                assert(s1.uses_frame(q));
                let u = choose|u: int| 0 <= u < s1.table_count() && #[trigger] s1.table_ppn(u) == q;
                assert(self.table_ppn(u) == q);
            }
            assert forall|q: u64| #[trigger] old(self).uses_frame(q) implies self.uses_frame(q) by {
                assert(s1.uses_frame(q));
                let u = choose|u: int| 0 <= u < s1.table_count() && #[trigger] s1.table_ppn(u) == q;
                assert(self.table_ppn(u) == q);
            }
            lemma_entry_empty(ppn.0, flags.0);
        }
        Ok(())
    }

    /// The translation `m` with page `vpn` mapped to frame `ppn` with `flags`
    /// (an all-zero entry maps nothing).
    pub open spec fn mapped_one(m: Map<nat, PageTableEntry>, vpn: u64, ppn: u64, flags: u8) -> Map<nat, PageTableEntry> {
        if ppn == 0 && flags == 0 {
            m
        } else {
            m.insert(vpn_key(vpn), PageTableEntry::spec_new(ppn, flags))
        }
    }

    /// The translation `m` after mapping the pages `vpn0, vpn0 + 1, ...` in
    /// turn to the frames `targets` with `flags`.
    pub open spec fn mapped_run(m: Map<nat, PageTableEntry>, vpn0: u64, targets: Seq<u64>, flags: u8) -> Map<nat, PageTableEntry>
        decreases targets.len(),
    {
        if targets.len() == 0 {
            m
        } else {
            Self::mapped_one(
                Self::mapped_run(m, vpn0, targets.drop_last(), flags),
                (vpn0 + targets.len() - 1) as u64,
                targets.last(),
                flags,
            )
        }
    }

    /// Mapping a run of pages whose keys are new and distinct keeps every
    /// old translation and adds no key outside the run.
    pub proof fn lemma_run_keys(m: Map<nat, PageTableEntry>, vpn0: u64, targets: Seq<u64>, flags: u8)
        requires
            vpn0 + targets.len() <= u64::MAX + 1,
            forall|j: int| 0 <= j < targets.len() ==> !m.contains_key(#[trigger] vpn_key((vpn0 + j) as u64)),
            forall|i: int, j: int| 0 <= i < j < targets.len() ==> #[trigger] vpn_key((vpn0 + i) as u64) != #[trigger] vpn_key((vpn0 + j) as u64),
        ensures
            forall|k: nat| #[trigger] m.contains_key(k) ==> Self::mapped_run(m, vpn0, targets, flags).contains_key(k)
                && Self::mapped_run(m, vpn0, targets, flags)[k] == m[k],
            forall|k: nat|
                #[trigger] Self::mapped_run(m, vpn0, targets, flags).contains_key(k) && !m.contains_key(k) ==> exists|j: int|
                    0 <= j < targets.len() && k == #[trigger] vpn_key((vpn0 + j) as u64),
        decreases targets.len(),
    {
        if targets.len() > 0 {
            let rest = targets.drop_last();
            Self::lemma_run_keys(m, vpn0, rest, flags);
            let last = (targets.len() - 1) as int;
            let klast = vpn_key((vpn0 + last) as u64);
            let inner = Self::mapped_run(m, vpn0, rest, flags);
            assert(!m.contains_key(klast));
            assert forall|k: nat| #[trigger] Self::mapped_run(m, vpn0, targets, flags).contains_key(k) && !m.contains_key(k) implies exists|j: int|
                    0 <= j < targets.len() && k == #[trigger] vpn_key((vpn0 + j) as u64) by {
                if k == klast {
                    assert(k == vpn_key((vpn0 + last) as u64));
                } else {
                    assert(inner.contains_key(k));
                    let j = choose|j: int| 0 <= j < rest.len() && k == #[trigger] vpn_key((vpn0 + j) as u64);
                    assert(k == vpn_key((vpn0 + j) as u64));
                }
            }
        }
    }

    /// Whether translation `m` holds entry `e` for key `k`: `e` itself when
    /// it is in use, nothing when it is all zero.
    pub open spec fn holds_entry(m: Map<nat, PageTableEntry>, k: nat, e: PageTableEntry) -> bool {
        if e.is_empty_spec() {
            !m.contains_key(k)
        } else {
            m.contains_key(k) && m[k] == e
        }
    }

    /// After a run of distinct new keys, page `j` of the run holds the entry
    /// for its frame.
    pub proof fn lemma_run_values(m: Map<nat, PageTableEntry>, vpn0: u64, targets: Seq<u64>, flags: u8)
        requires
            vpn0 + targets.len() <= u64::MAX + 1,
            forall|j: int| 0 <= j < targets.len() ==> #[trigger] targets[j] <= MAX_PPN,
            forall|j: int| 0 <= j < targets.len() ==> !m.contains_key(#[trigger] vpn_key((vpn0 + j) as u64)),
            forall|i: int, j: int| 0 <= i < j < targets.len() ==> #[trigger] vpn_key((vpn0 + i) as u64) != #[trigger] vpn_key((vpn0 + j) as u64),
        ensures
            forall|j: int| 0 <= j < targets.len() ==> Self::holds_entry(
                Self::mapped_run(m, vpn0, targets, flags),
                #[trigger] vpn_key((vpn0 + j) as u64),
                PageTableEntry::spec_new(targets[j], flags),
            ),
        decreases targets.len(),
    {
        if targets.len() > 0 {
            let rest = targets.drop_last();
            let last = targets.len() - 1;
            Self::lemma_run_values(m, vpn0, rest, flags);
            Self::lemma_run_keys(m, vpn0, rest, flags);
            let inner = Self::mapped_run(m, vpn0, rest, flags);
            let klast = vpn_key((vpn0 + last) as u64);
            lemma_entry_empty(targets[last], flags);
            assert(!inner.contains_key(klast)) by {
                if inner.contains_key(klast) {
                    let j = choose|j: int| 0 <= j < rest.len() && klast == #[trigger] vpn_key((vpn0 + j) as u64);
                }
            }
            assert forall|j: int| 0 <= j < targets.len() implies Self::holds_entry(
                Self::mapped_run(m, vpn0, targets, flags),
                #[trigger] vpn_key((vpn0 + j) as u64),
                PageTableEntry::spec_new(targets[j], flags),
            ) by {
                if j < last {
                    assert(rest[j] == targets[j]);
                    lemma_entry_empty(targets[j], flags);
                    assert(Self::holds_entry(inner, vpn_key((vpn0 + j) as u64), PageTableEntry::spec_new(rest[j], flags)));
                }
            }
        }
    }

    /// A key the translation holds translates through `lookup` to its entry's
    /// frame plus the offset in the page.
    pub proof fn lemma_lookup_mapped(self, va: u64)
        requires
            self.wf(),
            self@.contains_key(vpn_key(va / 4096)),
        ensures
            self.lookup_spec(va) == Some(
                (
                    (self@[vpn_key(va / 4096)].ppn_spec() * 4096 + va % 4096) as u64,
                    self@[vpn_key(va / 4096)],
                ),
            ),
    {
    }

    /// A key the translation does not hold translates through `lookup` to
    /// nothing, or to an unused bottom entry once the walk reaches a
    /// bottom-level table.
    pub proof fn lemma_lookup_unmapped(self, va: u64)
        requires
            self.wf(),
            !self@.contains_key(vpn_key(va / 4096)),
        ensures
            self.lookup_spec(va) is None || self.lookup_spec(va).unwrap().1.is_empty_spec(),
    {
    }

    /// A run mapped over part of the pages `vpn0 .. vpn0 + size` adds no key
    /// outside those pages.
    proof fn lemma_prefix_keys(m: Map<nat, PageTableEntry>, vpn0: u64, targets: Seq<u64>, flags: u8, size: nat)
        requires
            targets.len() <= size,
            vpn0 + size <= u64::MAX + 1,
            forall|j: int| 0 <= j < size ==> !m.contains_key(#[trigger] vpn_key((vpn0 + j) as u64)),
            forall|i: int, j: int| 0 <= i < j < size ==> #[trigger] vpn_key((vpn0 + i) as u64) != #[trigger] vpn_key((vpn0 + j) as u64),
        ensures
            forall|k: nat| #[trigger] Self::mapped_run(m, vpn0, targets, flags).contains_key(k) ==> m.contains_key(k)
                || exists|j: int| 0 <= j < size && k == #[trigger] vpn_key((vpn0 + j) as u64),
    {
        Self::lemma_run_keys(m, vpn0, targets, flags);
        assert forall|k: nat| #[trigger] Self::mapped_run(m, vpn0, targets, flags).contains_key(k) implies m.contains_key(k)
            || exists|j: int| 0 <= j < size && k == #[trigger] vpn_key((vpn0 + j) as u64) by {
            if !m.contains_key(k) {
                let j = choose|j: int| 0 <= j < targets.len() && k == #[trigger] vpn_key((vpn0 + j) as u64);
                assert(0 <= j < size);
            }
        }
    }

    /// The keys `vpn_key(lo + j)` of a segment's pages, written from the
    /// segment's own first page.
    proof fn lemma_segment_keys(m: Map<nat, PageTableEntry>, base: Map<nat, PageTableEntry>, segment: Segment, lo: u64, size: nat)
        requires
            lo == segment.page_range.lo() as u64,
            size == segment.page_range.size(),
            forall|k: nat| #[trigger] m.contains_key(k) ==> base.contains_key(k)
                || exists|j: int| 0 <= j < size && k == #[trigger] vpn_key((lo + j) as u64),
        ensures
            forall|k: nat| #[trigger] m.contains_key(k) ==> base.contains_key(k)
                || exists|j: int| 0 <= j < segment.page_range.size() && k == #[trigger] vpn_key((segment.page_range.lo() as u64 + j) as u64),
    {
        assert forall|k: nat| #[trigger] m.contains_key(k) implies base.contains_key(k)
            || exists|j: int| 0 <= j < segment.page_range.size() && k == #[trigger] vpn_key((segment.page_range.lo() as u64 + j) as u64) by {
            if !base.contains_key(k) {
                let j = choose|j: int| 0 <= j < size && k == #[trigger] vpn_key((lo + j) as u64);
                assert(k == vpn_key((segment.page_range.lo() as u64 + j) as u64));
            }
        }
    }

    /// A frame taken from `a0` by two steps in turn, each of which keeps the
    /// frames it takes as tables and keeps every table, is a table at the end.
    proof fn lemma_taken_are_tables<T: Allocator>(
        a0: FrameAllocator<T>,
        a1: FrameAllocator<T>,
        a2: FrameAllocator<T>,
        m1: Mapping,
        m2: Mapping,
    )
        requires
            forall|q: u64| a0.free_frames().contains(q) && !a1.free_frames().contains(q) ==> #[trigger] m1.uses_frame(q),
            forall|q: u64| a1.free_frames().contains(q) && !a2.free_frames().contains(q) ==> #[trigger] m2.uses_frame(q),
            forall|q: u64| #[trigger] m1.uses_frame(q) ==> m2.uses_frame(q),
        ensures
            forall|q: u64| a0.free_frames().contains(q) && !a2.free_frames().contains(q) ==> #[trigger] m2.uses_frame(q),
    {
        assert forall|q: u64| a0.free_frames().contains(q) && !a2.free_frames().contains(q) implies #[trigger] m2.uses_frame(q) by {
            if !a1.free_frames().contains(q) {
                assert(m1.uses_frame(q));
            }
        }
    }

    /// After the frames of `pairs` are given back, every frame still taken
    /// since `a0` is a table.
    proof fn lemma_released_leaves_tables<T: Allocator>(
        a0: FrameAllocator<T>,
        cur: FrameAllocator<T>,
        fin: FrameAllocator<T>,
        m: Mapping,
        pairs: Seq<(VirtualPageNumber, FrameTracker)>,
    )
        requires
            forall|q: u64| a0.free_frames().contains(q) && !cur.free_frames().contains(q) ==> #[trigger] m.uses_frame(q)
                || exists|j: int| 0 <= j < pairs.len() && (#[trigger] pairs[j]).1.0.0 == q,
            cur.free_frames().subset_of(a0.free_frames()),
            forall|j: int| 0 <= j < pairs.len() ==> a0.free_frames().contains(#[trigger] pairs[j].1.0.0),
            fin.free_frames() == cur.free_frames().union(Self::frames_of(pairs).to_set()),
        ensures
            fin.free_frames().subset_of(a0.free_frames()),
            forall|q: u64| a0.free_frames().contains(q) && !fin.free_frames().contains(q) ==> #[trigger] m.uses_frame(q),
    {
        assert forall|q: u64| fin.free_frames().contains(q) implies a0.free_frames().contains(q) by {
            if !cur.free_frames().contains(q) {
                assert(Self::frames_of(pairs).contains(q));
                let j = choose|j: int| 0 <= j < Self::frames_of(pairs).len() && Self::frames_of(pairs)[j] == q;
                assert(a0.free_frames().contains(pairs[j].1.0.0));
            }
        }
        assert forall|q: u64| a0.free_frames().contains(q) && !fin.free_frames().contains(q) implies #[trigger] m.uses_frame(q) by {
            if !m.uses_frame(q) {
                let j = choose|j: int| 0 <= j < pairs.len() && (#[trigger] pairs[j]).1.0.0 == q;
                assert(Self::frames_of(pairs)[j] == q);
                assert(Self::frames_of(pairs).to_set().contains(q));
            }
        }
    }

    /// Consecutive pages fewer than 2^27 apart have distinct keys.
    pub proof fn lemma_consecutive_keys(vpn0: u64, count: nat)
        requires
            count <= 0x800_0000,
            vpn0 + count <= u64::MAX + 1,
        ensures
            forall|i: int, j: int| 0 <= i < j < count ==> #[trigger] vpn_key((vpn0 + i) as u64) != #[trigger] vpn_key((vpn0 + j) as u64),
    {
        assert forall|i: int, j: int| 0 <= i < j < count implies #[trigger] vpn_key((vpn0 + i) as u64) != #[trigger] vpn_key((vpn0 + j) as u64) by {
            let a = vpn0 + i;
            let b = vpn0 + j;
            assert(a % 0x800_0000 != b % 0x800_0000) by (nonlinear_arith)
                requires
                    0 <= a < b,
                    b - a < 0x800_0000,
            {
                if a % 0x800_0000 == b % 0x800_0000 {
                    assert(a == (a / 0x800_0000) * 0x800_0000 + a % 0x800_0000);
                    assert(b == (b / 0x800_0000) * 0x800_0000 + b % 0x800_0000);
                    assert(b - a == (b / 0x800_0000 - a / 0x800_0000) * 0x800_0000);
                }
            }
        }
    }

    /// Gives the frames of `pairs` back to `allocator`: they all become free
    /// again, and no other frame changes.
    fn release<T: Allocator>(&self, pairs: &Vec<(VirtualPageNumber, FrameTracker)>, allocator: &mut FrameAllocator<T>)
        requires
            self.wf(),
            old(allocator).wf(),
            self.frames_outside(*old(allocator)),
            forall|j: int| 0 <= j < pairs@.len() ==> {
                let p = (#[trigger] pairs@[j]).1.0.0;
                &&& old(allocator).start() <= p <= MAX_PPN
                &&& p - old(allocator).start() < usize::MAX
                &&& !old(allocator).free_frames().contains(p)
                &&& !self.uses_frame(p)
            },
            forall|i: int, j: int| 0 <= i < j < pairs@.len() ==> (#[trigger] pairs@[i]).1.0.0 != (#[trigger] pairs@[j]).1.0.0,
        ensures
            final(allocator).wf(),
            self.frames_outside(*final(allocator)),
            final(allocator).start() == old(allocator).start(),
            final(allocator).free_frames() == old(allocator).free_frames().union(Self::frames_of(pairs@).to_set()),
            final(allocator).free_count() == old(allocator).free_count() + pairs@.len(),
    {
        let mut i: usize = 0;
        while i < pairs.len()
            invariant
                self.wf(),
                allocator.wf(),
                allocator.start() == old(allocator).start(),
                allocator.free_frames() == old(allocator).free_frames().union(Self::frames_of(pairs@.take(i as int)).to_set()),
                allocator.free_count() == old(allocator).free_count() + i,
                self.frames_outside(*allocator),
                i <= pairs@.len(),
                forall|j: int| 0 <= j < pairs@.len() ==> {
                    let p = (#[trigger] pairs@[j]).1.0.0;
                    &&& old(allocator).start() <= p <= MAX_PPN
                    &&& p - old(allocator).start() < usize::MAX
                    &&& !self.uses_frame(p)
                },
                forall|j: int| i <= j < pairs@.len() ==> !allocator.free_frames().contains(#[trigger] pairs@[j].1.0.0),
                forall|a: int, b: int| 0 <= a < b < pairs@.len() ==> (#[trigger] pairs@[a]).1.0.0 != (#[trigger] pairs@[b]).1.0.0,
            decreases pairs@.len() - i,
        {
            let ghost before = *allocator;
            let p = pairs[i].1.0.0;
            allocator.dealloc(&pairs[i].1);
            proof {
                assert(Self::frames_of(pairs@.take(i + 1)).to_set() =~= Self::frames_of(pairs@.take(i as int)).to_set().insert(p)) by {
                    assert(Self::frames_of(pairs@.take(i + 1)) =~= Self::frames_of(pairs@.take(i as int)).push(p));
                    Self::frames_of(pairs@.take(i as int)).lemma_push_to_set_commute(p);
                }
                assert(allocator.free_frames() =~= old(allocator).free_frames().union(Self::frames_of(pairs@.take(i + 1)).to_set()));
                assert forall|j: int| i + 1 <= j < pairs@.len() implies !allocator.free_frames().contains(#[trigger] pairs@[j].1.0.0) by {
                    assert(pairs@[j].1.0.0 != pairs@[i as int].1.0.0);
                }
                assert forall|t: int| 0 <= t < self.table_count() implies !allocator.free_frames().contains(#[trigger] self.table_ppn(t)) by {
                    assert(self.uses_frame(self.table_ppn(t)));
                }
            }
            i = i + 1;
        }
        proof {
            assert(pairs@.take(pairs@.len() as int) =~= pairs@);
        }
    }

    /// The most frames mapping `segment` can take: the tables of
    /// `tables_budget`, plus one fresh frame per page of a framed segment.
    pub open spec fn frames_needed(segment: Segment) -> int {
        (if segment.map_type is Framed { segment.page_range.size() as int } else { 0 })
            + tables_budget(segment.page_range.lo(), segment.page_range.size() as int)
    }

    /// At most three frames per page are needed.
    pub proof fn lemma_frames_needed(segment: Segment)
        requires
            segment.page_range.lo() >= 0,
        ensures
            0 <= Self::frames_needed(segment) <= 3 * segment.page_range.size(),
    {
        if segment.page_range.size() > 0 {
            lemma_budget(segment.page_range.lo(), 0, segment.page_range.size() as int);
        }
    }

    /// Maps every page of `segment` with its flags: a linear segment to the
    /// frames at the kernel's linear offset, a framed segment to fresh frames
    /// from `allocator`, which are returned with their pages. No page of the
    /// segment may be mapped yet. Fails with `NO_FREE_FRAME` when a frame is
    /// needed and none is left, which cannot happen while the allocator holds
    /// `frames_needed(segment)` frames; the fresh frames taken so far for
    /// pages are then given back, and only the tables made stay taken.
    pub fn map<T: Allocator>(&mut self, segment: &Segment, allocator: &mut FrameAllocator<T>) -> (r: MemoryResult<Vec<(VirtualPageNumber, FrameTracker)>>)
        requires
            old(self).wf(),
            old(allocator).wf(),
            old(self).frames_outside(*old(allocator)),
            segment.page_range.size() <= 0x800_0000,
            forall|j: int| 0 <= j < segment.page_range.size() ==> !old(self)@.contains_key(#[trigger] vpn_key((segment.page_range.lo() + j) as u64)),
            segment.map_type is Linear ==> segment.linear_ok(),
            segment.map_type is Linear ==> forall|j: int| 0 <= j < segment.page_range.size() ==> #[trigger] segment.linear_targets()[j] <= MAX_PPN,
        ensures
            final(self).wf(),
            final(allocator).wf(),
            final(self).frames_outside(*final(allocator)),
            final(self).root() == old(self).root(),
            final(allocator).start() == old(allocator).start(),
            forall|q: u64|
                #[trigger] final(self).uses_frame(q) ==> old(self).uses_frame(q) || old(allocator).free_frames().contains(q),
            old(allocator).free_count() >= Self::frames_needed(*segment) ==> r is Ok,
            r is Ok ==> old(allocator).free_count() <= final(allocator).free_count() + Self::frames_needed(*segment),
            match r {
                Ok(pairs) => match segment.map_type {
                    MapType::Linear => {
                        &&& pairs@.len() == 0
                        &&& final(self)@ == Self::mapped_run(old(self)@, segment.page_range.lo() as u64, segment.linear_targets(), segment.flags.0)
                        &&& final(allocator).free_frames().subset_of(old(allocator).free_frames())
                    },
                    MapType::Framed => {
                        &&& pairs@.len() == segment.page_range.size()
                        &&& forall|j: int| 0 <= j < pairs@.len() ==> (#[trigger] pairs@[j]).0.0 == segment.page_range.lo() + j
                        &&& forall|j: int| 0 <= j < pairs@.len() ==> {
                            let p = (#[trigger] pairs@[j]).1.0.0;
                            &&& old(allocator).free_frames().contains(p)
                            &&& !final(allocator).free_frames().contains(p)
                            &&& !final(self).uses_frame(p)
                        }
                        &&& forall|i: int, j: int| 0 <= i < j < pairs@.len() ==> (#[trigger] pairs@[i]).1.0.0 != (#[trigger] pairs@[j]).1.0.0
                        &&& final(self)@ == Self::mapped_run(old(self)@, segment.page_range.lo() as u64, Self::frames_of(pairs@), segment.flags.0)
                        &&& final(allocator).free_frames().subset_of(old(allocator).free_frames())
                    },
                },
                Err(e) => {
                    &&& e == NO_FREE_FRAME
                    &&& forall|k: nat| #[trigger] old(self)@.contains_key(k) ==> final(self)@.contains_key(k) && final(self)@[k] == old(self)@[k]
                    &&& forall|k: nat| #[trigger] final(self)@.contains_key(k) ==> old(self)@.contains_key(k)
                        || exists|j: int| 0 <= j < segment.page_range.size() && k == #[trigger] vpn_key((segment.page_range.lo() as u64 + j) as u64)
                    &&& final(allocator).free_frames().subset_of(old(allocator).free_frames())
                    &&& forall|q: u64| old(allocator).free_frames().contains(q) && !final(allocator).free_frames().contains(q)
                        ==> #[trigger] final(self).uses_frame(q)
                    &&& segment.map_type is Linear ==> final(allocator).free_count() == 0
                },
            },
    {
        let ghost old_view = self@;
        let ghost old_self = *self;
        let ghost old_alloc = *allocator;
        let ghost lo = segment.page_range.lo() as u64;
        let ghost size = segment.page_range.size();
        let flags = segment.flags;
        let pages = segment.page_range.iter();
        proof {
            Self::lemma_consecutive_keys(lo, size);
            assert forall|j: int| 0 <= j < size implies (#[trigger] pages@[j]).0 == lo + j by {
                assert(pages@[j].value() == segment.page_range.lo() + j);
            }
            if size > 0 {
                assert(lo + size == segment.page_range.hi());
            }
            assert(lo + size <= u64::MAX + 1);
            Self::lemma_frames_needed(*segment);
        }
        match segment.iter_mapped() {
            Some(frames) => {
                let ghost targets = segment.linear_targets();
                assert(targets.len() == size);
                let mut i: usize = 0;
                while i < pages.len()
                    invariant
                        segment.map_type is Linear,
                        lo == segment.page_range.lo() as u64,
                        pages@.len() == size,
                        frames@.len() == size,
                        size <= 0x800_0000,
                        lo + size <= u64::MAX + 1,
                        targets == segment.linear_targets(),
                        targets.len() == size,
                        forall|j: int| 0 <= j < size ==> (#[trigger] pages@[j]).0 == lo + j,
                        forall|j: int| 0 <= j < size ==> (#[trigger] frames@[j]).0 == targets[j],
                        forall|j: int| 0 <= j < size ==> #[trigger] targets[j] <= MAX_PPN,
                        forall|j: int| 0 <= j < size ==> !old_view.contains_key(#[trigger] vpn_key((lo + j) as u64)),
                        forall|a: int, b: int| 0 <= a < b < size ==> #[trigger] vpn_key((lo + a) as u64) != #[trigger] vpn_key((lo + b) as u64),
                        i <= size,
                        self.wf(),
                        allocator.wf(),
                        self.frames_outside(*allocator),
                        self.root() == old_self.root(),
                        allocator.start() == old_alloc.start(),
                        old_self == *old(self),
                        old_alloc == *old(allocator),
                        old_view == old(self)@,
                        size == segment.page_range.size(),
                        self@ == Self::mapped_run(old_view, lo, targets.take(i as int), flags.0),
                        allocator.free_frames().subset_of(old_alloc.free_frames()),
                        allocator.free_count() <= old_alloc.free_count() <= allocator.free_count() + tables_budget(lo as int, i as int),
                        i > 0 ==> self.leaf_table(vpn_key((lo + i - 1) as u64)) is Some,
                        Self::frames_needed(*segment) == tables_budget(lo as int, size as int),
                        forall|q: u64| #[trigger] self.uses_frame(q) ==> old_self.uses_frame(q) || old_alloc.free_frames().contains(q),
                        forall|q: u64| old_alloc.free_frames().contains(q) && !allocator.free_frames().contains(q) ==> #[trigger] self.uses_frame(q),
                    decreases size - i,
                {
                    proof {
                        Self::lemma_run_keys(old_view, lo, targets.take(i as int), flags.0);
                        let k = vpn_key((lo + i) as u64);
                        if self@.contains_key(k) {
                            let j = choose|j: int| 0 <= j < i && k == #[trigger] vpn_key((lo + j) as u64);

                        }
                        assert(pages@[i as int].0 == lo + i);
                    }
                    let ghost before = *self;
                    let ghost ab = *allocator;
                    proof {
                        self.lemma_budget_covers(lo, i as int, size as int);
                    }
                    match self.map_one(pages[i], frames[i], flags, allocator) {
                        Ok(()) => {},
                        Err(e) => {
                            proof {
                                Self::lemma_run_keys(old_view, lo, targets.take(i as int), flags.0);
                                Self::lemma_prefix_keys(old_view, lo, targets.take(i as int), flags.0, size);
                                Self::lemma_segment_keys(self@, old_view, *segment, lo, size);
                                Self::lemma_taken_are_tables(old_alloc, ab, *allocator, before, *self);
                            }
                            return Err(e);
                        },
                    }
                    proof {
                        Self::lemma_taken_are_tables(old_alloc, ab, *allocator, before, *self);
                        let next = targets.take(i + 1);
                        assert(next.drop_last() =~= targets.take(i as int));
                        assert(next.last() == targets[i as int]);
                    }
                    i = i + 1;
                }
                proof {
                    assert(targets.take(size as int) =~= targets);
                }
                Ok(Vec::new())
            },
            None => {
                let mut pairs: Vec<(VirtualPageNumber, FrameTracker)> = Vec::new();
                let mut i: usize = 0;
                while i < pages.len()
                    invariant
                        segment.map_type is Framed,
                        lo == segment.page_range.lo() as u64,
                        pages@.len() == size,
                        size <= 0x800_0000,
                        lo + size <= u64::MAX + 1,
                        forall|j: int| 0 <= j < size ==> (#[trigger] pages@[j]).0 == lo + j,
                        forall|j: int| 0 <= j < size ==> !old_view.contains_key(#[trigger] vpn_key((lo + j) as u64)),
                        forall|a: int, b: int| 0 <= a < b < size ==> #[trigger] vpn_key((lo + a) as u64) != #[trigger] vpn_key((lo + b) as u64),
                        i <= size,
                        pairs@.len() == i,
                        self.wf(),
                        allocator.wf(),
                        self.frames_outside(*allocator),
                        self.root() == old_self.root(),
                        allocator.start() == old_alloc.start(),
                        old_self == *old(self),
                        old_alloc == *old(allocator),
                        old_view == old(self)@,
                        size == segment.page_range.size(),
                        self@ == Self::mapped_run(old_view, lo, Self::frames_of(pairs@), flags.0),
                        allocator.free_frames().subset_of(old_alloc.free_frames()),
                        allocator.free_count() <= old_alloc.free_count() <= allocator.free_count() + i + tables_budget(lo as int, i as int),
                        i > 0 ==> self.leaf_table(vpn_key((lo + i - 1) as u64)) is Some,
                        Self::frames_needed(*segment) == size + tables_budget(lo as int, size as int),
                        forall|q: u64| #[trigger] self.uses_frame(q) ==> old_self.uses_frame(q) || old_alloc.free_frames().contains(q),
                        forall|q: u64| old_alloc.free_frames().contains(q) && !allocator.free_frames().contains(q) ==> #[trigger] self.uses_frame(q)
                            || exists|j: int| 0 <= j < i && (#[trigger] pairs@[j]).1.0.0 == q,
                        forall|j: int| 0 <= j < i ==> (#[trigger] pairs@[j]).0.0 == lo + j,
                        forall|j: int| 0 <= j < i ==> {
                            let p = (#[trigger] pairs@[j]).1.0.0;
                            &&& old_alloc.free_frames().contains(p)
                            &&& !allocator.free_frames().contains(p)
                            &&& !self.uses_frame(p)
                            &&& allocator.start() <= p <= MAX_PPN
                            &&& p - allocator.start() < usize::MAX
                        },
                        forall|a: int, b: int| 0 <= a < b < i ==> (#[trigger] pairs@[a]).1.0.0 != (#[trigger] pairs@[b]).1.0.0,
                    decreases size - i,
                {
                    let ghost s0 = *self;
                    let ghost a0 = *allocator;
                    let frame = match allocator.allocate() {
                        Ok(frame) => frame,
                        Err(e) => {
                            proof {
                                assert(allocator.start() == old_alloc.start());
                                assert(self.root() == old_self.root());
                                lemma_budget(lo as int, i as int, size as int);
                            }
                            let ghost cur = *allocator;
                            self.release(&pairs, allocator);
                            proof {
                                assert(allocator.start() == old_alloc.start());
                                assert(self.root() == old_self.root());
                                Self::lemma_run_keys(old_view, lo, Self::frames_of(pairs@), flags.0);
                                Self::lemma_prefix_keys(old_view, lo, Self::frames_of(pairs@), flags.0, size);
                                Self::lemma_segment_keys(self@, old_view, *segment, lo, size);
                                Self::lemma_released_leaves_tables(old_alloc, cur, *allocator, *self, pairs@);
                            }
                            return Err(e);
                        },
                    };
                    let ghost p = frame.0.0;
                    proof {
                        a0.lemma_free_frame(p);
                        Self::lemma_run_keys(old_view, lo, Self::frames_of(pairs@), flags.0);
                        let k = vpn_key((lo + i) as u64);
                        if self@.contains_key(k) {
                            let j = choose|j: int| 0 <= j < i && k == #[trigger] vpn_key((lo + j) as u64);
                        }
                        assert(pages@[i as int].0 == lo + i);
                        assert(!self.uses_frame(p)) by {
                            if self.uses_frame(p) {
                                let u = choose|u: int| 0 <= u < self.table_count() && #[trigger] self.table_ppn(u) == p;
                            }
                        }
                    }
                    let ghost s1 = *self;
                    let ghost a1 = *allocator;
                    proof {
                        self.lemma_budget_covers(lo, i as int, size as int);
                    }
                    match self.map_one(pages[i], frame.page_number(), flags, allocator) {
                        Ok(()) => {},
                        Err(e) => {
                            proof {
                                assert(!allocator.free_frames().contains(p));
                            }
                            allocator.dealloc(&frame);
                            proof {
                                assert forall|t: int| 0 <= t < self.table_count() implies !allocator.free_frames().contains(#[trigger] self.table_ppn(t)) by {
                                    if self.table_ppn(t) == p {
                                        assert(self.uses_frame(p));
                                    }
                                }
                                assert forall|j: int| 0 <= j < pairs@.len() implies !allocator.free_frames().contains(#[trigger] pairs@[j].1.0.0) by {
                                    assert(pairs@[j].1.0.0 != p);
                                }
                            }
                            let ghost cur = *allocator;
                            proof {
                                assert forall|q: u64| old_alloc.free_frames().contains(q) && !cur.free_frames().contains(q) implies #[trigger] self.uses_frame(q)
                                    || exists|j: int| 0 <= j < pairs@.len() && (#[trigger] pairs@[j]).1.0.0 == q by {
                                    if a1.free_frames().contains(q) && q != p {
                                        assert(self.uses_frame(q));
                                    } else if !a0.free_frames().contains(q) {
                                        if !s0.uses_frame(q) {
                                            let j = choose|j: int| 0 <= j < pairs@.len() && (#[trigger] pairs@[j]).1.0.0 == q;
                                        } else {
                                            assert(self.uses_frame(q));
                                        }
                                    }
                                }
                            }
                            self.release(&pairs, allocator);
                            proof {
                                Self::lemma_run_keys(old_view, lo, Self::frames_of(pairs@), flags.0);
                                Self::lemma_prefix_keys(old_view, lo, Self::frames_of(pairs@), flags.0, size);
                                Self::lemma_segment_keys(self@, old_view, *segment, lo, size);
                                Self::lemma_released_leaves_tables(old_alloc, cur, *allocator, *self, pairs@);
                            }
                            return Err(e);
                        },
                    }
                    let ghost old_pairs = pairs@;
                    pairs.push((pages[i], frame));
                    proof {
                        assert forall|q: u64| old_alloc.free_frames().contains(q) && !allocator.free_frames().contains(q) implies #[trigger] self.uses_frame(q)
                            || exists|j: int| 0 <= j < i + 1 && (#[trigger] pairs@[j]).1.0.0 == q by {
                            if q == p {
                                assert(pairs@[i as int].1.0.0 == q);
                            } else if a1.free_frames().contains(q) {
                                assert(self.uses_frame(q));
                            } else if s0.uses_frame(q) {
                                assert(self.uses_frame(q));
                            } else {
                                let j = choose|j: int| 0 <= j < i && (#[trigger] old_pairs[j]).1.0.0 == q;
                                assert(pairs@[j] == old_pairs[j]);
                            }
                        }
                        let fr = Self::frames_of(pairs@);
                        assert(fr.drop_last() =~= Self::frames_of(old_pairs));
                        assert(fr.last() == p);
                        assert(fr.len() == i + 1);
                        assert forall|j: int| 0 <= j < i + 1 implies {
                            let q = (#[trigger] pairs@[j]).1.0.0;
                            &&& old_alloc.free_frames().contains(q)
                            &&& !allocator.free_frames().contains(q)
                            &&& !self.uses_frame(q)
                            &&& allocator.start() <= q <= MAX_PPN
                            &&& q - allocator.start() < usize::MAX
                        } by {
                            if j < i {
                                assert(pairs@[j] == old_pairs[j]);
                                let q = pairs@[j].1.0.0;
                                if self.uses_frame(q) {
                                    assert(s1.uses_frame(q) || a1.free_frames().contains(q));
                                }
                            } else {
                                if self.uses_frame(p) {
                                    assert(s1.uses_frame(p) || a1.free_frames().contains(p));
                                }
                            }
                        }
                        assert forall|a: int, b: int| 0 <= a < b < i + 1 implies (#[trigger] pairs@[a]).1.0.0 != (#[trigger] pairs@[b]).1.0.0 by {
                            if b == i {
                                assert(pairs@[a] == old_pairs[a]);
                                assert(!a0.free_frames().contains(old_pairs[a].1.0.0));
                            } else {
                                assert(pairs@[a] == old_pairs[a]);
                                assert(pairs@[b] == old_pairs[b]);
                            }
                        }
                    }
                    i = i + 1;
                }
                Ok(pairs)
            },
        }
    }

    /// The frames of `pairs`, in order.
    pub open spec fn frames_of(pairs: Seq<(VirtualPageNumber, FrameTracker)>) -> Seq<u64> {
        pairs.map_values(|p: (VirtualPageNumber, FrameTracker)| p.1.0.0)
    }

    /// The value to write into `satp` to switch to this address space: Sv39
    /// mode (8 in bits 60..64) and the root table's frame.
    pub fn flush(&self) -> (r: u64)
        ensures
            r == satp_value(self.root()),
    {
        self.root_ppn.0 | 0x8000_0000_0000_0000
    }

    /// Translates `va` through the tables: follows the entries its page
    /// selects down to the bottom level and returns the frame address plus
    /// the offset of `va` in its page, with the bottom entry. `None` when an
    /// entry on the way down is unused.
    pub fn lookup(&self, va: VirtualAddress) -> (r: Option<(PhysicalAddress, PageTableEntry)>)
        requires
            self.wf(),
        ensures
            r == match self.lookup_spec(va.0) {
                None => None,
                Some((pa, e)) => Some((PhysicalAddress(pa), e)),
            },
    {
        let vpn = VirtualPageNumber::floor(va);
        let levels = vpn.levels();
        proof {
            lemma_key_index(vpn.0);
        }
        let e0 = self.get_slot(0, levels[0]);
        if e0.is_empty() {
            return None;
        }
        let t1 = self.find_table(e0.page_number());
        let e1 = self.get_slot(t1, levels[1]);
        if e1.is_empty() {
            return None;
        }
        let t2 = self.find_table(e1.page_number());
        let e2 = self.get_slot(t2, levels[2]);
        let base = e2.page_number().0 * 4096;
        let offset = va.page_offset();
        Some((PhysicalAddress(base + offset), e2))
    }
}

/// The `satp` value that selects Sv39 translation rooted at frame `root`.
pub open spec fn satp_value(root: u64) -> u64 {
    root | 0x8000_0000_0000_0000
}

/// Calls `Satp::from_bits(bits).ppn()` of the `riscv` crate: the physical
/// page number field of a `satp` value, its bits 0 to 43 (the field of
/// 64-bit targets).
#[verifier::external_body]
fn satp_ppn(bits: u64) -> (r: u64)
    ensures
        r == bits & 0xfff_ffff_ffff,
{
    Satp::from_bits(bits as usize).ppn() as u64
}

/// The root table's frame that a `satp` value selects.
pub fn root_of_satp(satp: u64) -> (r: PhysicalPageNumber)
    ensures
        r.0 == satp & 0xfff_ffff_ffff,
{
    PhysicalPageNumber(satp_ppn(satp))
}

/// The `satp` value of a well-formed address space decodes to its root.
pub proof fn lemma_flush_round_trip(m: Mapping)
    requires
        m.wf(),
    ensures
        satp_value(m.root()) & 0xfff_ffff_ffff == m.root(),
{
    assert(m.table_ppn(0) <= MAX_PPN);
    lemma_satp_round_trip(m.root());
}

/// Decoding the `satp` value that `flush` gives returns the root it was made
/// from.
pub proof fn lemma_satp_round_trip(root: u64)
    requires
        root <= MAX_PPN,
    ensures
        satp_value(root) & 0xfff_ffff_ffff == root,
{
    assert((root | 0x8000_0000_0000_0000u64) & 0xfff_ffff_ffffu64 == root) by (bit_vector)
        requires
            root <= 0xfff_ffff_ffffu64,
    ;
}

/// The entry `new(ppn, flags)` is unused exactly when both are zero.
pub proof fn lemma_entry_empty(ppn: u64, flags: u8)
    requires
        ppn <= MAX_PPN,
    ensures
        PageTableEntry::spec_new(ppn, flags).is_empty_spec() <==> (ppn == 0 && flags == 0),
{
    crate::memory::mapping::page_table_entry::lemma_entry_round_trip(ppn, flags);
    PageTableEntry::lemma_from_word(PageTableEntry::encode(ppn, flags));
}

/// Mapping a run of pages, as `map` does for a segment: every address of
/// page `vpn0 + j` then translates to the same offset in frame `targets[j]`,
/// through an entry with exactly `flags` (which are not all clear).
pub proof fn lemma_run_lookup(m: Mapping, base: Map<nat, PageTableEntry>, vpn0: u64, targets: Seq<u64>, flags: u8, j: int, va: u64)
    requires
        m.wf(),
        m@ == Mapping::mapped_run(base, vpn0, targets, flags),
        vpn0 + targets.len() <= u64::MAX + 1,
        forall|i: int| 0 <= i < targets.len() ==> #[trigger] targets[i] <= MAX_PPN,
        forall|i: int| 0 <= i < targets.len() ==> !base.contains_key(#[trigger] vpn_key((vpn0 + i) as u64)),
        forall|a: int, b: int| 0 <= a < b < targets.len() ==> #[trigger] vpn_key((vpn0 + a) as u64) != #[trigger] vpn_key((vpn0 + b) as u64),
        0 <= j < targets.len(),
        flags != 0,
        va / 4096 == vpn0 + j,
    ensures
        m.lookup_spec(va) == Some(((targets[j] * 4096 + va % 4096) as u64, PageTableEntry::spec_new(targets[j], flags))),
        PageTableEntry::spec_new(targets[j], flags).flags_spec() == flags,
{
    Mapping::lemma_run_values(base, vpn0, targets, flags);
    crate::memory::mapping::page_table_entry::lemma_spec_new(targets[j], flags);
    let k = vpn_key((vpn0 + j) as u64);
    assert(Mapping::holds_entry(m@, k, PageTableEntry::spec_new(targets[j], flags)));
    assert(vpn_key(va / 4096) == k);
    m.lemma_lookup_mapped(va);
}

/// Mapping a run of new pages leaves the translation of every page mapped
/// before as it was.
pub proof fn lemma_run_keeps_lookups(old: Mapping, new: Mapping, vpn0: u64, targets: Seq<u64>, flags: u8, va: u64)
    requires
        old.wf(),
        new.wf(),
        new@ == Mapping::mapped_run(old@, vpn0, targets, flags),
        vpn0 + targets.len() <= u64::MAX + 1,
        forall|i: int| 0 <= i < targets.len() ==> !old@.contains_key(#[trigger] vpn_key((vpn0 + i) as u64)),
        forall|a: int, b: int| 0 <= a < b < targets.len() ==> #[trigger] vpn_key((vpn0 + a) as u64) != #[trigger] vpn_key((vpn0 + b) as u64),
        old@.contains_key(vpn_key(va / 4096)),
    ensures
        new.lookup_spec(va) == old.lookup_spec(va),
{
    Mapping::lemma_run_keys(old@, vpn0, targets, flags);
    old.lemma_lookup_mapped(va);
    new.lemma_lookup_mapped(va);
}

/// Read after write: once page `vpn` is mapped to frame `ppn` with `flags`,
/// every address of that page translates to the same offset in `ppn`,
/// through the entry that was written.
pub proof fn lemma_lookup_after_map_one(old: Mapping, new: Mapping, vpn: u64, ppn: u64, flags: u8, va: u64)
    requires
        new.wf(),
        new@ == Mapping::mapped_one(old@, vpn, ppn, flags),
        ppn != 0 || flags != 0,
        ppn <= MAX_PPN,
        vpn_key(va / 4096) == vpn_key(vpn),
    ensures
        new.lookup_spec(va) == Some(((ppn * 4096 + va % 4096) as u64, PageTableEntry::spec_new(ppn, flags))),
{
    crate::memory::mapping::page_table_entry::lemma_spec_new(ppn, flags);
    new.lemma_lookup_mapped(va);
}

/// Mapping one page leaves the translation of every other mapped page as it was.
pub proof fn lemma_map_one_keeps_other_lookups(old: Mapping, new: Mapping, vpn: u64, ppn: u64, flags: u8, va: u64)
    requires
        old.wf(),
        new.wf(),
        new@ == Mapping::mapped_one(old@, vpn, ppn, flags),
        old@.contains_key(vpn_key(va / 4096)),
        vpn_key(va / 4096) != vpn_key(vpn),
    ensures
        new.lookup_spec(va) == old.lookup_spec(va),
{
    old.lemma_lookup_mapped(va);
    new.lemma_lookup_mapped(va);
}

impl View for Mapping {
    type V = Map<nat, PageTableEntry>;

    open spec fn view(&self) -> Map<nat, PageTableEntry> {
        Mapping::view(*self)
    }
}

} // verus!
