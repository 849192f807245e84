//! The three-level page table of a 39-bit virtual address space. Its tables
//! are frames of the physical memory; each holds 512 entries of 64 bits.

use vstd::prelude::*;
use crate::address::{PhysPageNum, VirtPageNum, same_entry, vpn_indexes};
use crate::frame_allocator::{StackFrameAllocator, frame_alloc};
use crate::memory::{PhysMemory, zero_frame};

verus! {

/// Flag bit: the entry is valid.
pub const PTE_V: u8 = 1;

/// Flag bit: the page may be read.
pub const PTE_R: u8 = 2;

/// Flag bit: the page may be written.
pub const PTE_W: u8 = 4;

/// Flag bit: the page may be executed.
pub const PTE_X: u8 = 8;

/// Flag bit: the page is open to user mode.
pub const PTE_U: u8 = 16;

/// Flag bit: the mapping is global.
pub const PTE_G: u8 = 32;

/// Flag bit: the page was accessed.
pub const PTE_A: u8 = 64;

/// Flag bit: the page was written.
pub const PTE_D: u8 = 128;

/// The flag bits of a page-table entry.
#[derive(Clone, Copy, Debug, PartialEq, Eq, Structural)]
pub struct PTEFlags {
    pub bits: u8,
}

/// Whether every bit set in `b` is set in `a`.
pub open spec fn bits_contain(a: u8, b: u8) -> bool {
    a & b == b
}

impl PTEFlags {
    /// The flags with the given bits.
    pub fn from_bits(bits: u8) -> (r: Self)
        ensures
            r.bits == bits,
    {
        PTEFlags { bits }
    }

    /// No flag.
    pub fn empty() -> (r: Self)
        ensures
            r.bits == 0,
    {
        PTEFlags { bits: 0 }
    }

    /// The bits of the flags.
    pub fn bits(&self) -> (r: u8)
        ensures
            r == self.bits,
    {
        self.bits
    }

    /// Whether every flag of `other` is among these.
    pub fn contains(&self, other: PTEFlags) -> (r: bool)
        ensures
            r == bits_contain(self.bits, other.bits),
    {
        self.bits & other.bits == other.bits
    }

    /// The flags of both.
    pub fn union(&self, other: PTEFlags) -> (r: Self)
        ensures
            r.bits == self.bits | other.bits,
    {
        PTEFlags { bits: self.bits | other.bits }
    }
}

/// Whether the entry with the bits `e` is valid.
pub open spec fn entry_valid(e: u64) -> bool {
    e % 2 == 1
}

/// The physical page number in the entry with the bits `e`.
pub open spec fn entry_ppn(e: u64) -> u64 {
    ((e / 1024) % 0x1000_0000_0000) as u64
}

/// The flag bits of the entry with the bits `e`.
pub open spec fn entry_flags(e: u64) -> u8 {
    (e % 256) as u8
}

/// The bits of the entry for the frame `ppn` with the flag bits `flags`.
pub open spec fn pte_bits(ppn: u64, flags: u8) -> u64 {
    (ppn * 1024 + flags) as u64
}

/// An entry made from a page number below 2^44 and flags gives both back.
pub proof fn lemma_pte_bits(ppn: u64, flags: u8)
    requires
        ppn < 0x1000_0000_0000,
    ensures
        ppn * 1024 + flags <= u64::MAX,
        entry_ppn(pte_bits(ppn, flags)) == ppn,
        entry_flags(pte_bits(ppn, flags)) == flags,
        entry_valid(pte_bits(ppn, flags)) <==> flags % 2 == 1,
        pte_bits(ppn, flags) == ((ppn << 10) | (flags as u64)),
{
    assert(((ppn << 10) | (flags as u64)) == ppn * 1024 + flags) by (bit_vector)
        requires
            ppn < 0x1000_0000_0000,
    ;
}

/// A page-table entry: a physical page number and flags.
#[derive(Clone, Copy, Debug, PartialEq, Eq, Structural)]
pub struct PageTableEntry {
    pub bits: u64,
}

impl PageTableEntry {
    /// The entry for the frame `ppn` with the given flags.
    pub fn new(ppn: PhysPageNum, flags: PTEFlags) -> (r: Self)
        requires
            ppn.0 < 0x1000_0000_0000,
        ensures
            r.bits == pte_bits(ppn.0, flags.bits),
    {
        proof {
            lemma_pte_bits(ppn.0, flags.bits);
        }
        PageTableEntry { bits: (ppn.0 << 10) | (flags.bits as u64) }
    }

    /// The entry with no bit set, which is not valid.
    pub fn empty() -> (r: Self)
        ensures
            r.bits == 0,
    {
        PageTableEntry { bits: 0 }
    }

    /// The physical page number of the entry.
    pub fn ppn(&self) -> (r: PhysPageNum)
        ensures
            r.0 == entry_ppn(self.bits),
    {
        let b: u64 = self.bits;
        assert((b >> 10) & 0xfff_ffff_ffff == (b / 1024) % 0x1000_0000_0000) by (bit_vector);
        PhysPageNum((b >> 10) & 0xfff_ffff_ffff)
    }

    /// The flags of the entry.
    pub fn flags(&self) -> (r: PTEFlags)
        ensures
            r.bits == entry_flags(self.bits),
    {
        let b: u64 = self.bits;
        assert(b & 0xff == b % 256) by (bit_vector);
        PTEFlags { bits: (b & 0xff) as u8 }
    }

    /// Whether the valid flag is set.
    pub fn is_valid(&self) -> (r: bool)
        ensures
            r == entry_valid(self.bits),
    {
        let b: u64 = self.bits;
        assert((b & 1 != 0) == (b % 2 == 1)) by (bit_vector);
        b & 1 != 0
    }

    /// Whether the page may be read.
    pub fn readable(&self) -> (r: bool)
        ensures
            r == (self.bits & 2 != 0),
    {
        self.bits & 2 != 0
    }

    /// Whether the page may be written.
    pub fn writable(&self) -> (r: bool)
        ensures
            r == (self.bits & 4 != 0),
    {
        self.bits & 4 != 0
    }

    /// Whether the page may be executed.
    pub fn executable(&self) -> (r: bool)
        ensures
            r == (self.bits & 8 != 0),
    {
        self.bits & 8 != 0
    }
}

/// The table that entry `idx` of the table `t` leads to: the entry must be
/// valid and both tables must be frames of the memory.
pub closed spec fn next_table(m: Map<u64, Seq<u64>>, t: u64, idx: int) -> Option<u64> {
    if m.dom().contains(t) && entry_valid(m[t][idx]) && m.dom().contains(entry_ppn(m[t][idx])) {
        Some(entry_ppn(m[t][idx]))
    } else {
        None
    }
}

/// The leaf table that the walk from `root` reaches for `vpn`.
pub closed spec fn leaf_table(m: Map<u64, Seq<u64>>, root: u64, vpn: u64) -> Option<u64> {
    match next_table(m, root, vpn_indexes(vpn)[0] as int) {
        None => None,
        Some(t1) => next_table(m, t1, vpn_indexes(vpn)[1] as int),
    }
}

/// The translation of `vpn` by the table rooted at `root`: the leaf entry,
/// if the entries at all three levels are valid.
pub closed spec fn walk(m: Map<u64, Seq<u64>>, root: u64, vpn: u64) -> Option<PageTableEntry> {
    match leaf_table(m, root, vpn) {
        None => None,
        Some(t2) => {
            let e = m[t2][vpn_indexes(vpn)[2] as int];
            if entry_valid(e) {
                Some(PageTableEntry { bits: e })
            } else {
                None
            }
        },
    }
}

/// Two page numbers select the same leaf entry exactly when their three
/// indices agree.
pub proof fn lemma_same_entry(a: u64, b: u64)
    ensures
        same_entry(a, b) <==> (a % 512 == b % 512 && (a / 512) % 512 == (b / 512) % 512 && (a
            / 0x40000) % 512 == (b / 0x40000) % 512),
{
    assert((a % 0x800_0000 == b % 0x800_0000) <==> (a % 512 == b % 512 && (a / 512) % 512 == (b
        / 512) % 512 && (a / 0x40000) % 512 == (b / 0x40000) % 512)) by (bit_vector);
}

/// What the place `pos[f]` of a table says of its entry `idx`: a valid entry
/// of a root or middle table leads to a table one level down, at the place
/// that the entry's index gives.
spec fn entry_ok(pos: Map<u64, (int, int)>, m: Map<u64, Seq<u64>>, f: u64, idx: int) -> bool {
    let e = m[f][idx];
    pos[f].0 < 2 && entry_valid(e) ==> pos.dom().contains(entry_ppn(e)) && pos[entry_ppn(e)] == (
        pos[f].0 + 1,
        pos[f].1 * 512 + idx,
    )
}

/// The tables form a tree below `root`: `pos` gives every table its level
/// and the indices that lead to it, so no table is reached on two paths.
spec fn tree_ok(root: u64, pos: Map<u64, (int, int)>, m: Map<u64, Seq<u64>>) -> bool {
    &&& pos.dom().contains(root)
    &&& pos[root] == (0int, 0int)
    &&& forall|f: u64| #[trigger]
        pos.dom().contains(f) ==> m.dom().contains(f) && m[f].len() == 512 && 0 <= pos[f].0 <= 2
            && 0 <= pos[f].1
    &&& forall|f: u64, idx: int|
        pos.dom().contains(f) && 0 <= idx < 512 ==> #[trigger] entry_ok(pos, m, f, idx)
}

/// The walk for `v` visits tables of the tree only, at the places that the
/// indices of `v` give.
proof fn lemma_walk_path(root: u64, pos: Map<u64, (int, int)>, m: Map<u64, Seq<u64>>, v: u64)
    requires
        tree_ok(root, pos, m),
    ensures
        next_table(m, root, vpn_indexes(v)[0] as int) matches Some(t1) ==> pos.dom().contains(t1)
            && pos[t1] == (1int, vpn_indexes(v)[0] as int),
        leaf_table(m, root, v) matches Some(t2) ==> pos.dom().contains(t2) && pos[t2] == (
            2int,
            vpn_indexes(v)[0] * 512 + vpn_indexes(v)[1],
        ),
        next_table(m, root, vpn_indexes(v)[0] as int) is None <==> !entry_valid(
            m[root][vpn_indexes(v)[0] as int],
        ),
        next_table(m, root, vpn_indexes(v)[0] as int) matches Some(t1) ==> (next_table(
            m,
            t1,
            vpn_indexes(v)[1] as int,
        ) is None <==> !entry_valid(m[t1][vpn_indexes(v)[1] as int])),
{
    let i0 = vpn_indexes(v)[0] as int;
    let i1 = vpn_indexes(v)[1] as int;
    assert(entry_ok(pos, m, root, i0));
    if next_table(m, root, i0) is Some {
        let t1 = next_table(m, root, i0)->0;
        assert(entry_ok(pos, m, t1, i1));
    }
}

/// Hanging a zeroed frame `c` into the invalid entry `idx` of the table
/// `table` keeps the tree and changes no translation.
proof fn lemma_new_table(
    root: u64,
    pos: Map<u64, (int, int)>,
    m: Map<u64, Seq<u64>>,
    table: u64,
    idx: int,
    c: u64,
)
    requires
        tree_ok(root, pos, m),
        pos.dom().contains(table),
        pos[table].0 < 2,
        0 <= idx < 512,
        !entry_valid(m[table][idx]),
        !pos.dom().contains(c),
        m.dom().contains(c),
        c < 0x1000_0000_0000,
    ensures
        ({
            let m2 = m.insert(c, zero_frame()).insert(
                table,
                m[table].update(idx, pte_bits(c, PTE_V)),
            );
            let pos2 = pos.insert(c, (pos[table].0 + 1, pos[table].1 * 512 + idx));
            &&& tree_ok(root, pos2, m2)
            &&& forall|v: u64| #[trigger] walk(m2, root, v) == walk(m, root, v)
            &&& next_table(m2, table, idx) == Some(c)
        }),
{
    let m2 = m.insert(c, zero_frame()).insert(table, m[table].update(idx, pte_bits(c, PTE_V)));
    let pos2 = pos.insert(c, (pos[table].0 + 1, pos[table].1 * 512 + idx));
    lemma_pte_bits(c, PTE_V);
    assert(m2[c] == zero_frame());
    assert forall|f: u64, i: int| pos2.dom().contains(f) && 0 <= i < 512 implies #[trigger] entry_ok(
        pos2,
        m2,
        f,
        i,
    ) by {
        if f == c {
            assert(m2[c][i] == 0u64);
        } else {
            assert(entry_ok(pos, m, f, i));
        }
    }
    assert forall|v: u64| walk(m2, root, v) == walk(m, root, v) by {
        lemma_walk_path(root, pos, m, v);
        lemma_walk_path(root, pos2, m2, v);
        let i0 = vpn_indexes(v)[0] as int;
        let i1 = vpn_indexes(v)[1] as int;
        let i2 = vpn_indexes(v)[2] as int;
        assert(m2[c][i1] == 0u64);
        assert(m2[c][i2] == 0u64);
        if next_table(m, root, i0) is Some {
            let t1 = next_table(m, root, i0)->0;
            assert(next_table(m2, root, i0) == Some(t1));
            if next_table(m, t1, i1) is Some {
                let t2 = next_table(m, t1, i1)->0;
                assert(next_table(m2, t1, i1) == Some(t2));
                assert(m2[t2] == m[t2]);
            }
        }
    }
}

/// Storing `e` in the leaf entry of `vpn` keeps the tree and changes the
/// translation of the page numbers that select that entry, and no other.
proof fn lemma_leaf_write(
    root: u64,
    pos: Map<u64, (int, int)>,
    m: Map<u64, Seq<u64>>,
    vpn: u64,
    e: u64,
)
    requires
        tree_ok(root, pos, m),
        leaf_table(m, root, vpn) is Some,
    ensures
        ({
            let t2 = leaf_table(m, root, vpn)->0;
            let m2 = m.insert(t2, m[t2].update(vpn_indexes(vpn)[2] as int, e));
            &&& tree_ok(root, pos, m2)
            &&& forall|v: u64|
                #[trigger] walk(m2, root, v) == if same_entry(v, vpn) {
                    if entry_valid(e) {
                        Some(PageTableEntry { bits: e })
                    } else {
                        None
                    }
                } else {
                    walk(m, root, v)
                }
        }),
{
    let t2 = leaf_table(m, root, vpn)->0;
    let j2 = vpn_indexes(vpn)[2] as int;
    let m2 = m.insert(t2, m[t2].update(j2, e));
    lemma_walk_path(root, pos, m, vpn);
    assert forall|f: u64, i: int| pos.dom().contains(f) && 0 <= i < 512 implies #[trigger] entry_ok(
        pos,
        m2,
        f,
        i,
    ) by {
        assert(entry_ok(pos, m, f, i));
    }
    assert forall|v: u64|
        walk(m2, root, v) == if same_entry(v, vpn) {
            if entry_valid(e) {
                Some(PageTableEntry { bits: e })
            } else {
                None
            }
        } else {
            walk(m, root, v)
        } by {
        lemma_walk_path(root, pos, m, v);
        lemma_same_entry(v, vpn);
        let i0 = vpn_indexes(v)[0] as int;
        let i1 = vpn_indexes(v)[1] as int;
        if next_table(m, root, i0) is Some {
            let t1 = next_table(m, root, i0)->0;
            assert(next_table(m2, root, i0) == Some(t1));
            assert(m2[t1] == m[t1]);
        }
    }
}

/// A memory that agrees with `m` on the tables of the tree holds the same
/// tree with the same translations.
proof fn lemma_tree_stable(
    root: u64,
    pos: Map<u64, (int, int)>,
    m: Map<u64, Seq<u64>>,
    m2: Map<u64, Seq<u64>>,
)
    requires
        tree_ok(root, pos, m),
        forall|f: u64| #[trigger] pos.dom().contains(f) ==> m2.dom().contains(f) && m2[f] == m[f],
    ensures
        tree_ok(root, pos, m2),
        forall|v: u64| #[trigger] walk(m2, root, v) == walk(m, root, v),
{
    assert forall|f: u64, i: int| pos.dom().contains(f) && 0 <= i < 512 implies #[trigger] entry_ok(
        pos,
        m2,
        f,
        i,
    ) by {
        assert(entry_ok(pos, m, f, i));
    }
    assert forall|v: u64| walk(m2, root, v) == walk(m, root, v) by {
        lemma_walk_path(root, pos, m, v);
        lemma_walk_path(root, pos, m2, v);
    }
}

/// The number of tables that are missing on the walk from `root` for `vpn`.
spec fn missing(m: Map<u64, Seq<u64>>, root: u64, vpn: u64) -> nat {
    match next_table(m, root, vpn_indexes(vpn)[0] as int) {
        None => 2,
        Some(t1) => match next_table(m, t1, vpn_indexes(vpn)[1] as int) {
            None => 1,
            Some(_) => 0,
        },
    }
}

/// Hanging a zeroed frame `c` into the invalid entry `idx` of the root
/// gives a middle table to the page numbers with the first index `idx`, and
/// no leaf table.
proof fn lemma_new_middle(root: u64, pos: Map<u64, (int, int)>, m: Map<u64, Seq<u64>>, idx: int, c: u64)
    requires
        tree_ok(root, pos, m),
        0 <= idx < 512,
        !entry_valid(m[root][idx]),
        !pos.dom().contains(c),
        m.dom().contains(c),
        c < 0x1000_0000_0000,
    ensures
        ({
            let m2 = m.insert(c, zero_frame()).insert(root, m[root].update(idx, pte_bits(c, PTE_V)));
            forall|v: u64| #[trigger]
                missing(m2, root, v) == if vpn_indexes(v)[0] == idx {
                    1nat
                } else {
                    missing(m, root, v)
                }
        }),
{
    let m2 = m.insert(c, zero_frame()).insert(root, m[root].update(idx, pte_bits(c, PTE_V)));
    lemma_pte_bits(c, PTE_V);
    assert(m2[c] == zero_frame());
    assert forall|v: u64| #[trigger]
        missing(m2, root, v) == if vpn_indexes(v)[0] == idx {
            1nat
        } else {
            missing(m, root, v)
        } by {
        lemma_walk_path(root, pos, m, v);
        let i0 = vpn_indexes(v)[0] as int;
        let i1 = vpn_indexes(v)[1] as int;
        if i0 == idx {
            assert(next_table(m2, root, i0) == Some(c));
            assert(m2[c][i1] == 0u64);
        } else {
            assert(m2[root][i0] == m[root][i0]);
            if next_table(m, root, i0) is Some {
                let t1 = next_table(m, root, i0)->0;
                assert(next_table(m2, root, i0) == Some(t1));
                assert(m2[t1] == m[t1]);
            }
        }
    }
}

/// Hanging a zeroed frame `c` into the invalid entry `idx` of the middle
/// table `table`, which the first index `j` leads to, gives a leaf table to
/// the page numbers with the first indices `j` and `idx`.
proof fn lemma_new_leaf(
    root: u64,
    pos: Map<u64, (int, int)>,
    m: Map<u64, Seq<u64>>,
    table: u64,
    j: int,
    idx: int,
    c: u64,
)
    requires
        tree_ok(root, pos, m),
        0 <= j < 512,
        0 <= idx < 512,
        next_table(m, root, j) == Some(table),
        !entry_valid(m[table][idx]),
        !pos.dom().contains(c),
        m.dom().contains(c),
        c < 0x1000_0000_0000,
    ensures
        ({
            let m2 = m.insert(c, zero_frame()).insert(
                table,
                m[table].update(idx, pte_bits(c, PTE_V)),
            );
            forall|v: u64| #[trigger]
                missing(m2, root, v) == if vpn_indexes(v)[0] == j && vpn_indexes(v)[1] == idx {
                    0nat
                } else {
                    missing(m, root, v)
                }
        }),
{
    let m2 = m.insert(c, zero_frame()).insert(table, m[table].update(idx, pte_bits(c, PTE_V)));
    lemma_pte_bits(c, PTE_V);
    assert(entry_ok(pos, m, root, j));
    assert(pos[table] == (1int, j));
    assert(m2[root] == m[root]);
    assert forall|v: u64| #[trigger]
        missing(m2, root, v) == if vpn_indexes(v)[0] == j && vpn_indexes(v)[1] == idx {
            0nat
        } else {
            missing(m, root, v)
        } by {
        lemma_walk_path(root, pos, m, v);
        let i0 = vpn_indexes(v)[0] as int;
        let i1 = vpn_indexes(v)[1] as int;
        if next_table(m, root, i0) is Some {
            let t1 = next_table(m, root, i0)->0;
            assert(next_table(m2, root, i0) == Some(t1));
            if i0 == j {
                if i1 == idx {
                    assert(next_table(m2, table, idx) == Some(c));
                } else {
                    assert(m2[table][i1] == m[table][i1]);
                }
            } else {
                assert(m2[t1] == m[t1]);
            }
        }
    }
}

/// Storing a leaf entry adds no table.
proof fn lemma_leaf_write_missing(
    root: u64,
    pos: Map<u64, (int, int)>,
    m: Map<u64, Seq<u64>>,
    vpn: u64,
    e: u64,
)
    requires
        tree_ok(root, pos, m),
        leaf_table(m, root, vpn) is Some,
    ensures
        ({
            let t2 = leaf_table(m, root, vpn)->0;
            let m2 = m.insert(t2, m[t2].update(vpn_indexes(vpn)[2] as int, e));
            forall|v: u64| #[trigger] missing(m2, root, v) == missing(m, root, v)
        }),
{
    let t2 = leaf_table(m, root, vpn)->0;
    let m2 = m.insert(t2, m[t2].update(vpn_indexes(vpn)[2] as int, e));
    lemma_walk_path(root, pos, m, vpn);
    assert forall|v: u64| #[trigger] missing(m2, root, v) == missing(m, root, v) by {
        lemma_walk_path(root, pos, m, v);
        let i0 = vpn_indexes(v)[0] as int;
        if next_table(m, root, i0) is Some {
            let t1 = next_table(m, root, i0)->0;
            assert(next_table(m2, root, i0) == Some(t1));
            assert(m2[t1] == m[t1]);
        }
    }
}

/// Whether two page numbers are reached through the same middle table:
/// their first indices agree.
pub open spec fn same_middle(a: u64, b: u64) -> bool {
    (a / 0x40000) % 512 == (b / 0x40000) % 512
}

/// Whether two page numbers are reached through the same leaf table: their
/// first two indices agree.
pub open spec fn same_leaf(a: u64, b: u64) -> bool {
    same_middle(a, b) && (a / 512) % 512 == (b / 512) % 512
}

/// The number of tables that are missing for the page `v` once the page
/// `w` is mapped, when `n` were missing before: none when both have the
/// same leaf table, at most one when both have the same middle table, and
/// else as many as before.
pub open spec fn missing_beside(n: nat, v: u64, w: u64) -> nat {
    if same_leaf(v, w) {
        0
    } else if same_middle(v, w) && n > 1 {
        1
    } else {
        n
    }
}

/// The number of tables that are missing for `v` once the middle table of
/// `w` is there, when `n` were missing for `v` and `nw` for `w` before.
spec fn first_step(nw: nat, n: nat, v: u64, w: u64) -> nat {
    if nw == 2 && vpn_indexes(v)[0] == vpn_indexes(w)[0] {
        1
    } else {
        n
    }
}

/// The number of tables that are missing for `v` once the leaf table of
/// `w` is there, when `n` were missing for `v` and `nw` for `w` before.
spec fn second_step(nw: nat, n: nat, v: u64, w: u64) -> nat {
    if nw == 1 && vpn_indexes(v)[0] == vpn_indexes(w)[0] && vpn_indexes(v)[1] == vpn_indexes(w)[1] {
        0
    } else {
        n
    }
}

/// The two steps that add the tables for the page `w` leave missing, for
/// every page, what is missing beside `w`.
proof fn lemma_missing_steps(
    t0: &PageTable,
    m0: &PhysMemory,
    t1: &PageTable,
    m1: &PhysMemory,
    t2: &PageTable,
    m2: &PhysMemory,
    w: u64,
)
    requires
        forall|v: u64| #[trigger]
            t1.tables_missing(m1, v) == first_step(
                t0.tables_missing(m0, w),
                t0.tables_missing(m0, v),
                v,
                w,
            ),
        forall|v: u64| #[trigger]
            t2.tables_missing(m2, v) == second_step(
                t1.tables_missing(m1, w),
                t1.tables_missing(m1, v),
                v,
                w,
            ),
        t2.tables_missing(m2, w) == 0,
    ensures
        forall|v: u64| #[trigger]
            t2.tables_missing(m2, v) == missing_beside(t0.tables_missing(m0, v), v, w),
{
    assert forall|v: u64| #[trigger]
        t2.tables_missing(m2, v) == missing_beside(t0.tables_missing(m0, v), v, w) by {
        let a = t1.tables_missing(m1, v);
        let b = t1.tables_missing(m1, w);
        let c = t2.tables_missing(m2, w);
        if vpn_indexes(v)[0] == vpn_indexes(w)[0] {
            assert(vpn_indexes(v)[0] as int == vpn_indexes(w)[0] as int);
            if vpn_indexes(v)[1] == vpn_indexes(w)[1] {
                assert(vpn_indexes(v)[1] as int == vpn_indexes(w)[1] as int);
                assert(t2.tables_missing(m2, v) == t2.tables_missing(m2, w));
            } else {
                assert(t0.tables_missing(m0, v) == 2 <==> t0.tables_missing(m0, w) == 2);
            }
        }
    }
}

/// The error of an operation that needed a frame when none was free.
#[derive(Clone, Copy, Debug, PartialEq, Eq, Structural)]
pub struct OutOfFrames;

/// A page table: its root frame and all the frames that hold its tables.
pub struct PageTable {
    root: u64,
    tables: Vec<u64>,
    pos: Ghost<Map<u64, (int, int)>>,
}

impl PageTable {
    /// The frame of the root table.
    pub closed spec fn root(&self) -> u64 {
        self.root
    }

    /// The frames that hold the tables, the root among them.
    pub closed spec fn frames(&self) -> Set<u64> {
        self.pos@.dom()
    }

    /// The tables are distinct frames of `mem` and form a tree below the
    /// root, so that every entry is reached by one sequence of indices.
    pub closed spec fn wf(&self, mem: &PhysMemory) -> bool {
        &&& mem.wf()
        &&& tree_ok(self.root, self.pos@, mem@)
        &&& self.tables@.no_duplicates()
        &&& forall|f: u64| self.pos@.dom().contains(f) <==> self.tables@.contains(f)
    }

    /// The translation of `vpn`, if it is mapped.
    pub open spec fn lookup(&self, mem: &PhysMemory, vpn: u64) -> Option<PageTableEntry> {
        walk(mem@, self.root(), vpn)
    }

    /// The number of tables that a mapping of `vpn` would have to add.
    pub open spec fn tables_missing(&self, mem: &PhysMemory, vpn: u64) -> nat {
        match next_table(mem@, self.root(), vpn_indexes(vpn)[0] as int) {
            None => 2,
            Some(t1) => match next_table(mem@, t1, vpn_indexes(vpn)[1] as int) {
                None => 1,
                Some(_) => 0,
            },
        }
    }

    /// The number of tables that the mapping of the page `v` has to add
    /// once the pages from `s` up to `v` are mapped.
    pub open spec fn tables_at(&self, mem: &PhysMemory, s: u64, v: u64) -> nat {
        if v <= s {
            self.tables_missing(mem, v)
        } else {
            missing_beside(self.tables_missing(mem, v), v, (v - 1) as u64)
        }
    }

    /// The number of tables that the mappings of the pages from `s` up to
    /// `e`, one after the other, have to add.
    pub open spec fn tables_for(&self, mem: &PhysMemory, s: u64, e: u64) -> nat
        decreases e,
    {
        if e <= s {
            0
        } else {
            self.tables_for(mem, s, (e - 1) as u64) + self.tables_at(mem, s, (e - 1) as u64)
        }
    }

    /// Whether every frame of the table is allocated in `allocator`.
    pub open spec fn owned(&self, allocator: &StackFrameAllocator) -> bool {
        forall|f: u64| #[trigger] self.frames().contains(f) ==> allocator.is_allocated(f)
    }

    /// The root and all other tables are frames of the memory.
    pub proof fn lemma_frames(&self, mem: &PhysMemory)
        requires
            self.wf(mem),
        ensures
            mem.wf(),
            self.frames().contains(self.root()),
            forall|f: u64| #[trigger] self.frames().contains(f) ==> mem.has_frame(f),
    {
        mem.lemma_view();
    }

    /// The translations depend on the frames of the table only: a memory that
    /// agrees with `mem` on them gives the same table.
    pub proof fn lemma_stable(&self, mem: &PhysMemory, mem2: &PhysMemory)
        requires
            self.wf(mem),
            mem2.wf(),
            forall|f: u64| #[trigger] self.frames().contains(f) ==> mem2.has_frame(f) && mem2@[f] == mem@[f],
        ensures
            self.wf(mem2),
            forall|v: u64| #[trigger] self.lookup(mem2, v) == self.lookup(mem, v),
            forall|v: u64| self.tables_missing(mem2, v) == self.tables_missing(mem, v),
    {
        mem2.lemma_view();
        assert forall|f: u64| #[trigger] self.pos@.dom().contains(f) implies mem2@.dom().contains(f)
            && mem2@[f] == mem@[f] by {
            assert(self.frames().contains(f));
        }
        lemma_tree_stable(self.root, self.pos@, mem@, mem2@);
        assert forall|v: u64| self.tables_missing(mem2, v) == self.tables_missing(mem, v) by {
            lemma_walk_path(self.root, self.pos@, mem@, v);
            lemma_walk_path(self.root, self.pos@, mem2@, v);
        }
    }

    /// A table that maps nothing. `None` when no frame is free for its root;
    /// nothing changes then.
    pub fn new(mem: &mut PhysMemory, allocator: &mut StackFrameAllocator) -> (r: Option<Self>)
        requires
            old(mem).wf(),
            old(allocator).wf(),
            old(allocator).within(old(mem)),
        ensures
            final(mem).wf(),
            final(mem).base() == old(mem).base(),
            final(mem).frame_count() == old(mem).frame_count(),
            final(allocator).wf(),
            final(allocator).range_start() == old(allocator).range_start(),
            final(allocator).range_end() == old(allocator).range_end(),
            r is None <==> old(allocator).free_count() == 0,
            r is None ==> *final(allocator) == *old(allocator) && final(mem)@ == old(mem)@,
            r matches Some(pt) ==> {
                &&& pt.wf(final(mem))
                &&& old(allocator).is_free(pt.root())
                &&& pt.frames() == set![pt.root()]
                &&& forall|v: u64| (#[trigger] pt.lookup(final(mem), v)) is None
                &&& forall|v: u64| #[trigger] pt.tables_missing(final(mem), v) == 2
                &&& final(allocator).allocated() == old(allocator).allocated().insert(pt.root())
                &&& final(allocator).free_count() == old(allocator).free_count() - 1
                &&& final(mem)@ == old(mem)@.insert(pt.root(), zero_frame())
            },
    {
        match frame_alloc(mem, allocator) {
            None => None,
            Some(p) => {
                let mut tables: Vec<u64> = Vec::new();
                tables.push(p.0);
                let ghost pos: Map<u64, (int, int)> = Map::empty().insert(p.0, (0int, 0int));
                let pt = PageTable { root: p.0, tables, pos: Ghost(pos) };
                proof {
                    mem.lemma_view();
                    assert(pt.tables@[0] == p.0);
                    assert(mem@[p.0] == zero_frame());
                    assert forall|f: u64, i: int| pos.dom().contains(f) && 0 <= i < 512 implies #[trigger] entry_ok(
                        pos,
                        mem@,
                        f,
                        i,
                    ) by {
                        assert(mem@[p.0][i] == 0u64);
                    }
                    assert(pt.frames() =~= set![pt.root()]);
                    assert forall|v: u64| pt.lookup(mem, v) is None by {
                        assert(mem@[p.0][vpn_indexes(v)[0] as int] == 0u64);
                    }
                }
                Some(pt)
            },
        }
    }

    /// The value for the address-translation register that selects this
    /// table: the paging mode in the top four bits, the root frame below.
    pub fn token(&self) -> (r: u64)
        requires
            self.root() < 0x1000_0000_0000,
        ensures
            r == 0x8000_0000_0000_0000 + self.root(),
    {
        let p: u64 = self.root;
        assert(((8u64 << 60) | p) == 0x8000_0000_0000_0000 + p) by (bit_vector)
            requires
                p < 0x1000_0000_0000,
        ;
        (8u64 << 60) | p
    }

    /// The frame of the root table.
    pub fn root_ppn(&self) -> (r: PhysPageNum)
        ensures
            r.0 == self.root(),
    {
        PhysPageNum(self.root)
    }

    /// The translation of `vpn`: its leaf entry, or `None` if an entry on
    /// the way or the leaf entry itself is not valid.
    pub fn translate(&self, mem: &PhysMemory, vpn: VirtPageNum) -> (r: Option<PageTableEntry>)
        requires
            mem.wf(),
        ensures
            r == self.lookup(mem, vpn.0),
    {
        walk_table(mem, PhysPageNum(self.root), vpn)
    }

    /// The table below entry `idx` of `table`; a zeroed frame is hung in
    /// first where the entry is not valid. `None` when that needs a frame and
    /// none is free.
    fn ensure_table(
        &mut self,
        mem: &mut PhysMemory,
        allocator: &mut StackFrameAllocator,
        table: PhysPageNum,
        idx: usize,
    ) -> (r: Option<PhysPageNum>)
        requires
            old(self).wf(old(mem)),
            old(allocator).wf(),
            old(allocator).within(old(mem)),
            old(self).owned(old(allocator)),
            old(self).pos@.dom().contains(table.0),
            old(self).pos@[table.0].0 < 2,
            idx < 512,
            table.0 == old(self).root || (0 <= old(self).pos@[table.0].1 < 512 && next_table(
                old(mem)@,
                old(self).root,
                old(self).pos@[table.0].1,
            ) == Some(table.0)),
        ensures
            final(self).wf(final(mem)),
            final(self).root() == old(self).root(),
            final(self).owned(final(allocator)),
            final(mem).base() == old(mem).base(),
            final(mem).frame_count() == old(mem).frame_count(),
            final(allocator).wf(),
            final(allocator).range_start() == old(allocator).range_start(),
            final(allocator).range_end() == old(allocator).range_end(),
            forall|v: u64| #[trigger] final(self).lookup(final(mem), v) == old(self).lookup(old(mem), v),
            old(self).frames().subset_of(final(self).frames()),
            forall|f: u64|
                old(mem).has_frame(f) && !final(self).frames().contains(f) ==> #[trigger] final(mem)@[f] == old(mem)@[f],
            forall|f: u64| #[trigger]
                final(self).frames().contains(f) && !old(self).frames().contains(f) ==> old(allocator).is_free(f),
            forall|q: u64|
                final(allocator).is_free(q) <==> old(allocator).is_free(q) && !final(self).frames().contains(q),
            r is None <==> !entry_valid(old(mem)@[table.0][idx as int]) && old(allocator).free_count() == 0,
            r is None ==> final(self).frames() == old(self).frames() && final(mem)@ == old(mem)@
                && *final(allocator) == *old(allocator),
            entry_valid(old(mem)@[table.0][idx as int]) ==> final(self).frames() == old(self).frames() && final(mem)@ == old(mem)@ && *final(allocator) == *old(allocator),
            r is Some && !entry_valid(old(mem)@[table.0][idx as int]) ==> forall|v: u64| #[trigger]
                final(self).tables_missing(final(mem), v) == if table.0 == old(self).root {
                    if vpn_indexes(v)[0] == idx {
                        1nat
                    } else {
                        old(self).tables_missing(old(mem), v)
                    }
                } else {
                    if vpn_indexes(v)[0] == old(self).pos@[table.0].1 && vpn_indexes(v)[1] == idx {
                        0nat
                    } else {
                        old(self).tables_missing(old(mem), v)
                    }
                },
            r matches Some(c) ==> {
                &&& next_table(final(mem)@, table.0, idx as int) == Some(c.0)
                &&& final(self).pos@.dom().contains(c.0)
                &&& final(self).pos@[c.0] == (
                    old(self).pos@[table.0].0 + 1,
                    old(self).pos@[table.0].1 * 512 + idx,
                )
                &&& !entry_valid(old(mem)@[table.0][idx as int]) ==> {
                    &&& final(allocator).free_count() == old(allocator).free_count() - 1
                    &&& old(allocator).is_free(c.0)
                    &&& final(mem)@ == old(mem)@.insert(c.0, zero_frame()).insert(
                        table.0,
                        old(mem)@[table.0].update(idx as int, pte_bits(c.0, PTE_V)),
                    )
                }
            },
    {
        proof {
            mem.lemma_view();
            allocator.lemma_free();
            assert(entry_ok(self.pos@, mem@, table.0, idx as int));
            assert forall|q: u64| self.frames().contains(q) implies !allocator.is_free(q) by {
                assert(allocator.is_allocated(q));
            }
        }
        let e = PageTableEntry { bits: mem.read_word(table, idx) };
        if e.is_valid() {
            return Some(e.ppn());
        }
        match frame_alloc(mem, allocator) {
            None => None,
            Some(c) => {
                let ghost m0 = old(mem)@;
                let ghost pos0 = self.pos@;
                proof {
                    assert(!pos0.dom().contains(c.0)) by {
                        if pos0.dom().contains(c.0) {
                            assert(old(self).frames().contains(c.0));
                            assert(old(allocator).is_allocated(c.0));
                        }
                    }
                    assert(old(mem).has_frame(c.0));
                    old(mem).lemma_view();
                    assert(m0.dom().contains(c.0));
                    lemma_new_table(self.root, pos0, m0, table.0, idx as int, c.0);
                    if table.0 == self.root {
                        lemma_new_middle(self.root, pos0, m0, idx as int, c.0);
                    } else {
                        lemma_new_leaf(self.root, pos0, m0, table.0, pos0[table.0].1, idx as int, c.0);
                    }
                    assert(table.0 != c.0);
                }
                let entry = PageTableEntry::new(c, PTEFlags { bits: PTE_V });
                mem.write_word(table, idx, entry.bits);
                self.tables.push(c.0);
                proof {
                    self.pos@ = pos0.insert(c.0, (pos0[table.0].0 + 1, pos0[table.0].1 * 512 + idx));
                    mem.lemma_view();
                    assert(mem@ =~= m0.insert(c.0, zero_frame()).insert(
                        table.0,
                        m0[table.0].update(idx as int, pte_bits(c.0, PTE_V)),
                    ));
                    let n = old(self).tables@.len() as int;
                    assert(self.tables@[n] == c.0);
                    assert forall|f: u64| self.pos@.dom().contains(f) <==> self.tables@.contains(
                        f,
                    ) by {
                        if self.tables@.contains(f) && f != c.0 {
                            let i = choose|i: int| 0 <= i < self.tables@.len() && self.tables@[i] == f;
                            assert(old(self).tables@[i] == f);
                        }
                        if pos0.dom().contains(f) {
                            let i = choose|i: int|
                                0 <= i < old(self).tables@.len() && old(self).tables@[i] == f;
                            assert(self.tables@[i] == f);
                        }
                    }
                    assert(self.tables@.no_duplicates()) by {
                        assert forall|a: int, b: int|
                            0 <= a < self.tables@.len() && 0 <= b < self.tables@.len() && a
                                != b implies self.tables@[a] != self.tables@[b] by {
                            if a < n {
                                assert(old(self).tables@[a] == self.tables@[a]);
                                assert(old(self).tables@.contains(self.tables@[a]));
                            }
                            if b < n {
                                assert(old(self).tables@[b] == self.tables@[b]);
                                assert(old(self).tables@.contains(self.tables@[b]));
                            }
                        }
                    }
                    assert forall|f: u64| self.frames().contains(f) implies allocator.is_allocated(
                        f,
                    ) by {
                        if f != c.0 {
                            assert(old(self).frames().contains(f));
                        }
                    }
                    assert forall|v: u64|
                        self.tables_missing(mem, v) == missing(mem@, self.root, v)
                            && old(self).tables_missing(old(mem), v) == missing(m0, self.root, v) by {}
                }
                Some(c)
            },
        }
    }

    /// The leaf table for `vpn`; the tables that are missing on the way are
    /// added first. `None` when fewer frames are free than tables are
    /// missing.
    fn leaf_for(
        &mut self,
        mem: &mut PhysMemory,
        allocator: &mut StackFrameAllocator,
        vpn: VirtPageNum,
    ) -> (r: Option<PhysPageNum>)
        requires
            old(self).wf(old(mem)),
            old(allocator).wf(),
            old(allocator).within(old(mem)),
            old(self).owned(old(allocator)),
        ensures
            final(self).wf(final(mem)),
            final(self).root() == old(self).root(),
            final(self).owned(final(allocator)),
            final(mem).base() == old(mem).base(),
            final(mem).frame_count() == old(mem).frame_count(),
            final(allocator).wf(),
            final(allocator).range_start() == old(allocator).range_start(),
            final(allocator).range_end() == old(allocator).range_end(),
            forall|v: u64| #[trigger] final(self).lookup(final(mem), v) == old(self).lookup(old(mem), v),
            old(self).frames().subset_of(final(self).frames()),
            forall|f: u64|
                old(mem).has_frame(f) && !final(self).frames().contains(f) ==> #[trigger] final(mem)@[f] == old(mem)@[f],
            forall|f: u64| #[trigger]
                final(self).frames().contains(f) && !old(self).frames().contains(f) ==> old(allocator).is_free(f),
            forall|q: u64|
                final(allocator).is_free(q) <==> old(allocator).is_free(q) && !final(self).frames().contains(q),
            r is Some <==> old(allocator).free_count() >= old(self).tables_missing(old(mem), vpn.0),
            final(allocator).free_count() + 2 >= old(allocator).free_count(),
            final(allocator).free_count() <= old(allocator).free_count(),
            r matches Some(t2) ==> {
                &&& leaf_table(final(mem)@, final(self).root, vpn.0) == Some(t2.0)
                &&& final(allocator).free_count() == old(allocator).free_count() - old(self).tables_missing(old(mem), vpn.0)
                &&& forall|v: u64| #[trigger]
                    final(self).tables_missing(final(mem), v) == missing_beside(
                        old(self).tables_missing(old(mem), v),
                        v,
                        vpn.0,
                    )
            },
    {
        let idx = vpn.indexes();
        proof {
            lemma_walk_path(self.root, self.pos@, mem@, vpn.0);
        }
        let ghost mem0 = *mem;
        let t1 = match self.ensure_table(mem, allocator, PhysPageNum(self.root), idx[0]) {
            None => {
                return None;
            },
            Some(t) => t,
        };
        let ghost mem1 = *mem;
        let ghost self1 = *self;
        let ghost alloc1 = *allocator;
        proof {
            lemma_walk_path(self.root, self.pos@, mem@, vpn.0);
            assert(mem@[t1.0][idx[1] as int] == mem0@[t1.0][idx[1] as int] || mem@[t1.0]
                == zero_frame());
            assert forall|v: u64| #[trigger]
                self1.tables_missing(&mem1, v) == first_step(
                    old(self).tables_missing(old(mem), vpn.0),
                    old(self).tables_missing(old(mem), v),
                    v,
                    vpn.0,
                ) by {}
        }
        let t2 = match self.ensure_table(mem, allocator, t1, idx[1]) {
            None => {
                return None;
            },
            Some(t) => t,
        };
        proof {
            lemma_walk_path(self.root, self.pos@, mem@, vpn.0);
            assert(next_table(mem@, self.root, idx[0] as int) == Some(t1.0)) by {
                assert(self.lookup(mem, vpn.0) == self1.lookup(&mem1, vpn.0));
                if mem@ != mem1@ {
                    assert(entry_ok(self1.pos@, mem1@, self.root, idx[0] as int));
                    assert(self1.frames().contains(self.root));
                    assert(alloc1.is_allocated(self.root));
                    assert(mem@[self.root] == mem1@[self.root]);
                }
            }
            assert(leaf_table(mem@, self.root, vpn.0) == Some(t2.0));
            assert forall|v: u64| #[trigger]
                self.tables_missing(mem, v) == second_step(
                    self1.tables_missing(&mem1, vpn.0),
                    self1.tables_missing(&mem1, v),
                    v,
                    vpn.0,
                ) by {}
            lemma_missing_steps(old(self), old(mem), &self1, &mem1, self, mem, vpn.0);
        }
        Some(t2)
    }

    /// Maps `vpn` to the frame `ppn` with `flags` and the valid flag. Tables
    /// that are missing on the way are added. `vpn` must not be mapped:
    /// mapping a page twice is a fault of the caller.
    ///
    /// Fails, and changes no translation, when fewer frames are free than
    /// tables are missing.
    pub fn map(
        &mut self,
        mem: &mut PhysMemory,
        allocator: &mut StackFrameAllocator,
        vpn: VirtPageNum,
        ppn: PhysPageNum,
        flags: PTEFlags,
    ) -> (r: Result<(), OutOfFrames>)
        requires
            old(self).wf(old(mem)),
            old(allocator).wf(),
            old(allocator).within(old(mem)),
            old(self).owned(old(allocator)),
            old(self).lookup(old(mem), vpn.0) is None,
            ppn.0 < 0x1000_0000_0000,
        ensures
            final(self).wf(final(mem)),
            final(self).root() == old(self).root(),
            final(self).owned(final(allocator)),
            final(mem).base() == old(mem).base(),
            final(mem).frame_count() == old(mem).frame_count(),
            final(allocator).wf(),
            final(allocator).range_start() == old(allocator).range_start(),
            final(allocator).range_end() == old(allocator).range_end(),
            r is Ok <==> old(allocator).free_count() >= old(self).tables_missing(old(mem), vpn.0),
            table_step(
                old(self),
                old(mem),
                TableOp::MapPage(vpn.0, ppn.0, flags.bits),
                r is Ok,
                final(self),
                final(mem),
            ),
            forall|v: u64|
                #[trigger] final(self).lookup(final(mem), v) == if r is Ok && same_entry(v, vpn.0) {
                    Some(PageTableEntry { bits: pte_bits(ppn.0, flags.bits | PTE_V) })
                } else {
                    old(self).lookup(old(mem), v)
                },
            old(self).frames().subset_of(final(self).frames()),
            forall|f: u64|
                old(mem).has_frame(f) && !final(self).frames().contains(f) ==> #[trigger] final(mem)@[f] == old(mem)@[f],
            forall|f: u64| #[trigger]
                final(self).frames().contains(f) && !old(self).frames().contains(f) ==> old(allocator).is_free(f),
            forall|q: u64|
                final(allocator).is_free(q) <==> old(allocator).is_free(q) && !final(self).frames().contains(q),
            final(allocator).free_count() + 2 >= old(allocator).free_count(),
            final(allocator).free_count() <= old(allocator).free_count(),
            r is Ok ==> final(allocator).free_count() == old(allocator).free_count() - old(self).tables_missing(old(mem), vpn.0),
            r is Ok ==> forall|v: u64| #[trigger]
                final(self).tables_missing(final(mem), v) == missing_beside(
                    old(self).tables_missing(old(mem), v),
                    v,
                    vpn.0,
                ),
    {
        let idx = vpn.indexes();
        let t2 = match self.leaf_for(mem, allocator, vpn) {
            None => {
                return Err(OutOfFrames);
            },
            Some(t) => t,
        };
        proof {
            lemma_pte_bits(ppn.0, flags.bits | PTE_V);
            let f = flags.bits;
            assert((f | 1u8) % 2 == 1) by (bit_vector);
            lemma_leaf_write(self.root, self.pos@, mem@, vpn.0, pte_bits(ppn.0, flags.bits | PTE_V));
            lemma_leaf_write_missing(
                self.root,
                self.pos@,
                mem@,
                vpn.0,
                pte_bits(ppn.0, flags.bits | PTE_V),
            );
            lemma_walk_path(self.root, self.pos@, mem@, vpn.0);
            mem.lemma_view();
        }
        let entry = PageTableEntry::new(ppn, PTEFlags { bits: flags.bits | PTE_V });
        let ghost mem2 = *mem;
        mem.write_word(t2, idx[2], entry.bits);
        proof {
            mem.lemma_view();
            assert forall|v: u64| #[trigger]
                self.lookup(mem, v) == if same_entry(v, vpn.0) {
                    Some(PageTableEntry { bits: pte_bits(ppn.0, flags.bits | PTE_V) })
                } else {
                    old(self).lookup(old(mem), v)
                } by {
                assert(self.lookup(&mem2, v) == old(self).lookup(old(mem), v));
            }
            assert forall|v: u64| #[trigger]
                self.tables_missing(mem, v) == missing_beside(
                    old(self).tables_missing(old(mem), v),
                    v,
                    vpn.0,
                ) by {
                assert(self.tables_missing(mem, v) == missing(mem@, self.root, v));
                assert(self.tables_missing(&mem2, v) == missing(mem2@, self.root, v));
            }
        }
        Ok(())
    }

    /// Removes the mapping of `vpn`, which must be mapped: unmapping a page
    /// that is not mapped is a fault of the caller. The tables stay.
    pub fn unmap(&mut self, mem: &mut PhysMemory, vpn: VirtPageNum)
        requires
            old(self).wf(old(mem)),
            old(self).lookup(old(mem), vpn.0) is Some,
        ensures
            final(self).wf(final(mem)),
            *final(self) == *old(self),
            final(mem).base() == old(mem).base(),
            final(mem).frame_count() == old(mem).frame_count(),
            table_step(old(self), old(mem), TableOp::UnmapPage(vpn.0), true, final(self), final(mem)),
            forall|v: u64| #[trigger]
                final(self).tables_missing(final(mem), v) == old(self).tables_missing(old(mem), v),
            forall|v: u64|
                #[trigger] final(self).lookup(final(mem), v) == if same_entry(v, vpn.0) {
                    None
                } else {
                    old(self).lookup(old(mem), v)
                },
            forall|f: u64|
                old(mem).has_frame(f) && !final(self).frames().contains(f) ==> #[trigger] final(mem)@[f] == old(mem)@[f],
    {
        let idx = vpn.indexes();
        proof {
            mem.lemma_view();
            lemma_walk_path(self.root, self.pos@, mem@, vpn.0);
            lemma_leaf_write(self.root, self.pos@, mem@, vpn.0, 0u64);
            lemma_leaf_write_missing(self.root, self.pos@, mem@, vpn.0, 0u64);
        }
        let e0 = PageTableEntry { bits: mem.read_word(PhysPageNum(self.root), idx[0]) };
        let t1 = e0.ppn();
        let e1 = PageTableEntry { bits: mem.read_word(t1, idx[1]) };
        let t2 = e1.ppn();
        mem.write_word(t2, idx[2], 0u64);
        proof {
            mem.lemma_view();
            assert forall|v: u64| #[trigger]
                self.tables_missing(mem, v) == old(self).tables_missing(old(mem), v) by {
                assert(self.tables_missing(mem, v) == missing(mem@, self.root, v));
                assert(old(self).tables_missing(old(mem), v) == missing(old(mem)@, self.root, v));
            }
        }
    }

    /// Gives every frame of the table back to the allocator.
    pub fn destroy(self, mem: &PhysMemory, allocator: &mut StackFrameAllocator)
        requires
            self.wf(mem),
            old(allocator).wf(),
            self.owned(old(allocator)),
        ensures
            final(allocator).wf(),
            final(allocator).range_start() == old(allocator).range_start(),
            final(allocator).range_end() == old(allocator).range_end(),
            forall|q: u64|
                final(allocator).is_free(q) <==> old(allocator).is_free(q) || self.frames().contains(
                    q,
                ),
            final(allocator).free_count() == old(allocator).free_count() + self.frames().len(),
            self.frames().finite(),
    {
        let mut i: usize = 0;
        proof {
            self.tables@.unique_seq_to_set();
            assert(self.tables@.to_set() =~= self.frames());
            assert forall|k: int| 0 <= k < self.tables@.len() implies old(allocator).is_allocated(
                #[trigger] self.tables@[k],
            ) by {
                assert(self.tables@.contains(self.tables@[k]));
                assert(self.frames().contains(self.tables@[k]));
            }
        }
        while i < self.tables.len()
            invariant
                i <= self.tables@.len(),
                self.tables@.no_duplicates(),
                allocator.wf(),
                allocator.range_start() == old(allocator).range_start(),
                allocator.range_end() == old(allocator).range_end(),
                forall|k: int| 0 <= k < self.tables@.len() ==> old(allocator).is_allocated(#[trigger] self.tables@[k]),
                forall|q: u64|
                    allocator.is_free(q) <==> old(allocator).is_free(q) || exists|k: int|
                        0 <= k < i && self.tables@[k] == q,
                allocator.free_count() == old(allocator).free_count() + i,
            decreases self.tables@.len() - i,
        {
            let f: u64 = self.tables[i];
            proof {
                assert(old(allocator).is_allocated(self.tables@[i as int]));
                if allocator.is_free(f) {
                    let k = choose|k: int| 0 <= k < i && self.tables@[k] == f;
                    assert(self.tables@[k] != self.tables@[i as int]);
                }
            }
            allocator.deallocate(PhysPageNum(f));
            i = i + 1;
        }
        proof {
            assert forall|q: u64|
                allocator.is_free(q) <==> old(allocator).is_free(q) || self.frames().contains(
                    q,
                ) by {
                if self.frames().contains(q) {
                    assert(self.tables@.contains(q));
                }
            }
        }
    }
}

/// The translation of `vpn` by the table rooted at `root`, whatever the
/// memory holds there: `None` where the walk leaves the memory or meets an
/// entry that is not valid.
pub fn walk_table(mem: &PhysMemory, root: PhysPageNum, vpn: VirtPageNum) -> (r: Option<
    PageTableEntry,
>)
    requires
        mem.wf(),
    ensures
        r == walk(mem@, root.0, vpn.0),
{
    proof {
        mem.lemma_view();
    }
    let idx = vpn.indexes();
    if !mem.contains(root) {
        return None;
    }
    let e0 = PageTableEntry { bits: mem.read_word(root, idx[0]) };
    if !e0.is_valid() || !mem.contains(e0.ppn()) {
        return None;
    }
    let e1 = PageTableEntry { bits: mem.read_word(e0.ppn(), idx[1]) };
    if !e1.is_valid() || !mem.contains(e1.ppn()) {
        return None;
    }
    let e2 = PageTableEntry { bits: mem.read_word(e1.ppn(), idx[2]) };
    if e2.is_valid() {
        Some(e2)
    } else {
        None
    }
}

/// The value for the address-translation register that selects the root
/// table in the frame `ppn`.
pub fn get_vmtoken(ppn: u64) -> (r: u64)
    ensures
        r == ppn | 0x8000_0000_0000_0000,
{
    assert(((8u64 << 60) | ppn) == (ppn | 0x8000_0000_0000_0000)) by (bit_vector);
    (8u64 << 60) | ppn
}

/// The root frame that the register value `satp` selects: its low 44 bits.
pub fn calculate_root_ppn(satp: u64) -> (r: PhysPageNum)
    ensures
        r.0 == satp % 0x1000_0000_0000,
{
    assert(satp & 0xfff_ffff_ffff == satp % 0x1000_0000_0000) by (bit_vector);
    assert((1u64 << 44) - 1 == 0xfff_ffff_ffff) by (bit_vector);
    PhysPageNum(satp & ((1u64 << 44) - 1))
}

/// An operation that changes the translations of a page table.
pub enum TableOp {
    /// The page with the first number is mapped to the frame with the
    /// second number, with the flag bits that come third.
    MapPage(u64, u64, u8),
    /// The mapping of the page with this number is removed.
    UnmapPage(u64),
}

/// Whether the operation `op`, with the success `ok`, takes the translations
/// of the table `t0` in the memory `m0` to those of `t1` in `m1`: a mapping
/// is of a page that is not mapped and, where it succeeds, gives that page
/// its entry; an unmapping is of a page that is mapped and takes its entry
/// away; all other translations stay.
pub open spec fn table_step(
    t0: &PageTable,
    m0: &PhysMemory,
    op: TableOp,
    ok: bool,
    t1: &PageTable,
    m1: &PhysMemory,
) -> bool {
    match op {
        TableOp::MapPage(vpn, ppn, flags) => {
            &&& t0.lookup(m0, vpn) is None
            &&& ppn < 0x1000_0000_0000
            &&& forall|v: u64|
                #[trigger] t1.lookup(m1, v) == if ok && same_entry(v, vpn) {
                    Some(PageTableEntry { bits: pte_bits(ppn, flags | PTE_V) })
                } else {
                    t0.lookup(m0, v)
                }
        },
        TableOp::UnmapPage(vpn) => {
            &&& t0.lookup(m0, vpn) is Some
            &&& forall|v: u64|
                #[trigger] t1.lookup(m1, v) == if same_entry(v, vpn) {
                    None
                } else {
                    t0.lookup(m0, v)
                }
        },
    }
}

/// Whether `states`, `ops` and `oks` are a run of a page table: each
/// operation takes its state to the next one, with the success that `oks`
/// has at its place.
pub open spec fn is_table_run(
    states: Seq<(PageTable, PhysMemory)>,
    ops: Seq<TableOp>,
    oks: Seq<bool>,
) -> bool {
    &&& states.len() == ops.len() + 1
    &&& oks.len() == ops.len()
    &&& forall|k: int|
        0 <= k < ops.len() ==> table_step(
            &(#[trigger] states[k]).0,
            &states[k].1,
            ops[k],
            oks[k],
            &states[k + 1].0,
            &states[k + 1].1,
        )
}

/// Whether the operation `op` removes the mapping of `vpn`.
pub open spec fn unmaps(op: TableOp, vpn: u64) -> bool {
    match op {
        TableOp::UnmapPage(w) => same_entry(w, vpn),
        TableOp::MapPage(_, _, _) => false,
    }
}

/// In a run, the entry that a mapping at the place `i` gave to a page is
/// the translation of the page, and of every page number that selects the
/// same entry, up to the place `m` when the page is not unmapped in between.
proof fn lemma_stays_mapped(
    states: Seq<(PageTable, PhysMemory)>,
    ops: Seq<TableOp>,
    oks: Seq<bool>,
    i: int,
    m: int,
    vpn: u64,
    ppn: u64,
    flags: u8,
)
    requires
        is_table_run(states, ops, oks),
        0 <= i < m <= ops.len(),
        ops[i] == TableOp::MapPage(vpn, ppn, flags),
        oks[i],
        forall|k: int| i < k < m ==> !unmaps(#[trigger] ops[k], vpn),
    ensures
        forall|v: u64|
            same_entry(v, vpn) ==> #[trigger] states[m].0.lookup(&states[m].1, v) == Some(
                PageTableEntry { bits: pte_bits(ppn, flags | PTE_V) },
            ),
    decreases m - i,
{
    let e = Some(PageTableEntry { bits: pte_bits(ppn, flags | PTE_V) });
    if m == i + 1 {
        assert(table_step(
            &states[i].0,
            &states[i].1,
            ops[i],
            oks[i],
            &states[i + 1].0,
            &states[i + 1].1,
        ));
    } else {
        lemma_stays_mapped(states, ops, oks, i, m - 1, vpn, ppn, flags);
        let k = m - 1;
        assert(table_step(
            &states[k].0,
            &states[k].1,
            ops[k],
            oks[k],
            &states[k + 1].0,
            &states[k + 1].1,
        ));
        assert(!unmaps(ops[k], vpn));
        assert forall|v: u64| same_entry(v, vpn) implies #[trigger] states[m].0.lookup(
            &states[m].1,
            v,
        ) == e by {
            assert(states[k].0.lookup(&states[k].1, v) == e);
            match ops[k] {
                TableOp::MapPage(w, _, _) => {
                    if same_entry(v, w) {
                        assert(same_entry(w, vpn));
                        assert(states[k].0.lookup(&states[k].1, w) == e);
                    }
                },
                TableOp::UnmapPage(w) => {
                    if same_entry(v, w) {
                        assert(same_entry(w, vpn));
                    }
                },
            }
        }
    }
}

/// Translation correctness: in any run of mappings and unmappings, a page
/// that was mapped and not unmapped since translates to the entry that
/// holds exactly the frame and the flags it was mapped with, and the valid
/// flag.
pub proof fn lemma_translates_as_mapped(
    states: Seq<(PageTable, PhysMemory)>,
    ops: Seq<TableOp>,
    oks: Seq<bool>,
    i: int,
    m: int,
    vpn: u64,
    ppn: u64,
    flags: u8,
)
    requires
        is_table_run(states, ops, oks),
        0 <= i < m <= ops.len(),
        ops[i] == TableOp::MapPage(vpn, ppn, flags),
        oks[i],
        forall|k: int| i < k < m ==> !unmaps(#[trigger] ops[k], vpn),
    ensures
        states[m].0.lookup(&states[m].1, vpn) matches Some(e) && entry_ppn(e.bits) == ppn
            && entry_flags(e.bits) == flags | PTE_V,
{
    lemma_stays_mapped(states, ops, oks, i, m, vpn, ppn, flags);
    assert(table_step(&states[i].0, &states[i].1, ops[i], oks[i], &states[i + 1].0, &states[i + 1].1));
    lemma_pte_bits(ppn, flags | PTE_V);
}

} // verus!
