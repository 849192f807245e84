//! Physical and virtual addresses and page numbers of a 64-bit machine with
//! 4 KiB pages.

use vstd::prelude::*;
use crate::config::PAGE_SIZE;

verus! {

/// A virtual address.
#[derive(Clone, Copy, Debug, PartialEq, Eq, PartialOrd, Ord, Structural)]
pub struct VirtAddr(pub u64);

/// A virtual page number: a virtual address without its page offset.
#[derive(Clone, Copy, Debug, PartialEq, Eq, PartialOrd, Ord, Structural)]
pub struct VirtPageNum(pub u64);

/// A physical address.
#[derive(Clone, Copy, Debug, PartialEq, Eq, PartialOrd, Ord, Structural)]
pub struct PhysAddr(pub u64);

/// A physical page number: the number of a frame.
#[derive(Clone, Copy, Debug, PartialEq, Eq, PartialOrd, Ord, Structural)]
pub struct PhysPageNum(pub u64);

/// The three 9-bit table indices of a virtual page number, root level first.
pub open spec fn vpn_indexes(vpn: u64) -> Seq<usize> {
    seq![
        ((vpn / 0x40000) % 512) as usize,
        ((vpn / 512) % 512) as usize,
        (vpn % 512) as usize,
    ]
}

/// Whether two virtual page numbers select the same leaf entry of a page
/// table: they agree in their low 27 bits.
pub open spec fn same_entry(a: u64, b: u64) -> bool {
    a % 0x800_0000 == b % 0x800_0000
}

impl PhysAddr {
    /// The frame that holds this address.
    pub fn floor(&self) -> (r: PhysPageNum)
        ensures
            r.0 == self.0 / 4096,
    {
        PhysPageNum(self.0 / PAGE_SIZE)
    }

    /// The first frame that starts at or after this address.
    pub fn ceil(&self) -> (r: PhysPageNum)
        ensures
            r.0 == (self.0 + 4095) / 4096,
    {
        let q: u64 = self.0 / PAGE_SIZE;
        if self.0 % PAGE_SIZE == 0 {
            PhysPageNum(q)
        } else {
            PhysPageNum(q + 1)
        }
    }

    /// The offset of this address inside its frame.
    pub fn page_offset(&self) -> (r: usize)
        ensures
            r == self.0 % 4096,
    {
        (self.0 % PAGE_SIZE) as usize
    }
}

impl VirtAddr {
    /// The page that holds this address.
    pub fn floor(&self) -> (r: VirtPageNum)
        ensures
            r.0 == self.0 / 4096,
    {
        VirtPageNum(self.0 / PAGE_SIZE)
    }

    /// The first page that starts at or after this address.
    pub fn ceil(&self) -> (r: VirtPageNum)
        ensures
            r.0 == (self.0 + 4095) / 4096,
    {
        let q: u64 = self.0 / PAGE_SIZE;
        if self.0 % PAGE_SIZE == 0 {
            VirtPageNum(q)
        } else {
            VirtPageNum(q + 1)
        }
    }

    /// The offset of this address inside its page.
    pub fn page_offset(&self) -> (r: usize)
        ensures
            r == self.0 % 4096,
    {
        (self.0 % PAGE_SIZE) as usize
    }

    /// Whether this address is the first of its page.
    pub fn aligned(&self) -> (r: bool)
        ensures
            r == (self.0 % 4096 == 0),
    {
        self.page_offset() == 0
    }
}

impl VirtPageNum {
    /// The indices into the root, middle and leaf table, in that order.
    pub fn indexes(&self) -> (r: [usize; 3])
        ensures
            r@ == vpn_indexes(self.0),
    {
        let v: u64 = self.0;
        let i2: u64 = v & 511;
        let i1: u64 = (v >> 9) & 511;
        let i0: u64 = (v >> 18) & 511;
        assert(v & 511 == v % 512) by (bit_vector);
        assert((v >> 9) & 511 == (v / 512) % 512) by (bit_vector);
        assert((v >> 18) & 511 == (v / 0x40000) % 512) by (bit_vector);
        let r: [usize; 3] = [i0 as usize, i1 as usize, i2 as usize];
        assert(r@ =~= vpn_indexes(self.0));
        r
    }
}

impl vstd::std_specs::convert::FromSpecImpl<u64> for VirtAddr {
    open spec fn obeys_from_spec() -> bool {
        true
    }

    open spec fn from_spec(v: u64) -> Self {
        VirtAddr(v)
    }
}

impl From<u64> for VirtAddr {
    fn from(v: u64) -> (r: Self) {
        VirtAddr(v)
    }
}

impl vstd::std_specs::convert::FromSpecImpl<u64> for VirtPageNum {
    open spec fn obeys_from_spec() -> bool {
        true
    }

    open spec fn from_spec(v: u64) -> Self {
        VirtPageNum(v)
    }
}

impl From<u64> for VirtPageNum {
    fn from(v: u64) -> (r: Self) {
        VirtPageNum(v)
    }
}

impl vstd::std_specs::convert::FromSpecImpl<u64> for PhysAddr {
    open spec fn obeys_from_spec() -> bool {
        true
    }

    open spec fn from_spec(v: u64) -> Self {
        PhysAddr(v)
    }
}

impl From<u64> for PhysAddr {
    fn from(v: u64) -> (r: Self) {
        PhysAddr(v)
    }
}

impl vstd::std_specs::convert::FromSpecImpl<u64> for PhysPageNum {
    open spec fn obeys_from_spec() -> bool {
        true
    }

    open spec fn from_spec(v: u64) -> Self {
        PhysPageNum(v)
    }
}

impl From<u64> for PhysPageNum {
    fn from(v: u64) -> (r: Self) {
        PhysPageNum(v)
    }
}

impl vstd::std_specs::convert::FromSpecImpl<VirtAddr> for u64 {
    open spec fn obeys_from_spec() -> bool {
        true
    }

    open spec fn from_spec(v: VirtAddr) -> Self {
        v.0
    }
}

impl From<VirtAddr> for u64 {
    fn from(v: VirtAddr) -> (r: Self) {
        v.0
    }
}

impl vstd::std_specs::convert::FromSpecImpl<VirtPageNum> for u64 {
    open spec fn obeys_from_spec() -> bool {
        true
    }

    open spec fn from_spec(v: VirtPageNum) -> Self {
        v.0
    }
}

impl From<VirtPageNum> for u64 {
    fn from(v: VirtPageNum) -> (r: Self) {
        v.0
    }
}

impl vstd::std_specs::convert::FromSpecImpl<PhysAddr> for u64 {
    open spec fn obeys_from_spec() -> bool {
        true
    }

    open spec fn from_spec(v: PhysAddr) -> Self {
        v.0
    }
}

impl From<PhysAddr> for u64 {
    fn from(v: PhysAddr) -> (r: Self) {
        v.0
    }
}

impl vstd::std_specs::convert::FromSpecImpl<PhysPageNum> for u64 {
    open spec fn obeys_from_spec() -> bool {
        true
    }

    open spec fn from_spec(v: PhysPageNum) -> Self {
        v.0
    }
}

impl From<PhysPageNum> for u64 {
    fn from(v: PhysPageNum) -> (r: Self) {
        v.0
    }
}

impl PhysPageNum {
    /// The address of the first byte of the frame. The page number must be
    /// below 2^52, so that the address fits.
    pub fn start_addr(&self) -> (r: PhysAddr)
        requires
            self.0 < 0x10_0000_0000_0000,
        ensures
            r.0 == self.0 * 4096,
    {
        PhysAddr(self.0 * PAGE_SIZE)
    }
}

impl VirtPageNum {
    /// The address of the first byte of the page. The page number must be
    /// below 2^52, so that the address fits.
    pub fn start_addr(&self) -> (r: VirtAddr)
        requires
            self.0 < 0x10_0000_0000_0000,
        ensures
            r.0 == self.0 * 4096,
    {
        VirtAddr(self.0 * PAGE_SIZE)
    }
}

/// What can be stepped through one by one, as the page numbers can.
pub trait StepByOne: Sized {
    /// The place of the value in the order of the steps.
    spec fn position(&self) -> int;

    /// Whether there is a value after this one.
    spec fn can_step(&self) -> bool;

    /// A value that stands before another has a value after it.
    proof fn lemma_can_step(&self, other: &Self)
        requires
            self.position() < other.position(),
        ensures
            self.can_step(),
    ;

    /// Goes on to the next value.
    fn step(&mut self)
        requires
            old(self).can_step(),
        ensures
            final(self).position() == old(self).position() + 1,
    ;

    /// Whether this value stands at the place of `other`.
    fn at(&self, other: &Self) -> (r: bool)
        ensures
            r == (self.position() == other.position()),
    ;
}

impl StepByOne for VirtPageNum {
    open spec fn position(&self) -> int {
        self.0 as int
    }

    open spec fn can_step(&self) -> bool {
        self.0 < u64::MAX
    }

    proof fn lemma_can_step(&self, other: &Self) {
    }

    fn step(&mut self) {
        self.0 = self.0 + 1;
    }

    fn at(&self, other: &Self) -> (r: bool) {
        self.0 == other.0
    }
}

/// The values from a first one up to, and without, a last one.
#[derive(Clone, Copy)]
pub struct SimpleRange<T: StepByOne + Copy> {
    l: T,
    r: T,
}

impl<T: StepByOne + Copy> SimpleRange<T> {
    /// The first value.
    pub closed spec fn start(&self) -> T {
        self.l
    }

    /// The value after the last one.
    pub closed spec fn end(&self) -> T {
        self.r
    }

    /// The range from `start` up to `end`. `start` must not stand after
    /// `end`.
    pub fn new(start: T, end: T) -> (r: Self)
        requires
            start.position() <= end.position(),
        ensures
            r.start() == start,
            r.end() == end,
    {
        SimpleRange { l: start, r: end }
    }

    /// The first value.
    pub fn get_start(&self) -> (r: T)
        ensures
            r == self.start(),
    {
        self.l
    }

    /// The value after the last one.
    pub fn get_end(&self) -> (r: T)
        ensures
            r == self.end(),
    {
        self.r
    }

    /// What steps through the values of the range.
    pub fn into_iter(self) -> (r: SimpleRangeIterator<T>)
        ensures
            r.current() == self.start(),
            r.end() == self.end(),
    {
        SimpleRangeIterator::new(self.l, self.r)
    }
}

/// What steps through the values of a range.
pub struct SimpleRangeIterator<T: StepByOne + Copy> {
    current: T,
    end: T,
}

impl<T: StepByOne + Copy> SimpleRangeIterator<T> {
    /// The value that comes next.
    pub closed spec fn current(&self) -> T {
        self.current
    }

    /// The value at which the steps end.
    pub closed spec fn end(&self) -> T {
        self.end
    }

    /// What steps from `l` up to `r`.
    pub fn new(l: T, r: T) -> (it: Self)
        ensures
            it.current() == l,
            it.end() == r,
    {
        SimpleRangeIterator { current: l, end: r }
    }

    /// The next value, or `None` at the end. The value that comes next must
    /// not stand after the end.
    pub fn next(&mut self) -> (r: Option<T>)
        requires
            old(self).current().position() <= old(self).end().position(),
        ensures
            final(self).end() == old(self).end(),
            final(self).current().position() <= final(self).end().position(),
            old(self).current().position() == old(self).end().position() ==> r is None && final(self).current() == old(self).current(),
            old(self).current().position() < old(self).end().position() ==> r == Some(
                old(self).current(),
            ) && final(self).current().position() == old(self).current().position() + 1,
    {
        if self.current.at(&self.end) {
            None
        } else {
            let t = self.current;
            proof {
                self.current.lemma_can_step(&self.end);
            }
            self.current.step();
            Some(t)
        }
    }
}

/// A range of virtual page numbers.
pub type VPNRange = SimpleRange<VirtPageNum>;

} // verus!
