//! A table of IOVA-to-physical-address mappings for a virtual IOMMU.
//!
//! Every address range in this module is half-open: a mapping with
//! start `s` and size `n` covers the addresses `s, s + 1, ..., s + n - 1`.
//! The table keeps its entries sorted by IOVA and guarantees that no two
//! entries overlap; removal is all-or-nothing, and translation either
//! covers the requested range exactly or fails as a whole.

use vstd::prelude::*;

verus! {

/// Access capability attached to a mapping.
#[derive(Clone, Copy, Debug, PartialEq, Eq, Structural)]
pub enum Permission {
    Read,
    Write,
    RW,
}

/// One translated region of guest physical address space.
#[derive(Clone, Copy, Debug, PartialEq, Eq, Structural)]
pub struct MemRegion {
    pub gpa: u64,
    pub len: u64,
    pub perm: Permission,
}

/// One entry of the table: the IOVA interval `[iova, iova + size)`
/// mapped one-to-one onto the physical interval `[gpa, gpa + size)`.
#[derive(Clone, Copy, Debug)]
pub struct MappingInfo {
    pub iova: u64,
    pub gpa: u64,
    pub size: u64,
    pub perm: Permission,
}

/// Why a request was rejected before touching the table.
#[derive(Clone, Copy, Debug, PartialEq, Eq, Structural)]
pub enum MapperError {
    /// A zero-sized map, unmap or translate request.
    ZeroSize,
    /// `iova + size` does not fit in 64 bits.
    IovaOverflow,
    /// `gpa + size` does not fit in 64 bits.
    GpaOverflow,
    /// The requested IOVA range is not fully covered by mappings.
    InvalidIova,
}

/// Outcome of an insertion: overlap is an expected, recoverable result,
/// not an error.
#[derive(Debug, PartialEq, Eq, Structural)]
pub enum AddMapResult {
    Success,
    OverlapFailure,
}

/// The exclusive end of the entry's IOVA interval.
pub open spec fn iova_end_of(m: MappingInfo) -> int {
    m.iova + m.size
}

/// An entry is meaningful: non-empty, and neither interval end overflows
/// the 64-bit address width.
pub open spec fn entry_valid(m: MappingInfo) -> bool {
    &&& m.size > 0
    &&& m.iova + m.size <= u64::MAX
    &&& m.gpa + m.size <= u64::MAX
}

/// The table invariant: every entry is valid, and the entries are sorted
/// by IOVA with disjoint intervals (each entry ends at or before the next
/// one starts).
pub open spec fn entries_wf(s: Seq<MappingInfo>) -> bool {
    &&& (forall|i: int| 0 <= i < s.len() ==> entry_valid(#[trigger] s[i]))
    &&& (forall|i: int, j: int|
        0 <= i < j < s.len() ==> (#[trigger] s[i]).iova + s[i].size <= (#[trigger] s[j]).iova)
}

/// Two entries' IOVA intervals share at least one address.
pub open spec fn overlaps(a: MappingInfo, b: MappingInfo) -> bool {
    a.iova < b.iova + b.size && b.iova < a.iova + a.size
}

/// The entry's IOVA interval contains the address `a`.
pub open spec fn covers(m: MappingInfo, a: int) -> bool {
    m.iova <= a < m.iova + m.size
}

/// Some entry of the table contains the address `a`.
pub open spec fn is_covered(s: Seq<MappingInfo>, a: int) -> bool {
    exists|i: int| 0 <= i < s.len() && covers(#[trigger] s[i], a)
}

/// Every address of `[start, end)` lies inside some entry.
pub open spec fn range_covered(s: Seq<MappingInfo>, start: int, end: int) -> bool {
    forall|a: int| start <= a < end ==> #[trigger] is_covered(s, a)
}

/// The index of the entry containing address `a` (unique in a
/// well-formed table, see `lemma_covering_index_unique`).
pub open spec fn covering_index(s: Seq<MappingInfo>, a: int) -> int {
    choose|i: int| 0 <= i < s.len() && covers(#[trigger] s[i], a)
}

/// The physical address that the table assigns to the IOVA `a`.
pub open spec fn gpa_at(s: Seq<MappingInfo>, a: int) -> int {
    let m = s[covering_index(s, a)];
    m.gpa + (a - m.iova)
}

/// The permission that the table assigns to the IOVA `a`.
pub open spec fn perm_at(s: Seq<MappingInfo>, a: int) -> Permission {
    s[covering_index(s, a)].perm
}

/// In a well-formed table, no two distinct entries' IOVA intervals
/// overlap.
pub proof fn lemma_wf_table_disjoint(s: Seq<MappingInfo>, i: int, j: int)
    requires
        entries_wf(s),
        0 <= i < s.len(),
        0 <= j < s.len(),
        i != j,
    ensures
        !overlaps(s[i], s[j]),
{
}

/// In a well-formed table, at most one entry contains a given address:
/// any entry containing `a` is the entry that `covering_index` picks.
pub proof fn lemma_covering_index_unique(s: Seq<MappingInfo>, a: int, i: int)
    requires
        entries_wf(s),
        0 <= i < s.len(),
        covers(s[i], a),
    ensures
        covering_index(s, a) == i,
{
    let j = covering_index(s, a);
    assert(0 <= j < s.len() && covers(s[j], a));
    if i != j {
        lemma_wf_table_disjoint(s, i, j);
    }
}

/// `MappingInfo::new` accepts exactly the valid entries, and keeps the
/// fields it was given.
pub open spec fn mapping_new_post(
    iova: u64,
    gpa: u64,
    size: u64,
    perm: Permission,
    r: Result<MappingInfo, MapperError>,
) -> bool {
    match r {
        Ok(m) => {
            &&& size > 0
            &&& iova + size <= u64::MAX
            &&& gpa + size <= u64::MAX
            &&& m == (MappingInfo { iova, gpa, size, perm })
        },
        Err(MapperError::ZeroSize) => size == 0,
        Err(MapperError::IovaOverflow) => size > 0 && iova + size > u64::MAX,
        Err(MapperError::GpaOverflow) => size > 0 && iova + size <= u64::MAX && gpa + size
            > u64::MAX,
        Err(_) => false,
    }
}

impl MappingInfo {
    /// Builds an entry, rejecting zero-sized regions and interval ends
    /// that would overflow the address width.
    pub fn new(iova: u64, gpa: u64, size: u64, perm: Permission) -> (r: Result<
        MappingInfo,
        MapperError,
    >)
        ensures
            mapping_new_post(iova, gpa, size, perm, r),
    {
        if size == 0 {
            return Err(MapperError::ZeroSize);
        }
        if iova.checked_add(size).is_none() {
            return Err(MapperError::IovaOverflow);
        }
        if gpa.checked_add(size).is_none() {
            return Err(MapperError::GpaOverflow);
        }
        Ok(MappingInfo { iova, gpa, size, perm })
    }
}

/// Consecutive output regions that could have been one region: physical
/// addresses contiguous and permissions identical.
pub open spec fn mergeable(a: MemRegion, b: MemRegion) -> bool {
    a.gpa + a.len == b.gpa && a.perm == b.perm
}

/// No two consecutive output regions could have been merged further.
pub open spec fn regions_merged(rs: Seq<MemRegion>) -> bool {
    forall|i: int, j: int|
        0 <= i && j == i + 1 && j < rs.len() ==> !mergeable(#[trigger] rs[i], #[trigger] rs[j])
}

/// The output regions describe the IOVA range `[start, end)` exactly:
/// region by region from the back, each region is non-empty and agrees
/// pointwise with what the table assigns to every address it covers.
pub open spec fn regions_valid(
    s: Seq<MappingInfo>,
    rs: Seq<MemRegion>,
    start: int,
    end: int,
) -> bool
    decreases rs.len(),
{
    if rs.len() == 0 {
        start == end
    } else {
        let r = rs.last();
        let r_start = end - r.len;
        &&& r.len > 0
        &&& start <= r_start
        &&& (forall|a: int| r_start <= a < end ==> #[trigger] is_covered(s, a))
        &&& (forall|a: int| r_start <= a < end ==> #[trigger] gpa_at(s, a) == r.gpa + (a - r_start))
        &&& (forall|a: int| r_start <= a < end ==> #[trigger] perm_at(s, a) == r.perm)
        &&& regions_valid(s, rs.drop_last(), start, r_start)
    }
}

/// The sum of the lengths of the output regions.
pub open spec fn total_len(rs: Seq<MemRegion>) -> int
    decreases rs.len(),
{
    if rs.len() == 0 {
        0
    } else {
        total_len(rs.drop_last()) + rs.last().len
    }
}

/// When translation succeeds, the returned regions' lengths sum exactly
/// to the length of the requested range.
pub proof fn lemma_regions_total_len(s: Seq<MappingInfo>, rs: Seq<MemRegion>, start: int, end: int)
    requires
        regions_valid(s, rs, start, end),
    ensures
        total_len(rs) == end - start,
    decreases rs.len(),
{
    if rs.len() > 0 {
        lemma_regions_total_len(s, rs.drop_last(), start, end - rs.last().len);
    }
}

/// In two maximally-merged region decompositions of one range, the
/// final region of the first is at least as long as that of the second;
/// were it shorter, the second decomposition would prove the physical
/// addresses contiguous and the permission constant across the first
/// decomposition's last boundary, so its last two regions would have
/// been merged.
proof fn lemma_last_region_no_shorter(
    s: Seq<MappingInfo>,
    rs1: Seq<MemRegion>,
    rs2: Seq<MemRegion>,
    start: int,
    end: int,
)
    requires
        regions_valid(s, rs1, start, end),
        regions_merged(rs1),
        regions_valid(s, rs2, start, end),
        start < end,
    ensures
        rs1.last().len >= rs2.last().len,
{
    let r1 = rs1.last();
    let r2 = rs2.last();
    if r1.len < r2.len {
        let b = end - r1.len;
        let rs1p = rs1.drop_last();
        assert(regions_valid(s, rs1p, start, b));
        let r1p = rs1p.last();
        assert(r1p.len > 0 && start <= b - r1p.len);
        assert(gpa_at(s, b) == r2.gpa + (b - (end - r2.len)));
        assert(gpa_at(s, b - 1) == r2.gpa + (b - 1 - (end - r2.len)));
        assert(perm_at(s, b) == r2.perm && perm_at(s, b - 1) == r2.perm);
        assert(gpa_at(s, b) == r1.gpa + (b - (end - r1.len)));
        assert(perm_at(s, b) == r1.perm);
        assert(gpa_at(s, b - 1) == r1p.gpa + (b - 1 - (b - r1p.len)));
        assert(perm_at(s, b - 1) == r1p.perm);
        assert(mergeable(r1p, r1));
        assert(rs1p.last() == rs1[rs1.len() - 2]);
        assert(!mergeable(rs1[rs1.len() - 2], rs1[rs1.len() - 1]));
        assert(false);
    }
}

/// The translate contract pins its output: two maximally-merged region
/// decompositions of the same range against the same table are the same
/// sequence of regions.
pub proof fn lemma_translate_regions_unique(
    s: Seq<MappingInfo>,
    rs1: Seq<MemRegion>,
    rs2: Seq<MemRegion>,
    start: int,
    end: int,
)
    requires
        regions_valid(s, rs1, start, end),
        regions_merged(rs1),
        regions_valid(s, rs2, start, end),
        regions_merged(rs2),
    ensures
        rs1 == rs2,
    decreases rs1.len(),
{
    if start == end {
        assert(rs1 =~= rs2);
    } else {
        lemma_last_region_no_shorter(s, rs1, rs2, start, end);
        lemma_last_region_no_shorter(s, rs2, rs1, start, end);
        let r1 = rs1.last();
        let r2 = rs2.last();
        assert(r1.len == r2.len);
        let b = end - r1.len;
        assert(gpa_at(s, b) == r1.gpa + (b - (end - r1.len)));
        assert(gpa_at(s, b) == r2.gpa + (b - (end - r2.len)));
        assert(perm_at(s, b) == r1.perm && perm_at(s, b) == r2.perm);
        assert(r1 == r2);
        let rs1p = rs1.drop_last();
        let rs2p = rs2.drop_last();
        assert(regions_valid(s, rs1p, start, b));
        assert(regions_valid(s, rs2p, start, b));
        assert forall|i: int, j: int| 0 <= i && j == i + 1 && j < rs1p.len() implies !mergeable(
            #[trigger] rs1p[i],
            #[trigger] rs1p[j],
        ) by {
            assert(rs1p[i] == rs1[i] && rs1p[j] == rs1[j]);
            assert(!mergeable(rs1[i], rs1[j]));
        }
        assert forall|i: int, j: int| 0 <= i && j == i + 1 && j < rs2p.len() implies !mergeable(
            #[trigger] rs2p[i],
            #[trigger] rs2p[j],
        ) by {
            assert(rs2p[i] == rs2[i] && rs2p[j] == rs2[j]);
            assert(!mergeable(rs2[i], rs2[j]));
        }
        lemma_translate_regions_unique(s, rs1p, rs2p, start, b);
        assert(rs1.len() == rs2.len());
        assert forall|i: int| 0 <= i < rs1.len() implies rs1[i] == rs2[i] by {
            if i < rs1.len() - 1 {
                assert(rs1p[i] == rs1[i]);
                assert(rs2p[i] == rs2[i]);
                assert(rs1p[i] == rs2p[i]);
            } else {
                assert(rs1[i] == r1 && rs2[i] == r2);
            }
        }
        assert(rs1 =~= rs2);
    }
}

/// What a translation query returns, without touching the table.
///
/// The query succeeds exactly when the whole range is covered; the
/// regions then agree pointwise with the table (`regions_valid`) and
/// are maximally coalesced (`regions_merged`), which pins them down
/// uniquely. A gap anywhere in the range fails the whole query.
pub open spec fn translate_post(
    s: Seq<MappingInfo>,
    iova: u64,
    size: u64,
    r: Result<Vec<MemRegion>, MapperError>,
) -> bool {
    match r {
        Ok(regions) => {
            &&& size > 0
            &&& iova + size <= u64::MAX
            &&& range_covered(s, iova as int, iova + size)
            &&& regions_valid(s, regions@, iova as int, iova + size)
            &&& regions_merged(regions@)
        },
        Err(MapperError::InvalidIova) => {
            &&& size > 0
            &&& iova + size <= u64::MAX
            &&& !range_covered(s, iova as int, iova + size)
        },
        Err(MapperError::ZeroSize) => size == 0,
        Err(MapperError::IovaOverflow) => size > 0 && iova + size > u64::MAX,
        Err(MapperError::GpaOverflow) => false,
    }
}

/// The entry's IOVA interval shares at least one address with `[start, end)`.
pub open spec fn intersects_range(m: MappingInfo, start: int, end: int) -> bool {
    m.iova < end && start < m.iova + m.size
}

/// The entry's IOVA interval lies entirely inside `[start, end)`.
pub open spec fn within_range(m: MappingInfo, start: int, end: int) -> bool {
    start <= m.iova && m.iova + m.size <= end
}

/// The predicate selecting the entries that a removal of `[start, end)`
/// keeps: exactly those whose interval does not touch the range.
pub open spec fn kept_by_remove(start: int, end: int) -> spec_fn(MappingInfo) -> bool {
    |mm: MappingInfo| !intersects_range(mm, start, end)
}

/// What a removal does to the table: all-or-nothing.
///
/// Either every entry intersecting the requested range is entirely
/// contained in it, and exactly those entries are deleted (`Ok(true)`),
/// or some intersecting entry sticks out of the range, and the table is
/// left untouched (`Ok(false)`). Malformed requests are rejected before
/// anything is examined.
pub open spec fn remove_map_post(
    pre: Seq<MappingInfo>,
    post: Seq<MappingInfo>,
    iova_start: u64,
    size: u64,
    r: Result<bool, MapperError>,
) -> bool {
    let start = iova_start as int;
    let end = iova_start + size;
    match r {
        Ok(true) => {
            &&& size > 0
            &&& end <= u64::MAX
            &&& (forall|i: int|
                0 <= i < pre.len() && intersects_range(#[trigger] pre[i], start, end)
                    ==> within_range(pre[i], start, end))
            &&& post == pre.filter(kept_by_remove(start, end))
        },
        Ok(false) => {
            &&& size > 0
            &&& end <= u64::MAX
            &&& (exists|i: int|
                0 <= i < pre.len() && intersects_range(#[trigger] pre[i], start, end)
                    && !within_range(pre[i], start, end))
            &&& post == pre
        },
        Err(MapperError::ZeroSize) => size == 0 && post == pre,
        Err(MapperError::IovaOverflow) => size > 0 && end > u64::MAX && post == pre,
        Err(MapperError::GpaOverflow) => false,
        Err(MapperError::InvalidIova) => false,
    }
}

/// What a successful or rejected insertion does to the table.
///
/// Exactly one outcome is possible for a given table and candidate:
/// the malformed-input errors come first (zero size, then IOVA
/// overflow, then physical overflow), an overlap with an existing
/// entry is reported without touching the table, and otherwise the
/// candidate is inserted at its (unique, since the result is again
/// sorted) position.
pub open spec fn add_map_post(
    pre: Seq<MappingInfo>,
    post: Seq<MappingInfo>,
    m: MappingInfo,
    r: Result<AddMapResult, MapperError>,
) -> bool {
    match r {
        Ok(AddMapResult::Success) => {
            &&& entry_valid(m)
            &&& (forall|i: int| 0 <= i < pre.len() ==> !overlaps(#[trigger] pre[i], m))
            &&& (exists|k: int| 0 <= k <= pre.len() && post == #[trigger] pre.insert(k, m))
        },
        Ok(AddMapResult::OverlapFailure) => {
            &&& entry_valid(m)
            &&& (exists|i: int| 0 <= i < pre.len() && overlaps(#[trigger] pre[i], m))
            &&& post == pre
        },
        Err(MapperError::ZeroSize) => m.size == 0 && post == pre,
        Err(MapperError::IovaOverflow) => m.size > 0 && m.iova + m.size > u64::MAX && post == pre,
        Err(MapperError::GpaOverflow) => {
            &&& m.size > 0
            &&& m.iova + m.size <= u64::MAX
            &&& m.gpa + m.size > u64::MAX
            &&& post == pre
        },
        Err(MapperError::InvalidIova) => false,
    }
}

/// The add contract pins the new table: a valid entry has only one
/// position at which inserting it leaves the table sorted again.
pub proof fn lemma_sorted_insert_unique(pre: Seq<MappingInfo>, m: MappingInfo, k1: int, k2: int)
    requires
        0 <= k1 <= pre.len(),
        0 <= k2 <= pre.len(),
        entries_wf(pre.insert(k1, m)),
        entries_wf(pre.insert(k2, m)),
    ensures
        k1 == k2,
{
    if k1 <= k2 {
        lemma_sorted_insert_pos(pre, m, k1, k2);
    } else {
        lemma_sorted_insert_pos(pre, m, k2, k1);
    }
}

/// Two distinct sorted insertion positions would order the new entry
/// both before and after the entry between them.
proof fn lemma_sorted_insert_pos(pre: Seq<MappingInfo>, m: MappingInfo, k1: int, k2: int)
    requires
        0 <= k1 <= k2 <= pre.len(),
        entries_wf(pre.insert(k1, m)),
        entries_wf(pre.insert(k2, m)),
    ensures
        k1 == k2,
{
    if k1 < k2 {
        let t1 = pre.insert(k1, m);
        let t2 = pre.insert(k2, m);
        pre.insert_ensures(k1, m);
        pre.insert_ensures(k2, m);
        // In t1 the new entry sits just before pre[k1]; in t2, pre[k1]
        // sits somewhere before the new entry. Both orders at once are
        // impossible for non-empty intervals.
        assert(t1[k1] == m && t1[k1 + 1] == pre[k1]);
        assert(t2[k1] == pre[k1] && t2[k2] == m);
        assert(m.iova + m.size <= pre[k1].iova);
        assert(pre[k1].iova + pre[k1].size <= m.iova);
        assert(entry_valid(m) && entry_valid(pre[k1]));
        assert(false);
    }
}

/// A generic interface for IOMMU mapping backends: this crate's basic
/// table, or a hardware-bound one. The contracts fix the behaviour of
/// every implementation in terms of its abstract entry sequence.
pub trait MemoryMapper: Sized + Send {
    /// The entries of the table, sorted by IOVA.
    spec fn mappings(&self) -> Seq<MappingInfo>;

    /// The backend's invariant, established at construction and kept by
    /// every operation.
    spec fn inv(&self) -> bool;

    /// The fixed mask of valid IOVA bits.
    spec fn mask_spec(&self) -> u64;

    /// The identity assigned at construction.
    spec fn id_spec(&self) -> u32;

    /// Whether endpoints can be detached from this backend.
    spec fn detach_spec(&self) -> bool;

    /// Creates a new mapping. Overlap with an existing mapping is an
    /// expected outcome, reported as `Ok(AddMapResult::OverlapFailure)`
    /// with the table left unchanged.
    fn add_map(&mut self, new_map: MappingInfo) -> (r: Result<AddMapResult, MapperError>)
        requires
            old(self).inv(),
        ensures
            final(self).inv(),
            final(self).mask_spec() == old(self).mask_spec(),
            final(self).id_spec() == old(self).id_spec(),
            final(self).detach_spec() == old(self).detach_spec(),
            add_map_post(old(self).mappings(), final(self).mappings(), new_map, r),
    ;

    /// Removes all mappings within `[iova_start, iova_start + size)`.
    /// If an entry only partially overlaps the range, nothing is removed
    /// and `Ok(false)` is returned.
    fn remove_map(&mut self, iova_start: u64, size: u64) -> (r: Result<bool, MapperError>)
        requires
            old(self).inv(),
        ensures
            final(self).inv(),
            final(self).mask_spec() == old(self).mask_spec(),
            final(self).id_spec() == old(self).id_spec(),
            final(self).detach_spec() == old(self).detach_spec(),
            remove_map_post(old(self).mappings(), final(self).mappings(), iova_start, size, r),
    ;

    /// Returns the mask of valid IOVA bits, error-free.
    fn get_mask(&self) -> (r: Result<u64, MapperError>)
        ensures
            r == Ok::<u64, MapperError>(self.mask_spec()),
    ;

    /// Whether endpoints can be safely detached from this backend.
    fn supports_detach(&self) -> (r: bool)
        ensures
            r == self.detach_spec(),
    ;

    /// Resets the domain back to its initial state: clears every entry
    /// when detach is supported, and is a no-op otherwise.
    fn reset_domain(&mut self)
        requires
            old(self).inv(),
        ensures
            final(self).inv(),
            final(self).mask_spec() == old(self).mask_spec(),
            final(self).id_spec() == old(self).id_spec(),
            final(self).detach_spec() == old(self).detach_spec(),
            old(self).detach_spec() ==> final(self).mappings().len() == 0,
            !old(self).detach_spec() ==> final(self).mappings() == old(self).mappings(),
    ;

    /// An identifier unique among tables built from one allocator.
    fn id(&self) -> (r: u32)
        ensures
            r == self.id_spec(),
    ;
}

/// The data-plane interface: resolves an IOVA range to physical regions
/// before a DMA-capable device touches memory.
pub trait Translate {
    /// The entries the query runs against, sorted by IOVA.
    spec fn translate_mappings(&self) -> Seq<MappingInfo>;

    /// The invariant the query relies on.
    spec fn translate_inv(&self) -> bool;

    /// Translates `[iova, iova + size)`. Multiple regions are returned
    /// when the physical addresses are discontiguous or the permissions
    /// differ.
    fn translate(&self, iova: u64, size: u64) -> (r: Result<Vec<MemRegion>, MapperError>)
        requires
            self.translate_inv(),
        ensures
            translate_post(self.translate_mappings(), iova, size, r),
    ;
}

/// The full interface a virtio-iommu frontend expects of a backend:
/// control-plane mutation and data-plane translation together.
pub trait MemoryMapperTrait: MemoryMapper + Translate {
}

impl<T: MemoryMapper + Translate> MemoryMapperTrait for T {
}

/// Hands out the identities of mapping tables. One allocator is shared
/// by all tables of a process and passed in at construction, so each
/// table gets an identity distinct from every sibling's.
pub struct IdAllocator {
    next_id: u32,
}

impl IdAllocator {
    /// The identity the next table will receive.
    pub closed spec fn next_spec(&self) -> u32 {
        self.next_id
    }

    /// The allocator has an identity left to hand out.
    pub open spec fn can_allocate(&self) -> bool {
        self.next_spec() < u32::MAX
    }

    /// A fresh allocator, starting at identity zero.
    pub fn new() -> (r: IdAllocator)
        ensures
            r.next_spec() == 0,
    {
        IdAllocator { next_id: 0 }
    }

    /// Hands out the next identity; never hands out the same one twice.
    pub fn allocate(&mut self) -> (r: u32)
        requires
            old(self).can_allocate(),
        ensures
            r == old(self).next_spec(),
            final(self).next_spec() == old(self).next_spec() + 1,
    {
        let id = self.next_id;
        self.next_id = self.next_id + 1;
        id
    }
}

/// A basic IOMMU mapping table: an ordered, non-overlapping set of
/// entries held as a vector sorted by IOVA.
pub struct BasicMemoryMapper {
    maps: Vec<MappingInfo>,
    mask: u64,
    id: u32,
}

impl BasicMemoryMapper {
    /// An empty table with the given IOVA mask and the next identity of
    /// the allocator.
    pub fn new(mask: u64, ids: &mut IdAllocator) -> (r: BasicMemoryMapper)
        requires
            old(ids).can_allocate(),
        ensures
            r.inv(),
            r.mappings().len() == 0,
            r.mask_spec() == mask,
            r.id_spec() == old(ids).next_spec(),
            final(ids).next_spec() == old(ids).next_spec() + 1,
    {
        BasicMemoryMapper { maps: Vec::new(), mask, id: ids.allocate() }
    }

    /// The number of entries in the table.
    pub fn len(&self) -> (n: usize)
        ensures
            n == self.mappings().len(),
    {
        self.maps.len()
    }

    /// The control-plane and data-plane interfaces of this table query
    /// one and the same entry sequence.
    pub proof fn lemma_views_agree(&self)
        ensures
            self.translate_mappings() == self.mappings(),
            self.translate_inv() == self.inv(),
    {
    }
}

impl MemoryMapper for BasicMemoryMapper {
    closed spec fn mappings(&self) -> Seq<MappingInfo> {
        self.maps@
    }

    open spec fn inv(&self) -> bool {
        entries_wf(self.mappings())
    }

    closed spec fn mask_spec(&self) -> u64 {
        self.mask
    }

    closed spec fn id_spec(&self) -> u32 {
        self.id
    }

    open spec fn detach_spec(&self) -> bool {
        true
    }

    fn add_map(&mut self, new_map: MappingInfo) -> (r: Result<AddMapResult, MapperError>) {
        if new_map.size == 0 {
            return Err(MapperError::ZeroSize);
        }
        if new_map.iova.checked_add(new_map.size).is_none() {
            return Err(MapperError::IovaOverflow);
        }
        if new_map.gpa.checked_add(new_map.size).is_none() {
            return Err(MapperError::GpaOverflow);
        }
        let iova_end = new_map.iova + new_map.size;
        let ghost s = self.maps@;
        let n = self.maps.len();

        // Find where the candidate belongs: the number of entries that
        // start strictly below it.
        let mut idx: usize = 0;
        while idx < n && self.maps[idx].iova < new_map.iova
            invariant
                n == self.maps@.len(),
                entries_wf(self.maps@),
                self.maps@ == s,
                idx <= n,
                forall|j: int| 0 <= j < idx ==> (#[trigger] s[j]).iova < new_map.iova,
            decreases n - idx,
        {
            idx += 1;
        }

        // The only candidates for an overlap are the two neighbours.
        if idx > 0 {
            let prev = self.maps[idx - 1];
            if prev.iova + prev.size > new_map.iova {
                proof {
                    assert(overlaps(s[idx - 1], new_map));
                }
                return Ok(AddMapResult::OverlapFailure);
            }
        }
        if idx < n {
            let next = self.maps[idx];
            if next.iova < iova_end {
                proof {
                    assert(overlaps(s[idx as int], new_map));
                }
                return Ok(AddMapResult::OverlapFailure);
            }
        }

        proof {
            assert forall|j: int| 0 <= j < s.len() implies !overlaps(#[trigger] s[j], new_map) by {
                if j < idx {
                    if j < idx - 1 {
                        assert(s[j].iova + s[j].size <= s[idx - 1].iova);
                    }
                } else {
                    if j > idx {
                        assert(s[idx as int].iova + s[idx as int].size <= s[j].iova);
                    }
                }
            }
        }

        self.maps.insert(idx, new_map);

        proof {
            let t = self.maps@;
            s.insert_ensures(idx as int, new_map);
            assert(t == s.insert(idx as int, new_map));
            assert forall|a: int| 0 <= a < t.len() implies entry_valid(#[trigger] t[a]) by {
                if a < idx {
                    assert(t[a] == s[a]);
                } else if a > idx {
                    assert(t[a] == s[a - 1]);
                }
            }
            assert forall|a: int, b: int| 0 <= a < b < t.len() implies (#[trigger] t[a]).iova
                + t[a].size <= (#[trigger] t[b]).iova by {
                if b < idx {
                    assert(t[a] == s[a] && t[b] == s[b]);
                } else if b == idx {
                    assert(t[a] == s[a]);
                    if a < idx - 1 {
                        assert(s[a].iova + s[a].size <= s[idx - 1].iova);
                    }
                } else {
                    assert(t[b] == s[b - 1]);
                    if a < idx {
                        assert(t[a] == s[a]);
                        if a < b - 1 {
                            assert(s[a].iova + s[a].size <= s[b - 1].iova);
                        }
                    } else if a > idx {
                        assert(t[a] == s[a - 1]);
                        assert(s[a - 1].iova + s[a - 1].size <= s[b - 1].iova);
                    }
                }
            }
            assert(0 <= idx as int <= s.len() && self.maps@ == s.insert(idx as int, new_map));
        }
        Ok(AddMapResult::Success)
    }

    fn remove_map(&mut self, iova_start: u64, size: u64) -> (r: Result<bool, MapperError>) {
        if size == 0 {
            return Err(MapperError::ZeroSize);
        }
        if iova_start.checked_add(size).is_none() {
            return Err(MapperError::IovaOverflow);
        }
        let iova_end = iova_start + size;
        let ghost s = self.maps@;
        let n = self.maps.len();

        // First pass: reject the whole request if any intersecting entry
        // sticks out of the range, before anything is modified.
        let mut i: usize = 0;
        while i < n
            invariant
                n == self.maps@.len(),
                entries_wf(self.maps@),
                self.maps@ == s,
                s == old(self).maps@,
                i <= n,
                size > 0,
                iova_end == iova_start + size,
                forall|j: int|
                    0 <= j < i && intersects_range(
                        #[trigger] s[j],
                        iova_start as int,
                        iova_start + size,
                    ) ==> within_range(s[j], iova_start as int, iova_start + size),
            decreases n - i,
        {
            let m = self.maps[i];
            if m.iova < iova_end && iova_start < m.iova + m.size {
                if !(iova_start <= m.iova && m.iova + m.size <= iova_end) {
                    proof {
                        assert(intersects_range(s[i as int], iova_start as int, iova_start + size)
                            && !within_range(s[i as int], iova_start as int, iova_start + size));
                    }
                    return Ok(false);
                }
            }
            i += 1;
        }

        // Second pass: keep exactly the entries outside the range.
        let mut kept: Vec<MappingInfo> = Vec::new();
        let mut i: usize = 0;
        while i < n
            invariant
                n == self.maps@.len(),
                entries_wf(self.maps@),
                self.maps@ == s,
                i <= n,
                iova_end == iova_start + size,
                kept@ == s.take(i as int).filter(
                    kept_by_remove(iova_start as int, iova_start + size),
                ),
                entries_wf(kept@),
                kept@.len() > 0 ==> (exists|j: int|
                    0 <= j < i && kept@.last() == #[trigger] s[j]),
            decreases n - i,
        {
            let ghost kept0 = kept@;
            let m = self.maps[i];
            if !(m.iova < iova_end && iova_start < m.iova + m.size) {
                proof {
                    if kept@.len() > 0 {
                        let j = choose|j: int| 0 <= j < i && kept@.last() == s[j];
                        assert(s[j].iova + s[j].size <= s[i as int].iova);
                        assert forall|a: int| 0 <= a < kept@.len() implies (#[trigger] kept@[a]).iova
                            + kept@[a].size <= s[i as int].iova by {
                            if a < kept@.len() - 1 {
                                assert(kept@[a].iova + kept@[a].size <= kept@.last().iova);
                            }
                        }
                    }
                }
                kept.push(m);
            }
            proof {
                reveal(Seq::filter);
                let pred = kept_by_remove(iova_start as int, iova_start + size);
                let t0 = s.take(i as int);
                let t1 = s.take(i as int + 1);
                assert(t1.drop_last() =~= t0);
                assert(t1.last() == s[i as int]);
                assert(kept@ == t1.filter(pred));
            }
            i += 1;
        }
        proof {
            assert(s.take(n as int) =~= s);
        }
        self.maps = kept;
        Ok(true)
    }

    fn get_mask(&self) -> (r: Result<u64, MapperError>) {
        Ok(self.mask)
    }

    fn supports_detach(&self) -> (r: bool) {
        true
    }

    fn reset_domain(&mut self) {
        self.maps = Vec::new();
    }

    fn id(&self) -> (r: u32) {
        self.id
    }
}

impl Translate for BasicMemoryMapper {
    closed spec fn translate_mappings(&self) -> Seq<MappingInfo> {
        self.maps@
    }

    open spec fn translate_inv(&self) -> bool {
        entries_wf(self.translate_mappings())
    }

    fn translate(&self, iova: u64, size: u64) -> (r: Result<Vec<MemRegion>, MapperError>) {
        if size == 0 {
            return Err(MapperError::ZeroSize);
        }
        if iova.checked_add(size).is_none() {
            return Err(MapperError::IovaOverflow);
        }
        let iova_end = iova + size;
        let ghost s = self.maps@;
        let n = self.maps.len();

        // Skip the entries that end at or before the start of the range.
        let mut start_idx: usize = 0;
        while start_idx < n && self.maps[start_idx].iova + self.maps[start_idx].size <= iova
            invariant
                n == self.maps@.len(),
                entries_wf(self.maps@),
                self.maps@ == s,
                start_idx <= n,
                forall|j: int| 0 <= j < start_idx ==> iova_end_of(#[trigger] s[j]) <= iova,
            decreases n - start_idx,
        {
            start_idx += 1;
        }

        // The range can only be covered if some entry contains its
        // first address.
        if start_idx == n || self.maps[start_idx].iova > iova {
            proof {
                assert forall|j: int| 0 <= j < s.len() implies !covers(
                    #[trigger] s[j],
                    iova as int,
                ) by {
                    if start_idx < n && j > start_idx {
                        assert(s[start_idx as int].iova + s[start_idx as int].size <= s[j].iova);
                    }
                }
                assert(!is_covered(s, iova as int));
                assert(!range_covered(s, iova as int, iova + size));
            }
            return Err(MapperError::InvalidIova);
        }

        let mut regions: Vec<MemRegion> = Vec::new();
        let mut cur: u64 = iova;
        let mut i: usize = start_idx;

        while cur < iova_end
            invariant
                n == self.maps@.len(),
                entries_wf(self.maps@),
                self.maps@ == s,
                size > 0,
                iova_end == iova + size,
                start_idx < n,
                s[start_idx as int].iova <= iova,
                iova < iova_end_of(s[start_idx as int]),
                start_idx <= i <= n,
                iova <= cur <= iova_end,
                i == start_idx ==> cur == iova,
                i > start_idx && cur < iova_end ==> cur == iova_end_of(s[i - 1]),
                cur < iova_end ==> (forall|j: int|
                    0 <= j < i ==> iova_end_of(#[trigger] s[j]) <= cur),
                range_covered(s, iova as int, cur as int),
                regions_valid(s, regions@, iova as int, cur as int),
                regions_merged(regions@),
                cur > iova <==> regions@.len() > 0,
                regions@.len() > 0 ==> regions@.last().len <= cur - iova,
                regions@.len() > 0 ==> regions@.last().gpa + regions@.last().len == gpa_at(
                    s,
                    cur as int - 1,
                ) + 1,
                regions@.len() > 0 ==> regions@.last().perm == perm_at(s, cur as int - 1),
            decreases iova_end - cur,
        {
            if i == n {
                proof {
                    assert forall|j: int| 0 <= j < s.len() implies !covers(
                        #[trigger] s[j],
                        cur as int,
                    ) by {}
                    assert(!is_covered(s, cur as int));
                    assert(!range_covered(s, iova as int, iova + size));
                }
                return Err(MapperError::InvalidIova);
            }
            let m = self.maps[i];
            proof {
                assert(entry_valid(s[i as int]));
            }
            if m.iova > cur {
                // A gap right at the current address fails the whole
                // query.
                proof {
                    assert forall|j: int| 0 <= j < s.len() implies !covers(
                        #[trigger] s[j],
                        cur as int,
                    ) by {
                        if j > i {
                            assert(s[i as int].iova + s[i as int].size <= s[j].iova);
                        }
                    }
                    assert(!is_covered(s, cur as int));
                    assert(!range_covered(s, iova as int, iova + size));
                }
                return Err(MapperError::InvalidIova);
            }
            proof {
                if i > start_idx {
                    assert(iova_end_of(s[i - 1]) <= s[i as int].iova);
                }
                assert(cur < iova_end_of(s[i as int]));
            }

            // The chunk of the range that this entry provides.
            let m_end = m.iova + m.size;
            let chunk_end = if m_end < iova_end {
                m_end
            } else {
                iova_end
            };
            let chunk_len = chunk_end - cur;
            let gpa_start = m.gpa + (cur - m.iova);

            proof {
                assert forall|a: int| cur <= a < chunk_end implies #[trigger] is_covered(s, a)
                    && gpa_at(s, a) == gpa_start + (a - cur) && perm_at(s, a)
                    == s[i as int].perm by {
                    assert(covers(s[i as int], a));
                    assert(is_covered(s, a));
                    lemma_covering_index_unique(s, a, i as int);
                }
                if regions@.len() > 0 {
                    let a = cur as int - 1;
                    assert(is_covered(s, a));
                    let ci = covering_index(s, a);
                    assert(covers(s[ci], a));
                    assert(entry_valid(s[ci]));
                    assert(gpa_at(s, a) < u64::MAX);
                }
            }

            let ghost regions0 = regions@;
            let mut merged = false;
            let rlen = regions.len();
            if rlen > 0 {
                let last = regions[rlen - 1];
                if last.gpa + last.len == gpa_start && last.perm == m.perm {
                    regions.set(
                        rlen - 1,
                        MemRegion { gpa: last.gpa, len: last.len + chunk_len, perm: last.perm },
                    );
                    merged = true;
                    proof {
                        let rr = MemRegion {
                            gpa: last.gpa,
                            len: (last.len + chunk_len) as u64,
                            perm: last.perm,
                        };
                        assert(regions@ =~= regions0.drop_last().push(rr));
                        assert(regions_valid(s, regions0, iova as int, cur as int));
                        assert(regions@.drop_last() =~= regions0.drop_last());
                        assert(regions_valid(s, regions@, iova as int, chunk_end as int));
                        assert forall|x: int, y: int|
                            0 <= x && y == x + 1 && y < regions@.len() implies !mergeable(
                            #[trigger] regions@[x],
                            #[trigger] regions@[y],
                        ) by {
                            if y < regions@.len() - 1 {
                                assert(regions@[x] == regions0[x] && regions@[y] == regions0[y]);
                                assert(!mergeable(regions0[x], regions0[y]));
                            } else {
                                assert(regions@[x] == regions0[x] && regions0[y] == regions0.last());
                                assert(!mergeable(regions0[x], regions0.last()));
                            }
                        }
                    }
                }
            }
            if !merged {
                let rr = MemRegion { gpa: gpa_start, len: chunk_len, perm: m.perm };
                regions.push(rr);
                proof {
                    assert(regions@.drop_last() =~= regions0);
                    assert(regions@.last() == rr);
                    assert(regions_valid(s, regions@, iova as int, chunk_end as int));
                    assert forall|x: int, y: int|
                        0 <= x && y == x + 1 && y < regions@.len() implies !mergeable(
                        #[trigger] regions@[x],
                        #[trigger] regions@[y],
                    ) by {
                        if y < regions@.len() - 1 {
                            assert(regions@[x] == regions0[x] && regions@[y] == regions0[y]);
                            assert(!mergeable(regions0[x], regions0[y]));
                        } else {
                            assert(regions@[x] == regions0.last());
                            assert(!(regions0.last().gpa + regions0.last().len == gpa_start
                                && regions0.last().perm == m.perm));
                        }
                    }
                }
            }
            proof {
                assert forall|a: int| iova <= a < chunk_end implies #[trigger] is_covered(
                    s,
                    a,
                ) by {
                    if a < cur {
                        assert(is_covered(s, a));
                    }
                }
            }
            cur = chunk_end;
            i += 1;
        }
        Ok(regions)
    }
}

} // verus!
