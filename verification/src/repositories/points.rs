//! The point repository: an append-only arena of per-stroke point arrays.
//!
//! Points are by far the most numerous resource, so their storage gets the
//! most care. Data is bump-allocated into fixed-capacity slabs; a slab's
//! written prefix is immutable once committed and only the free boundary
//! ever moves, forward. Collections are identified by opaque handles and
//! are never mutated nor reclaimed after insertion.

use vstd::prelude::*;

verus! {

/// Capability bitset describing which channels a point stream carries.
///
/// Organized so that devices that report later flags are likely to also
/// report the earlier ones. Position and arc length are both optional:
/// arc length is derived data, and position may be absent for strokes
/// that trace a predefined path.
#[derive(Clone, Copy, PartialEq, Eq, Structural, Debug)]
pub struct PointArchetype {
    /// The raw flag bits.
    pub bits: u8,
}

/// The point stream reports an (x, y) position; two elements.
pub const ARCHETYPE_POSITION: u8 = 0b0000_0001;
/// The point stream reports the cumulative length of the path so far.
pub const ARCHETYPE_ARC_LENGTH: u8 = 0b0000_0010;
/// The point stream reports a normalized pressure value.
pub const ARCHETYPE_PRESSURE: u8 = 0b0000_0100;
/// The point stream reports a signed normalized (x, y) tilt; two elements.
pub const ARCHETYPE_TILT: u8 = 0b0000_1000;
/// Mask of the flags whose channel carries two elements.
pub const ARCHETYPE_TWO_FIELDS: u8 = 0b0000_1001;
/// The point stream reports a normalized distance, in arbitrary units.
pub const ARCHETYPE_DISTANCE: u8 = 0b0001_0000;
/// The point stream reports stylus roll (rotation along its own axis).
pub const ARCHETYPE_ROLL: u8 = 0b0010_0000;
/// The point stream reports wheel values, a general expressive channel.
pub const ARCHETYPE_WHEEL: u8 = 0b0100_0000;
/// An expressive channel not yet assigned to any axis.
pub const ARCHETYPE_UNASSIGNED: u8 = 0b1000_0000;

/// How many elements the flag selected by `mask` contributes to a point:
/// one if the flag is present, and one more if it is a two-element
/// channel (position or tilt).
pub open spec fn spec_mask_elements(bits: u8, mask: u8) -> nat {
    (if bits & mask != 0 {
        1nat
    } else {
        0nat
    }) + (if bits & ARCHETYPE_TWO_FIELDS & mask != 0 {
        1nat
    } else {
        0nat
    })
}

/// Number of elements a point of this archetype occupies: every present
/// flag contributes one, and position and tilt contribute a second.
pub open spec fn spec_archetype_len(bits: u8) -> nat {
    spec_mask_elements(bits, 0x01) + spec_mask_elements(bits, 0x02) + spec_mask_elements(
        bits,
        0x04,
    ) + spec_mask_elements(bits, 0x08) + spec_mask_elements(bits, 0x10) + spec_mask_elements(
        bits,
        0x20,
    ) + spec_mask_elements(bits, 0x40) + spec_mask_elements(bits, 0x80)
}

/// Count the elements the flag selected by `mask` contributes.
fn mask_elements(bits: u8, mask: u8) -> (r: usize)
    ensures
        r == spec_mask_elements(bits, mask),
        r <= 2,
{
    let mut total: usize = 0;
    if bits & mask != 0 {
        total = total + 1;
    }
    if bits & ARCHETYPE_TWO_FIELDS & mask != 0 {
        total = total + 1;
    }
    total
}

/// Size in bytes of one element of a point record.
pub const ELEMENT_BYTES: usize = 4;

impl PointArchetype {
    /// Does this archetype carry every channel of `flags`?
    pub fn contains(self, flags: u8) -> (r: bool)
        ensures
            r == (self.bits & flags == flags),
    {
        self.bits & flags == flags
    }

    /// How many elements does a point of this archetype occupy?
    pub fn len(self) -> (r: usize)
        ensures
            r == spec_archetype_len(self.bits),
            r <= 10,
    {
        let b = self.bits;
        let total = mask_elements(b, 0x01) + mask_elements(b, 0x02) + mask_elements(b, 0x04)
            + mask_elements(b, 0x08) + mask_elements(b, 0x10) + mask_elements(b, 0x20)
            + mask_elements(b, 0x40) + mask_elements(b, 0x80);
        proof {
            // Only position and tilt are two-element channels, so the
            // doubled count never raises the total past ten.
            assert(b & 0b0000_1001u8 & 0x02u8 == 0) by (bit_vector);
            assert(b & 0b0000_1001u8 & 0x04u8 == 0) by (bit_vector);
            assert(b & 0b0000_1001u8 & 0x10u8 == 0) by (bit_vector);
            assert(b & 0b0000_1001u8 & 0x20u8 == 0) by (bit_vector);
            assert(b & 0b0000_1001u8 & 0x40u8 == 0) by (bit_vector);
            assert(b & 0b0000_1001u8 & 0x80u8 == 0) by (bit_vector);
        }
        total
    }

    /// Size in bytes of one point of this archetype.
    pub fn len_bytes(self) -> (r: usize)
        ensures
            r == spec_archetype_len(self.bits) * ELEMENT_BYTES,
    {
        self.len() * ELEMENT_BYTES
    }
}

/// The archetype every [`crate::StrokePoint`] carries: a two-element
/// position, the cumulative arc length, and a pressure sample.
pub const STROKE_POINT_ARCHETYPE_BITS: u8 = 0b0000_0111;

/// Points a single slab can hold; a collection must fit within one slab.
pub const SLAB_SIZE: usize = 1024 * 1024;

/// Size in bytes of one stored point (four four-byte channels).
pub const POINT_BYTES: usize = 16;

/// Key aspects of a point collection that can be queried without the bulk
/// data being resident.
#[derive(Clone, Copy, PartialEq, Eq, Structural, Debug)]
pub struct CollectionSummary {
    /// The archetype of the points of the collection.
    pub archetype: PointArchetype,
    /// Count of points within the collection.
    pub len: usize,
    /// Raw bits of the final arc length of the collected points, present
    /// exactly when the archetype includes the arc-length channel.
    pub arc_length: Option<u32>,
}

/// The summary a sequence of stroke points boils down to: its archetype,
/// its length, and the arc length its last point reached (zero when the
/// sequence is empty).
pub open spec fn spec_summary(points: Seq<crate::StrokePoint>) -> CollectionSummary {
    CollectionSummary {
        archetype: PointArchetype { bits: STROKE_POINT_ARCHETYPE_BITS },
        len: points.len() as usize,
        arc_length: Some(
            if points.len() == 0 {
                0
            } else {
                points.last().dist
            },
        ),
    }
}

impl CollectionSummary {
    /// Summarize a sequence of stroke points.
    pub fn from_points(points: &Vec<crate::StrokePoint>) -> (r: CollectionSummary)
        ensures
            r == spec_summary(points@),
    {
        let arc: u32 = if points.len() == 0 {
            0
        } else {
            points[points.len() - 1].dist
        };
        CollectionSummary {
            archetype: PointArchetype { bits: STROKE_POINT_ARCHETYPE_BITS },
            len: points.len(),
            arc_length: Some(arc),
        }
    }
}

/// A single pre-sized arena of contiguous points. An append-only bump
/// boundary divides it into an immutable written prefix and free space;
/// the boundary only ever advances, and committed points never change.
pub struct PointSlab {
    /// The written prefix, in commit order.
    points: Vec<crate::StrokePoint>,
}

impl View for PointSlab {
    type V = Seq<crate::StrokePoint>;

    /// A slab is its committed prefix.
    closed spec fn view(&self) -> Seq<crate::StrokePoint> {
        self.points@
    }
}

impl PointSlab {
    /// A fresh slab: nothing committed yet.
    pub fn new() -> (r: Self)
        ensures
            r@ == Seq::<crate::StrokePoint>::empty(),
    {
        PointSlab { points: Vec::new() }
    }

    /// Number of points currently committed.
    pub fn usage(&self) -> (r: usize)
        ensures
            r == self@.len(),
    {
        self.points.len()
    }

    /// Try to reserve and write a contiguous run of points, returning the
    /// start index of where it was written. If the slab lacks room, it is
    /// left unchanged and `None` is returned. Committed points are never
    /// touched: the written prefix only grows.
    pub fn try_bump_write(&mut self, data: &Vec<crate::StrokePoint>) -> (r: Option<usize>)
        requires
            old(self)@.len() <= SLAB_SIZE,
        ensures
            r is Some <==> old(self)@.len() + data@.len() <= SLAB_SIZE,
            r matches Some(start) ==> start == old(self)@.len() && final(self)@ == old(self)@
                + data@,
            r is None ==> final(self)@ == old(self)@,
            final(self)@.len() <= SLAB_SIZE,
    {
        if data.len() <= SLAB_SIZE - self.points.len() {
            let start = self.points.len();
            let mut i: usize = 0;
            while i < data.len()
                invariant
                    i <= data@.len(),
                    self.points@ == old(self).points@ + data@.subrange(0, i as int),
                decreases data@.len() - i,
            {
                self.points.push(data[i]);
                i = i + 1;
                proof {
                    assert(data@.subrange(0, i as int) == data@.subrange(0, i - 1).push(
                        data@[i - 1],
                    ));
                }
            }
            proof {
                assert(data@.subrange(0, data@.len() as int) == data@);
            }
            Some(start)
        } else {
            None
        }
    }

    /// Try to read a contiguous run of committed points, copied out of the
    /// slab. Returns `None` if the run reaches past the committed prefix.
    /// Performs no check that the run corresponds to a single allocation.
    pub fn try_read(&self, start: usize, len: usize) -> (r: Option<Vec<crate::StrokePoint>>)
        ensures
            r is Some <==> start + len <= self@.len(),
            r matches Some(v) ==> v@ == self@.subrange(start as int, start + len),
    {
        if len <= self.points.len() && start <= self.points.len() - len {
            let mut out: Vec<crate::StrokePoint> = Vec::new();
            let mut i: usize = 0;
            while i < len
                invariant
                    i <= len,
                    start + len <= self.points@.len(),
                    start + len <= usize::MAX,
                    out@ == self.points@.subrange(start as int, start + i),
                decreases len - i,
            {
                out.push(self.points[start + i]);
                i = i + 1;
                proof {
                    assert(self.points@.subrange(start as int, start + i) == self.points@.subrange(
                        start as int,
                        start + i - 1,
                    ).push(self.points@[start + i - 1]));
                }
            }
            Some(out)
        } else {
            None
        }
    }
}

/// Tag type pairing the point-collection handle with the resource kind it
/// names; a handle of this marker only ever denotes a point collection.
#[derive(Clone, Copy, PartialEq, Eq, Structural, Debug)]
pub struct PointCollectionIDMarker;

/// Opaque handle of one immutable point collection. Minted by the
/// repository the collection was inserted into and never reused.
#[derive(Clone, Copy, PartialEq, Eq, Structural, Debug)]
pub struct PointCollectionID {
    raw: u64,
}

impl PointCollectionID {
    /// The raw value of the handle, for keying external tables.
    pub fn raw(self) -> (r: u64)
        ensures
            r as int == self.spec_raw(),
    {
        self.raw
    }

    /// The handle's raw value, as a spec-level number.
    pub closed spec fn spec_raw(self) -> int {
        self.raw as int
    }
}

/// Where one collection lives: which slab, at which start offset, and the
/// summary that can be served without touching the bulk data.
struct PointCollectionAllocInfo {
    /// Index of the slab holding the data.
    slab_id: usize,
    /// Point index into that slab where the data starts.
    start: usize,
    /// Summary of the data within.
    summary: CollectionSummary,
}

/// A read view of a collection of points, handed out by `try_get`. The
/// data is immutable; the view can be passed around freely.
#[derive(Clone)]
pub struct PointCollectionReadLock {
    points: Vec<crate::StrokePoint>,
}

impl View for PointCollectionReadLock {
    type V = Seq<crate::StrokePoint>;

    /// The view is the sequence of points read.
    closed spec fn view(&self) -> Seq<crate::StrokePoint> {
        self.points@
    }
}

impl PointCollectionReadLock {
    /// The points of the collection, in insertion order.
    pub fn as_ref(&self) -> (r: &Vec<crate::StrokePoint>)
        ensures
            r@ == self@,
    {
        &self.points
    }
}

/// Why a serialization request could not be served.
#[derive(Clone, Copy, PartialEq, Eq, Structural, Debug)]
pub enum WriteError {
    /// A requested point collection handle is unknown to the repository.
    UnknownID(PointCollectionID),
}

/// Saturating sum, pinned at the largest machine word.
pub open spec fn spec_sat_add(a: nat, b: nat) -> nat {
    if a + b > usize::MAX {
        usize::MAX as nat
    } else {
        a + b
    }
}

/// Saturating product, pinned at the largest machine word.
pub open spec fn spec_sat_mul(a: nat, b: nat) -> nat {
    if a * b > usize::MAX {
        usize::MAX as nat
    } else {
        a * b
    }
}

/// Saturating sum of machine words.
fn sat_add(a: usize, b: usize) -> (r: usize)
    ensures
        r == spec_sat_add(a as nat, b as nat),
{
    if a <= usize::MAX - b {
        a + b
    } else {
        usize::MAX
    }
}

/// Saturating product of machine words.
fn sat_mul(a: usize, b: usize) -> (r: usize)
    ensures
        r == spec_sat_mul(a as nat, b as nat),
{
    proof {
        vstd::arithmetic::mul::lemma_mul_upper_bound(
            a as int,
            u64::MAX as int,
            b as int,
            u64::MAX as int,
        );
    }
    let wide = (a as u128) * (b as u128);
    if wide > usize::MAX as u128 {
        usize::MAX
    } else {
        wide as usize
    }
}

/// Total committed points over a prefix of the slabs, saturating.
pub open spec fn spec_sat_usage(slabs: Seq<Seq<crate::StrokePoint>>, n: int) -> nat
    decreases n,
{
    if n <= 0 {
        0
    } else {
        spec_sat_add(spec_sat_usage(slabs, n - 1), slabs[n - 1].len())
    }
}

/// Total committed points over a prefix of the slabs, as an unbounded
/// count.
pub open spec fn spec_total_points(slabs: Seq<Seq<crate::StrokePoint>>, n: int) -> nat
    decreases n,
{
    if n <= 0 {
        0
    } else {
        spec_total_points(slabs, n - 1) + slabs[n - 1].len()
    }
}

/// Slab lists that agree on a prefix count the same points over it.
proof fn lemma_total_points_agree(
    s1: Seq<Seq<crate::StrokePoint>>,
    s2: Seq<Seq<crate::StrokePoint>>,
    n: int,
)
    requires
        forall|j: int| 0 <= j < n ==> s1[j] == s2[j],
    ensures
        spec_total_points(s1, n) == spec_total_points(s2, n),
    decreases n,
{
    if n > 0 {
        lemma_total_points_agree(s1, s2, n - 1);
    }
}

/// Extending one slab by `extra` points raises the total by exactly
/// `extra`.
proof fn lemma_total_points_extend(
    s1: Seq<Seq<crate::StrokePoint>>,
    s2: Seq<Seq<crate::StrokePoint>>,
    n: int,
    f: int,
    extra: nat,
)
    requires
        0 <= f < n,
        s2[f].len() == s1[f].len() + extra,
        forall|j: int| 0 <= j < n && j != f ==> s1[j] == s2[j],
    ensures
        spec_total_points(s2, n) == spec_total_points(s1, n) + extra,
    decreases n,
{
    if f == n - 1 {
        lemma_total_points_agree(s1, s2, n - 1);
    } else {
        lemma_total_points_extend(s1, s2, n - 1, f, extra);
    }
}

/// The saturating sum never falls when both summands rise.
proof fn lemma_sat_add_monotone(a1: nat, b1: nat, a2: nat, b2: nat)
    requires
        a1 <= a2,
        b1 <= b2,
    ensures
        spec_sat_add(a1, b1) <= spec_sat_add(a2, b2),
{
}

/// Counting fewer slabs never counts more points.
proof fn lemma_sat_usage_len_monotone(s: Seq<Seq<crate::StrokePoint>>, n1: int, n2: int)
    requires
        0 <= n1 <= n2,
    ensures
        spec_sat_usage(s, n1) <= spec_sat_usage(s, n2),
    decreases n2,
{
    if n2 > n1 {
        lemma_sat_usage_len_monotone(s, n1, n2 - 1);
        lemma_sat_add_monotone(spec_sat_usage(s, n2 - 1), 0, spec_sat_usage(s, n2 - 1), s[n2
            - 1].len());
    }
}

/// Slab by slab, prefixes never count more points than what they are
/// prefixes of.
proof fn lemma_sat_usage_prefix(
    s1: Seq<Seq<crate::StrokePoint>>,
    s2: Seq<Seq<crate::StrokePoint>>,
    n: int,
)
    requires
        0 <= n <= s1.len(),
        n <= s2.len(),
        forall|j: int| 0 <= j < n ==> (#[trigger] s1[j]).is_prefix_of(s2[j]),
    ensures
        spec_sat_usage(s1, n) <= spec_sat_usage(s2, n),
    decreases n,
{
    if n > 0 {
        lemma_sat_usage_prefix(s1, s2, n - 1);
        lemma_sat_add_monotone(
            spec_sat_usage(s1, n - 1),
            s1[n - 1].len(),
            spec_sat_usage(s2, n - 1),
            s2[n - 1].len(),
        );
    }
}

/// The reported point usage never falls while the slabs only grow:
/// every committed prefix stays a prefix and slabs are only appended,
/// exactly what `insert` guarantees. This is why `resident_usage` is
/// monotone over a repository's lifetime.
pub proof fn lemma_sat_usage_monotone(
    s1: Seq<Seq<crate::StrokePoint>>,
    s2: Seq<Seq<crate::StrokePoint>>,
)
    requires
        s1.len() <= s2.len(),
        forall|j: int| 0 <= j < s1.len() ==> (#[trigger] s1[j]).is_prefix_of(s2[j]),
    ensures
        spec_sat_usage(s1, s1.len() as int) <= spec_sat_usage(s2, s2.len() as int),
{
    lemma_sat_usage_prefix(s1, s2, s1.len() as int);
    lemma_sat_usage_len_monotone(s2, s1.len() as int, s2.len() as int);
}

/// The append-only arena of point collections.
///
/// Collections are bump-allocated into fixed-capacity slabs: the first
/// slab with room takes the data, and a new slab is appended when none
/// has room. Written data is immutable, handles are never reused, and
/// nothing is ever reclaimed.
pub struct PointRepository {
    /// The slabs, in allocation order.
    slabs: Vec<PointSlab>,
    /// One record per handed-out handle; the handle is the index.
    allocs: Vec<PointCollectionAllocInfo>,
}

impl PointRepository {
    /// The committed contents of each slab.
    pub closed spec fn spec_slabs(&self) -> Seq<Seq<crate::StrokePoint>> {
        self.slabs@.map_values(|s: PointSlab| s@)
    }

    /// How many collections have been inserted.
    pub closed spec fn num_collections(&self) -> nat {
        self.allocs@.len()
    }

    /// The points of the collection handle `k` names.
    closed spec fn spec_collection(&self, k: int) -> Seq<crate::StrokePoint> {
        let a = self.allocs@[k];
        self.slabs@[a.slab_id as int]@.subrange(a.start as int, a.start + a.summary.len)
    }

    /// All collections ever inserted, in handle order: the repository's
    /// abstract state.
    pub closed spec fn collections(&self) -> Seq<Seq<crate::StrokePoint>> {
        Seq::new(self.allocs@.len(), |k: int| self.spec_collection(k))
    }

    /// Does the repository know this handle?
    pub open spec fn contains_id(&self, id: PointCollectionID) -> bool {
        0 <= id.spec_raw() < self.num_collections()
    }

    /// Structural soundness: every slab is within capacity and every
    /// allocation record points at a committed range of a real slab,
    /// carrying the summary of exactly that data.
    pub closed spec fn wf(&self) -> bool {
        &&& forall|j: int|
            0 <= j < self.slabs@.len() ==> (#[trigger] self.slabs@[j])@.len() <= SLAB_SIZE
        &&& forall|k: int|
            0 <= k < self.allocs@.len() ==> {
                let a = #[trigger] self.allocs@[k];
                &&& a.slab_id < self.slabs@.len()
                &&& a.start + a.summary.len <= self.slabs@[a.slab_id as int]@.len()
                &&& a.summary == spec_summary(self.spec_collection(k))
            }
    }

    /// An empty repository with no slabs allocated yet. Each document
    /// session constructs and owns its own instance.
    pub fn new() -> (r: Self)
        ensures
            r.wf(),
            r.num_collections() == 0,
            r.collections() == Seq::<Seq<crate::StrokePoint>>::empty(),
            r.spec_slabs() == Seq::<Seq<crate::StrokePoint>>::empty(),
    {
        let r = PointRepository { slabs: Vec::new(), allocs: Vec::new() };
        proof {
            assert(r.spec_slabs() =~= Seq::<Seq<crate::StrokePoint>>::empty());
            assert(r.collections() =~= Seq::<Seq<crate::StrokePoint>>::empty());
        }
        r
    }

    /// The abstract state holds exactly one collection per minted
    /// handle, so the handle `insert` returns indexes into it.
    pub proof fn lemma_collections_len(&self)
        ensures
            self.collections().len() == self.num_collections(),
    {
    }

    /// Memory taken by resident point data and the capacity reserved for
    /// it, in bytes. Both saturate at the largest machine word.
    pub fn resident_usage(&self) -> (r: (usize, usize))
        ensures
            r.0 == spec_sat_mul(
                spec_sat_usage(self.spec_slabs(), self.spec_slabs().len() as int),
                POINT_BYTES as nat,
            ),
            r.1 == spec_sat_mul(
                spec_sat_mul(self.spec_slabs().len(), SLAB_SIZE as nat),
                POINT_BYTES as nat,
            ),
    {
        let mut used_points: usize = 0;
        let mut j: usize = 0;
        while j < self.slabs.len()
            invariant
                j <= self.slabs@.len(),
                used_points == spec_sat_usage(self.spec_slabs(), j as int),
            decreases self.slabs@.len() - j,
        {
            used_points = sat_add(used_points, self.slabs[j].usage());
            j = j + 1;
        }
        let capacity_points = sat_mul(self.slabs.len(), SLAB_SIZE);
        (sat_mul(used_points, POINT_BYTES), sat_mul(capacity_points, POINT_BYTES))
    }

    /// Insert a collection into the repository, yielding a unique handle.
    ///
    /// A collection longer than one slab's capacity is rejected as a
    /// normal result, leaving the repository untouched. Otherwise the
    /// first slab with room takes the data, a fresh slab is appended when
    /// none has, and the insert always succeeds; every collection
    /// inserted earlier reads back unchanged.
    pub fn insert(&mut self, collection: &Vec<crate::StrokePoint>) -> (r: Option<
        PointCollectionID,
    >)
        requires
            old(self).wf(),
        ensures
            final(self).wf(),
            collection@.len() > SLAB_SIZE ==> r is None && *final(self) == *old(self),
            collection@.len() <= SLAB_SIZE ==> (r matches Some(id) && id.spec_raw() == old(
                self,
            ).num_collections() && final(self).collections() == old(self).collections().push(
                collection@,
            )),
            collection@.len() <= SLAB_SIZE ==> final(self).num_collections() == old(
                self,
            ).num_collections() + 1,
            // The data fits an existing slab or exactly one slab is
            // appended; every committed prefix stays a prefix, and the
            // total of committed points grows by exactly the collection.
            collection@.len() <= SLAB_SIZE ==> (final(self).spec_slabs().len() == old(
                self,
            ).spec_slabs().len() || final(self).spec_slabs().len() == old(
                self,
            ).spec_slabs().len() + 1),
            collection@.len() <= SLAB_SIZE ==> (forall|j: int|
                0 <= j < old(self).spec_slabs().len() ==> (#[trigger] old(
                    self,
                ).spec_slabs()[j]).is_prefix_of(final(self).spec_slabs()[j])),
            collection@.len() <= SLAB_SIZE ==> spec_total_points(
                final(self).spec_slabs(),
                final(self).spec_slabs().len() as int,
            ) == spec_total_points(
                old(self).spec_slabs(),
                old(self).spec_slabs().len() as int,
            ) + collection@.len(),
    {
        let n = collection.len();
        if n > SLAB_SIZE {
            return None;
        }
        // Find the first slab with room for the whole run.
        let mut j: usize = 0;
        let mut found: Option<usize> = None;
        while j < self.slabs.len() && found.is_none()
            invariant
                j <= self.slabs@.len(),
                n == collection@.len() <= SLAB_SIZE,
                self.wf(),
                found matches Some(f) ==> f < self.slabs@.len() && self.slabs@[f as int]@.len()
                    + n <= SLAB_SIZE,
            decreases self.slabs@.len() - j,
        {
            if self.slabs[j].usage() <= SLAB_SIZE - n {
                found = Some(j);
            }
            j = j + 1;
        }
        let ghost pre = *self;
        let (slab_id, start): (usize, usize) = match found {
            Some(f) => {
                let w = self.slabs[f].try_bump_write(collection);
                match w {
                    Some(s) => (f, s),
                    None => {
                        proof {
                            assert(false);
                        }
                        (0, 0)
                    },
                }
            },
            None => {
                let mut slab = PointSlab::new();
                let w = slab.try_bump_write(collection);
                let s: usize = match w {
                    Some(s) => s,
                    None => {
                        proof {
                            assert(false);
                        }
                        0
                    },
                };
                self.slabs.push(slab);
                (self.slabs.len() - 1, s)
            },
        };
        proof {
            // The chosen slab gained exactly the new run at its end; every
            // other slab, and so every committed range, is unchanged.
            assert forall|k: int| 0 <= k < pre.allocs@.len() implies {
                let a = #[trigger] pre.allocs@[k];
                self.slabs@[a.slab_id as int]@.subrange(a.start as int, a.start + a.summary.len)
                    == pre.spec_collection(k) && a.start + a.summary.len
                    <= self.slabs@[a.slab_id as int]@.len()
            } by {
                let a = pre.allocs@[k];
                if a.slab_id == slab_id {
                    assert(self.slabs@[a.slab_id as int]@.subrange(
                        a.start as int,
                        a.start + a.summary.len,
                    ) =~= pre.slabs@[a.slab_id as int]@.subrange(
                        a.start as int,
                        a.start + a.summary.len,
                    ));
                }
            }
            assert(self.slabs@[slab_id as int]@.subrange(start as int, start + n) =~= collection@);
            // How the slab list evolved: one slab extended at its end, or
            // one fresh slab appended; nothing committed moved.
            let s1 = pre.spec_slabs();
            let s2 = self.spec_slabs();
            let oldn = s1.len() as int;
            if self.slabs@.len() == pre.slabs@.len() {
                assert forall|j: int| 0 <= j < oldn && j != slab_id implies s2[j] == s1[j] by {}
                assert(s2[slab_id as int] == s1[slab_id as int] + collection@);
                assert forall|j: int| 0 <= j < oldn implies (#[trigger] s1[j]).is_prefix_of(
                    s2[j],
                ) by {
                    if j == slab_id {
                        assert(s1[j] =~= (s1[j] + collection@).subrange(0, s1[j].len() as int));
                    } else {
                        assert(s1[j] =~= s2[j].subrange(0, s1[j].len() as int));
                    }
                }
                lemma_total_points_extend(s1, s2, oldn, slab_id as int, collection@.len());
            } else {
                assert(self.slabs@.len() == pre.slabs@.len() + 1);
                assert forall|j: int| 0 <= j < oldn implies s2[j] == s1[j] by {}
                assert(s2[oldn] == collection@) by {
                    assert(self.slabs@[oldn] == self.slabs@.last());
                }
                assert forall|j: int| 0 <= j < oldn implies (#[trigger] s1[j]).is_prefix_of(
                    s2[j],
                ) by {
                    assert(s1[j] =~= s2[j].subrange(0, s1[j].len() as int));
                }
                lemma_total_points_agree(s1, s2, oldn);
                assert(spec_total_points(s2, oldn + 1) == spec_total_points(s2, oldn) + s2[
                    oldn
                ].len());
            }
        }
        let summary = CollectionSummary::from_points(collection);
        let id = PointCollectionID { raw: self.allocs.len() as u64 };
        self.allocs.push(PointCollectionAllocInfo { slab_id, start, summary });
        proof {
            assert forall|k: int| 0 <= k < self.allocs@.len() implies {
                let a = #[trigger] self.allocs@[k];
                &&& a.slab_id < self.slabs@.len()
                &&& a.start + a.summary.len <= self.slabs@[a.slab_id as int]@.len()
                &&& a.summary == spec_summary(self.spec_collection(k))
            } by {
                if k < pre.allocs@.len() {
                    assert(self.spec_collection(k) == pre.spec_collection(k));
                    assert(pre.allocs@[k].summary == spec_summary(pre.spec_collection(k)));
                } else {
                    assert(self.spec_collection(k) == collection@);
                }
            }
            assert(self.collections() =~~= old(self).collections().push(collection@));
        }
        Some(id)
    }

    /// A summary of the given collection — archetype, length, final arc
    /// length — served from metadata alone, without the bulk data.
    /// `None` if the handle is not known to this repository.
    pub fn summary_of(&self, id: PointCollectionID) -> (r: Option<CollectionSummary>)
        requires
            self.wf(),
        ensures
            self.contains_id(id) ==> r == Some(spec_summary(self.collections()[id.spec_raw()])),
            !self.contains_id(id) ==> r is None,
    {
        if id.raw < self.allocs.len() as u64 {
            let k = id.raw as usize;
            Some(self.allocs[k].summary)
        } else {
            None
        }
    }

    /// A read view of the given collection, valid independently of the
    /// repository. An unknown handle yields `NotFound`, never a crash;
    /// `NotResident` is reserved for a future evicting store and is never
    /// produced by the current append-only policy.
    pub fn try_get(&self, id: PointCollectionID) -> (r: Result<
        PointCollectionReadLock,
        crate::repositories::TryRepositoryError,
    >)
        requires
            self.wf(),
        ensures
            self.contains_id(id) ==> (r matches Ok(lock) && lock@ == self.collections()[
                id.spec_raw()]),
            !self.contains_id(id) ==> (r matches Err(e) && e
                == crate::repositories::TryRepositoryError::NotFound),
    {
        if id.raw < self.allocs.len() as u64 {
            let k = id.raw as usize;
            let slab_id = self.allocs[k].slab_id;
            let start = self.allocs[k].start;
            let len = self.allocs[k].summary.len;
            match self.slabs[slab_id].try_read(start, len) {
                Some(points) => Ok(PointCollectionReadLock { points }),
                None => {
                    proof {
                        assert(false);
                    }
                    Err(crate::repositories::TryRepositoryError::NotFound)
                },
            }
        } else {
            Err(crate::repositories::TryRepositoryError::NotFound)
        }
    }
}

/// The little-endian bytes of one 32-bit channel sample.
pub open spec fn spec_u32_le(x: u32) -> Seq<u8> {
    seq![
        (x & 0xff) as u8,
        ((x >> 8) & 0xff) as u8,
        ((x >> 16) & 0xff) as u8,
        ((x >> 24) & 0xff) as u8,
    ]
}

/// The on-disk bytes of one point: its four channels, little endian, in
/// field order.
pub open spec fn spec_point_bytes(p: crate::StrokePoint) -> Seq<u8> {
    spec_u32_le(p.x) + spec_u32_le(p.y) + spec_u32_le(p.pressure) + spec_u32_le(p.dist)
}

/// The on-disk bytes of a run of points, in order.
pub open spec fn spec_points_bytes(points: Seq<crate::StrokePoint>) -> Seq<u8>
    decreases points.len(),
{
    if points.len() == 0 {
        Seq::empty()
    } else {
        spec_points_bytes(points.drop_last()) + spec_point_bytes(points.last())
    }
}

/// Append one channel sample, little endian.
fn push_u32_le(out: &mut Vec<u8>, x: u32)
    ensures
        final(out)@ == old(out)@ + spec_u32_le(x),
{
    out.push((x & 0xff) as u8);
    out.push(((x >> 8) & 0xff) as u8);
    out.push(((x >> 16) & 0xff) as u8);
    out.push(((x >> 24) & 0xff) as u8);
    proof {
        assert(out@ =~= old(out)@ + spec_u32_le(x));
    }
}

/// Append the bytes of one point.
fn push_point_bytes(out: &mut Vec<u8>, p: &crate::StrokePoint)
    ensures
        final(out)@ == old(out)@ + spec_point_bytes(*p),
{
    push_u32_le(out, p.x);
    push_u32_le(out, p.y);
    push_u32_le(out, p.pressure);
    push_u32_le(out, p.dist);
    proof {
        assert(out@ =~= old(out)@ + spec_point_bytes(*p));
    }
}

impl PointRepository {
    /// The encoding of the named collections, in the order given.
    pub open spec fn spec_encoded(&self, ids: Seq<PointCollectionID>) -> Seq<u8>
        decreases ids.len(),
    {
        if ids.len() == 0 {
            Seq::empty()
        } else {
            self.spec_encoded(ids.drop_last()) + spec_points_bytes(
                self.collections()[ids.last().spec_raw()],
            )
        }
    }

    /// Position of the first handle the repository does not know, or -1
    /// when it knows them all.
    pub open spec fn first_unknown(&self, ids: Seq<PointCollectionID>) -> int
        decreases ids.len(),
    {
        if ids.len() == 0 {
            -1
        } else if !self.contains_id(ids[0]) {
            0
        } else {
            let rest = self.first_unknown(ids.subrange(1, ids.len() as int));
            if rest < 0 {
                -1
            } else {
                rest + 1
            }
        }
    }

    /// Encode the named collections, in the order given, into the byte
    /// run the persistence layer frames into the container file: each
    /// collection's points back to back, each point's channels little
    /// endian. The first unknown handle is reported instead, and nothing
    /// is encoded.
    pub fn write_into(&self, ids: &Vec<PointCollectionID>) -> (r: Result<Vec<u8>, WriteError>)
        requires
            self.wf(),
        ensures
            self.first_unknown(ids@) == -1 ==> (r matches Ok(bytes) && bytes@
                == self.spec_encoded(ids@)),
            self.first_unknown(ids@) >= 0 ==> r == Err::<Vec<u8>, WriteError>(
                WriteError::UnknownID(ids@[self.first_unknown(ids@)]),
            ),
    {
        let mut out: Vec<u8> = Vec::new();
        let mut i: usize = 0;
        while i < ids.len()
            invariant
                self.wf(),
                i <= ids@.len(),
                forall|j: int| 0 <= j < i ==> self.contains_id(#[trigger] ids@[j]),
                out@ == self.spec_encoded(ids@.subrange(0, i as int)),
            decreases ids@.len() - i,
        {
            let id = ids[i];
            let lock = match self.try_get(id) {
                Ok(lock) => lock,
                Err(..) => {
                    proof {
                        lemma_first_unknown_found(self, ids@, i as int);
                    }
                    return Err(WriteError::UnknownID(id));
                },
            };
            let points = lock.as_ref();
            let ghost base = out@;
            let mut j: usize = 0;
            while j < points.len()
                invariant
                    j <= points@.len(),
                    out@ == base + spec_points_bytes(points@.subrange(0, j as int)),
                decreases points@.len() - j,
            {
                push_point_bytes(&mut out, &points[j]);
                j = j + 1;
                proof {
                    let pref = points@.subrange(0, j as int);
                    assert(pref.drop_last() =~= points@.subrange(0, j - 1));
                    assert(out@ =~= base + spec_points_bytes(pref));
                }
            }
            i = i + 1;
            proof {
                assert(points@.subrange(0, points@.len() as int) =~= points@);
                let pref = ids@.subrange(0, i as int);
                assert(pref.drop_last() =~= ids@.subrange(0, i - 1));
                assert(pref.last() == ids@[i - 1]);
                assert(out@ == self.spec_encoded(pref));
            }
        }
        proof {
            assert(ids@.subrange(0, ids@.len() as int) =~= ids@);
            lemma_first_unknown_none(self, ids@);
        }
        Ok(out)
    }
}

/// A scan that knew every handle before `i` and found `i` unknown found
/// the first unknown.
proof fn lemma_first_unknown_found(repo: &PointRepository, ids: Seq<PointCollectionID>, i: int)
    requires
        0 <= i < ids.len(),
        !repo.contains_id(ids[i]),
        forall|j: int| 0 <= j < i ==> repo.contains_id(#[trigger] ids[j]),
    ensures
        repo.first_unknown(ids) == i,
    decreases ids.len(),
{
    if i > 0 {
        lemma_first_unknown_found(repo, ids.subrange(1, ids.len() as int), i - 1);
    }
}

/// A scan that knew every handle found no unknown.
proof fn lemma_first_unknown_none(repo: &PointRepository, ids: Seq<PointCollectionID>)
    requires
        forall|j: int| 0 <= j < ids.len() ==> repo.contains_id(#[trigger] ids[j]),
    ensures
        repo.first_unknown(ids) == -1,
    decreases ids.len(),
{
    if ids.len() > 0 {
        lemma_first_unknown_none(repo, ids.subrange(1, ids.len() as int));
    }
}

/// Round trip: reading a collection back under the handle its insert
/// returned yields exactly the inserted points. `insert` appends the
/// collection to the repository's abstract state at the new handle, and
/// `try_get` serves the state at the handle, so the composition is the
/// identity.
pub proof fn lemma_insert_round_trip(pre: Seq<Seq<crate::StrokePoint>>, p: Seq<crate::StrokePoint>)
    ensures
        pre.push(p)[pre.len() as int] == p,
{
}

/// A fitting insert always succeeds, and the summary served for the new
/// handle reports exactly the inserted collection's length: `insert`
/// appends the collection to the abstract state, and `summary_of` serves
/// the summary of the state at the handle.
pub proof fn lemma_inserted_summary_length(
    pre: Seq<Seq<crate::StrokePoint>>,
    p: Seq<crate::StrokePoint>,
)
    requires
        p.len() <= SLAB_SIZE,
    ensures
        spec_summary(pre.push(p)[pre.len() as int]).len == p.len(),
{
}

/// No insert loses or corrupts what was written before it: every handle
/// minted earlier still reads back its own collection, unchanged, after
/// the abstract state gained the new one.
pub proof fn lemma_insert_preserves_existing(
    pre: Seq<Seq<crate::StrokePoint>>,
    p: Seq<crate::StrokePoint>,
    k: int,
)
    requires
        0 <= k < pre.len(),
    ensures
        pre.push(p)[k] == pre[k],
{
}

} // verus!
