//! The per-frame instance arena: a growable store of per-instance transforms,
//! one contiguous range per mesh, mirrored to a device buffer by the caller.
use vstd::prelude::*;
use slotmap::DefaultKey;
use crate::assets::MeshId;
use crate::slots::{RangeSlots, is_null_key, range_slots, slot_of};
use crate::transform::SpatialTransform;

verus! {

/// A range of instance records `[start, end)`, counted in records, not bytes.
#[derive(Clone, Copy, Debug, PartialEq, Eq, Structural)]
pub struct InstanceBufferRange {
    pub start: u64,
    pub end: u64,
}

/// A range of bytes `[start, end)` of the device buffer.
#[derive(Clone, Copy, Debug, PartialEq, Eq, Structural)]
pub struct ByteRange {
    pub start: u64,
    pub end: u64,
}

/// The capacity, in records, that a new arena starts with.
pub const INITIAL_BUF_SIZE: u64 = 10_000;

/// The capacity after growing from `cap` until `required` records fit:
/// doubling each time, starting from one when empty, and taking exactly
/// `required` once another doubling would not fit in 64 bits.
pub open spec fn grown_capacity(cap: int, required: int) -> int
    decreases (if cap < required {
        required - cap
    } else {
        0
    }),
{
    if cap >= required {
        cap
    } else if cap <= 0 {
        grown_capacity(1, required)
    } else if cap * 2 > u64::MAX {
        required
    } else {
        grown_capacity(cap * 2, required)
    }
}

/// `rs` are ranges that follow each other from zero up to `total`.
pub open spec fn consecutive_ranges(rs: Seq<InstanceBufferRange>, total: int) -> bool {
    &&& forall|k: int| 0 <= k < rs.len() ==> (#[trigger] rs[k]).start <= rs[k].end
    &&& forall|k: int| 0 <= k < rs.len() - 1 ==> (#[trigger] rs[k + 1]).start == rs[k].end
    &&& rs.len() == 0 ==> total == 0
    &&& rs.len() > 0 ==> rs[0].start == 0 && rs.last().end == total
}

/// The instance arena.
pub struct InstanceBuffer {
    buffer_data: Vec<SpatialTransform>,
    buffer_size: u64,
    mesh_ranges: RangeSlots,
    issued: Ghost<Seq<InstanceBufferRange>>,
}

impl InstanceBuffer {
    /// The records written since the last clear.
    pub closed spec fn records(&self) -> Seq<SpatialTransform> {
        self.buffer_data@
    }

    /// The capacity in records.
    pub closed spec fn spec_capacity(&self) -> int {
        self.buffer_size as int
    }

    /// The range recorded for each mesh since the last clear.
    pub closed spec fn ranges(&self) -> Map<DefaultKey, InstanceBufferRange> {
        range_slots(self.mesh_ranges)
    }

    /// The ranges handed out by `add` since the last clear, in order.
    pub closed spec fn issued_ranges(&self) -> Seq<InstanceBufferRange> {
        self.issued@
    }

    /// The records fit in the capacity, the issued ranges follow each other up
    /// to the number of records, and every recorded range lies within them.
    pub closed spec fn wf(&self) -> bool {
        &&& self.buffer_data@.len() <= self.buffer_size
        &&& consecutive_ranges(self.issued@, self.buffer_data@.len() as int)
        &&& forall|k: DefaultKey| #[trigger]
            range_slots(self.mesh_ranges).contains_key(k) ==> range_slots(self.mesh_ranges)[k].start
                <= range_slots(self.mesh_ranges)[k].end <= self.buffer_data@.len()
    }

    /// An empty arena with the initial capacity.
    pub fn new() -> (r: InstanceBuffer)
        ensures
            r.wf(),
            r.spec_capacity() == INITIAL_BUF_SIZE,
            r.records().len() == 0,
            r.issued_ranges().len() == 0,
            r.ranges().dom().is_empty(),
    {
        InstanceBuffer::with_capacity(INITIAL_BUF_SIZE)
    }

    /// An empty arena with room for `capacity` records.
    pub fn with_capacity(capacity: u64) -> (r: InstanceBuffer)
        ensures
            r.wf(),
            r.spec_capacity() == capacity,
            r.records().len() == 0,
            r.issued_ranges().len() == 0,
            r.ranges().dom().is_empty(),
    {
        let r = InstanceBuffer {
            buffer_data: Vec::new(),
            buffer_size: capacity,
            mesh_ranges: RangeSlots::new(),
            issued: Ghost(Seq::empty()),
        };
        r
    }

    /// The capacity in records.
    pub fn capacity(&self) -> (r: u64)
        ensures
            r == self.spec_capacity(),
    {
        self.buffer_size
    }

    /// The records written since the last clear; never more than the capacity.
    pub fn data(&self) -> (r: &Vec<SpatialTransform>)
        requires
            self.wf(),
        ensures
            r@ == self.records(),
            r@.len() <= self.spec_capacity(),
    {
        &self.buffer_data
    }

    /// Forgets the records and ranges, keeping the capacity; starts a frame.
    pub fn clear(&mut self)
        requires
            old(self).wf(),
        ensures
            final(self).wf(),
            final(self).records().len() == 0,
            final(self).issued_ranges().len() == 0,
            final(self).ranges().dom().is_empty(),
            final(self).spec_capacity() == old(self).spec_capacity(),
    {
        self.mesh_ranges.clear();
        self.buffer_data.clear();
        self.issued = Ghost(Seq::empty());
    }

    /// Appends `data` as the records of `mesh`, growing the capacity until
    /// all records fit, and returns their range, which is recorded for `mesh`
    /// whenever `mesh` already has one, or its key is not null and shares its
    /// slot with no other recorded key. Ranges in other slots stay.
    pub fn add(&mut self, data: Vec<SpatialTransform>, mesh: MeshId) -> (r: InstanceBufferRange)
        requires
            old(self).wf(),
        ensures
            final(self).wf(),
            r.start == old(self).records().len(),
            r.end == old(self).records().len() + data@.len(),
            final(self).records() == old(self).records() + data@,
            final(self).spec_capacity() == grown_capacity(
                old(self).spec_capacity(),
                (old(self).records().len() + data@.len()) as int,
            ),
            final(self).issued_ranges() == old(self).issued_ranges().push(r),
            old(self).ranges().contains_key(mesh.key) ==> final(self).ranges() == old(self).ranges().insert(mesh.key, r),
            forall|k: DefaultKey| #[trigger]
                final(self).ranges().contains_key(k) ==> (k == mesh.key && final(self).ranges()[k]
                    == r) || (k != mesh.key && old(self).ranges().contains_key(k) && final(self).ranges()[k] == old(self).ranges()[k]),
            !is_null_key(mesh.key) && (forall|k: DefaultKey| #[trigger]
                old(self).ranges().contains_key(k) && k != mesh.key ==> slot_of(k) != slot_of(mesh.key))
                ==> final(self).ranges() == old(self).ranges().insert(mesh.key, r),
            forall|k: DefaultKey| #[trigger]
                old(self).ranges().contains_key(k) && slot_of(k) != slot_of(mesh.key) ==> final(
                    self).ranges().contains_key(k),
    {
        let old_len = self.buffer_data.len();
        let mut data = data;
        self.buffer_data.append(&mut data);
        let new_len = self.buffer_data.len();
        let required: u64 = new_len as u64;
        let mut size = self.buffer_size;
        while size < required
            invariant
                grown_capacity(size as int, required as int) == grown_capacity(
                    self.buffer_size as int,
                    required as int,
                ),
            decreases (if size < required {
                required - size
            } else {
                0
            }),
        {
            if size == 0 {
                size = 1;
            } else if size > u64::MAX / 2 {
                size = required;
            } else {
                size = size * 2;
            }
        }
        self.buffer_size = size;
        let range = InstanceBufferRange { start: old_len as u64, end: new_len as u64 };
        self.mesh_ranges.insert(mesh.key, range);
        let ghost issued = self.issued@;
        self.issued = Ghost(issued.push(range));
        proof {
            let rs = self.issued@;
            assert(rs[rs.len() - 1] == range);
            if issued.len() > 0 {
                assert(rs[issued.len() - 1] == issued[issued.len() - 1]);
            }
            assert forall|k: int| 0 <= k < rs.len() implies (#[trigger] rs[k]).start <= rs[k].end by {
                if k < issued.len() {
                    assert(rs[k] == issued[k]);
                }
            }
            assert forall|k: int| 0 <= k < rs.len() - 1 implies (#[trigger] rs[k + 1]).start == rs[k].end by {
                assert(rs[k] == issued[k]);
                if k + 1 < issued.len() {
                    assert(rs[k + 1] == issued[k + 1]);
                }
            }
        }
        range
    }

    /// The range recorded for `mesh` since the last clear, if any.
    pub fn get_range(&self, mesh: MeshId) -> (r: Option<InstanceBufferRange>)
        ensures
            match r {
                Some(range) => self.ranges().contains_key(mesh.key) && range == self.ranges()[mesh.key],
                None => !self.ranges().contains_key(mesh.key),
            },
    {
        match self.mesh_ranges.get(mesh.key) {
            Some(range) => Some(*range),
            None => None,
        }
    }

    /// The bytes of the device buffer that hold the records of `mesh`, for
    /// records of `stride` bytes, if a range was recorded since the last clear.
    pub fn get_slice(&self, mesh: MeshId, stride: u64) -> (r: Option<ByteRange>)
        requires
            self.wf(),
            self.spec_capacity() * stride <= u64::MAX,
        ensures
            match r {
                Some(bytes) => {
                    &&& self.ranges().contains_key(mesh.key)
                    &&& bytes.start == self.ranges()[mesh.key].start * stride
                    &&& bytes.end == self.ranges()[mesh.key].end * stride
                },
                None => !self.ranges().contains_key(mesh.key),
            },
    {
        match self.mesh_ranges.get(mesh.key) {
            Some(range) => {
                proof {
                    assert(range.end <= self.buffer_size);
                    assert(range.end * stride <= self.buffer_size * stride) by (nonlinear_arith)
                        requires
                            range.end <= self.buffer_size,
                    ;
                    assert(range.start * stride <= range.end * stride) by (nonlinear_arith)
                        requires
                            range.start <= range.end,
                    ;
                }
                Some(ByteRange { start: range.start * stride, end: range.end * stride })
            },
            None => None,
        }
    }
}

/// Record `x` lies in one of the ranges `rs`.
pub open spec fn in_some_range(rs: Seq<InstanceBufferRange>, x: int) -> bool {
    exists|k: int| 0 <= k < rs.len() && (#[trigger] rs[k]).start <= x < rs[k].end
}

/// Each issued range ends no later than any later one starts.
proof fn lemma_ends_before(rs: Seq<InstanceBufferRange>, total: int, i: int, j: int)
    requires
        consecutive_ranges(rs, total),
        0 <= i < j < rs.len(),
    ensures
        rs[i].end <= rs[j].start,
    decreases j - i,
{
    if j > i + 1 {
        lemma_ends_before(rs, total, i, j - 1);
        assert(rs[j - 1 + 1].start == rs[j - 1].end);
    } else {
        assert(rs[i + 1].start == rs[i].end);
    }
}

/// Every record below the end of the `n`-th issued range lies in one of the first `n`.
proof fn lemma_covered(rs: Seq<InstanceBufferRange>, total: int, n: int, x: int)
    requires
        consecutive_ranges(rs, total),
        0 < n <= rs.len(),
        0 <= x < rs[n - 1].end,
    ensures
        exists|k: int| 0 <= k < n && (#[trigger] rs[k]).start <= x < rs[k].end,
    decreases n,
{
    if x >= rs[n - 1].start {
        assert(rs[n - 1].start <= x < rs[n - 1].end);
    } else {
        assert(n - 1 > 0);
        assert(rs[n - 2 + 1].start == rs[n - 2].end);
        lemma_covered(rs, total, n - 1, x);
        let k = choose|k: int| 0 <= k < n - 1 && (#[trigger] rs[k]).start <= x < rs[k].end;
        assert(0 <= k < n && rs[k].start <= x < rs[k].end);
    }
}

/// The ranges that `add` hands out between two clears never overlap, and
/// together they cover exactly the records written, `[0, records)`.
pub proof fn lemma_issued_ranges_partition(b: &InstanceBuffer)
    requires
        b.wf(),
    ensures
        forall|i: int, j: int|
            0 <= i < j < b.issued_ranges().len() ==> (#[trigger] b.issued_ranges()[i]).end
                <= (#[trigger] b.issued_ranges()[j]).start,
        forall|x: int| 0 <= x < b.records().len() <==> #[trigger] in_some_range(b.issued_ranges(), x),
{
    let rs = b.issued_ranges();
    let total = b.records().len() as int;
    assert forall|i: int, j: int| 0 <= i < j < rs.len() implies (#[trigger] rs[i]).end
        <= (#[trigger] rs[j]).start by {
        lemma_ends_before(rs, total, i, j);
    }
    assert forall|x: int| 0 <= x < total <==> #[trigger] in_some_range(rs, x) by {
        if 0 <= x < total {
            lemma_covered(rs, total, rs.len() as int, x);
        }
        if exists|k: int| 0 <= k < rs.len() && (#[trigger] rs[k]).start <= x < rs[k].end {
            let k = choose|k: int| 0 <= k < rs.len() && (#[trigger] rs[k]).start <= x < rs[k].end;
            if k < rs.len() - 1 {
                lemma_ends_before(rs, total, k, rs.len() - 1);
            }
        }
    }
}

} // verus!
