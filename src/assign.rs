use std::collections::HashMap;
use vstd::prelude::*;

use crate::row::{lemma_rows_model_push, rows_model, RowModel, ShuffleRow};

verus! {

broadcast use vstd::std_specs::hash::group_hash_axioms;

/// The lowest index among the smallest distances.
pub open spec fn spec_nearest(dists: Seq<u32>) -> int
    decreases dists.len(),
{
    if dists.len() <= 1 {
        0
    } else {
        let i = spec_nearest(dists.drop_last());
        if dists.last() < dists[i] {
            dists.len() - 1
        } else {
            i
        }
    }
}

/// `i` is the index of a nearest centroid, and no lower index is as near.
pub open spec fn is_nearest(dists: Seq<u32>, i: int) -> bool {
    &&& 0 <= i < dists.len()
    &&& forall|j: int| 0 <= j < dists.len() ==> dists[i] <= #[trigger] dists[j]
    &&& forall|j: int| 0 <= j < i ==> dists[i] < #[trigger] dists[j]
}

/// The nearest centroid is the closest one, the lowest index winning a tie.
pub proof fn lemma_nearest_is_closest(dists: Seq<u32>)
    requires
        dists.len() > 0,
    ensures
        is_nearest(dists, spec_nearest(dists)),
    decreases dists.len(),
{
    if dists.len() > 1 {
        let d = dists.drop_last();
        lemma_nearest_is_closest(d);
        assert forall|j: int| 0 <= j < d.len() implies d[j] == dists[j] by {}
    }
}

/// The partition a row goes to: its precomputed partition if it has one, else
/// its nearest centroid.
pub open spec fn spec_partition_of(overrides: Map<u64, u32>, row_id: u64, dists: Seq<u32>) -> int {
    if overrides.contains_key(row_id) {
        overrides[row_id] as int
    } else {
        spec_nearest(dists)
    }
}

/// The partition a row goes to, or none where it falls outside `start .. end`.
pub open spec fn spec_assign(
    overrides: Map<u64, u32>,
    row_id: u64,
    dists: Seq<u32>,
    start: u32,
    end: u32,
) -> Option<u32> {
    let p = spec_partition_of(overrides, row_id, dists);
    if start <= p < end {
        Some(p as u32)
    } else {
        None
    }
}

/// The rows a batch turns into: in batch order, each row whose partition lies
/// in `start .. end`, with that partition and its code.
pub open spec fn spec_assign_batch(
    overrides: Map<u64, u32>,
    start: u32,
    end: u32,
    row_ids: Seq<u64>,
    dists: Seq<Seq<u32>>,
    codes: Seq<Seq<u8>>,
) -> Seq<RowModel>
    decreases row_ids.len(),
{
    if row_ids.len() == 0 {
        Seq::empty()
    } else {
        let k = row_ids.len() - 1;
        let prev = spec_assign_batch(
            overrides,
            start,
            end,
            row_ids.drop_last(),
            dists.take(k),
            codes.take(k),
        );
        match spec_assign(overrides, row_ids[k], dists[k], start, end) {
            Some(p) => prev.push((row_ids[k], p, codes[k])),
            None => prev,
        }
    }
}

/// An order-keeping key for the bit pattern of an IEEE-754 single-precision
/// distance: negative values have all bits flipped, others the sign bit set,
/// so that keys compare as the (non-NaN) distances do.
pub fn distance_key(bits: u32) -> (r: u32)
    ensures
        bits >= 0x8000_0000 ==> r == 0xFFFF_FFFF - bits,
        bits < 0x8000_0000 ==> r == bits + 0x8000_0000,
{
    if bits >= 0x8000_0000 {
        0xFFFF_FFFF - bits
    } else {
        bits + 0x8000_0000
    }
}

/// Index of the nearest centroid, given the distance of the row to each
/// centroid; of equally near centroids the lowest index wins.
pub fn nearest_centroid(dists: &Vec<u32>) -> (r: usize)
    requires
        dists.len() > 0,
    ensures
        r == spec_nearest(dists@),
        is_nearest(dists@, r as int),
{
    let mut best: usize = 0;
    let mut i: usize = 1;
    while i < dists.len()
        invariant
            1 <= i <= dists.len(),
            best == spec_nearest(dists@.take(i as int)),
            best < i,
        decreases dists.len() - i,
    {
        proof {
            assert(dists@.take(i + 1).drop_last() == dists@.take(i as int));
        }
        if dists[i] < dists[best] {
            best = i;
        }
        i = i + 1;
    }
    proof {
        assert(dists@.take(dists.len() as int) == dists@);
        lemma_nearest_is_closest(dists@);
    }
    best
}

/// Why a row or a batch could not be assigned.
#[derive(Debug, Clone, Copy, PartialEq, Eq)]
pub enum AssignError {
    /// A model without centroids, with more than fit a partition id, or with
    /// a partition range whose start lies past its end.
    InvalidModel,
    /// A row's distances do not cover the centroids one for one.
    DistanceCountMismatch,
    /// A row's code does not have the quantizer's width.
    CodeWidthMismatch,
    /// The columns of a batch differ in length.
    ColumnLengthMismatch,
}

/// A partition model scoped to the partition ids `start .. end`, with optional
/// precomputed assignments that take priority over geometry.
pub struct IvfModel {
    num_centroids: usize,
    start: u32,
    end: u32,
    precomputed: Option<HashMap<u64, u32>>,
}

impl IvfModel {
    pub closed spec fn spec_num_centroids(&self) -> int {
        self.num_centroids as int
    }

    pub closed spec fn spec_start(&self) -> u32 {
        self.start
    }

    pub closed spec fn spec_end(&self) -> u32 {
        self.end
    }

    /// The precomputed assignments, by row id.
    pub closed spec fn overrides(&self) -> Map<u64, u32> {
        match self.precomputed {
            Some(m) => m@,
            None => Map::empty(),
        }
    }

    pub closed spec fn wf(&self) -> bool {
        &&& 1 <= self.num_centroids <= 0xFFFF_FFFF
        &&& self.start <= self.end
    }

    /// A model over `num_centroids` centroids that keeps the rows assigned to
    /// partitions `start .. end`.
    pub fn try_new(
        num_centroids: usize,
        start: u32,
        end: u32,
        precomputed: Option<HashMap<u64, u32>>,
    ) -> (r: Result<IvfModel, AssignError>)
        ensures
            r is Ok <==> 1 <= num_centroids <= 0xFFFF_FFFF && start <= end,
            r is Err ==> r == Err::<IvfModel, AssignError>(AssignError::InvalidModel),
            r matches Ok(m) ==> {
                &&& m.wf()
                &&& m.spec_num_centroids() == num_centroids
                &&& m.spec_start() == start
                &&& m.spec_end() == end
                &&& m.overrides() == match precomputed {
                    Some(p) => p@,
                    None => Map::<u64, u32>::empty(),
                }
            },
    {
        if num_centroids == 0 || num_centroids as u64 > 0xFFFF_FFFFu64 || start > end {
            return Err(AssignError::InvalidModel);
        }
        Ok(IvfModel { num_centroids, start, end, precomputed })
    }

    /// The partition of one row: its precomputed partition if it has one,
    /// else its nearest centroid; `None` where that partition lies outside
    /// the model's range.
    pub fn assign_row(&self, row_id: u64, dists: &Vec<u32>) -> (r: Result<
        Option<u32>,
        AssignError,
    >)
        requires
            self.wf(),
        ensures
            r is Err <==> dists.len() != self.spec_num_centroids(),
            r is Err ==> r == Err::<Option<u32>, AssignError>(AssignError::DistanceCountMismatch),
            r matches Ok(o) ==> o == spec_assign(
                self.overrides(),
                row_id,
                dists@,
                self.spec_start(),
                self.spec_end(),
            ),
            r matches Ok(Some(p)) ==> self.overrides().contains_key(row_id) ==> p
                == self.overrides()[row_id],
            r matches Ok(Some(p)) ==> !self.overrides().contains_key(row_id) ==> is_nearest(
                dists@,
                p as int,
            ),
    {
        if dists.len() != self.num_centroids {
            return Err(AssignError::DistanceCountMismatch);
        }
        let mut part: Option<u32> = None;
        match &self.precomputed {
            Some(m) => {
                match m.get(&row_id) {
                    Some(p) => {
                        part = Some(*p);
                    },
                    None => {},
                }
            },
            None => {},
        }
        let p: u32 = match part {
            Some(p) => p,
            None => nearest_centroid(dists) as u32,
        };
        if self.start <= p && p < self.end {
            Ok(Some(p))
        } else {
            Ok(None)
        }
    }
}

impl IvfModel {
    /// Transforms one batch, given per row its id, its distance to each
    /// centroid and its code: keeps the rows whose partition lies in the
    /// model's range, in batch order, each with its partition and code. The
    /// batch succeeds or fails whole.
    pub fn assign_batch(
        &self,
        row_ids: &Vec<u64>,
        dists: &Vec<Vec<u32>>,
        codes: &Vec<Vec<u8>>,
        code_width: usize,
    ) -> (r: Result<Vec<ShuffleRow>, AssignError>)
        requires
            self.wf(),
        ensures
            r == Err::<Vec<ShuffleRow>, AssignError>(AssignError::ColumnLengthMismatch) <==> (
            dists.len() != row_ids.len() || codes.len() != row_ids.len()),
            r == Err::<Vec<ShuffleRow>, AssignError>(AssignError::DistanceCountMismatch) <==> (
            dists.len() == row_ids.len() && codes.len() == row_ids.len() && exists|i: int|
                0 <= i < dists.len() && (#[trigger] dists[i]).len() != self.spec_num_centroids()),
            r == Err::<Vec<ShuffleRow>, AssignError>(AssignError::CodeWidthMismatch) <==> (
            dists.len() == row_ids.len() && codes.len() == row_ids.len() && (forall|i: int|
                0 <= i < dists.len() ==> (#[trigger] dists[i]).len() == self.spec_num_centroids())
                && exists|i: int| 0 <= i < codes.len() && (#[trigger] codes[i]).len() != code_width),
            r is Err ==> r == Err::<Vec<ShuffleRow>, AssignError>(AssignError::ColumnLengthMismatch)
                || r == Err::<Vec<ShuffleRow>, AssignError>(AssignError::DistanceCountMismatch)
                || r == Err::<Vec<ShuffleRow>, AssignError>(AssignError::CodeWidthMismatch),
            r matches Ok(rows) ==> rows_model(rows@) == spec_assign_batch(
                self.overrides(),
                self.spec_start(),
                self.spec_end(),
                row_ids@,
                dists@.map_values(|d: Vec<u32>| d@),
                codes@.map_values(|c: Vec<u8>| c@),
            ),
            r matches Ok(rows) ==> forall|i: int|
                0 <= i < rows.len() ==> (#[trigger] rows[i]).code.len() == code_width,
    {
        if dists.len() != row_ids.len() || codes.len() != row_ids.len() {
            return Err(AssignError::ColumnLengthMismatch);
        }
        let mut i: usize = 0;
        while i < dists.len()
            invariant
                i <= dists.len(),
                dists.len() == row_ids.len(),
                codes.len() == row_ids.len(),
                forall|j: int| 0 <= j < i ==> (#[trigger] dists[j]).len() == self.spec_num_centroids(),
            decreases dists.len() - i,
        {
            if dists[i].len() != self.num_centroids {
                proof {
                    assert(dists[i as int].len() != self.spec_num_centroids());
                }
                return Err(AssignError::DistanceCountMismatch);
            }
            i = i + 1;
        }
        let mut i: usize = 0;
        while i < codes.len()
            invariant
                i <= codes.len(),
                dists.len() == row_ids.len(),
                codes.len() == row_ids.len(),
                forall|j: int| 0 <= j < dists.len() ==> (#[trigger] dists[j]).len() == self.spec_num_centroids(),
                forall|j: int| 0 <= j < i ==> (#[trigger] codes[j]).len() == code_width,
            decreases codes.len() - i,
        {
            if codes[i].len() != code_width {
                proof {
                    assert(codes[i as int].len() != code_width);
                }
                return Err(AssignError::CodeWidthMismatch);
            }
            i = i + 1;
        }
        let ghost dm = dists@.map_values(|d: Vec<u32>| d@);
        let ghost cm = codes@.map_values(|c: Vec<u8>| c@);
        let mut out: Vec<ShuffleRow> = Vec::new();
        let mut i: usize = 0;
        proof {
            assert(rows_model(out@) =~= Seq::<RowModel>::empty());
            assert(row_ids@.take(0) =~= Seq::<u64>::empty());
        }
        while i < row_ids.len()
            invariant
                self.wf(),
                i <= row_ids.len(),
                dists.len() == row_ids.len(),
                codes.len() == row_ids.len(),
                dm == dists@.map_values(|d: Vec<u32>| d@),
                cm == codes@.map_values(|c: Vec<u8>| c@),
                forall|j: int| 0 <= j < dists.len() ==> (#[trigger] dists[j]).len() == self.spec_num_centroids(),
                forall|j: int| 0 <= j < codes.len() ==> (#[trigger] codes[j]).len() == code_width,
                forall|j: int| 0 <= j < out.len() ==> (#[trigger] out[j]).code.len() == code_width,
                rows_model(out@) == spec_assign_batch(
                    self.overrides(),
                    self.start,
                    self.end,
                    row_ids@.take(i as int),
                    dm.take(i as int),
                    cm.take(i as int),
                ),
            decreases row_ids.len() - i,
        {
            proof {
                assert(row_ids@.take(i + 1).drop_last() =~= row_ids@.take(i as int));
                assert(dm.take(i + 1).take(i as int) =~= dm.take(i as int));
                assert(cm.take(i + 1).take(i as int) =~= cm.take(i as int));
                assert(dm.take(i + 1)[i as int] == dists[i as int]@);
                assert(cm.take(i + 1)[i as int] == codes[i as int]@);
            }
            match self.assign_row(row_ids[i], &dists[i]) {
                Ok(Some(p)) => {
                    let row = ShuffleRow { row_id: row_ids[i], part_id: p, code: codes[i].clone() };
                    proof {
                        lemma_rows_model_push(out@, row);
                    }
                    out.push(row);
                },
                _ => {},
            }
            i = i + 1;
        }
        proof {
            assert(row_ids@.take(row_ids.len() as int) == row_ids@);
            assert(dm.take(row_ids.len() as int) == dm);
            assert(cm.take(row_ids.len() as int) == cm);
        }
        Ok(out)
    }
}

} // verus!
