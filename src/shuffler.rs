use vstd::prelude::*;

use crate::row::{lemma_rows_model_add, parts_below, rows_model, RowModel, ShuffleRow};
use crate::shuffle::{
    bucketed, lemma_merge_of_buckets, merge_buckets, partition_into_buckets, partitioned,
    spec_bucket_count,
};

verus! {

/// Why the staged shuffler refused its input.
#[derive(Debug, Clone, Copy, PartialEq, Eq)]
pub enum ShuffleError {
    /// A row's partition id is out of range, or its code has the wrong width.
    InvalidRow,
    /// A chunk size or fan-out factor of zero.
    InvalidParameter,
    /// Buckets whose number does not match their fan-out factor.
    BucketLayoutMismatch,
}

/// A row fits a shuffler of `num_partitions` partitions and codes of
/// `code_width` bytes.
pub open spec fn row_fits(r: RowModel, num_partitions: int, code_width: int) -> bool {
    r.1 < num_partitions && r.2.len() == code_width
}

pub open spec fn rows_fit(rows: Seq<RowModel>, num_partitions: int, code_width: int) -> bool {
    forall|i: int| 0 <= i < rows.len() ==> row_fits(#[trigger] rows[i], num_partitions, code_width)
}

/// The intermediate buckets, with the fan-out factor they were made with.
pub struct PartitionedShuffles {
    pub fan_out: usize,
    pub buckets: Vec<Vec<ShuffleRow>>,
}

impl PartitionedShuffles {
    pub open spec fn buckets_model(&self) -> Seq<Seq<RowModel>> {
        self.buckets@.map_values(|v: Vec<ShuffleRow>| rows_model(v@))
    }
}

/// A three-phase shuffler: rows are staged unsorted, then distributed into a
/// fixed number of buckets, then merged into one group per partition id.
pub struct IvfShuffler {
    num_partitions: u32,
    num_sub_vectors: usize,
    staged: Vec<ShuffleRow>,
}

impl IvfShuffler {
    pub closed spec fn spec_num_partitions(&self) -> int {
        self.num_partitions as int
    }

    pub closed spec fn spec_num_sub_vectors(&self) -> int {
        self.num_sub_vectors as int
    }

    /// The rows staged so far, in staging order.
    pub closed spec fn staged_rows(&self) -> Seq<RowModel> {
        rows_model(self.staged@)
    }

    /// Every staged row fits the shuffler.
    pub closed spec fn wf(&self) -> bool {
        rows_fit(rows_model(self.staged@), self.num_partitions as int, self.num_sub_vectors as int)
    }

    /// An empty shuffler for `num_partitions` partitions and codes of
    /// `num_sub_vectors` bytes.
    pub fn try_new(num_partitions: u32, num_sub_vectors: usize) -> (r: IvfShuffler)
        ensures
            r.wf(),
            r.spec_num_partitions() == num_partitions,
            r.spec_num_sub_vectors() == num_sub_vectors,
            r.staged_rows() == Seq::<RowModel>::empty(),
    {
        let r = IvfShuffler { num_partitions, num_sub_vectors, staged: Vec::new() };
        proof {
            assert(rows_model(r.staged@) =~= Seq::<RowModel>::empty());
        }
        r
    }

    pub fn num_partitions(&self) -> (r: u32)
        ensures
            r == self.spec_num_partitions(),
    {
        self.num_partitions
    }

    /// The stage phase: appends a batch of rows, unsorted, to the staging
    /// area. The batch is staged whole, or, if one of its rows does not fit,
    /// not at all.
    pub fn write_unsorted_stream(&mut self, batch: Vec<ShuffleRow>) -> (r: Result<(), ShuffleError>)
        requires
            old(self).wf(),
        ensures
            final(self).wf(),
            final(self).spec_num_partitions() == old(self).spec_num_partitions(),
            final(self).spec_num_sub_vectors() == old(self).spec_num_sub_vectors(),
            r is Ok <==> rows_fit(
                rows_model(batch@),
                old(self).spec_num_partitions(),
                old(self).spec_num_sub_vectors(),
            ),
            r is Ok ==> final(self).staged_rows() == old(self).staged_rows() + rows_model(batch@),
            r is Err ==> r == Err::<(), ShuffleError>(ShuffleError::InvalidRow),
            r is Err ==> final(self).staged_rows() == old(self).staged_rows(),
    {
        let mut i: usize = 0;
        while i < batch.len()
            invariant
                i <= batch.len(),
                *self == *old(self),
                self.wf(),
                forall|j: int|
                    0 <= j < i ==> row_fits(
                        #[trigger] rows_model(batch@)[j],
                        self.num_partitions as int,
                        self.num_sub_vectors as int,
                    ),
            decreases batch.len() - i,
        {
            if batch[i].part_id >= self.num_partitions || batch[i].code.len() != self.num_sub_vectors {
                proof {
                    assert(!row_fits(
                        rows_model(batch@)[i as int],
                        self.num_partitions as int,
                        self.num_sub_vectors as int,
                    ));
                }
                return Err(ShuffleError::InvalidRow);
            }
            i = i + 1;
        }
        let mut batch = batch;
        let ghost before = self.staged@;
        let ghost added = batch@;
        self.staged.append(&mut batch);
        proof {
            lemma_rows_model_add(before, added);
        }
        Ok(())
    }

    /// The bucket phase: reads the staged rows `chunk_size` at a time and
    /// distributes them over one bucket per `fan_out` consecutive partition
    /// ids.
    pub fn write_partitioned_shuffles(&self, chunk_size: usize, fan_out: usize) -> (r: Result<
        PartitionedShuffles,
        ShuffleError,
    >)
        requires
            self.wf(),
        ensures
            r is Err <==> chunk_size == 0 || fan_out == 0,
            r is Err ==> r == Err::<PartitionedShuffles, ShuffleError>(
                ShuffleError::InvalidParameter,
            ),
            r matches Ok(s) ==> s.fan_out == fan_out && s.buckets_model() == bucketed(
                self.staged_rows(),
                self.spec_num_partitions(),
                fan_out as int,
            ),
    {
        if chunk_size == 0 || fan_out == 0 {
            return Err(ShuffleError::InvalidParameter);
        }
        proof {
            assert(parts_below(rows_model(self.staged@), self.num_partitions as int)) by {
                assert forall|i: int| 0 <= i < rows_model(self.staged@).len() implies (
                #[trigger] rows_model(self.staged@)[i]).1 < self.num_partitions as int by {
                    assert(row_fits(
                        rows_model(self.staged@)[i],
                        self.num_partitions as int,
                        self.num_sub_vectors as int,
                    ));
                }
            }
        }
        let buckets = partition_into_buckets(&self.staged, self.num_partitions, chunk_size, fan_out);
        Ok(PartitionedShuffles { fan_out, buckets })
    }

    /// The merge phase: one group per partition id, in ascending order, each
    /// gathered from the bucket that holds that partition.
    pub fn load_partitioned_shuffles(&self, shuffles: &PartitionedShuffles) -> (r: Result<
        Vec<Vec<ShuffleRow>>,
        ShuffleError,
    >)
        ensures
            r is Err <==> shuffles.fan_out == 0 || shuffles.buckets.len() != spec_bucket_count(
                self.spec_num_partitions(),
                shuffles.fan_out as int,
            ),
            r is Err ==> r == Err::<Vec<Vec<ShuffleRow>>, ShuffleError>(
                ShuffleError::BucketLayoutMismatch,
            ),
            r matches Ok(parts) ==> parts@.map_values(|v: Vec<ShuffleRow>| rows_model(v@))
                == crate::shuffle::merged(
                shuffles.buckets_model(),
                self.spec_num_partitions(),
                shuffles.fan_out as int,
            ),
    {
        if shuffles.fan_out == 0 {
            return Err(ShuffleError::BucketLayoutMismatch);
        }
        let expected = crate::shuffle::bucket_count(self.num_partitions, shuffles.fan_out);
        if shuffles.buckets.len() != expected {
            return Err(ShuffleError::BucketLayoutMismatch);
        }
        Ok(merge_buckets(&shuffles.buckets, self.num_partitions, shuffles.fan_out))
    }

    /// All three phases after staging: partition `p` of the result holds the
    /// staged rows of `p`, in staging order, whatever the chunk size and
    /// fan-out factor.
    pub fn shuffle(&self, chunk_size: usize, fan_out: usize) -> (r: Result<
        Vec<Vec<ShuffleRow>>,
        ShuffleError,
    >)
        requires
            self.wf(),
        ensures
            r is Err <==> chunk_size == 0 || fan_out == 0,
            r is Err ==> r == Err::<Vec<Vec<ShuffleRow>>, ShuffleError>(
                ShuffleError::InvalidParameter,
            ),
            r matches Ok(parts) ==> parts@.map_values(|v: Vec<ShuffleRow>| rows_model(v@))
                == partitioned(self.staged_rows(), self.spec_num_partitions()),
    {
        let shuffles = match self.write_partitioned_shuffles(chunk_size, fan_out) {
            Ok(s) => s,
            Err(e) => {
                return Err(e);
            },
        };
        let ghost models = shuffles.buckets@.map_values(|v: Vec<ShuffleRow>| rows_model(v@));
        proof {
            assert(shuffles.buckets.len() == models.len());
            lemma_merge_of_buckets(self.staged_rows(), self.spec_num_partitions(), fan_out as int);
        }
        match self.load_partitioned_shuffles(&shuffles) {
            Ok(parts) => Ok(parts),
            Err(_) => Err(ShuffleError::BucketLayoutMismatch),
        }
    }
}

} // verus!
