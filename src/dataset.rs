use vstd::prelude::*;

use crate::group::{groups_of, over_budget, sort_and_group, GroupError, PartitionGroup};
use crate::row::{lemma_rows_model_add, rows_model, RowModel, ShuffleRow};
use crate::shuffle::partitioned;
use crate::shuffler::{rows_fit, IvfShuffler, ShuffleError};

verus! {

/// Rows per chunk read back in the bucket phase.
pub const SHUFFLE_CHUNK_SIZE: usize = 10000;

/// Consecutive partition ids that share one bucket.
pub const SHUFFLE_FAN_OUT: usize = 2;

/// The rows of a stream of batches, batch after batch.
pub open spec fn batches_model(batches: Seq<Vec<ShuffleRow>>) -> Seq<RowModel> {
    batches.map_values(|b: Vec<ShuffleRow>| rows_model(b@)).flatten()
}

proof fn lemma_batches_model_step(batches: Seq<Vec<ShuffleRow>>, i: int)
    requires
        0 <= i < batches.len(),
    ensures
        batches_model(batches.take(i + 1)) == batches_model(batches.take(i)) + rows_model(
            batches[i]@,
        ),
{
    let f = |b: Vec<ShuffleRow>| rows_model(b@);
    assert(batches.take(i + 1).map_values(f) =~= batches.take(i).map_values(f).push(
        rows_model(batches[i]@),
    ));
    batches.take(i).map_values(f).lemma_flatten_push(rows_model(batches[i]@));
}

proof fn lemma_batches_model_empty(batches: Seq<Vec<ShuffleRow>>)
    ensures
        batches_model(batches.take(0)) == Seq::<RowModel>::empty(),
{
    let f = |b: Vec<ShuffleRow>| rows_model(b@);
    assert(batches.take(0).map_values(f) =~= Seq::<Seq<RowModel>>::empty());
}

/// Shuffles transformed batches in memory: sorts all rows by partition id,
/// keeping arrival order among equal ids, and groups each partition's rows.
/// Fails when a memory budget is given and the rows exceed it.
pub fn shuffle_dataset(batches: Vec<Vec<ShuffleRow>>, memory_limit: Option<usize>) -> (r: Result<
    Vec<PartitionGroup>,
    GroupError,
>)
    ensures
        r is Err <==> over_budget(batches_model(batches@), memory_limit),
        r is Err ==> r == Err::<Vec<PartitionGroup>, GroupError>(GroupError::ResourcesExhausted),
        r matches Ok(groups) ==> groups_of(groups@, batches_model(batches@)),
{
    let ghost orig = batches@;
    let mut work = batches;
    let mut all: Vec<ShuffleRow> = Vec::new();
    let mut i: usize = 0;
    proof {
        lemma_batches_model_empty(orig);
        assert(rows_model(all@) =~= Seq::<RowModel>::empty());
    }
    while i < work.len()
        invariant
            i <= work.len() == orig.len(),
            orig == batches@,
            forall|j: int| i <= j < work.len() ==> (#[trigger] work[j]) == orig[j],
            rows_model(all@) == batches_model(orig.take(i as int)),
        decreases work.len() - i,
    {
        let mut b: Vec<ShuffleRow> = Vec::new();
        std::mem::swap(&mut b, &mut work[i]);
        let ghost before = all@;
        let ghost added = b@;
        all.append(&mut b);
        proof {
            lemma_rows_model_add(before, added);
            lemma_batches_model_step(orig, i as int);
        }
        i = i + 1;
    }
    proof {
        assert(orig.take(orig.len() as int) == orig);
    }
    sort_and_group(&all, memory_limit)
}

/// Shuffles transformed batches through the staged shuffler: every batch is
/// staged, then bucketed and merged. Partition `p` of the result holds the
/// rows of `p` in arrival order. Fails, staging nothing further, at the first
/// row whose partition id or code width does not fit.
pub fn shuffle_dataset_v2(
    batches: Vec<Vec<ShuffleRow>>,
    num_partitions: u32,
    num_sub_vectors: usize,
) -> (r: Result<Vec<Vec<ShuffleRow>>, ShuffleError>)
    ensures
        r is Err <==> !rows_fit(batches_model(batches@), num_partitions as int, num_sub_vectors as int),
        r is Err ==> r == Err::<Vec<Vec<ShuffleRow>>, ShuffleError>(ShuffleError::InvalidRow),
        r matches Ok(parts) ==> parts@.map_values(|v: Vec<ShuffleRow>| rows_model(v@))
            == partitioned(batches_model(batches@), num_partitions as int),
{
    let ghost orig = batches@;
    let mut work = batches;
    let mut shuffler = IvfShuffler::try_new(num_partitions, num_sub_vectors);
    let mut i: usize = 0;
    proof {
        lemma_batches_model_empty(orig);
    }
    while i < work.len()
        invariant
            i <= work.len() == orig.len(),
            orig == batches@,
            forall|j: int| i <= j < work.len() ==> (#[trigger] work[j]) == orig[j],
            shuffler.wf(),
            shuffler.spec_num_partitions() == num_partitions,
            shuffler.spec_num_sub_vectors() == num_sub_vectors,
            shuffler.staged_rows() == batches_model(orig.take(i as int)),
            rows_fit(batches_model(orig.take(i as int)), num_partitions as int, num_sub_vectors as int),
        decreases work.len() - i,
    {
        let mut b: Vec<ShuffleRow> = Vec::new();
        std::mem::swap(&mut b, &mut work[i]);
        proof {
            lemma_batches_model_step(orig, i as int);
        }
        let ghost bm = rows_model(b@);
        match shuffler.write_unsorted_stream(b) {
            Ok(()) => {},
            Err(e) => {
                proof {
                    let n = num_partitions as int;
                    let w = num_sub_vectors as int;
                    if rows_fit(batches_model(orig), n, w) {
                        lemma_prefix_fit(orig, i as int + 1, n, w);
                        let pre = batches_model(orig.take(i as int));
                        assert(bm == rows_model(orig[i as int]@));
                        assert(batches_model(orig.take(i + 1)) == pre + bm);
                        assert forall|j: int| 0 <= j < bm.len() implies crate::shuffler::row_fits(
                            #[trigger] bm[j],
                            n,
                            w,
                        ) by {
                            assert(bm[j] == (pre + bm)[pre.len() + j]);
                        }
                        assert(false);
                    }
                }
                return Err(e);
            },
        }
        i = i + 1;
    }
    proof {
        assert(orig.take(orig.len() as int) == orig);
    }
    match shuffler.shuffle(SHUFFLE_CHUNK_SIZE, SHUFFLE_FAN_OUT) {
        Ok(parts) => Ok(parts),
        Err(_) => Err(ShuffleError::InvalidParameter),
    }
}

/// Rows that do not all fit in a prefix of the batches do not all fit in the
/// whole.
proof fn lemma_prefix_fit(batches: Seq<Vec<ShuffleRow>>, k: int, n: int, w: int)
    requires
        0 <= k <= batches.len(),
        rows_fit(batches_model(batches), n, w),
    ensures
        rows_fit(batches_model(batches.take(k)), n, w),
    decreases batches.len() - k,
{
    if k < batches.len() {
        lemma_prefix_fit(batches, k + 1, n, w);
        lemma_batches_model_step(batches, k);
        let a = batches_model(batches.take(k));
        let b = batches_model(batches.take(k + 1));
        assert forall|i: int| 0 <= i < a.len() implies crate::shuffler::row_fits(#[trigger] a[i], n, w) by {
            assert(a[i] == b[i]);
        }
    } else {
        assert(batches.take(k) == batches);
    }
}

} // verus!
