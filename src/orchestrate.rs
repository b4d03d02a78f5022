use std::collections::HashMap;
use vstd::prelude::*;

use crate::assign::{spec_assign_batch, AssignError, IvfModel};
use crate::dataset::{batches_model, shuffle_dataset_v2};
use crate::row::{rows_model, RowModel, ShuffleRow};
use crate::shuffle::partitioned;
use crate::shuffler::{rows_fit, ShuffleError};

verus! {

/// Name of the row id column.
pub const ROW_ID: &'static str = "_rowid";

/// Some field of the schema has this name.
pub open spec fn has_field(field_names: Seq<String>, name: Seq<char>) -> bool {
    exists|i: int| 0 <= i < field_names.len() && (#[trigger] field_names[i])@ == name
}

/// A column that a build needs is missing from its input.
#[derive(Debug, Clone, Copy, PartialEq, Eq)]
pub enum SchemaError {
    MissingVectorColumn,
    MissingRowId,
}

/// Why a build failed.
#[derive(Debug, Clone, Copy, PartialEq, Eq)]
pub enum BuildError {
    Schema(SchemaError),
    Assign(AssignError),
    Shuffle(ShuffleError),
}

fn has_column(field_names: &Vec<String>, name: &String) -> (r: bool)
    ensures
        r == has_field(field_names@, name@),
{
    let mut i: usize = 0;
    while i < field_names.len()
        invariant
            i <= field_names.len(),
            forall|j: int| 0 <= j < i ==> (#[trigger] field_names[j])@ != name@,
        decreases field_names.len() - i,
    {
        if field_names[i] == *name {
            return true;
        }
        i = i + 1;
    }
    false
}

/// Checks that the input holds the vector column and the row id column.
pub fn validate_schema(field_names: &Vec<String>, column: &String) -> (r: Result<(), SchemaError>)
    ensures
        r == Err::<(), SchemaError>(SchemaError::MissingVectorColumn) <==> !has_field(
            field_names@,
            column@,
        ),
        r == Err::<(), SchemaError>(SchemaError::MissingRowId) <==> has_field(
            field_names@,
            column@,
        ) && !has_field(field_names@, ROW_ID@),
        r is Ok <==> has_field(field_names@, column@) && has_field(field_names@, ROW_ID@),
{
    if !has_column(field_names, column) {
        return Err(SchemaError::MissingVectorColumn);
    }
    let row_id = ROW_ID.to_owned();
    if !has_column(field_names, &row_id) {
        return Err(SchemaError::MissingRowId);
    }
    Ok(())
}

/// One input batch, as the assigner reads it: per row its id, its distance
/// to each centroid and its code.
pub struct BatchInput {
    pub row_ids: Vec<u64>,
    pub dists: Vec<Vec<u32>>,
    pub codes: Vec<Vec<u8>>,
}

/// The rows a batch turns into under the given model.
pub open spec fn batch_rows(
    overrides: Map<u64, u32>,
    start: u32,
    end: u32,
    input: BatchInput,
) -> Seq<RowModel> {
    spec_assign_batch(
        overrides,
        start,
        end,
        input.row_ids@,
        input.dists@.map_values(|d: Vec<u32>| d@),
        input.codes@.map_values(|c: Vec<u8>| c@),
    )
}

/// The rows a stream of batches turns into, batch after batch.
pub open spec fn transformed(
    overrides: Map<u64, u32>,
    start: u32,
    end: u32,
    inputs: Seq<BatchInput>,
) -> Seq<RowModel> {
    inputs.map_values(|b: BatchInput| batch_rows(overrides, start, end, b)).flatten()
}

/// A batch that the assigner takes: columns of one length, one distance per
/// centroid and codes of the quantizer's width.
pub open spec fn batch_ok(input: BatchInput, num_centroids: int, code_width: int) -> bool {
    &&& input.dists.len() == input.row_ids.len()
    &&& input.codes.len() == input.row_ids.len()
    &&& forall|i: int| 0 <= i < input.dists.len() ==> (#[trigger] input.dists[i]).len() == num_centroids
    &&& forall|i: int| 0 <= i < input.codes.len() ==> (#[trigger] input.codes[i]).len() == code_width
}

/// The precomputed assignments, by row id.
pub open spec fn overrides_of(precomputed: Option<HashMap<u64, u32>>) -> Map<u64, u32> {
    match precomputed {
        Some(m) => m@,
        None => Map::empty(),
    }
}

/// Builds the partitions `part_start .. part_end` of an index over
/// `num_centroids` centroids: checks the schema before anything else, assigns
/// every batch, then shuffles the rows through the staged shuffler. Partition
/// `p` of the result holds the rows assigned to `p`, in arrival order.
pub fn build_partitions(
    field_names: &Vec<String>,
    column: &String,
    inputs: &Vec<BatchInput>,
    num_centroids: usize,
    part_start: u32,
    part_end: u32,
    precomputed: Option<HashMap<u64, u32>>,
    num_sub_vectors: usize,
) -> (r: Result<Vec<Vec<ShuffleRow>>, BuildError>)
    ensures
        !has_field(field_names@, column@) ==> r == Err::<Vec<Vec<ShuffleRow>>, BuildError>(
            BuildError::Schema(SchemaError::MissingVectorColumn),
        ),
        has_field(field_names@, column@) && !has_field(field_names@, ROW_ID@) ==> r == Err::<
            Vec<Vec<ShuffleRow>>,
            BuildError,
        >(BuildError::Schema(SchemaError::MissingRowId)),
        r matches Err(BuildError::Schema(_)) ==> !(has_field(field_names@, column@) && has_field(
            field_names@,
            ROW_ID@,
        )),
        r matches Err(BuildError::Assign(_)) <==> has_field(field_names@, column@) && has_field(
            field_names@,
            ROW_ID@,
        ) && (!(1 <= num_centroids <= 0xFFFF_FFFF && part_start <= part_end) || exists|i: int|
            0 <= i < inputs.len() && !batch_ok(
                #[trigger] inputs[i],
                num_centroids as int,
                num_sub_vectors as int,
            )),
        r matches Err(BuildError::Shuffle(e)) ==> e == ShuffleError::InvalidRow && !rows_fit(
            transformed(overrides_of(precomputed), part_start, part_end, inputs@),
            num_centroids as int,
            num_sub_vectors as int,
        ),
        r is Ok <==> has_field(field_names@, column@) && has_field(field_names@, ROW_ID@) && 1
            <= num_centroids <= 0xFFFF_FFFF && part_start <= part_end && (forall|i: int|
            0 <= i < inputs.len() ==> batch_ok(
                #[trigger] inputs[i],
                num_centroids as int,
                num_sub_vectors as int,
            )) && rows_fit(
            transformed(overrides_of(precomputed), part_start, part_end, inputs@),
            num_centroids as int,
            num_sub_vectors as int,
        ),
        r matches Ok(parts) ==> parts@.map_values(|v: Vec<ShuffleRow>| rows_model(v@))
            == partitioned(
            transformed(overrides_of(precomputed), part_start, part_end, inputs@),
            num_centroids as int,
        ),
{
    match validate_schema(field_names, column) {
        Ok(()) => {},
        Err(e) => {
            return Err(BuildError::Schema(e));
        },
    }
    let ghost ov = overrides_of(precomputed);
    let model = match IvfModel::try_new(num_centroids, part_start, part_end, precomputed) {
        Ok(m) => m,
        Err(e) => {
            return Err(BuildError::Assign(e));
        },
    };
    let ghost f = |b: BatchInput| batch_rows(ov, part_start, part_end, b);
    let mut batches: Vec<Vec<ShuffleRow>> = Vec::new();
    let mut i: usize = 0;
    proof {
        assert(inputs@.take(0).map_values(f) =~= Seq::<Seq<RowModel>>::empty());
        assert(batches@.map_values(|b: Vec<ShuffleRow>| rows_model(b@)) =~= Seq::<
            Seq<RowModel>,
        >::empty());
    }
    while i < inputs.len()
        invariant
            i <= inputs.len(),
            has_field(field_names@, column@),
            has_field(field_names@, ROW_ID@),
            ov == overrides_of(precomputed),
            model.wf(),
            model.overrides() == ov,
            model.spec_num_centroids() == num_centroids,
            model.spec_start() == part_start,
            model.spec_end() == part_end,
            f == (|b: BatchInput| batch_rows(ov, part_start, part_end, b)),
            forall|j: int|
                0 <= j < i ==> batch_ok(#[trigger] inputs[j], num_centroids as int, num_sub_vectors as int),
            batches_model(batches@) == inputs@.take(i as int).map_values(f).flatten(),
        decreases inputs.len() - i,
    {
        let input = &inputs[i];
        match model.assign_batch(&input.row_ids, &input.dists, &input.codes, num_sub_vectors) {
            Ok(rows) => {
                proof {
                    assert(inputs@.take(i + 1).map_values(f) =~= inputs@.take(i as int).map_values(
                        f,
                    ).push(f(inputs[i as int])));
                    inputs@.take(i as int).map_values(f).lemma_flatten_push(f(inputs[i as int]));
                    let g = |b: Vec<ShuffleRow>| rows_model(b@);
                    assert(batches@.push(rows).map_values(g) =~= batches@.map_values(g).push(
                        rows_model(rows@),
                    ));
                    batches@.map_values(g).lemma_flatten_push(rows_model(rows@));
                    assert(batch_ok(inputs[i as int], num_centroids as int, num_sub_vectors as int));
                }
                batches.push(rows);
            },
            Err(e) => {
                proof {
                    assert(!batch_ok(inputs[i as int], num_centroids as int, num_sub_vectors as int));
                }
                return Err(BuildError::Assign(e));
            },
        }
        i = i + 1;
    }
    proof {
        assert(inputs@.take(inputs.len() as int) == inputs@);
    }
    match shuffle_dataset_v2(batches, num_centroids as u32, num_sub_vectors) {
        Ok(parts) => Ok(parts),
        Err(e) => Err(BuildError::Shuffle(e)),
    }
}

} // verus!
