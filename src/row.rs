use vstd::prelude::*;

verus! {

/// What a row is, mathematically: its row id, its partition id and its code.
pub type RowModel = (u64, u32, Seq<u8>);

/// One row after partition assignment: its stable id, the partition it was
/// assigned to and its product-quantized code.
pub struct ShuffleRow {
    pub row_id: u64,
    pub part_id: u32,
    pub code: Vec<u8>,
}

impl View for ShuffleRow {
    type V = RowModel;

    open spec fn view(&self) -> RowModel {
        (self.row_id, self.part_id, self.code@)
    }
}

/// The rows of a sequence, each by its model.
pub open spec fn rows_model(rows: Seq<ShuffleRow>) -> Seq<RowModel> {
    rows.map_values(|r: ShuffleRow| r@)
}

/// Holds of the rows of partition `p`.
pub open spec fn part_is(p: int) -> spec_fn(RowModel) -> bool {
    |r: RowModel| r.1 as int == p
}

/// The rows of `rows` that belong to partition `p`, in their order.
pub open spec fn rows_of_partition(rows: Seq<RowModel>, p: int) -> Seq<RowModel> {
    rows.filter(part_is(p))
}

/// Every row's partition id lies below `num_partitions`.
pub open spec fn parts_below(rows: Seq<RowModel>, num_partitions: int) -> bool {
    forall|i: int| 0 <= i < rows.len() ==> (#[trigger] rows[i]).1 < num_partitions
}

impl ShuffleRow {
    /// A row with the same id, partition id and code.
    pub fn duplicate(&self) -> (r: ShuffleRow)
        ensures
            r@ == self@,
    {
        ShuffleRow { row_id: self.row_id, part_id: self.part_id, code: self.code.clone() }
    }
}

pub proof fn lemma_rows_model_push(rows: Seq<ShuffleRow>, r: ShuffleRow)
    ensures
        rows_model(rows.push(r)) == rows_model(rows).push(r@),
{
    assert(rows_model(rows.push(r)) =~= rows_model(rows).push(r@));
}

pub proof fn lemma_rows_model_add(a: Seq<ShuffleRow>, b: Seq<ShuffleRow>)
    ensures
        rows_model(a + b) == rows_model(a) + rows_model(b),
{
    assert(rows_model(a + b) =~= rows_model(a) + rows_model(b));
}

} // verus!
