use vstd::prelude::*;

use crate::row::{part_is, rows_model, rows_of_partition, RowModel, ShuffleRow};
use crate::shuffle::collect_partition;

verus! {

broadcast use vstd::seq_lib::group_seq_properties;

/// Bytes a row takes in the working set: its row id, its partition id and
/// its code.
pub open spec fn row_bytes(r: RowModel) -> int {
    12 + r.2.len() as int
}

/// Bytes that a sort of `rows` holds at once.
pub open spec fn working_set(rows: Seq<RowModel>) -> int
    decreases rows.len(),
{
    if rows.len() == 0 {
        0
    } else {
        working_set(rows.drop_last()) + row_bytes(rows.last())
    }
}

/// A budget of `limit` bytes is exceeded by `rows`; no budget never is.
pub open spec fn over_budget(rows: Seq<RowModel>, memory_limit: Option<usize>) -> bool {
    match memory_limit {
        Some(l) => working_set(rows) > l,
        None => false,
    }
}

/// The rows of one partition.
pub struct PartitionGroup {
    pub part_id: u32,
    pub rows: Vec<ShuffleRow>,
}

/// Groups of `rows`: ascending, distinct partition ids, each group non-empty
/// and holding exactly the rows of its partition in input order, and every
/// row's partition present.
pub open spec fn groups_of(groups: Seq<PartitionGroup>, rows: Seq<RowModel>) -> bool {
    &&& forall|k: int|
        0 <= k < groups.len() ==> rows_model((#[trigger] groups[k]).rows@) == rows_of_partition(
            rows,
            groups[k].part_id as int,
        )
    &&& forall|k: int| 0 <= k < groups.len() ==> (#[trigger] groups[k]).rows.len() > 0
    &&& forall|k1: int, k2: int|
        0 <= k1 < k2 < groups.len() ==> (#[trigger] groups[k1]).part_id < (#[trigger] groups[k2]).part_id
    &&& forall|i: int| 0 <= i < rows.len() ==> has_group(groups, (#[trigger] rows[i]).1)
}

/// Some group is that of partition `p`.
pub open spec fn has_group(groups: Seq<PartitionGroup>, p: u32) -> bool {
    exists|k: int| 0 <= k < groups.len() && (#[trigger] groups[k]).part_id == p
}

/// Why the in-memory shuffle failed.
#[derive(Debug, Clone, Copy, PartialEq, Eq)]
pub enum GroupError {
    /// The rows need more memory than the budget allows.
    ResourcesExhausted,
}

proof fn lemma_working_set_prefix(s: Seq<RowModel>, j: int)
    requires
        0 <= j <= s.len(),
    ensures
        working_set(s.take(j)) <= working_set(s),
    decreases s.len() - j,
{
    if j < s.len() {
        lemma_working_set_prefix(s, j + 1);
        assert(s.take(j + 1).drop_last() == s.take(j));
    }
    else {
        assert(s.take(j) == s);
    }
}

/// Whether the rows fit in the memory budget.
fn fits_budget(rows: &Vec<ShuffleRow>, memory_limit: Option<usize>) -> (r: bool)
    ensures
        r == !over_budget(rows_model(rows@), memory_limit),
{
    if memory_limit.is_none() {
        return true;
    }
    let l = memory_limit.unwrap();
    let ghost m = rows_model(rows@);
    let mut acc: usize = 0;
    let mut i: usize = 0;
    while i < rows.len()
        invariant
            i <= rows.len(),
            m == rows_model(rows@),
            acc == working_set(m.take(i as int)),
            acc <= l,
            memory_limit == Some(l),
        decreases rows.len() - i,
    {
        proof {
            assert(m.take(i + 1).drop_last() == m.take(i as int));
            assert(m[i as int] == rows@[i as int]@);
        }
        let c = rows[i].code.len();
        if c > l - acc || l - acc - c < 12 {
            proof {
                lemma_working_set_prefix(m, i + 1);
                assert(m.take(i + 1).last() == m[i as int]);
                assert(working_set(m.take(i + 1)) == acc + row_bytes(m[i as int]));
            }
            return false;
        }
        acc = acc + c + 12;
        i = i + 1;
    }
    proof {
        assert(m.take(rows.len() as int) == m);
    }
    true
}

/// The least partition id, at least `lower`, among the rows.
fn next_part_id(rows: &Vec<ShuffleRow>, lower: u64) -> (r: Option<u32>)
    ensures
        r matches Some(q) ==> q >= lower && (exists|i: int|
            0 <= i < rows.len() && (#[trigger] rows[i]).part_id == q) && forall|i: int|
            0 <= i < rows.len() && (#[trigger] rows[i]).part_id >= lower ==> q <= rows[i].part_id,
        r is None ==> forall|i: int| 0 <= i < rows.len() ==> (#[trigger] rows[i]).part_id < lower,
{
    let mut best: Option<u32> = None;
    let mut i: usize = 0;
    while i < rows.len()
        invariant
            i <= rows.len(),
            best matches Some(q) ==> q >= lower && (exists|j: int|
                0 <= j < i && (#[trigger] rows[j]).part_id == q) && forall|j: int|
                0 <= j < i && (#[trigger] rows[j]).part_id >= lower ==> q <= rows[j].part_id,
            best is None ==> forall|j: int| 0 <= j < i ==> (#[trigger] rows[j]).part_id < lower,
        decreases rows.len() - i,
    {
        let p = rows[i].part_id;
        if p as u64 >= lower {
            match best {
                Some(q) => {
                    if p < q {
                        best = Some(p);
                    }
                },
                None => {
                    best = Some(p);
                },
            }
        }
        i = i + 1;
    }
    best
}

/// Sorts rows by partition id, keeping input order among equal ids, and
/// groups each run of one id; fails when a memory budget is given and the
/// rows exceed it.
pub fn sort_and_group(rows: &Vec<ShuffleRow>, memory_limit: Option<usize>) -> (r: Result<
    Vec<PartitionGroup>,
    GroupError,
>)
    ensures
        r is Err <==> over_budget(rows_model(rows@), memory_limit),
        r is Err ==> r == Err::<Vec<PartitionGroup>, GroupError>(GroupError::ResourcesExhausted),
        r matches Ok(groups) ==> groups_of(groups@, rows_model(rows@)),
{
    if !fits_budget(rows, memory_limit) {
        return Err(GroupError::ResourcesExhausted);
    }
    let ghost m = rows_model(rows@);
    let mut groups: Vec<PartitionGroup> = Vec::new();
    let mut lower: u64 = 0;
    loop
        invariant
            lower <= 0x1_0000_0000,
            m == rows_model(rows@),
            !over_budget(m, memory_limit),
            forall|k: int|
                0 <= k < groups.len() ==> rows_model((#[trigger] groups[k]).rows@)
                    == rows_of_partition(m, groups[k].part_id as int),
            forall|k: int| 0 <= k < groups.len() ==> (#[trigger] groups[k]).rows.len() > 0,
            forall|k: int| 0 <= k < groups.len() ==> (#[trigger] groups[k]).part_id < lower,
            forall|k1: int, k2: int|
                0 <= k1 < k2 < groups.len() ==> (#[trigger] groups[k1]).part_id < (
                #[trigger] groups[k2]).part_id,
            forall|i: int|
                0 <= i < rows.len() && (#[trigger] rows[i]).part_id < lower ==> has_group(
                    groups@,
                    rows[i].part_id,
                ),
        decreases 0x1_0000_0000 - lower,
    {
        match next_part_id(rows, lower) {
            None => {
                proof {
                    assert forall|i: int| 0 <= i < m.len() implies has_group(
                        groups@,
                        (#[trigger] m[i]).1,
                    ) by {
                        assert(m[i] == rows@[i]@);
                        assert(rows[i].part_id < lower);
                    }

                }
                return Ok(groups);
            },
            Some(p) => {
                let part = collect_partition(rows, p);
                let ghost i0 = choose|i: int| 0 <= i < rows.len() && (#[trigger] rows[i]).part_id == p;
                proof {
                    assert(m[i0] == rows@[i0]@);
                    assert(m.contains(m[i0]));
                    m.lemma_filter_contains_rev(part_is(p as int), m[i0]);
                    assert(rows_model(part@).contains(m[i0]));
                    assert(part.len() > 0);
                }
                let ghost old_groups = groups@;
                groups.push(PartitionGroup { part_id: p, rows: part });
                proof {
                    assert forall|i: int|
                        0 <= i < rows.len() && (#[trigger] rows[i]).part_id < p + 1 implies has_group(
                        groups@,
                        rows[i].part_id,
                    ) by {
                        if rows[i].part_id == p {
                            assert(groups[groups.len() - 1].part_id == p);
                        } else {
                            let k = choose|k: int|
                                0 <= k < old_groups.len() && (#[trigger] old_groups[k]).part_id
                                    == rows[i].part_id;
                            assert(groups[k] == old_groups[k]);
                        }
                    }
                }
                lower = p as u64 + 1;
            },
        }
    }
}

} // verus!
