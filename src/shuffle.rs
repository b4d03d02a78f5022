use vstd::arithmetic::div_mod::{lemma_div_is_ordered, lemma_fundamental_div_mod};
use vstd::multiset::Multiset;
use vstd::prelude::*;

use crate::group::{has_group, PartitionGroup};
use crate::row::{
    lemma_rows_model_push, part_is, parts_below, rows_model, rows_of_partition, RowModel,
    ShuffleRow,
};

verus! {

broadcast use vstd::seq_lib::group_seq_properties;

/// Number of intermediate buckets: one per `fan_out` consecutive partition ids.
pub open spec fn spec_bucket_count(num_partitions: int, fan_out: int) -> int {
    num_partitions / fan_out + if num_partitions % fan_out == 0 {
        0int
    } else {
        1int
    }
}

/// The bucket that holds partition `part_id`.
pub open spec fn spec_bucket_of(part_id: int, fan_out: int) -> int {
    part_id / fan_out
}

/// Holds of the rows that go to bucket `b`.
pub open spec fn in_bucket(b: int, fan_out: int) -> spec_fn(RowModel) -> bool {
    |r: RowModel| spec_bucket_of(r.1 as int, fan_out) == b
}

/// What the bucket phase writes: bucket `b` holds the staged rows whose
/// partition falls in it, in staging order.
pub open spec fn bucketed(staged: Seq<RowModel>, num_partitions: int, fan_out: int) -> Seq<
    Seq<RowModel>,
> {
    Seq::new(
        spec_bucket_count(num_partitions, fan_out) as nat,
        |b: int| staged.filter(in_bucket(b, fan_out)),
    )
}

/// What the merge phase emits: for each partition id, in ascending order, the
/// rows of that partition found in its bucket.
pub open spec fn merged(buckets: Seq<Seq<RowModel>>, num_partitions: int, fan_out: int) -> Seq<
    Seq<RowModel>,
> {
    Seq::new(
        num_partitions as nat,
        |p: int| rows_of_partition(buckets[spec_bucket_of(p, fan_out)], p),
    )
}

pub proof fn lemma_bucket_in_range(p: int, n: int, f: int)
    requires
        0 <= p < n,
        f >= 1,
    ensures
        0 <= spec_bucket_of(p, f) < spec_bucket_count(n, f),
{
    lemma_fundamental_div_mod(p, f);
    lemma_fundamental_div_mod(n, f);
    lemma_div_is_ordered(0, p, f);
    let qp = p / f;
    let qn = n / f;
    let rp = p % f;
    let rn = n % f;
    assert(qp <= qn) by {
        lemma_div_is_ordered(p, n, f);
    }
    if n % f == 0 {
        assert(qp < qn) by (nonlinear_arith)
            requires
                p == f * qp + rp,
                n == f * qn + rn,
                rn == 0,
                0 <= rp < f,
                p < n,
                qp <= qn,
        ;
    }
}

/// The number of buckets for `num_partitions` partitions and fan-out factor
/// `fan_out`.
pub fn bucket_count(num_partitions: u32, fan_out: usize) -> (r: usize)
    requires
        fan_out >= 1,
    ensures
        r == spec_bucket_count(num_partitions as int, fan_out as int),
{
    let n = num_partitions as usize;
    let q = n / fan_out;
    proof {
        lemma_div_is_ordered(0, n as int, fan_out as int);
        vstd::arithmetic::div_mod::lemma_div_is_ordered_by_denominator(n as int, 1, fan_out as int);
        assert(n as int / 1 == n as int);
    }
    if n % fan_out == 0 {
        q
    } else {
        proof {
            assert(fan_out >= 2) by {
                if fan_out == 1 {
                    assert(n as int % 1 == 0);
                }
            }
            vstd::arithmetic::div_mod::lemma_div_is_ordered_by_denominator(n as int, 2, fan_out as int);
        }
        q + 1
    }
}

/// Appends the staged rows `start .. end` to their buckets.
fn bucket_chunk(
    staged: &Vec<ShuffleRow>,
    start: usize,
    end: usize,
    num_partitions: u32,
    fan_out: usize,
    buckets: &mut Vec<Vec<ShuffleRow>>,
)
    requires
        start <= end <= staged.len(),
        fan_out >= 1,
        parts_below(rows_model(staged@), num_partitions as int),
        old(buckets).len() == spec_bucket_count(num_partitions as int, fan_out as int),
        forall|b: int|
            0 <= b < old(buckets).len() ==> rows_model(#[trigger] old(buckets)[b]@)
                == rows_model(staged@.take(start as int)).filter(in_bucket(b, fan_out as int)),
    ensures
        final(buckets).len() == old(buckets).len(),
        forall|b: int|
            0 <= b < final(buckets).len() ==> rows_model(#[trigger] final(buckets)[b]@)
                == rows_model(staged@.take(end as int)).filter(in_bucket(b, fan_out as int)),
{
    let mut i = start;
    while i < end
        invariant
            start <= i <= end <= staged.len(),
            fan_out >= 1,
            parts_below(rows_model(staged@), num_partitions as int),
            buckets.len() == spec_bucket_count(num_partitions as int, fan_out as int),
            forall|b: int|
                0 <= b < buckets.len() ==> rows_model(#[trigger] buckets[b]@)
                    == rows_model(staged@.take(i as int)).filter(in_bucket(b, fan_out as int)),
        decreases end - i,
    {
        let row = staged[i].duplicate();
        let b = (row.part_id as usize) / fan_out;
        proof {
            assert(rows_model(staged@)[i as int] == staged@[i as int]@);
            lemma_bucket_in_range(row.part_id as int, num_partitions as int, fan_out as int);
            assert(staged@.take(i + 1) == staged@.take(i as int).push(staged@[i as int]));
            lemma_rows_model_push(staged@.take(i as int), staged@[i as int]);
        }
        let ghost prev = buckets@;
        buckets[b].push(row);
        proof {
            assert forall|bb: int| 0 <= bb < buckets.len() implies rows_model(#[trigger] buckets[bb]@)
                == rows_model(staged@.take(i + 1)).filter(in_bucket(bb, fan_out as int)) by {
                let before = rows_model(staged@.take(i as int));
                before.lemma_filter_push(row@, in_bucket(bb, fan_out as int));
                if bb == b {
                    lemma_rows_model_push(prev[bb]@, row);
                } else {
                    assert(buckets[bb] == prev[bb]);
                }
            }
        }
        i = i + 1;
    }
}

/// The bucket phase: reads the staged rows `chunk_size` at a time and hands
/// each row to the bucket of its partition, keeping staging order within a
/// bucket.
pub fn partition_into_buckets(
    staged: &Vec<ShuffleRow>,
    num_partitions: u32,
    chunk_size: usize,
    fan_out: usize,
) -> (buckets: Vec<Vec<ShuffleRow>>)
    requires
        chunk_size >= 1,
        fan_out >= 1,
        parts_below(rows_model(staged@), num_partitions as int),
    ensures
        buckets@.map_values(|v: Vec<ShuffleRow>| rows_model(v@)) == bucketed(
            rows_model(staged@),
            num_partitions as int,
            fan_out as int,
        ),
{
    let nb = bucket_count(num_partitions, fan_out);
    let mut buckets: Vec<Vec<ShuffleRow>> = Vec::new();
    proof {
        reveal(Seq::filter);
        assert(rows_model(staged@.take(0)) =~= Seq::<RowModel>::empty());
    }
    while buckets.len() < nb
        invariant
            buckets.len() <= nb,
            forall|b: int| 0 <= b < buckets.len() ==> (#[trigger] buckets[b]@).len() == 0,
        decreases nb - buckets.len(),
    {
        buckets.push(Vec::new());
    }
    proof {
        assert forall|b: int| 0 <= b < buckets.len() implies rows_model(#[trigger] buckets[b]@)
            == rows_model(staged@.take(0)).filter(in_bucket(b, fan_out as int)) by {
            reveal(Seq::filter);
            assert(rows_model(buckets[b]@) =~= Seq::<RowModel>::empty());
        }
    }
    let mut start: usize = 0;
    while start < staged.len()
        invariant
            start <= staged.len(),
            chunk_size >= 1,
            fan_out >= 1,
            parts_below(rows_model(staged@), num_partitions as int),
            buckets.len() == nb,
            nb == spec_bucket_count(num_partitions as int, fan_out as int),
            forall|b: int|
                0 <= b < buckets.len() ==> rows_model(#[trigger] buckets[b]@)
                    == rows_model(staged@.take(start as int)).filter(in_bucket(b, fan_out as int)),
        decreases staged.len() - start,
    {
        let end = if staged.len() - start < chunk_size {
            staged.len()
        } else {
            start + chunk_size
        };
        bucket_chunk(staged, start, end, num_partitions, fan_out, &mut buckets);
        start = end;
    }
    proof {
        assert(staged@.take(staged.len() as int) == staged@);
        assert(buckets@.map_values(|v: Vec<ShuffleRow>| rows_model(v@)) =~= bucketed(
            rows_model(staged@),
            num_partitions as int,
            fan_out as int,
        ));
    }
    buckets
}

/// The rows of `rows` that belong to partition `p`, in their order.
pub(crate) fn collect_partition(rows: &Vec<ShuffleRow>, p: u32) -> (out: Vec<ShuffleRow>)
    ensures
        rows_model(out@) == rows_of_partition(rows_model(rows@), p as int),
{
    let mut out: Vec<ShuffleRow> = Vec::new();
    let mut i: usize = 0;
    proof {
        reveal(Seq::filter);
        assert(rows_model(rows@.take(0)) =~= Seq::<RowModel>::empty());
        assert(rows_model(out@) =~= Seq::<RowModel>::empty());
    }
    while i < rows.len()
        invariant
            i <= rows.len(),
            rows_model(out@) == rows_model(rows@.take(i as int)).filter(part_is(p as int)),
        decreases rows.len() - i,
    {
        proof {
            assert(rows@.take(i + 1) == rows@.take(i as int).push(rows@[i as int]));
            lemma_rows_model_push(rows@.take(i as int), rows@[i as int]);
            rows_model(rows@.take(i as int)).lemma_filter_push(rows@[i as int]@, part_is(p as int));
        }
        if rows[i].part_id == p {
            let row = rows[i].duplicate();
            proof {
                lemma_rows_model_push(out@, row);
            }
            out.push(row);
        }
        i = i + 1;
    }
    proof {
        assert(rows@.take(rows.len() as int) == rows@);
    }
    out
}

/// Merges one bucket read back on its own: one group per partition id of
/// the bucket, below `num_partitions` and in ascending order, each holding
/// the bucket's rows of that partition in their order.
pub fn merge_bucket(rows: &Vec<ShuffleRow>, bucket: usize, num_partitions: u32, fan_out: usize) -> (groups:
    Vec<PartitionGroup>)
    requires
        fan_out >= 1,
    ensures
        forall|k: int|
            0 <= k < groups.len() ==> {
                &&& spec_bucket_of((#[trigger] groups[k]).part_id as int, fan_out as int) == bucket
                &&& groups[k].part_id < num_partitions
                &&& rows_model(groups[k].rows@) == rows_of_partition(
                    rows_model(rows@),
                    groups[k].part_id as int,
                )
            },
        forall|k1: int, k2: int|
            0 <= k1 < k2 < groups.len() ==> (#[trigger] groups[k1]).part_id < (
            #[trigger] groups[k2]).part_id,
        forall|p: u32|
            p < num_partitions && spec_bucket_of(p as int, fan_out as int) == bucket ==> has_group(
                groups@,
                p,
            ),
{
    let mut groups: Vec<PartitionGroup> = Vec::new();
    let mut p: u32 = 0;
    while p < num_partitions
        invariant
            p <= num_partitions,
            fan_out >= 1,
            forall|k: int|
                0 <= k < groups.len() ==> {
                    &&& spec_bucket_of((#[trigger] groups[k]).part_id as int, fan_out as int)
                        == bucket
                    &&& groups[k].part_id < p
                    &&& rows_model(groups[k].rows@) == rows_of_partition(
                        rows_model(rows@),
                        groups[k].part_id as int,
                    )
                },
            forall|k1: int, k2: int|
                0 <= k1 < k2 < groups.len() ==> (#[trigger] groups[k1]).part_id < (
                #[trigger] groups[k2]).part_id,
            forall|q: u32|
                q < p && spec_bucket_of(q as int, fan_out as int) == bucket ==> has_group(
                    groups@,
                    q,
                ),
        decreases num_partitions - p,
    {
        if (p as usize) / fan_out == bucket {
            let part = collect_partition(rows, p);
            let ghost before = groups@;
            groups.push(PartitionGroup { part_id: p, rows: part });
            proof {
                assert forall|q: u32|
                    q < p + 1 && spec_bucket_of(q as int, fan_out as int) == bucket implies has_group(
                    groups@,
                    q,
                ) by {
                    if q == p {
                        assert(groups@[groups.len() - 1].part_id == p);
                    } else {
                        assert(has_group(before, q));
                        let k = choose|k: int| 0 <= k < before.len() && (#[trigger] before[k]).part_id == q;
                        assert(groups@[k] == before[k]);
                    }
                }
            }
        }
        p = p + 1;
    }
    groups
}

/// The merge phase: for each partition id in ascending order, the rows of
/// that partition, gathered from the one bucket that holds it.
pub fn merge_buckets(buckets: &Vec<Vec<ShuffleRow>>, num_partitions: u32, fan_out: usize) -> (parts:
    Vec<Vec<ShuffleRow>>)
    requires
        fan_out >= 1,
        buckets.len() == spec_bucket_count(num_partitions as int, fan_out as int),
    ensures
        parts@.map_values(|v: Vec<ShuffleRow>| rows_model(v@)) == merged(
            buckets@.map_values(|v: Vec<ShuffleRow>| rows_model(v@)),
            num_partitions as int,
            fan_out as int,
        ),
{
    let ghost models = buckets@.map_values(|v: Vec<ShuffleRow>| rows_model(v@));
    let ghost want = merged(models, num_partitions as int, fan_out as int);
    let mut parts: Vec<Vec<ShuffleRow>> = Vec::new();
    let mut p: u32 = 0;
    while p < num_partitions
        invariant
            p <= num_partitions,
            fan_out >= 1,
            buckets.len() == spec_bucket_count(num_partitions as int, fan_out as int),
            models == buckets@.map_values(|v: Vec<ShuffleRow>| rows_model(v@)),
            want == merged(models, num_partitions as int, fan_out as int),
            parts.len() == p,
            forall|q: int| 0 <= q < p ==> rows_model(#[trigger] parts[q]@) == want[q],
        decreases num_partitions - p,
    {
        proof {
            lemma_bucket_in_range(p as int, num_partitions as int, fan_out as int);
        }
        let b = (p as usize) / fan_out;
        let part = collect_partition(&buckets[b], p);
        parts.push(part);
        p = p + 1;
    }
    proof {
        assert(parts@.map_values(|v: Vec<ShuffleRow>| rows_model(v@)) =~= want);
    }
    parts
}

/// Keeping a bucket's rows of partition `p` keeps all rows of `p`: no row of
/// `p` lies outside its bucket.
pub proof fn lemma_bucket_then_partition(s: Seq<RowModel>, p: int, f: int)
    requires
        f >= 1,
    ensures
        s.filter(in_bucket(spec_bucket_of(p, f), f)).filter(part_is(p)) == s.filter(part_is(p)),
    decreases s.len(),
{
    if s.len() == 0 {
        reveal(Seq::filter);
    } else {
        let t = s.drop_last();
        let x = s.last();
        lemma_bucket_then_partition(t, p, f);
        assert(s == t.push(x));
        t.lemma_filter_push(x, in_bucket(spec_bucket_of(p, f), f));
        t.filter(in_bucket(spec_bucket_of(p, f), f)).lemma_filter_push(x, part_is(p));
        t.lemma_filter_push(x, part_is(p));
    }
}

/// The per-partition output of the staged shuffle: partition `p` holds the
/// staged rows of `p`, in staging order.
pub open spec fn partitioned(staged: Seq<RowModel>, num_partitions: int) -> Seq<Seq<RowModel>> {
    Seq::new(num_partitions as nat, |p: int| rows_of_partition(staged, p))
}

/// Partition ordering: the `p`-th output partition holds rows of partition
/// `p` only, so ids come out ascending and no id spans two partitions.
pub proof fn lemma_partition_holds_its_rows(staged: Seq<RowModel>, num_partitions: int, p: int, i: int)
    requires
        0 <= p < num_partitions,
        0 <= i < partitioned(staged, num_partitions)[p].len(),
    ensures
        partitioned(staged, num_partitions)[p][i].1 == p,
{
    staged.lemma_filter_pred(part_is(p), i);
}

/// Bucketing and then merging yields each partition's staged rows, in
/// staging order, whatever the fan-out factor.
pub proof fn lemma_merge_of_buckets(staged: Seq<RowModel>, num_partitions: int, fan_out: int)
    requires
        fan_out >= 1,
        num_partitions >= 0,
    ensures
        merged(bucketed(staged, num_partitions, fan_out), num_partitions, fan_out)
            == partitioned(staged, num_partitions),
{
    let bs = bucketed(staged, num_partitions, fan_out);
    assert forall|p: int| 0 <= p < num_partitions implies #[trigger] merged(
        bs,
        num_partitions,
        fan_out,
    )[p] == partitioned(staged, num_partitions)[p] by {
        lemma_bucket_in_range(p, num_partitions, fan_out);
        lemma_bucket_then_partition(staged, p, fan_out);
    }
    assert(merged(bs, num_partitions, fan_out) =~= partitioned(staged, num_partitions));
}

/// Fan-out independence: bucketing with two fan-out factors and merging gives
/// the same rows for every partition.
pub proof fn lemma_fan_out_independent(
    staged: Seq<RowModel>,
    num_partitions: int,
    fan_out_a: int,
    fan_out_b: int,
)
    requires
        num_partitions >= 0,
        fan_out_a >= 1,
        fan_out_b >= 1,
    ensures
        merged(bucketed(staged, num_partitions, fan_out_a), num_partitions, fan_out_a) == merged(
            bucketed(staged, num_partitions, fan_out_b),
            num_partitions,
            fan_out_b,
        ),
{
    lemma_merge_of_buckets(staged, num_partitions, fan_out_a);
    lemma_merge_of_buckets(staged, num_partitions, fan_out_b);
}

/// All rows of a sequence of partitions, taken together.
pub open spec fn union_of_partitions(parts: Seq<Seq<RowModel>>) -> Multiset<RowModel>
    decreases parts.len(),
{
    if parts.len() == 0 {
        Multiset::empty()
    } else {
        union_of_partitions(parts.drop_last()).add(parts.last().to_multiset())
    }
}

proof fn lemma_union_of_empty(k: int)
    requires
        k >= 0,
    ensures
        union_of_partitions(partitioned(Seq::<RowModel>::empty(), k)) == Multiset::<
            RowModel,
        >::empty(),
    decreases k,
{
    if k > 0 {
        lemma_union_of_empty(k - 1);
        assert(partitioned(Seq::<RowModel>::empty(), k).drop_last() =~= partitioned(
            Seq::<RowModel>::empty(),
            k - 1,
        ));
        reveal(Seq::filter);
        assert(union_of_partitions(partitioned(Seq::<RowModel>::empty(), k)) =~= Multiset::<
            RowModel,
        >::empty());
    }
}

proof fn lemma_union_push(s: Seq<RowModel>, x: RowModel, k: int)
    requires
        k >= 0,
    ensures
        union_of_partitions(partitioned(s.push(x), k)) == if x.1 < k {
            union_of_partitions(partitioned(s, k)).insert(x)
        } else {
            union_of_partitions(partitioned(s, k))
        },
    decreases k,
{
    if k > 0 {
        lemma_union_push(s, x, k - 1);
        assert(partitioned(s.push(x), k).drop_last() =~= partitioned(s.push(x), k - 1));
        assert(partitioned(s, k).drop_last() =~= partitioned(s, k - 1));
        s.lemma_filter_push(x, part_is(k - 1));
        s.filter(part_is(k - 1)).to_multiset_ensures();
        let lhs = union_of_partitions(partitioned(s.push(x), k));
        let base = union_of_partitions(partitioned(s, k));
        if x.1 < k {
            assert(lhs =~= base.insert(x));
        } else {
            assert(lhs =~= base);
        }
    }
}

proof fn lemma_union_of_partitioned(s: Seq<RowModel>, num_partitions: int)
    requires
        num_partitions >= 0,
        parts_below(s, num_partitions),
    ensures
        union_of_partitions(partitioned(s, num_partitions)) == s.to_multiset(),
    decreases s.len(),
{
    if s.len() == 0 {
        lemma_union_of_empty(num_partitions);
        assert(s == Seq::<RowModel>::empty());
        assert(s.to_multiset() =~= Multiset::<RowModel>::empty());
    } else {
        let t = s.drop_last();
        let x = s.last();
        assert(s == t.push(x));
        assert(parts_below(t, num_partitions)) by {
            assert forall|i: int| 0 <= i < t.len() implies (#[trigger] t[i]).1 < num_partitions by {
                assert(t[i] == s[i]);
            }
        }
        assert(x.1 < num_partitions) by {
            assert(s[s.len() - 1] == x);
        }
        lemma_union_of_partitioned(t, num_partitions);
        lemma_union_push(t, x, num_partitions);
        t.to_multiset_ensures();
    }
}

/// Row preservation: once every staged row has a partition id below
/// `num_partitions`, bucketing and merging emit, over all partitions
/// together, exactly the staged rows, for any fan-out factor.
pub proof fn lemma_rows_preserved(staged: Seq<RowModel>, num_partitions: int, fan_out: int)
    requires
        num_partitions >= 0,
        fan_out >= 1,
        parts_below(staged, num_partitions),
    ensures
        union_of_partitions(merged(bucketed(staged, num_partitions, fan_out), num_partitions, fan_out))
            == staged.to_multiset(),
{
    lemma_merge_of_buckets(staged, num_partitions, fan_out);
    lemma_union_of_partitioned(staged, num_partitions);
}

} // verus!
