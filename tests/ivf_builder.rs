use std::collections::HashMap;

use ivf_builder::assign::{distance_key, nearest_centroid, AssignError, IvfModel};
use ivf_builder::config::{memory_limit_from_setting, parse_usize};
use ivf_builder::dataset::{shuffle_dataset, shuffle_dataset_v2};
use ivf_builder::group::{sort_and_group, GroupError};
use ivf_builder::orchestrate::{build_partitions, validate_schema, BatchInput, BuildError, SchemaError};
use ivf_builder::parallel::{parallelism_for, transform_parallelism, TransformWindow};
use ivf_builder::row::ShuffleRow;
use ivf_builder::codec::{decode_rows, encode_rows};
use ivf_builder::shuffle::{bucket_count, merge_bucket, merge_buckets, partition_into_buckets};
use ivf_builder::shuffler::{IvfShuffler, PartitionedShuffles, ShuffleError};

fn row(row_id: u64, part_id: u32) -> ShuffleRow {
    ShuffleRow { row_id, part_id, code: vec![(row_id % 251) as u8, part_id as u8] }
}

fn ids(rows: &[ShuffleRow]) -> Vec<u64> {
    rows.iter().map(|r| r.row_id).collect()
}

fn sample_rows(n: u64, parts: u32) -> Vec<ShuffleRow> {
    (0..n).map(|i| row(i, ((i * 7 + 3) % parts as u64) as u32)).collect()
}

#[test]
fn nearest_centroid_picks_smallest_distance() {
    assert_eq!(nearest_centroid(&vec![9, 4, 7, 5]), 1);
    assert_eq!(nearest_centroid(&vec![3]), 0);
}

#[test]
fn nearest_centroid_breaks_ties_by_lowest_index() {
    assert_eq!(nearest_centroid(&vec![5, 2, 8, 2, 2]), 1);
    assert_eq!(nearest_centroid(&vec![1, 1, 1]), 0);
}

#[test]
fn distance_key_orders_like_floats() {
    let k = |x: f32| distance_key(x.to_bits());
    assert!(k(-2.0) < k(-1.0));
    assert!(k(-1.0) < k(0.0));
    assert!(k(0.0) < k(0.5));
    assert!(k(0.5) < k(1.0));
    assert!(k(1.0) < k(1000.0));
    assert_eq!(distance_key(0), 0x8000_0000);
    assert_eq!(distance_key(0xFFFF_FFFF), 0);
}

#[test]
fn model_rejects_invalid_parameters() {
    assert_eq!(IvfModel::try_new(0, 0, 4, None).err(), Some(AssignError::InvalidModel));
    assert_eq!(IvfModel::try_new(4, 3, 2, None).err(), Some(AssignError::InvalidModel));
    assert!(IvfModel::try_new(4, 0, 4, None).is_ok());
}

#[test]
fn assign_row_uses_nearest_centroid_without_override() {
    let m = IvfModel::try_new(3, 0, 3, None).unwrap();
    assert_eq!(m.assign_row(10, &vec![30, 10, 20]), Ok(Some(1)));
}

#[test]
fn assign_row_override_takes_priority() {
    let mut pre = HashMap::new();
    pre.insert(10u64, 2u32);
    let m = IvfModel::try_new(3, 0, 3, Some(pre)).unwrap();
    assert_eq!(m.assign_row(10, &vec![0, 100, 200]), Ok(Some(2)));
    assert_eq!(m.assign_row(11, &vec![0, 100, 200]), Ok(Some(0)));
}

#[test]
fn assign_row_outside_range_is_dropped() {
    let m = IvfModel::try_new(4, 1, 3, None).unwrap();
    assert_eq!(m.assign_row(1, &vec![0, 5, 5, 5]), Ok(None));
    assert_eq!(m.assign_row(1, &vec![5, 5, 0, 5]), Ok(Some(2)));
    assert_eq!(m.assign_row(1, &vec![5, 5, 5, 0]), Ok(None));
}

#[test]
fn assign_row_rejects_wrong_distance_count() {
    let m = IvfModel::try_new(4, 0, 4, None).unwrap();
    assert_eq!(m.assign_row(1, &vec![1, 2, 3]), Err(AssignError::DistanceCountMismatch));
}

#[test]
fn assign_batch_keeps_rows_in_order() {
    let m = IvfModel::try_new(2, 0, 2, None).unwrap();
    let out = m
        .assign_batch(
            &vec![7, 8, 9],
            &vec![vec![1, 2], vec![5, 3], vec![4, 4]],
            &vec![vec![1, 1], vec![2, 2], vec![3, 3]],
            2,
        )
        .unwrap();
    assert_eq!(ids(&out), vec![7, 8, 9]);
    assert_eq!(out.iter().map(|r| r.part_id).collect::<Vec<_>>(), vec![0, 1, 0]);
    assert_eq!(out[1].code, vec![2, 2]);
}

#[test]
fn assign_batch_fails_whole() {
    let m = IvfModel::try_new(2, 0, 2, None).unwrap();
    let ok_d = vec![vec![1, 2], vec![2, 1]];
    let ok_c = vec![vec![1, 1], vec![2, 2]];
    assert_eq!(
        m.assign_batch(&vec![1], &ok_d, &ok_c, 2).err(),
        Some(AssignError::ColumnLengthMismatch)
    );
    assert_eq!(
        m.assign_batch(&vec![1, 2], &vec![vec![1, 2], vec![1]], &ok_c, 2).err(),
        Some(AssignError::DistanceCountMismatch)
    );
    assert_eq!(
        m.assign_batch(&vec![1, 2], &ok_d, &vec![vec![1, 1], vec![2]], 2).err(),
        Some(AssignError::CodeWidthMismatch)
    );
}

#[test]
fn bucket_count_values() {
    assert_eq!(bucket_count(10, 3), 4);
    assert_eq!(bucket_count(8, 2), 4);
    assert_eq!(bucket_count(8, 1), 8);
    assert_eq!(bucket_count(0, 5), 0);
    assert_eq!(bucket_count(3, 8), 1);
}

#[test]
fn buckets_hold_contiguous_partition_ranges() {
    let rows = vec![row(0, 5), row(1, 0), row(2, 3), row(3, 1), row(4, 4)];
    let buckets = partition_into_buckets(&rows, 6, 2, 2);
    assert_eq!(buckets.len(), 3);
    assert_eq!(ids(&buckets[0]), vec![1, 3]);
    assert_eq!(ids(&buckets[1]), vec![2]);
    assert_eq!(ids(&buckets[2]), vec![0, 4]);
    let parts = merge_buckets(&buckets, 6, 2);
    assert_eq!(parts.len(), 6);
    assert_eq!(ids(&parts[0]), vec![1]);
    assert_eq!(ids(&parts[2]), Vec::<u64>::new());
    assert_eq!(ids(&parts[5]), vec![0]);
}

#[test]
fn staged_shuffle_preserves_rows() {
    let rows = sample_rows(100, 7);
    for chunk in [1usize, 3, 100, 1000] {
        for fan_out in [1usize, 2, 3, 8] {
            let mut s = IvfShuffler::try_new(7, 2);
            for batch in rows.chunks(13) {
                let b: Vec<ShuffleRow> = batch.iter().map(|r| r.duplicate()).collect();
                assert_eq!(s.write_unsorted_stream(b), Ok(()));
            }
            let parts = s.shuffle(chunk, fan_out).unwrap();
            assert_eq!(parts.len(), 7);
            let mut all: Vec<u64> = parts.iter().flat_map(|p| ids(p)).collect();
            all.sort();
            assert_eq!(all, (0..100).collect::<Vec<u64>>());
            for (p, part) in parts.iter().enumerate() {
                assert!(part.iter().all(|r| r.part_id as usize == p));
            }
        }
    }
}

#[test]
fn staged_shuffle_fan_out_independent() {
    let rows = sample_rows(200, 9);
    let mut s = IvfShuffler::try_new(9, 2);
    s.write_unsorted_stream(rows).unwrap();
    let one = s.shuffle(10, 1).unwrap();
    let eight = s.shuffle(10, 8).unwrap();
    assert_eq!(one.len(), eight.len());
    for (a, b) in one.iter().zip(eight.iter()) {
        assert_eq!(ids(a), ids(b));
    }
}

#[test]
fn staged_shuffle_rejects_bad_input() {
    let mut s = IvfShuffler::try_new(4, 2);
    assert_eq!(s.write_unsorted_stream(vec![row(0, 1), row(1, 4)]), Err(ShuffleError::InvalidRow));
    let wrong_width = ShuffleRow { row_id: 2, part_id: 0, code: vec![1] };
    assert_eq!(s.write_unsorted_stream(vec![wrong_width]), Err(ShuffleError::InvalidRow));
    assert_eq!(s.shuffle(0, 1).err(), Some(ShuffleError::InvalidParameter));
    assert_eq!(s.shuffle(1, 0).err(), Some(ShuffleError::InvalidParameter));
    let bad = PartitionedShuffles { fan_out: 1, buckets: vec![Vec::new()] };
    assert_eq!(s.load_partitioned_shuffles(&bad).err(), Some(ShuffleError::BucketLayoutMismatch));
    let parts = s.shuffle(1, 1).unwrap();
    assert!(parts.iter().all(|p| p.is_empty()));
}

#[test]
fn staged_phases_by_hand() {
    let mut s = IvfShuffler::try_new(4, 2);
    s.write_unsorted_stream(vec![row(0, 3), row(1, 0), row(2, 3)]).unwrap();
    let shuffles = s.write_partitioned_shuffles(2, 2).unwrap();
    assert_eq!(shuffles.buckets.len(), 2);
    let parts = s.load_partitioned_shuffles(&shuffles).unwrap();
    assert_eq!(ids(&parts[0]), vec![1]);
    assert_eq!(ids(&parts[3]), vec![0, 2]);
}

#[test]
fn sort_and_group_orders_partitions() {
    let rows = vec![row(0, 9), row(1, 2), row(2, 9), row(3, 0), row(4, 2)];
    let groups = sort_and_group(&rows, None).unwrap();
    assert_eq!(groups.iter().map(|g| g.part_id).collect::<Vec<_>>(), vec![0, 2, 9]);
    assert_eq!(ids(&groups[0].rows), vec![3]);
    assert_eq!(ids(&groups[1].rows), vec![1, 4]);
    assert_eq!(ids(&groups[2].rows), vec![0, 2]);
}

#[test]
fn sort_and_group_empty() {
    assert!(sort_and_group(&Vec::new(), Some(0)).unwrap().is_empty());
}

#[test]
fn memory_cap_fails_in_memory_but_not_staged() {
    // each row: 12 bytes of ids plus a 2-byte code
    let rows = sample_rows(10, 3);
    assert_eq!(sort_and_group(&rows, Some(139)).err(), Some(GroupError::ResourcesExhausted));
    assert!(sort_and_group(&rows, Some(140)).is_ok());
    let mut s = IvfShuffler::try_new(3, 2);
    s.write_unsorted_stream(rows).unwrap();
    let parts = s.shuffle(1, 1).unwrap();
    assert_eq!(parts.iter().map(|p| p.len()).sum::<usize>(), 10);
}

#[test]
fn shuffle_dataset_groups_batches() {
    let batches = vec![vec![row(0, 1), row(1, 0)], vec![row(2, 1)]];
    let groups = shuffle_dataset(batches, None).unwrap();
    assert_eq!(groups.len(), 2);
    assert_eq!(ids(&groups[0].rows), vec![1]);
    assert_eq!(ids(&groups[1].rows), vec![0, 2]);
    let again = vec![vec![row(0, 1)]];
    assert_eq!(shuffle_dataset(again, Some(1)).err(), Some(GroupError::ResourcesExhausted));
}

#[test]
fn shuffle_dataset_v2_groups_batches() {
    let batches = vec![vec![row(0, 1), row(1, 0)], vec![row(2, 1)]];
    let parts = shuffle_dataset_v2(batches, 3, 2).unwrap();
    assert_eq!(parts.len(), 3);
    assert_eq!(ids(&parts[0]), vec![1]);
    assert_eq!(ids(&parts[1]), vec![0, 2]);
    assert!(parts[2].is_empty());
    let bad = vec![vec![row(0, 5)]];
    assert_eq!(shuffle_dataset_v2(bad, 3, 2).err(), Some(ShuffleError::InvalidRow));
}

#[test]
fn parse_usize_values() {
    assert_eq!(parse_usize("123"), Some(123));
    assert_eq!(parse_usize("+7"), Some(7));
    assert_eq!(parse_usize("0"), Some(0));
    assert_eq!(parse_usize(""), None);
    assert_eq!(parse_usize("+"), None);
    assert_eq!(parse_usize("-1"), None);
    assert_eq!(parse_usize("1a"), None);
    assert_eq!(parse_usize(" 1"), None);
    assert_eq!(parse_usize(&usize::MAX.to_string()), Some(usize::MAX));
    assert_eq!(parse_usize("99999999999999999999999"), None);
}

#[test]
fn memory_limit_setting() {
    let none = memory_limit_from_setting(None);
    assert_eq!((none.limit, none.malformed), (None, false));
    let some = memory_limit_from_setting(Some("1048576"));
    assert_eq!((some.limit, some.malformed), (Some(1048576), false));
    let bad = memory_limit_from_setting(Some("1GB"));
    assert_eq!((bad.limit, bad.malformed), (None, true));
}

fn names(v: &[&str]) -> Vec<String> {
    v.iter().map(|s| s.to_string()).collect()
}

#[test]
fn schema_validation() {
    let col = "vector".to_string();
    assert_eq!(validate_schema(&names(&["vector", "_rowid"]), &col), Ok(()));
    assert_eq!(validate_schema(&names(&["_rowid"]), &col), Err(SchemaError::MissingVectorColumn));
    assert_eq!(validate_schema(&names(&["vector"]), &col), Err(SchemaError::MissingRowId));
    assert_eq!(validate_schema(&names(&[]), &col), Err(SchemaError::MissingVectorColumn));
}

#[test]
fn build_fails_fast_on_schema() {
    let col = "vector".to_string();
    let bad_input = vec![BatchInput { row_ids: vec![1], dists: vec![], codes: vec![] }];
    assert_eq!(
        build_partitions(&names(&["_rowid"]), &col, &bad_input, 4, 0, 4, None, 8).err(),
        Some(BuildError::Schema(SchemaError::MissingVectorColumn))
    );
    assert_eq!(
        build_partitions(&names(&["vector"]), &col, &bad_input, 4, 0, 4, None, 8).err(),
        Some(BuildError::Schema(SchemaError::MissingRowId))
    );
    assert_eq!(
        build_partitions(&names(&["vector", "_rowid"]), &col, &bad_input, 4, 0, 4, None, 8).err(),
        Some(BuildError::Assign(AssignError::ColumnLengthMismatch))
    );
}

fn sq_dist(a: (i64, i64), b: (i64, i64)) -> u32 {
    ((a.0 - b.0).pow(2) + (a.1 - b.1).pow(2)) as u32
}

#[test]
fn end_to_end_four_centroids() {
    let centroids = [(0i64, 0i64), (100, 0), (0, 100), (100, 100)];
    let mut inputs = Vec::new();
    let mut expected = HashMap::new();
    let mut next_id = 0u64;
    for _ in 0..10 {
        let mut b = BatchInput { row_ids: Vec::new(), dists: Vec::new(), codes: Vec::new() };
        for _ in 0..1000 {
            let x = ((next_id * 37) % 101) as i64;
            let y = ((next_id * 59 + 13) % 103) as i64;
            let d: Vec<u32> = centroids.iter().map(|c| sq_dist((x, y), *c)).collect();
            let best = (0..4).min_by_key(|&i| (d[i], i)).unwrap() as u32;
            expected.insert(next_id, best);
            b.row_ids.push(next_id);
            b.dists.push(d);
            b.codes.push(vec![(next_id % 256) as u8; 8]);
            next_id += 1;
        }
        inputs.push(b);
    }
    let col = "vec".to_string();
    let parts =
        build_partitions(&names(&["vec", "_rowid"]), &col, &inputs, 4, 0, 4, None, 8).unwrap();
    assert_eq!(parts.len(), 4);
    assert_eq!(parts.iter().filter(|p| !p.is_empty()).count(), 4);
    assert_eq!(parts.iter().map(|p| p.len()).sum::<usize>(), 10_000);
    for (p, part) in parts.iter().enumerate() {
        for r in part {
            assert_eq!(r.part_id as usize, p);
            assert_eq!(expected[&r.row_id] as usize, p);
            assert_eq!(r.code.len(), 8);
        }
    }
}

#[test]
fn build_keeps_only_requested_range() {
    let inputs = vec![BatchInput {
        row_ids: vec![1, 2, 3],
        dists: vec![vec![0, 9, 9], vec![9, 0, 9], vec![9, 9, 0]],
        codes: vec![vec![1], vec![2], vec![3]],
    }];
    let col = "v".to_string();
    let mut pre = HashMap::new();
    pre.insert(3u64, 1u32);
    let parts =
        build_partitions(&names(&["v", "_rowid"]), &col, &inputs, 3, 1, 2, Some(pre), 1).unwrap();
    assert_eq!(parts.len(), 3);
    assert!(parts[0].is_empty());
    assert_eq!(ids(&parts[1]), vec![2, 3]);
    assert!(parts[2].is_empty());
}

#[test]
fn parallelism_is_at_least_one() {
    assert_eq!(parallelism_for(0), 1);
    assert_eq!(parallelism_for(6), 6);
    assert!(transform_parallelism() >= 1);
}

#[test]
fn transform_window_bounds_in_flight_tasks() {
    let mut w = TransformWindow::new(2);
    assert!(w.try_spawn());
    assert!(w.try_spawn());
    assert!(!w.try_spawn());
    assert_eq!(w.in_flight(), 2);
    w.finish(true);
    assert!(w.try_spawn());
    w.end_input();
    assert!(!w.try_spawn());
    assert!(!w.is_done());
    w.finish(true);
    w.finish(true);
    assert!(w.is_done());
    assert!(!w.has_failed());
}

#[test]
fn transform_window_stops_on_failure() {
    let mut w = TransformWindow::new(0);
    assert!(w.try_spawn());
    assert!(!w.try_spawn());
    w.finish(false);
    assert!(w.has_failed());
    assert!(w.is_done());
    assert!(!w.try_spawn());
}

#[test]
fn codec_round_trip() {
    let rows = vec![
        ShuffleRow { row_id: 0x0102_0304_0506_0708, part_id: 0xA0B0_C0D0, code: vec![9, 8, 7] },
        ShuffleRow { row_id: u64::MAX, part_id: 0, code: vec![0, 0, 255] },
    ];
    let bytes = encode_rows(&rows);
    assert_eq!(bytes.len(), 2 * 15);
    assert_eq!(&bytes[..12], &[8, 7, 6, 5, 4, 3, 2, 1, 0xD0, 0xC0, 0xB0, 0xA0]);
    assert_eq!(&bytes[12..15], &[9, 8, 7]);
    let back = decode_rows(&bytes, 3).unwrap();
    assert_eq!(back.len(), 2);
    for (a, b) in rows.iter().zip(back.iter()) {
        assert_eq!((a.row_id, a.part_id, &a.code), (b.row_id, b.part_id, &b.code));
    }
}

#[test]
fn codec_rejects_partial_records() {
    assert!(decode_rows(&vec![0u8; 14], 3).is_none());
    assert!(decode_rows(&vec![0u8; 15], 3).is_some());
    assert_eq!(decode_rows(&Vec::new(), 3).map(|r| r.len()), Some(0));
    assert!(decode_rows(&Vec::new(), usize::MAX).is_none());
}

#[test]
fn merge_bucket_groups_its_partitions() {
    let rows = vec![row(0, 5), row(1, 4), row(2, 5), row(3, 4)];
    let groups = merge_bucket(&rows, 2, 6, 2);
    assert_eq!(groups.iter().map(|g| g.part_id).collect::<Vec<_>>(), vec![4, 5]);
    assert_eq!(ids(&groups[0].rows), vec![1, 3]);
    assert_eq!(ids(&groups[1].rows), vec![0, 2]);
    let last = merge_bucket(&Vec::new(), 2, 5, 2);
    assert_eq!(last.iter().map(|g| g.part_id).collect::<Vec<_>>(), vec![4]);
    assert!(merge_bucket(&Vec::new(), 3, 5, 2).is_empty());
}
