use azcp::cluster::stages::diff::classify;
use azcp::cluster::stages::owners::compute;
use azcp::cluster::stages::presence::Presence;
use azcp::cluster::stages::shards::{compute_shard_size_from_file_shards, compute_shards};
use azcp::{apply_shard, BlobItem, BlobProperties};

fn item(name: &str, size: u64) -> BlobItem {
    BlobItem {
        name: name.to_string(),
        properties: Some(BlobProperties {
            last_modified: None,
            content_length: Some(size),
            content_type: None,
            content_md5: None,
            etag: None,
            blob_type: None,
            access_tier: None,
        }),
    }
}

fn make_presence(rows: &[u8], num_files: usize, world_size: usize) -> Presence {
    let bytes_per_rank = num_files.div_ceil(8);
    assert_eq!(rows.len(), bytes_per_rank * world_size);
    Presence::from_raw(world_size, num_files, bytes_per_rank, rows.to_vec())
}

fn presence_from(rows: &[&[u8]], num_files: usize) -> Presence {
    let world_size = rows.len();
    let bytes_per_rank = num_files.div_ceil(8);
    let mut data = vec![0u8; bytes_per_rank * world_size];
    for (r, row) in rows.iter().enumerate() {
        data[r * bytes_per_rank..r * bytes_per_rank + row.len()].copy_from_slice(row);
    }
    Presence {
        world_size,
        num_files,
        bytes_per_rank,
        data,
    }
}

#[test]
fn classify_three_categories() {
    // Bit i of a byte, from the least significant one, says whether that rank has file i.
    // rank0={3} rank1={1,2} rank2={1,3}; counts file0..3 = [0,2,1,2]; world=3
    let p = make_presence(&[0b1000, 0b0110, 0b1010], 4, 3);
    let c = classify(&p);
    assert_eq!(c.skipped, 0);
    assert_eq!(c.needs_download, vec![0]);
    let bcast: std::collections::HashMap<_, _> = c.bcast_only.iter().copied().collect();
    assert_eq!(bcast.get(&1), Some(&1));
    assert_eq!(bcast.get(&2), Some(&1));
    assert_eq!(bcast.get(&3), Some(&0));
}

#[test]
fn classify_all_have_skipped() {
    let p = make_presence(&[0b11, 0b11], 2, 2);
    let c = classify(&p);
    assert_eq!(c.skipped, 2);
    assert!(c.bcast_only.is_empty());
    assert!(c.needs_download.is_empty());
}

#[test]
fn classify_none_have_all_download() {
    let p = make_presence(&[0, 0], 3, 2);
    let c = classify(&p);
    assert_eq!(c.skipped, 0);
    assert!(c.bcast_only.is_empty());
    assert_eq!(c.needs_download, vec![0, 1, 2]);
}

#[test]
fn matches_apply_shard_partition() {
    let entries: Vec<BlobItem> = (0..20)
        .map(|i| item(&format!("f{i}"), (i as u64 + 1) * 1000))
        .collect();
    let count = 4;
    let owners = compute(&entries, count);
    for rank in 0..count {
        let mut copy = entries.clone();
        apply_shard(
            &mut copy,
            Some((rank, count)),
            |e| e.name.clone(),
            |e| {
                e.properties
                    .as_ref()
                    .and_then(|p| p.content_length)
                    .unwrap_or(0)
            },
        );
        let from_owners: Vec<&str> = entries
            .iter()
            .enumerate()
            .filter(|(i, _)| owners[*i] == rank)
            .map(|(_, e)| e.name.as_str())
            .collect();
        let from_apply: Vec<&str> = copy.iter().map(|e| e.name.as_str()).collect();
        assert_eq!(from_owners, from_apply, "rank {rank} partition mismatch");
    }
}

#[test]
fn count_one_returns_zeros() {
    let entries = vec![item("a", 1), item("b", 2)];
    assert_eq!(compute(&entries, 1), vec![0, 0]);
}

#[test]
fn has_count_first_haver() {
    // 3 ranks, 4 files: rank0 has files {0,2}, rank1 has {2}, rank2 has {1,2,3}
    // bits: rank0 = 0b0101, rank1 = 0b0100, rank2 = 0b1110
    let p = presence_from(&[&[0b0101], &[0b0100], &[0b1110]], 4);
    assert!(p.has(0, 0));
    assert!(!p.has(0, 1));
    assert!(p.has(0, 2));
    assert!(!p.has(0, 3));
    assert!(p.has(2, 1));
    assert_eq!(p.count(0), 1);
    assert_eq!(p.count(1), 1);
    assert_eq!(p.count(2), 3);
    assert_eq!(p.count(3), 1);
    assert_eq!(p.first_haver(0), Some(0));
    assert_eq!(p.first_haver(1), Some(2));
    assert_eq!(p.first_haver(2), Some(0));
    assert_eq!(p.first_haver(3), Some(2));
}

#[test]
fn no_havers() {
    let p = presence_from(&[&[0u8], &[0u8]], 5);
    assert_eq!(p.count(0), 0);
    assert_eq!(p.first_haver(0), None);
}

#[test]
fn empty_input_yields_empty_plan() {
    assert!(compute_shards(&[], 4, 0).is_empty());
    assert!(compute_shards(&[], 4, 1024).is_empty());
}

#[test]
fn shard_size_zero_yields_one_shard_per_file() {
    let entries = vec![item("a", 100), item("b", 200), item("c", 300)];
    let plan = compute_shards(&entries, 4, 0);
    assert_eq!(plan.len(), 3);
    for (i, s) in plan.iter().enumerate() {
        assert_eq!(s.file_idx, i);
        assert_eq!(s.shard_idx, 0);
        assert_eq!(s.byte_offset, 0);
    }
    assert_eq!(plan[0].byte_len, 100);
    assert_eq!(plan[1].byte_len, 200);
    assert_eq!(plan[2].byte_len, 300);
}

#[test]
fn small_file_under_shard_size_is_single_shard() {
    let entries = vec![item("a", 1000)];
    let plan = compute_shards(&entries, 1, 4096);
    assert_eq!(plan.len(), 1);
    assert_eq!(plan[0].byte_offset, 0);
    assert_eq!(plan[0].byte_len, 1000);
}

#[test]
fn file_equal_to_shard_size_is_single_shard() {
    let entries = vec![item("a", 4096)];
    let plan = compute_shards(&entries, 1, 4096);
    assert_eq!(plan.len(), 1);
    assert_eq!(plan[0].byte_len, 4096);
}

#[test]
fn file_one_byte_over_shard_size_yields_two_shards() {
    let entries = vec![item("a", 4097)];
    let plan = compute_shards(&entries, 1, 4096);
    assert_eq!(plan.len(), 2);
    assert_eq!(plan[0].byte_offset, 0);
    assert_eq!(plan[0].byte_len, 4096);
    assert_eq!(plan[1].byte_offset, 4096);
    assert_eq!(plan[1].byte_len, 1);
}

#[test]
fn ten_x_shard_size_yields_ten_shards() {
    let entries = vec![item("a", 10 * 4096)];
    let plan = compute_shards(&entries, 1, 4096);
    assert_eq!(plan.len(), 10);
    for (i, s) in plan.iter().enumerate() {
        assert_eq!(s.shard_idx, i);
        assert_eq!(s.byte_offset, (i as u64) * 4096);
        assert_eq!(s.byte_len, 4096);
    }
}

#[test]
fn zero_byte_file_yields_one_zero_length_shard() {
    let entries = vec![item("empty", 0)];
    let plan = compute_shards(&entries, 1, 4096);
    assert_eq!(plan.len(), 1);
    assert_eq!(plan[0].byte_len, 0);
}

#[test]
fn count_one_assigns_all_to_rank_zero() {
    let entries = vec![item("a", 100), item("b", 200)];
    let plan = compute_shards(&entries, 1, 0);
    assert!(plan.iter().all(|s| s.owner_rank == 0));
}

#[test]
fn lpt_balances_six_files_across_four_ranks() {
    // 8k+1k, 7k+2k, 6k+3k and 5k+4k are all 9k.
    let sizes = [8_000u64, 7_000, 6_000, 5_000, 4_000, 3_000, 2_000, 1_000];
    let entries: Vec<BlobItem> = sizes
        .iter()
        .enumerate()
        .map(|(i, s)| item(&format!("f{i}"), *s))
        .collect();
    let plan = compute_shards(&entries, 4, 0);
    assert_eq!(plan.len(), 8);
    let mut loads = [0u64; 4];
    for s in &plan {
        loads[s.owner_rank] += s.byte_len;
    }
    let max = *loads.iter().max().unwrap();
    let min = *loads.iter().min().unwrap();
    assert!(max - min <= 1_000, "LPT spread too wide: loads={loads:?}");
}

#[test]
fn lpt_distributes_shards_of_one_file_across_ranks() {
    // 1 file, 8 equal shards, 4 ranks: 2 shards for each rank.
    let entries = vec![item("big", 8 * 4096)];
    let plan = compute_shards(&entries, 4, 4096);
    assert_eq!(plan.len(), 8);
    let mut counts = [0usize; 4];
    for s in &plan {
        counts[s.owner_rank] += 1;
    }
    assert_eq!(counts, [2, 2, 2, 2], "shards not evenly distributed");
}

#[test]
fn deterministic_across_calls() {
    let entries: Vec<BlobItem> = (0..20)
        .map(|i| item(&format!("f{i}"), (i as u64 + 1) * 1000))
        .collect();
    let plan_a = compute_shards(&entries, 7, 1500);
    let plan_b = compute_shards(&entries, 7, 1500);
    assert_eq!(plan_a, plan_b);
}

#[test]
fn matches_legacy_owners_at_shard_size_zero() {
    let entries: Vec<BlobItem> = (0..20)
        .map(|i| item(&format!("f{i}"), (i as u64 + 1) * 1000))
        .collect();
    let count = 4;
    let shards = compute_shards(&entries, count, 0);
    let from_shards: Vec<usize> = shards.iter().map(|s| s.owner_rank).collect();
    let from_legacy = compute(&entries, count);
    assert_eq!(from_shards, from_legacy);
}

#[test]
fn shard_size_from_file_shards_basic() {
    let entries = vec![item("small", 1024), item("big", 10 * 1024 * 1024 * 1024)];
    let chunk = 64u64 * 1024 * 1024;
    let s = compute_shard_size_from_file_shards(&entries, 4, chunk);
    assert_eq!(s % chunk, 0, "must be chunk-aligned");
    assert!(s >= (10u64 * 1024 * 1024 * 1024).div_ceil(4));
    assert!(s < (10u64 * 1024 * 1024 * 1024).div_ceil(4) + chunk);
}

#[test]
fn shard_size_from_file_shards_empty_is_zero() {
    assert_eq!(compute_shard_size_from_file_shards(&[], 4, 1 << 26), 0);
}

#[test]
fn shard_size_from_file_shards_zero_byte_max_is_zero() {
    let entries = vec![item("z", 0), item("z2", 0)];
    assert_eq!(compute_shard_size_from_file_shards(&entries, 4, 1 << 26), 0);
}

#[test]
fn shard_size_from_file_shards_alignment() {
    let entries = vec![item("a", 100 * 1024 * 1024 + 1)];
    let chunk = 64u64 * 1024 * 1024;
    let s = compute_shard_size_from_file_shards(&entries, 1, chunk);
    assert_eq!(s, 128 * 1024 * 1024);
}
