use nkgrep::hits::{bank_hits, flat_scores, FileHits};
use nkgrep::order::stable_order;
use nkgrep::rank::raw_order;
use nkgrep::topk::{bank_batch, BatchPlan, TopK, BATCH};

#[test]
fn threshold_is_the_kth_best() {
    let mut t = TopK::new(2);
    assert!(matches!(t.plan_batch(&[5]), BatchPlan::Search(p) if p == vec![0]));
    t.bank(&[10]);
    assert!(matches!(t.plan_batch(&[1, 0]), BatchPlan::Search(p) if p == vec![0, 1]));
    t.bank(&[7, 8]);
    // The second best is 8: only files above it matter.
    assert!(matches!(t.plan_batch(&[9, 8, 3]), BatchPlan::Search(p) if p == vec![0]));
    assert!(matches!(t.plan_batch(&[8, 7]), BatchPlan::Stop));
    t.bank(&[9, 9]);
    assert!(matches!(t.plan_batch(&[9]), BatchPlan::Stop));
}

#[test]
fn low_keys_leave_the_threshold() {
    let mut t = TopK::new(2);
    t.bank(&[10, 8]);
    t.bank(&[8, 3, 1]);
    assert!(matches!(t.plan_batch(&[9, 8]), BatchPlan::Search(p) if p == vec![0]));
    t.bank(&[9]);
    assert!(matches!(t.plan_batch(&[9, 8]), BatchPlan::Stop));
    t.bank(&[]);
    assert!(matches!(t.plan_batch(&[10]), BatchPlan::Search(p) if p == vec![0]));
}

/// One file with a hit on each of its first lines, one for each key.
fn file_of(pid: u32, keys: &[u64]) -> FileHits {
    let lines: Vec<(u64, Vec<u8>)> = (1..=keys.len() as u64).map(|n| (n, b"x\n".to_vec())).collect();
    bank_hits(pid, &lines, keys).unwrap()
}

#[test]
fn batches_are_capped_before_they_are_banked() {
    // Uncapped, the first file alone would fill the best two and end the search.
    let mut t = TopK::new(2);
    let kept = bank_batch(&mut t, vec![file_of(0, &[50, 49, 48])], Some(1));
    assert_eq!(flat_scores(&kept).0, vec![50]);
    assert!(matches!(t.plan_batch(&[40]), BatchPlan::Search(p) if p == vec![0]));
    let kept = bank_batch(&mut t, vec![file_of(1, &[39, 38]), file_of(2, &[37])], Some(1));
    assert_eq!(flat_scores(&kept).0, vec![39, 37]);
    assert!(matches!(t.plan_batch(&[39]), BatchPlan::Stop));
    // No cap banks everything, a cap of zero nothing.
    let mut t = TopK::new(2);
    assert_eq!(flat_scores(&bank_batch(&mut t, vec![file_of(0, &[50, 49, 48])], None)).0, vec![50, 49, 48]);
    assert!(matches!(t.plan_batch(&[40]), BatchPlan::Stop));
    let mut t = TopK::new(1);
    assert!(flat_scores(&bank_batch(&mut t, vec![file_of(0, &[50])], Some(0))).0.is_empty());
    assert!(matches!(t.plan_batch(&[1]), BatchPlan::Search(_)));
}

/// Search files batch by batch for the best `k` hits.
fn cut_search(files: &[(u64, Vec<u64>)], k: usize) -> Vec<u64> {
    let mut t = TopK::new(k);
    let mut kept: Vec<u64> = Vec::new();
    let mut at = 0;
    while at < files.len() {
        let batch = &files[at..(at + BATCH).min(files.len())];
        let keys: Vec<u64> = batch.iter().map(|f| f.0).collect();
        match t.plan_batch(&keys) {
            BatchPlan::Stop => break,
            BatchPlan::Search(pos) => {
                let mut got: Vec<u64> = Vec::new();
                for p in pos {
                    got.extend(&batch[p].1);
                }
                t.bank(&got);
                kept.extend(got);
            }
        }
        at += batch.len();
    }
    let ord = raw_order(&kept);
    ord.iter().take(k).map(|i| kept[*i]).collect()
}

#[test]
fn cut_search_ranks_the_same() {
    // Files ranked by key; the hits of a file rank below its key.
    let files: Vec<(u64, Vec<u64>)> =
        (0..300u64).map(|i| (30000 - 10 * i, (1..(i % 4) + 1).map(|l| 30000 - 10 * i - l * 7).collect())).collect();
    let all: Vec<u64> = files.iter().flat_map(|f| f.1.clone()).collect();
    let full = raw_order(&all);
    for k in [1usize, 2, 5, 40, 1000] {
        let want: Vec<u64> = full.iter().take(k).map(|i| all[*i]).collect();
        assert_eq!(cut_search(&files, k), want, "k = {k}");
    }
}

#[test]
fn raw_order_is_best_first() {
    assert_eq!(raw_order(&[1, 5, 3, 5]), vec![1, 3, 2, 0]);
    assert_eq!(stable_order(&[1, 5, 3, 5]), vec![0, 2, 1, 3]);
}
