use rinha_fraud::index::format::offsets_sound;
use rinha_fraud::index::kernels::{search_point_tail_from_dim2, search_point_tail_from_dim4};
use rinha_fraud::index::loading::majority_decision;
use rinha_fraud::index::neighbors::NeighborSet;
use rinha_fraud::index::repair::{adaptive_clear_rule_matches, score5_repair_rule_matches};
use rinha_fraud::index::{
    order_points_by_bucket, order_points_by_bucket_ivf, AdaptiveClearRule, BucketApprovalCounts,
    Index, IndexConfig, IndexError, Point, Score5RepairRule, SearchResult,
};

const RISKS: [i16; 10] = [
    1_500, 2_000, 2_500, 3_000, 3_500, 4_500, 5_000, 7_500, 8_000, 8_500,
];

struct Random(u64);

impl Random {
    fn next(&mut self) -> u64 {
        self.0 = self
            .0
            .wrapping_mul(6_364_136_223_846_793_005)
            .wrapping_add(1_442_695_040_888_963_407);
        self.0 >> 33
    }

    fn below(&mut self, limit: u64) -> i16 {
        (self.next() % limit) as i16
    }

    fn flag(&mut self) -> i16 {
        if self.next() % 2 == 0 {
            0
        } else {
            10_000
        }
    }

    fn vector(&mut self, has_last: bool) -> [i16; 14] {
        let mut v = [0i16; 14];
        for d in [0, 1, 2, 3, 4, 7, 13] {
            v[d] = self.below(10_001);
        }
        if has_last {
            v[5] = self.below(10_001);
            v[6] = self.below(10_001);
        } else {
            v[5] = -10_000;
            v[6] = -10_000;
        }
        v[8] = self.below(21) * 500;
        v[9] = self.flag();
        v[10] = self.flag();
        v[11] = self.flag();
        v[12] = RISKS[self.below(10) as usize];
        v
    }

    fn crowded(&mut self) -> [i16; 14] {
        let mut v = self.vector(true);
        v[2] = 1_000;
        v[8] = 1_500;
        v[9] = 0;
        v[10] = 10_000;
        v[11] = 0;
        v[12] = 3_000;
        v
    }
}

fn points(count: usize, crowded: bool, seed: u64) -> Vec<Point> {
    let mut random = Random(seed);
    (0..count)
        .map(|i| {
            let values = if crowded && i % 2 == 0 {
                random.crowded()
            } else {
                let has_last = random.next() % 4 != 0;
                random.vector(has_last)
            };
            Point { values, label: (random.next() % 2) as u8, reserved: 0 }
        })
        .collect()
}

fn scan_order(v: &[i16; 14]) -> [i16; 14] {
    [
        v[5], v[6], v[0], v[2], v[7], v[8], v[12], v[1], v[11], v[9], v[10], v[3], v[4], v[13],
    ]
}

fn distance(a: &[i16; 14], b: &[i16; 14]) -> i64 {
    a.iter()
        .zip(b)
        .map(|(x, y)| (*x as i64 - *y as i64) * (*x as i64 - *y as i64))
        .sum()
}

fn nearest(points: &[Point], query: &[i16; 14]) -> (u8, i64) {
    let mut all: Vec<(i64, u8)> = points
        .iter()
        .map(|point| (distance(&point.values, query), point.label))
        .collect();
    all.sort();
    (all[..5].iter().map(|item| item.1).sum(), all[4].0)
}

fn load(points: &[Point], config: &IndexConfig) -> Index {
    let bytes = Index::write(points);
    assert!(offsets_sound(&bytes));
    Index::load(&bytes, config).ok().unwrap()
}

fn configs() -> Vec<IndexConfig> {
    let plain = IndexConfig::default();
    vec![
        plain,
        IndexConfig { lanes: false, ..plain },
        IndexConfig { use_mmap: false, ..plain },
        IndexConfig { prefix4: true, ..plain },
        IndexConfig { prefix4: true, lanes: false, ..plain },
        IndexConfig { packed_hot2: true, ..plain },
        IndexConfig { packed_hot2: true, lanes: false, ..plain },
        IndexConfig { packed_hot2: true, prefix4: true, ..plain },
        IndexConfig { grid: Some((2, 4)), grid_threshold: 64, ..plain },
        IndexConfig { grid: Some((7, 13)), grid_threshold: 64, global_plan: true, ..plain },
        IndexConfig { use_mmap: false, grid: Some((2, 4)), grid_threshold: 64, ..plain },
        IndexConfig {
            use_mmap: false,
            grid: Some((11, 12)),
            grid_threshold: 64,
            global_plan: true,
            lanes: false,
            ..plain
        },
        IndexConfig { sector_decisions: true, ..plain },
    ]
}

#[test]
fn searches_find_the_nearest_references() {
    let references = points(6_000, true, 7);
    let mut stored = references.clone();
    order_points_by_bucket(&mut stored);
    let mut random = Random(99);
    let queries: Vec<[i16; 14]> = (0..12)
        .map(|i| if i % 2 == 0 { random.crowded() } else { random.vector(true) })
        .collect();
    for config in configs() {
        let index = load(&stored, &config);
        assert_eq!(index.len(), 6_000);
        assert!(!index.is_empty());
        for query in &queries {
            assert!(index.admits(query));
            let (votes, worst) = nearest(&references, query);
            assert_eq!(index.search_brute(query).fraud_count, votes);
            assert_eq!(index.search(query).fraud_count, votes);
            let (result, stats) = index.search_sorted(query);
            assert_eq!((result.fraud_count, stats.worst_distance), (votes, worst));
            let (result, stats) = index.search_with_stats(query);
            assert_eq!((result.fraud_count, stats.worst_distance), (votes, worst));
            let (result, stats) = index.search_limited(query, 1_000_000);
            assert_eq!((result.fraud_count, stats.worst_distance), (votes, worst));
            assert_eq!(stats.candidates_pruned_by_limit, 0);
            let (result, same) = index.search_checked(query);
            assert_eq!(result.fraud_count, votes);
            assert!(same);
        }
    }
}

#[test]
fn undivided_indexes_find_the_nearest_without_an_earlier_transaction() {
    let references = points(900, false, 21);
    let mut stored = references.clone();
    order_points_by_bucket(&mut stored);
    let index = load(&stored, &IndexConfig::default());
    let mut random = Random(5);
    for _ in 0..20 {
        let query = random.vector(false);
        let (votes, worst) = nearest(&references, &query);
        let (result, stats) = index.search_sorted(&query);
        assert_eq!((result.fraud_count, stats.worst_distance), (votes, worst));
    }
}

#[test]
fn limits_stop_searches_early() {
    let references = points(6_000, true, 3);
    let mut stored = references.clone();
    order_points_by_bucket(&mut stored);
    let index = load(&stored, &IndexConfig::default());
    let mut random = Random(4);
    let mut stopped = 0;
    for _ in 0..20 {
        let query = random.vector(true);
        for limit in [0, 1, 5, 50, 500] {
            let (result, stats) = index.search_limited(&query, limit);
            assert_eq!(
                index.search_limited_result(&query, limit).fraud_count,
                result.fraud_count
            );
            let (again, full, _, details) = index.search_limited_instrumented(&query, limit);
            assert_eq!(again.fraud_count, result.fraud_count);
            assert_eq!(full.points_scanned, stats.points_scanned);
            assert_eq!(full.worst_distance, stats.worst_distance);
            assert_eq!(
                details.primary_points_scanned + details.secondary_points_scanned,
                stats.points_scanned
            );
            assert_eq!(
                details.distance_full + details.distance_cutoffs.iter().sum::<u32>(),
                stats.points_scanned
            );
            assert_eq!(
                index.search_limited_repair_mask_result(&query, limit, limit, 0).fraud_count,
                result.fraud_count
            );
            assert_eq!(
                index
                    .search_limited_adaptive_boundary_repair_result(
                        &query,
                        limit,
                        limit,
                        limit,
                        0,
                        0,
                        None,
                        AdaptiveClearRule::Always,
                    )
                    .fraud_count,
                result.fraud_count
            );
            stopped += stats.candidates_pruned_by_limit;
        }
    }
    assert!(stopped > 0);
}

#[test]
fn repaired_searches_look_again() {
    let references = points(6_000, true, 13);
    let mut stored = references.clone();
    order_points_by_bucket(&mut stored);
    let index = load(&stored, &IndexConfig::default());
    let mut random = Random(8);
    let all = 1_000_000;
    let mut changed = 0;
    for _ in 0..60 {
        let query = random.vector(true);
        let (votes, _) = nearest(&references, &query);
        let fast = index.search_limited_result(&query, 1).fraud_count;
        let again = |score: u8, chosen: bool| {
            let result = if chosen { votes } else { score };
            assert!(result <= 5);
            result
        };
        assert_eq!(index.search_limited_repair_mask_result(&query, 1, all, 0xff).fraud_count, votes);
        let boundary = index.search_limited_boundary_repair_result(&query, 1, all).fraud_count;
        assert_eq!(boundary, again(fast, fast == 2 || fast == 3));
        let high = index.search_limited_score4_repair_result(&query, 1, all).fraud_count;
        assert_eq!(high, again(fast, fast >= 2));
        let far = index
            .search_limited_score4_threshold_repair_result(&query, 1, all, i64::MAX)
            .fraud_count;
        assert_eq!(far, boundary);
        let near = index
            .search_limited_repair_mask_high_below_result(&query, 1, all, 0, i64::MAX)
            .fraud_count;
        assert_eq!(near, again(fast, fast >= 4));
        let selective = index
            .search_limited_selective_repair_result(&query, 1, all, 0, Some(0), Some(0), None)
            .fraud_count;
        assert_eq!(selective, again(fast, fast == 3 || fast == 4));
        let rule = Score5RepairRule::Fp70Tight;
        let ruled = index
            .search_limited_repair_mask_score5_rule_result(&query, 1, all, 0, rule)
            .fraud_count;
        assert_eq!(ruled, again(fast, fast == 5 && score5_repair_rule_matches(rule, &query)));
        let adaptive = index
            .search_limited_adaptive_boundary_repair_result(
                &query,
                1,
                1,
                all,
                0b11_0011,
                0b00_1100,
                None,
                AdaptiveClearRule::Always,
            )
            .fraud_count;
        assert_eq!(adaptive, boundary);
        if boundary != fast {
            changed += 1;
        }
    }
    assert!(changed > 0);
}

#[test]
fn rules_are_about_their_vectors() {
    let tail = [0, 0, 7_000, 0, 0, 10_000, 0, 4_000, 4_500, 0, 10_000, 0, 7_400, 0];
    assert!(adaptive_clear_rule_matches(AdaptiveClearRule::Always, &[0; 14]));
    assert!(adaptive_clear_rule_matches(AdaptiveClearRule::TailRatio70Tx45Home40, &tail));
    assert!(adaptive_clear_rule_matches(AdaptiveClearRule::TailMccNonGaming, &tail));
    for (d, value) in [(2, 8_001), (5, 9_999), (8, 5_001), (9, 10_000), (10, 0), (11, 10_000)] {
        let mut other = tail;
        other[d] = value;
        assert!(!adaptive_clear_rule_matches(AdaptiveClearRule::TailRatio70Tx45Home40, &other));
        assert!(!adaptive_clear_rule_matches(AdaptiveClearRule::TailMccNonGaming, &other));
    }
    let five = [
        3_000, 6_000, 10_000, 2_000, 0, 10_000, 2_500, 4_000, 5_500, 10_000, 0, 10_000, 7_500, 0,
    ];
    assert!(score5_repair_rule_matches(Score5RepairRule::Fp70Tight, &five));
    assert!(score5_repair_rule_matches(Score5RepairRule::Fp70Narrow, &five));
    let mut wide = five;
    wide[0] = 5_000;
    assert!(score5_repair_rule_matches(Score5RepairRule::Fp70Tight, &wide));
    assert!(!score5_repair_rule_matches(Score5RepairRule::Fp70Narrow, &wide));
}

#[test]
fn primary_searches_stay_in_their_bucket() {
    let references = points(6_000, true, 17);
    let mut stored = references.clone();
    order_points_by_bucket(&mut stored);
    let index = load(&stored, &IndexConfig::default());
    let query = Random(2).crowded();
    let own: Vec<Point> = references
        .iter()
        .filter(|point| {
            let v = point.values;
            v[5] != -10_000 && v[9] == 0 && v[10] != 0 && v[11] == 0 && v[12] == 3_000
                && v[8] == 1_500 && v[2] / 1_250 == 0
        })
        .copied()
        .collect();
    assert!(own.len() > 1_024);
    assert_eq!(index.search_primary(&query).fraud_count, nearest(&own, &query).0);
}

#[test]
fn majorities_decide() {
    let decide = |approved, denied, least, errors| {
        majority_decision(BucketApprovalCounts { approved, denied }, least, errors)
    };
    assert_eq!(decide(99, 1, 50, 100), Some(0));
    assert_eq!(decide(99, 1, 50, 99), None);
    assert_eq!(decide(1, 99, 50, 100), Some(3));
    assert_eq!(decide(99, 1, 101, 10_000), None);
    assert_eq!(decide(0, 0, 0, 10_000), None);
    assert_eq!(decide(5, 5, 0, 5_000), Some(0));

    let mut stored: Vec<Point> = points(3_000, true, 31)
        .into_iter()
        .map(|point| Point { label: if point.values[5] < 5_000 { 5 } else { 0 }, ..point })
        .collect();
    order_points_by_bucket(&mut stored);
    let plain = load(&stored, &IndexConfig::default());
    let query = Random(6).crowded();
    assert_eq!(plain.bucket_majority_decision(&query, 10, 1), None);
    assert!(plain.bucket_majority_decision(&query, 10, 10_000).is_some());
    assert_eq!(plain.bucket_majority_decision(&query, 1_000_000, 10_000), None);
    assert_eq!(plain.sector_majority_decision(&query, 1, 10_000), None);
    let keeping = IndexConfig { sector_decisions: true, ..IndexConfig::default() };
    let index = load(&stored, &keeping);
    let mut low = query;
    low[5] = 600;
    let mut high = query;
    high[5] = 9_400;
    assert_eq!(index.sector_majority_decision(&low, 1, 0), Some(3));
    assert_eq!(index.sector_majority_decision(&high, 1, 0), Some(0));
}

#[test]
fn ordering_only_moves_points() {
    for by_cell in [false, true] {
        let references = points(2_000, true, 41);
        let mut stored = references.clone();
        if by_cell {
            order_points_by_bucket_ivf(&mut stored, (2, 4));
        } else {
            order_points_by_bucket(&mut stored);
        }
        let mut left: Vec<([i16; 14], u8)> = references
            .iter()
            .map(|point| (scan_order(&point.values), point.label))
            .collect();
        let mut right: Vec<([i16; 14], u8)> =
            stored.iter().map(|point| (point.values, point.label)).collect();
        assert_ne!(left, right);
        left.sort();
        right.sort();
        assert_eq!(left, right);
    }
}

#[test]
fn cell_ordered_files_load_too() {
    let references = points(3_000, true, 43);
    let mut stored = references.clone();
    order_points_by_bucket_ivf(&mut stored, (2, 4));
    let plain = IndexConfig::default();
    let mut random = Random(77);
    let queries: Vec<[i16; 14]> = (0..10).map(|_| random.crowded()).collect();
    for config in [
        plain,
        IndexConfig { grid: Some((2, 4)), grid_threshold: 64, ..plain },
        IndexConfig { grid: Some((2, 4)), grid_threshold: 64, global_plan: true, ..plain },
    ] {
        let index = load(&stored, &config);
        for query in &queries {
            let (votes, worst) = nearest(&references, query);
            let (result, stats) = index.search_sorted(query);
            assert_eq!((result.fraud_count, stats.worst_distance), (votes, worst));
            let (again, full, _, details) = index.search_limited_instrumented(query, 1_000_000);
            assert_eq!(again.fraud_count, votes);
            assert_eq!(full.points_scanned, stats.points_scanned);
            assert_eq!(details.primary_bucket_sectorized, 1);
            assert!(full.sectors_scanned > 0);
        }
    }
}

#[test]
fn files_that_are_no_index_are_refused() {
    let config = IndexConfig::default();
    let mut stored = points(3, false, 1);
    order_points_by_bucket(&mut stored);
    let bytes = Index::write(&stored);
    assert_eq!(&bytes[..8], b"RINHAO09");
    assert_eq!(&bytes[8..12], &[3, 0, 0, 0]);
    assert_eq!(bytes.len(), 12 + 4 * 26_881 + 3 * 30);
    assert_eq!(Index::load(&bytes, &config).ok().unwrap().len(), 3);
    let refused = |bytes: &[u8]| {
        assert!(offsets_sound(bytes));
        Index::load(bytes, &config).err()
    };
    assert_eq!(refused(b""), Some(IndexError::InvalidMagic));
    assert_eq!(refused(&bytes[..100]), Some(IndexError::InvalidMagic));
    let mut other = bytes.clone();
    other[7] = b'8';
    assert_eq!(refused(&other), Some(IndexError::InvalidMagic));
    assert_eq!(refused(&bytes[..bytes.len() - 1]), Some(IndexError::Truncated));
    let mut unsound = bytes.clone();
    unsound[12] = 200;
    assert!(!offsets_sound(&unsound));
    assert_eq!(IndexError::InvalidMagic.message(), "invalid index magic");
    assert_eq!(IndexError::PointCountOverflow.message(), "index point count overflow");
    assert_eq!(IndexError::SizeOverflow.message(), "index size overflow");
    assert_eq!(IndexError::Truncated.message(), "truncated index");
}

#[test]
fn empty_indexes_vote_for_nothing() {
    let index = load(&[], &IndexConfig::default());
    assert!(index.is_empty());
    let query = Random(1).vector(true);
    assert_eq!(index.search(&query).fraud_count, 0);
    let (result, stats) = index.search_sorted(&query);
    assert_eq!(result.fraud_count, 0);
    assert_eq!((stats.points_scanned, stats.buckets_scanned), (0, 0));
    assert_eq!(stats.worst_distance, i64::MAX);
}

#[test]
fn results_are_written_out() {
    let texts = ["0.0", "0.2", "0.4", "0.6", "0.8", "1.0"];
    for count in 0..=5u8 {
        let result = SearchResult { fraud_count: count };
        assert_eq!(result.approved(), count < 3);
        assert_eq!(result.score_text(), texts[count as usize]);
    }
}

#[test]
fn scores_outside_the_mask_stay() {
    let references = points(6_000, true, 13);
    let mut stored = references.clone();
    order_points_by_bucket(&mut stored);
    let index = load(&stored, &IndexConfig::default());
    let mut random = Random(9);
    for _ in 0..40 {
        let query = random.vector(true);
        let fast = index.search_limited_result(&query, 1).fraud_count;
        let mask = !(1u8 << fast);
        for repair in [0, 100, 1_000_000] {
            let result = index.search_limited_repair_mask_result(&query, 1, repair, mask);
            assert_eq!(result.fraud_count, fast);
        }
        let cleared = index.search_limited_adaptive_boundary_repair_result(
            &query,
            1,
            500,
            1_000_000,
            1 << fast,
            0xff,
            None,
            AdaptiveClearRule::Always,
        );
        assert_eq!(cleared.fraud_count, fast);
    }
}

#[test]
fn tails_are_taken_below_their_ceiling() {
    let vacant = || NeighborSet { best_dist: [i64::MAX; 5], best_label: [0; 5] };
    let point = Point { values: [3; 14], label: 1, reserved: 0 };
    let query = [1i16; 14];
    let mut near = vacant();
    search_point_tail_from_dim2(&point, &query, 100, 149, &mut near);
    assert_eq!(near.best_dist, [i64::MAX, i64::MAX, i64::MAX, i64::MAX, 148]);
    assert_eq!(near.best_label, [0, 0, 0, 0, 1]);
    let mut near = vacant();
    search_point_tail_from_dim2(&point, &query, 100, 148, &mut near);
    assert_eq!(near.best_dist, [i64::MAX; 5]);
    let mut near = vacant();
    search_point_tail_from_dim4(&point, &query, -7, 34, &mut near);
    assert_eq!(near.best_dist, [i64::MAX, i64::MAX, i64::MAX, i64::MAX, 33]);
    search_point_tail_from_dim4(&point, &query, -7, 33, &mut near);
    assert_eq!(near.best_dist, [i64::MAX, i64::MAX, i64::MAX, i64::MAX, 33]);
}
