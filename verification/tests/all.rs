use std::collections::HashSet;

use rand::rngs::StdRng;
use rand::{Rng, SeedableRng};

use instant_distance::contiguous::ContiguousStorage;
use instant_distance::contiguous_types::PointId;
use instant_distance::{Builder, Search};

/// Scale for turning unit-interval floats into integer coordinates.
const SCALE: f32 = 16_777_216.0;

fn scaled(v: f32) -> i64 {
    (v * SCALE) as i64
}

#[test]
fn map() {
    for _ in 0..10 {
        let points: Vec<Vec<i64>> = (0..5).map(|i| vec![i as i64, i as i64]).collect();
        let values = vec!["zero", "one", "two", "three", "four"];

        let seed = rand::random::<u64>();
        println!("map (seed = {seed})");
        let map = Builder::default().seed(seed).build(&points, values);
        let mut search = Search::default();

        let search_results = map.search(&vec![2, 2], &mut search);
        assert_eq!(search_results.len(), 5);

        for (i, item) in search_results.iter().enumerate() {
            let distance = (item.distance as f32).sqrt();
            match i {
                0 => {
                    assert_eq!(distance, 0.0);
                    assert_eq!(item.value, "two");
                }
                1 | 2 => {
                    assert_eq!(distance, 1.4142135);
                    assert!(item.value == "one" || item.value == "three");
                }
                3 | 4 => {
                    assert_eq!(distance, 2.828427);
                    assert!(item.value == "zero" || item.value == "four");
                }
                _ => unreachable!(),
            }
        }
    }
}

#[test]
fn random_heuristic() {
    let (seed, recall) = randomized(Builder::default());
    println!("heuristic (seed = {seed}) recall = {recall}");
    assert!(recall > 97, "expected at least 98, got {recall}");
}

#[test]
fn random_simple() {
    let (seed, recall) = randomized(Builder::default().select_heuristic(None));
    println!("simple (seed = {seed}) recall = {recall}");
    assert!(recall > 90, "expected at least 90, got {recall}");
}

fn randomized(builder: Builder) -> (u64, usize) {
    let seed = rand::random::<u64>();
    let mut rng = StdRng::seed_from_u64(seed);
    let points: Vec<Vec<i64>> = (0..1024)
        .map(|_| {
            let (x, y) = rng.gen::<(f32, f32)>();
            vec![scaled(x), scaled(y)]
        })
        .collect();

    let (qx, qy) = rng.gen::<(f32, f32)>();
    let query = vec![scaled(qx), scaled(qy)];
    let mut nearest = Vec::with_capacity(256);
    for (i, p) in points.iter().enumerate() {
        let dx = (query[0] - p[0]) as i128;
        let dy = (query[1] - p[1]) as i128;
        nearest.push((dx * dx + dy * dy, i));
        if nearest.len() >= 200 {
            nearest.sort_unstable();
            nearest.truncate(100);
        }
    }

    let (hnsw, pids) = builder.seed(seed).build_hnsw(&points);
    let mut search = Search::default();
    let results = hnsw.search(&query, &mut search);
    assert!(results.len() >= 100);

    nearest.sort_unstable();
    nearest.truncate(100);
    let forced = nearest.iter().map(|&(_, i)| pids[i]).collect::<HashSet<_>>();
    let found = results
        .iter()
        .take(100)
        .map(|item| item.pid)
        .collect::<HashSet<_>>();
    (seed, forced.intersection(&found).count())
}

#[test]
fn test_point_iter_stride() {
    let points: Vec<Vec<i64>> = vec![vec![1, 2], vec![3, 4]];
    let order = vec![1, 0];
    let storage = ContiguousStorage {
        values: points.iter().flatten().copied().collect(),
        order,
        stride: 2,
    };

    let expected_points = [vec![3_i64, 4], vec![1, 2]];
    for (i, point) in storage.iter().iter().enumerate() {
        assert_eq!(point, &expected_points[i]);
    }
}

#[test]
fn three_colors() {
    let points: Vec<Vec<i64>> = vec![vec![255, 0, 0], vec![0, 255, 0], vec![0, 0, 255]];
    let values = vec!["red", "green", "blue"];
    let map = Builder::default().seed(7).build(&points, values);
    let mut search = Search::default();
    let results = map.search(&vec![204, 85, 0], &mut search);
    assert_eq!(results.len(), 3);
    assert_eq!(results[0].value, "red");
    // squared Euclidean distances of the three colours from the query
    assert_eq!(results[0].distance, 51 * 51 + 85 * 85);
    let mut rest: Vec<u64> = results[1..].iter().map(|r| r.distance).collect();
    rest.sort_unstable();
    assert_eq!(rest[0], 204 * 204 + 170 * 170);
    assert_eq!(rest[1], 204 * 204 + 85 * 85 + 255 * 255);
}

#[test]
fn empty_index() {
    let points: Vec<Vec<i64>> = Vec::new();
    let (hnsw, pids) = Builder::default().seed(3).build_hnsw(&points);
    assert_eq!(pids.len(), 0);
    let mut search = Search::default();
    let results = hnsw.search(&vec![1, 2], &mut search);
    assert_eq!(results.len(), 0);
}

#[test]
fn single_point() {
    let points: Vec<Vec<i64>> = vec![vec![7]];
    let (hnsw, pids) = Builder::default().seed(11).build_hnsw(&points);
    assert_eq!(pids, vec![PointId(0)]);
    let mut search = Search::default();
    let results = hnsw.search(&vec![0], &mut search);
    assert_eq!(results.len(), 1);
    assert_eq!(results[0].pid, PointId(0));
    assert_eq!((results[0].distance as f32).sqrt(), 7.0);
}

#[test]
fn two_points() {
    for seed in 0..20_u64 {
        let points: Vec<Vec<i64>> = vec![vec![0, 0], vec![10, 0]];
        let (hnsw, _) = Builder::default().seed(seed).build_hnsw(&points);
        let mut search = Search::default();
        let results = hnsw.search(&vec![1, 0], &mut search);
        assert_eq!(results.len(), 2);
        assert!(results[0].distance <= results[1].distance);
        assert_eq!(results[0].distance, 1);
        assert_eq!(results[1].distance, 81);
    }
}

#[test]
fn search_is_idempotent() {
    let mut rng = StdRng::seed_from_u64(99);
    let points: Vec<Vec<i64>> = (0..200)
        .map(|_| vec![rng.gen_range(0..1000), rng.gen_range(0..1000)])
        .collect();
    let (hnsw, _) = Builder::default().seed(99).build_hnsw(&points);
    let query = vec![500, 500];
    let mut search = Search::default();
    let first: Vec<_> = hnsw
        .search(&query, &mut search)
        .iter()
        .map(|i| (i.distance, i.pid))
        .collect();
    let second: Vec<_> = hnsw
        .search(&query, &mut search)
        .iter()
        .map(|i| (i.distance, i.pid))
        .collect();
    assert_eq!(first, second);
}

#[test]
fn deterministic_build() {
    let mut rng = StdRng::seed_from_u64(5);
    let points: Vec<Vec<i64>> = (0..300)
        .map(|_| vec![rng.gen_range(0..100_000), rng.gen_range(0..100_000)])
        .collect();
    let (a, pids_a) = Builder::default().seed(42).build_hnsw(&points);
    let (b, pids_b) = Builder::default().seed(42).build_hnsw(&points);
    assert_eq!(pids_a, pids_b);
    assert_eq!(a.neighbors_snapshot(), b.neighbors_snapshot());
    assert_eq!(a.layer_metas(), b.layer_metas());
}

#[test]
fn remap_is_bijection() {
    let mut rng = StdRng::seed_from_u64(17);
    let points: Vec<Vec<i64>> = (0..257)
        .map(|_| vec![rng.gen_range(-1000..1000), rng.gen_range(-1000..1000)])
        .collect();
    let (_, pids) = Builder::default().seed(17).build_hnsw(&points);
    assert_eq!(pids.len(), points.len());
    let distinct: HashSet<PointId> = pids.iter().copied().collect();
    assert_eq!(distinct.len(), points.len());
    for pid in &pids {
        assert!((pid.0 as usize) < points.len());
    }
}

#[test]
fn layer_counts_match_meta() {
    let mut rng = StdRng::seed_from_u64(23);
    let points: Vec<Vec<i64>> = (0..500)
        .map(|_| vec![rng.gen_range(0..100_000), rng.gen_range(0..100_000)])
        .collect();
    let (hnsw, _) = Builder::default().seed(23).build_hnsw(&points);
    let metas = hnsw.layer_metas();
    // The base layer holds every point; each higher layer holds the
    // next-lower layer's total minus the ids that stop below it.
    assert_eq!(metas[0].total, 500);
    let mut counted = 0;
    for (l, m) in metas.iter().enumerate() {
        let upper_total = if l + 1 < metas.len() { metas[l + 1].total } else { 0 };
        assert_eq!(m.max, m.total - upper_total);
        counted += m.max;
    }
    assert_eq!(counted, 500);
}

#[test]
fn rows_valid_and_reachable() {
    let mut rng = StdRng::seed_from_u64(31);
    let n = 400_usize;
    let points: Vec<Vec<i64>> = (0..n)
        .map(|_| vec![rng.gen_range(0..100_000), rng.gen_range(0..100_000)])
        .collect();
    for heuristic in [true, false] {
        let builder = if heuristic {
            Builder::default()
        } else {
            Builder::default().select_heuristic(None)
        };
        let (hnsw, _) = builder.seed(31).build_hnsw(&points);
        let rows = hnsw.neighbors_snapshot();
        let dist = |a: usize, b: usize| {
            let pa = hnsw.storage.get(a).unwrap();
            let pb = hnsw.storage.get(b).unwrap();
            pa.iter()
                .zip(pb.iter())
                .map(|(x, y)| (x - y) * (x - y))
                .sum::<i64>()
        };
        for p in 0..n {
            let row = &rows[64 * p..64 * (p + 1)];
            let mut seen_invalid = false;
            let mut last_d: Option<i64> = None;
            for slot in row {
                if slot.is_valid() {
                    // filled slots form a prefix
                    assert!(!seen_invalid);
                    let q = slot.0 as usize;
                    assert!(q < n);
                    assert_ne!(q, p);
                    if !heuristic {
                        // rows are ordered by distance under simple selection
                        let d = dist(p, q);
                        if let Some(prev) = last_d {
                            assert!(prev <= d);
                        }
                        last_d = Some(d);
                    }
                } else {
                    seen_invalid = true;
                }
            }
        }
        // every point is reachable from the enter point on the base layer
        let mut visited = vec![false; n];
        let mut stack = vec![0_usize];
        visited[0] = true;
        while let Some(p) = stack.pop() {
            for slot in &rows[64 * p..64 * (p + 1)] {
                if slot.is_valid() {
                    let q = slot.0 as usize;
                    if !visited[q] {
                        visited[q] = true;
                        stack.push(q);
                    }
                }
            }
        }
        assert!(visited.iter().all(|&v| v));
    }
}

#[test]
fn values_follow_remap() {
    let points: Vec<Vec<i64>> = (0..50).map(|i| vec![i as i64 * 3, 7 - i as i64]).collect();
    let values: Vec<String> = (0..50).map(|i| format!("v{i}")).collect();
    let map = Builder::default().seed(77).build(&points, values.clone());
    // the value stored at position p belongs to the caller index that the
    // remap sent to id p
    let (_, pids) = Builder::default().seed(77).build_hnsw(&points);
    for (i, pid) in pids.iter().enumerate() {
        assert_eq!(map.values[pid.0 as usize], values[i]);
    }
}
