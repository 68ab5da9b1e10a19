use time_resolution::Cache;
use time_resolution::CacheResponse;
use time_resolution::Day;
use time_resolution::PeriodMap;
use time_resolution::PeriodSet;
use time_resolution::TimeResolution;
use time_resolution::range::missing_pieces;

fn day_set(xs: &[i64]) -> PeriodSet<Day> {
    let mut s = PeriodSet::new();
    for &x in xs {
        s.insert(Day::from_monotonic(x));
    }
    s
}

fn day_map(pairs: &[(i64, u64)]) -> PeriodMap<Day, u64> {
    let mut m = PeriodMap::new();
    for &(k, v) in pairs {
        m.insert(Day::from_monotonic(k), v);
    }
    m
}

fn group_values(g: &PeriodSet<Day>) -> Vec<i64> {
    let mut out = Vec::new();
    let mut i = 0;
    while i < g.len() {
        out.push(g.at(i).to_monotonic());
        i += 1;
    }
    out
}

#[test]
fn test_missing_pieces() {
    let pieces = missing_pieces(
        day_set(&[1, 2, 3, 4, 5, 6, 7, 8, 9, 10]),
        &day_set(&[2, 3, 7, 8]),
    );
    assert_eq!(pieces.len(), 3);
    assert_eq!(group_values(&pieces[0]), vec![1]);
    assert_eq!(group_values(&pieces[1]), vec![4, 5, 6]);
    assert_eq!(group_values(&pieces[2]), vec![9, 10]);
}

#[test]
fn gap_minimality() {
    let mut cache: Cache<Day, u64> = Cache::empty();
    cache.add(day_set(&[2, 3, 7, 8]), day_map(&[]));
    match cache.get(day_set(&[1, 2, 3, 4, 5, 6, 7, 8, 9, 10])) {
        CacheResponse::Miss(groups) => {
            assert_eq!(groups.len(), 3);
            assert_eq!(group_values(&groups[0]), vec![1]);
            assert_eq!(group_values(&groups[1]), vec![4, 5, 6]);
            assert_eq!(group_values(&groups[2]), vec![9, 10]);
        },
        CacheResponse::Hit(_) => panic!("expected a miss"),
    }
}

#[test]
fn empty_request_hits_empty() {
    let cache: Cache<Day, u64> = Cache::empty();
    match cache.get(PeriodSet::new()) {
        CacheResponse::Hit(m) => assert!(m.is_empty()),
        CacheResponse::Miss(_) => panic!("expected a hit"),
    }
}

#[test]
fn hit_miss_dichotomy() {
    let mut cache: Cache<Day, u64> = Cache::empty();
    cache.add(day_set(&[1, 2, 3]), day_map(&[(1, 10), (3, 30)]));

    match cache.get(day_set(&[1, 2, 3])) {
        CacheResponse::Hit(m) => {
            assert_eq!(m.len(), 2);
            assert_eq!(m.get(Day::from_monotonic(1)), Some(10));
            assert_eq!(m.get(Day::from_monotonic(2)), None);
            assert_eq!(m.get(Day::from_monotonic(3)), Some(30));
        },
        CacheResponse::Miss(_) => panic!("expected a hit"),
    }

    match cache.get(day_set(&[2, 3, 4])) {
        CacheResponse::Miss(groups) => {
            assert_eq!(groups.len(), 1);
            assert_eq!(group_values(&groups[0]), vec![4]);
        },
        CacheResponse::Hit(_) => panic!("expected a miss"),
    }
}

#[test]
fn hit_spans_older_data() {
    let mut cache: Cache<Day, u64> = Cache::empty();
    cache.add(day_set(&[5]), day_map(&[(5, 50)]));
    cache.add(day_set(&[4, 6]), day_map(&[(4, 40), (6, 60)]));
    match cache.get(day_set(&[4, 5, 6])) {
        CacheResponse::Hit(m) => {
            assert_eq!(m.len(), 3);
            assert_eq!(m.get(Day::from_monotonic(5)), Some(50));
        },
        CacheResponse::Miss(_) => panic!("expected a hit"),
    }
    match cache.get(day_set(&[5])) {
        CacheResponse::Hit(m) => {
            assert_eq!(m.len(), 1);
            assert_eq!(m.get(Day::from_monotonic(5)), Some(50));
            assert_eq!(m.get(Day::from_monotonic(4)), None);
        },
        CacheResponse::Miss(_) => panic!("expected a hit"),
    }
}

#[test]
fn fetch_then_hit() {
    let mut cache: Cache<Day, u64> = Cache::empty();
    let request = day_set(&[1, 2, 3]);
    match cache.get(day_set(&[1, 2, 3])) {
        CacheResponse::Miss(groups) => {
            assert_eq!(groups.len(), 1);
            assert_eq!(group_values(&groups[0]), vec![1, 2, 3]);
        },
        CacheResponse::Hit(_) => panic!("expected a miss"),
    }
    cache.add(request, day_map(&[(1, 1), (2, 4), (3, 9)]));
    match cache.get(day_set(&[1, 2, 3])) {
        CacheResponse::Hit(m) => {
            assert_eq!(m.len(), 3);
            assert_eq!(m.get(Day::from_monotonic(2)), Some(4));
        },
        CacheResponse::Miss(_) => panic!("expected a hit"),
    }
}

#[test]
fn overwrite_is_silent() {
    let mut cache: Cache<Day, u64> = Cache::empty();
    cache.add(day_set(&[1]), day_map(&[(1, 10)]));
    cache.add(day_set(&[1]), day_map(&[(1, 11)]));
    match cache.get(day_set(&[1])) {
        CacheResponse::Hit(m) => {
            assert_eq!(m.len(), 1);
            assert_eq!(m.get(Day::from_monotonic(1)), Some(11));
        },
        CacheResponse::Miss(_) => panic!("expected a hit"),
    }
}

#[test]
fn idempotent_add() {
    let mut once: Cache<Day, u64> = Cache::empty();
    once.add(day_set(&[1, 2]), day_map(&[(1, 10), (2, 20)]));
    let mut twice: Cache<Day, u64> = Cache::empty();
    twice.add(day_set(&[1, 2]), day_map(&[(1, 10), (2, 20)]));
    twice.add(day_set(&[1, 2]), day_map(&[(1, 10), (2, 20)]));

    for xs in [vec![1_i64, 2], vec![1, 2, 3], vec![2]] {
        let a = once.get(day_set(&xs));
        let b = twice.get(day_set(&xs));
        match (a, b) {
            (CacheResponse::Hit(x), CacheResponse::Hit(y)) => {
                assert_eq!(x.len(), y.len());
                assert_eq!(x.get(Day::from_monotonic(1)), y.get(Day::from_monotonic(1)));
                assert_eq!(x.get(Day::from_monotonic(2)), y.get(Day::from_monotonic(2)));
            },
            (CacheResponse::Miss(x), CacheResponse::Miss(y)) => {
                assert_eq!(x.len(), y.len());
                for i in 0..x.len() {
                    assert_eq!(group_values(&x[i]), group_values(&y[i]));
                }
            },
            _ => panic!("the two caches answered differently"),
        }
    }
}

#[test]
fn map_insert_overwrites() {
    let mut m: PeriodMap<Day, u64> = PeriodMap::new();
    m.insert(Day::from_monotonic(3), 1);
    m.insert(Day::from_monotonic(1), 2);
    m.insert(Day::from_monotonic(3), 7);
    assert_eq!(m.len(), 2);
    assert_eq!(m.get(Day::from_monotonic(3)), Some(7));
    assert_eq!(m.get(Day::from_monotonic(1)), Some(2));
    assert_eq!(m.pair_at(0).0, Day::from_monotonic(1));
    assert_eq!(m.pair_at(1).0, Day::from_monotonic(3));
}
