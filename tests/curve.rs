use prescurve::curve::{monotonic_insert, Curve, Interpolate, Monotonic};
use prescurve::error::Error;

fn two_point(sensor_max: u32, low: u32, high: u32) -> Curve {
    match Curve::new(sensor_max, low, high) {
        Ok(c) => c,
        Err(e) => panic!("curve refused: {:?}", e),
    }
}

fn cache_is_sorted(c: &Curve) -> bool {
    c.cache().windows(2).all(|w| w[0] <= w[1])
}

#[test]
fn scenario_insert_pulls_right_side() {
    let mut c = two_point(100, 1, 100);
    assert_eq!(c.lookup(50), Ok(50));
    assert_eq!(c.add(25, 80, 100), Ok(()));
    assert_eq!(c.points(), &vec![(0, 1), (25, 80), (100, 100)]);
    assert_eq!(c.lookup(75), Ok(93));
    assert_ne!(c.lookup(75), Ok(75));
    assert_eq!(c.lookup(0), Ok(1));
    assert_eq!(c.lookup(100), Ok(100));
    assert!(cache_is_sorted(&c));
}

#[test]
fn boundaries_give_stored_values() {
    let c = two_point(4095, 7, 1200);
    assert_eq!(c.lookup(0), Ok(7));
    assert_eq!(c.lookup(4095), Ok(1200));
    assert_eq!(c.search_interpolate(&0), Ok(7));
    assert_eq!(c.search_interpolate(&4095), Ok(1200));
}

#[test]
fn interior_lookup_between_neighbours() {
    let keys = vec![0, 10, 40, 100];
    let values = vec![5, 90, 30, 200];
    let c = Curve::from_points(&keys, &values, 100).ok().unwrap();
    for x in 11..40u32 {
        let v = c.search_interpolate(&x).unwrap();
        assert!(30 <= v && v <= 90, "x = {} gave {}", x, v);
    }
    assert_eq!(c.search_interpolate(&10), Ok(90));
    assert_eq!(c.search_interpolate(&40), Ok(30));
    // (90 * 15 + 30 * 15) / 30 = 60
    assert_eq!(c.search_interpolate(&25), Ok(60));
}

#[test]
fn interpolation_rounds_down() {
    let keys = vec![0, 25, 100];
    let values = vec![1, 80, 100];
    let c = Curve::from_points(&keys, &values, 100).ok().unwrap();
    // (1 * 15 + 80 * 10) / 25 = 32.6
    assert_eq!(c.search_interpolate(&10), Ok(32));
    assert_eq!(c.lookup(10), Ok(32));
}

#[test]
fn cache_matches_search() {
    let keys = vec![0, 3, 17, 50];
    let values = vec![2, 9, 9, 400];
    let c = Curve::from_points(&keys, &values, 50).ok().unwrap();
    assert_eq!(c.cache().len(), 51);
    for x in 0..=50u32 {
        assert_eq!(c.lookup(x), c.search_interpolate(&x));
    }
}

#[test]
fn large_values_do_not_overflow() {
    let c = two_point(u16::MAX as u32, 0, u32::MAX);
    assert_eq!(c.lookup(u16::MAX as u32), Ok(u32::MAX));
    assert_eq!(c.search_interpolate(&32768), Ok(((u32::MAX as u64 * 32768) / 65535) as u32));
}

#[test]
fn lookup_past_sensor_max_is_out_of_range() {
    let c = two_point(100, 1, 100);
    assert_eq!(c.lookup(101), Err(Error::OutOfRange));
    assert_eq!(c.search_interpolate(&101), Err(Error::OutOfRange));
}

#[test]
fn new_refuses_zero_sensor_max() {
    assert!(matches!(Curve::new(0, 1, 100), Err(Error::Config)));
    assert_eq!(two_point(1, 3, 4).points(), &vec![(0, 3), (1, 4)]);
}

#[test]
fn from_points_refuses_malformed() {
    let ok = Curve::from_points(&vec![0, 50, 100], &vec![1, 40, 90], 100);
    assert_eq!(ok.ok().unwrap().points(), &vec![(0, 1), (50, 40), (100, 90)]);
    assert!(matches!(Curve::from_points(&vec![0, 50, 100], &vec![1, 40], 100), Err(Error::Config)));
    assert!(matches!(Curve::from_points(&vec![0, 60, 50, 100], &vec![1, 2, 3, 4], 100), Err(Error::Config)));
    assert!(matches!(Curve::from_points(&vec![0, 50, 50, 100], &vec![1, 2, 3, 4], 100), Err(Error::Config)));
    assert!(matches!(Curve::from_points(&vec![5, 100], &vec![1, 4], 100), Err(Error::Config)));
    assert!(matches!(Curve::from_points(&vec![0, 90], &vec![1, 4], 100), Err(Error::Config)));
    assert!(matches!(Curve::from_points(&vec![0], &vec![1], 0), Err(Error::Config)));
}

#[test]
fn add_refuses_keys_outside_domain() {
    let mut c = two_point(100, 1, 100);
    assert_eq!(c.add(101, 5, 100), Err(Error::OutOfRange));
    assert_eq!(c.add(50, 5, 99), Err(Error::OutOfRange));
    assert_eq!(c.points(), &vec![(0, 1), (100, 100)]);
    assert_eq!(c.lookup(50), Ok(50));
}

#[test]
fn insert_twice_is_insert_once() {
    let mut once = Curve::from_points(&vec![0, 20, 60, 100], &vec![1, 70, 20, 100], 100).ok().unwrap();
    let mut twice = Curve::from_points(&vec![0, 20, 60, 100], &vec![1, 70, 20, 100], 100).ok().unwrap();
    once.add(40, 50, 100).unwrap();
    twice.add(40, 50, 100).unwrap();
    twice.add(40, 50, 100).unwrap();
    assert_eq!(once.points(), twice.points());
    assert_eq!(once.cache(), twice.cache());
    assert_eq!(once.points(), &vec![(0, 1), (20, 50), (40, 50), (60, 50), (100, 100)]);
}

#[test]
fn insertions_keep_cache_sorted() {
    let mut c = two_point(200, 1, 255);
    let steps = [(100u32, 120u32), (50, 200), (150, 30), (10, 5), (190, 250), (0, 3), (120, 60)];
    for (key, value) in steps.iter() {
        c.add(*key, *value, 200).unwrap();
        let p = c.points();
        let lo = p[0].1;
        let hi = p[p.len() - 1].1;
        // interior points stay in order whatever was inserted
        let interior: Vec<u32> = p[1..p.len() - 1].iter().map(|e| e.1).collect();
        assert!(interior.windows(2).all(|w| w[0] <= w[1]), "{:?}", p);
        if p.len() >= 3 {
            let inner = &c.cache()[p[1].0 as usize..=p[p.len() - 2].0 as usize];
            assert!(inner.windows(2).all(|w| w[0] <= w[1]), "{:?}", p);
        }
        if p.iter().all(|e| lo <= e.1 && e.1 <= hi) {
            assert!(cache_is_sorted(&c), "{:?}", p);
        }
    }
    assert_eq!(c.lookup(200), Ok(255));
    assert_eq!(c.lookup(0), Ok(3));
}

#[test]
fn boundaries_survive_repair() {
    let mut c = two_point(100, 50, 60);
    c.add(50, 10, 100).unwrap();
    assert_eq!(c.points(), &vec![(0, 50), (50, 10), (100, 60)]);
    c.add(70, 200, 100).unwrap();
    assert_eq!(c.points(), &vec![(0, 50), (50, 10), (70, 200), (100, 60)]);
}

#[test]
fn keys_and_values_split_points() {
    let mut c = two_point(100, 1, 100);
    c.add(30, 40, 100).unwrap();
    assert_eq!(c.keys(), vec![0, 30, 100]);
    assert_eq!(c.values(), vec![1, 40, 100]);
    assert_eq!(c.sensor_max(), 100);
}

#[test]
fn monotonic_insert_pulls_peaks_and_dips() {
    let mut p = vec![(0, 1), (30, 90), (70, 20), (100, 100)];
    monotonic_insert(&mut p, 50, 60, 100);
    assert_eq!(p, vec![(0, 1), (30, 60), (50, 60), (70, 60), (100, 100)]);
}

#[test]
fn monotonic_insert_leaves_consistent_points() {
    let mut p = vec![(0, 1), (20, 50), (40, 30), (60, 70), (100, 100)];
    monotonic_insert(&mut p, 50, 40, 100);
    assert_eq!(p, vec![(0, 1), (20, 40), (40, 30), (50, 40), (60, 70), (100, 100)]);
}

#[test]
fn monotonic_insert_overwrites_same_key() {
    let mut p = vec![(0, 1), (50, 40), (100, 100)];
    monotonic_insert(&mut p, 50, 70, 100);
    assert_eq!(p, vec![(0, 1), (50, 70), (100, 100)]);
    let mut q = vec![(0, 1), (50, 40), (100, 100)];
    monotonic_insert(&mut q, 0, 45, 100);
    assert_eq!(q, vec![(0, 45), (50, 45), (100, 100)]);
}

#[test]
fn monotonic_insert_into_empty() {
    let mut p: Vec<(u32, u32)> = Vec::new();
    monotonic_insert(&mut p, 5, 6, 10);
    assert_eq!(p, vec![(5, 6)]);
}
