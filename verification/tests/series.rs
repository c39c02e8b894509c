use scalarboard::data::{BinnedData, DataStore, Moments, RawPoints};

/// One more value in a bin: running mean and sum of squared deviations.
fn welford(mean: u32, m2: u32, n: u32, value: u32) -> Moments {
    let old_mean = f32::from_bits(mean);
    let x = f32::from_bits(value);
    let delta = x - old_mean;
    let new_mean = old_mean + delta / n as f32;
    let new_m2 = f32::from_bits(m2) + delta * (x - new_mean);
    let deviation = (new_m2 / n as f32).sqrt();
    Moments {
        mean: new_mean.to_bits(),
        m2: new_m2.to_bits(),
        lower: (new_mean - deviation).to_bits(),
        upper: (new_mean + deviation).to_bits(),
    }
}

fn point(step: u32, value: f32) -> (u32, u32) {
    (step, value.to_bits())
}

fn floats(bits: &[u32]) -> Vec<f32> {
    bits.iter().map(|b| f32::from_bits(*b)).collect()
}

fn line(binned: &BinnedData) -> Vec<(f64, f32)> {
    binned.line_coords.iter().map(|(x, y)| (*x as f64 / 2.0, f32::from_bits(*y))).collect()
}

#[test]
fn one_bin_has_mean_and_deviation() {
    let mut binned = BinnedData::default();
    binned.update_incrementally(&[point(0, 1.0), point(5, 3.0)], 10, &welford);
    assert_eq!(binned.num_elements, vec![2]);
    assert_eq!(line(&binned), vec![(5.0, 2.0)]);
    assert_eq!(floats(&binned.lowers), vec![1.0]);
    assert_eq!(floats(&binned.uppers), vec![3.0]);
    assert_eq!(floats(&binned.m2), vec![2.0]);
    assert_eq!(binned.processed_upto, 2);
}

#[test]
fn empty_bins_repeat_the_bin_before() {
    let mut binned = BinnedData::default();
    binned.update_incrementally(&[point(3, 7.0), point(35, 1.0)], 10, &welford);
    assert_eq!(binned.num_elements, vec![1, 0, 0, 1]);
    assert_eq!(binned.x_coords, vec![10, 30, 50, 70]);
    assert_eq!(line(&binned), vec![(5.0, 7.0), (15.0, 7.0), (25.0, 7.0), (35.0, 1.0)]);
    assert_eq!(floats(&binned.lowers), vec![7.0, 7.0, 7.0, 1.0]);
    assert_eq!(floats(&binned.uppers), vec![7.0, 7.0, 7.0, 1.0]);
}

#[test]
fn an_empty_first_bin_stays_at_zero() {
    let mut binned = BinnedData::default();
    binned.update_incrementally(&[point(12, 4.0)], 10, &welford);
    assert_eq!(line(&binned), vec![(0.0, 0.0), (15.0, 4.0)]);
    assert_eq!(binned.x_coords, vec![10, 30]);
}

#[test]
fn a_late_point_starts_from_the_inherited_mean() {
    let mut binned = BinnedData::default();
    let mut points = vec![point(1, 8.0), point(25, 2.0)];
    binned.update_incrementally(&points, 10, &welford);
    assert_eq!(line(&binned)[1], (15.0, 8.0));
    points.push(point(11, 6.0));
    assert!(binned.can_update(&points, 10));
    binned.update_incrementally(&points, 10, &welford);
    assert_eq!(line(&binned)[1], (15.0, 6.0));
    assert_eq!(binned.num_elements, vec![1, 1, 1]);
    assert_eq!(floats(&binned.m2)[1], 0.0);
}

#[test]
fn ordered_points_give_the_same_in_batches() {
    let points: Vec<(u32, u32)> =
        (0..60u32).map(|i| point(3 * i * i, (i as f32 * 0.37).sin() * 1.0e3)).collect();
    let mut once = BinnedData::default();
    once.update_incrementally(&points, 100, &welford);
    assert!(once.num_elements.contains(&0));
    for size in [1usize, 7, 59] {
        let mut binned = BinnedData::default();
        let mut end = 0;
        while end < points.len() {
            end = points.len().min(end + size);
            binned.update_incrementally(&points[..end], 100, &welford);
        }
        assert_eq!(format!("{:?}", binned), format!("{:?}", once));
    }
}

#[test]
fn going_back_to_a_bin_that_was_passed_over_can_differ() {
    let late = [point(1, 1.0e30), point(11, 1.0), point(25, 2.0)];
    let mut once = BinnedData::default();
    once.update_incrementally(&late, 10, &welford);
    assert_eq!(line(&once)[1], (15.0, 1.0));
    let points = [point(1, 1.0e30), point(25, 2.0), point(11, 1.0)];
    let mut binned = BinnedData::default();
    binned.update_incrementally(&points[..2], 10, &welford);
    binned.update_incrementally(&points, 10, &welford);
    assert_eq!(line(&binned)[1], (15.0, 0.0));
}

#[test]
fn a_bin_shows_the_moments_of_its_own_values() {
    let points = [point(3, 9.0), point(12, 1.0), point(8, -4.0), point(19, 2.5), point(15, 4.0)];
    let mut binned = BinnedData::default();
    binned.update_incrementally(&points, 10, &welford);
    let first = welford(0, 0, 1, 1.0f32.to_bits());
    let second = welford(first.mean, first.m2, 2, 2.5f32.to_bits());
    let third = welford(second.mean, second.m2, 3, 4.0f32.to_bits());
    assert_eq!(binned.num_elements, vec![2, 3]);
    assert_eq!(binned.line_coords[1], (30, third.mean));
    assert_eq!(binned.m2[1], third.m2);
    assert_eq!((binned.lowers[1], binned.uppers[1]), (third.lower, third.upper));
    assert_eq!(line(&binned)[1], (15.0, 2.5));
}

#[test]
fn a_step_matters_only_through_its_bin() {
    let mut low = BinnedData::default();
    low.update_incrementally(&[point(0, 1.0), point(10, 2.0), point(30, 3.0)], 10, &welford);
    let mut high = BinnedData::default();
    high.update_incrementally(&[point(9, 1.0), point(19, 2.0), point(35, 3.0)], 10, &welford);
    assert_eq!(format!("{:?}", low), format!("{:?}", high));
}

#[test]
fn odd_widths_have_half_centres() {
    let mut binned = BinnedData::default();
    binned.update_incrementally(&[point(0, 1.0), point(3, 1.0)], 3, &welford);
    assert_eq!(line(&binned), vec![(1.5, 1.0), (4.5, 1.0)]);
}

#[test]
fn the_same_points_again_change_nothing() {
    let points = [point(3, 7.0), point(35, 1.0)];
    let mut binned = BinnedData::default();
    binned.update_incrementally(&points, 10, &welford);
    let before = format!("{:?}", binned);
    binned.update_incrementally(&points, 10, &welford);
    assert_eq!(format!("{:?}", binned), before);
    binned.update_incrementally(&[], 10, &welford);
    assert_eq!(format!("{:?}", binned), before);
    // Nothing is new, so not even the width matters.
    assert!(binned.can_update(&points, 0));
    binned.update_incrementally(&points, 0, &welford);
    assert_eq!(format!("{:?}", binned), before);
}

#[test]
fn points_without_a_bin_are_not_admitted() {
    let binned = BinnedData::default();
    assert!(binned.can_update(&[], 0));
    assert!(!binned.can_update(&[point(1, 1.0)], 0));
    assert!(!binned.can_update(&[point(100, 1.0), point(1, 1.0)], 10));
    assert!(binned.can_update(&[point(9, 1.0), point(1, 1.0)], 10));
    assert!(!binned.can_update(&[point(u32::MAX, 1.0)], 1));
    assert!(binned.can_update(&[point(u32::MAX, 1.0)], 1_000_000));
    let mut wide = BinnedData::default();
    wide.update_incrementally(&[point(100, 1.0)], 10, &welford);
    assert!(wide.can_update(&[point(100, 1.0), point(1, 1.0)], 10));
}

#[test]
fn a_full_bin_admits_no_more() {
    let mut binned = BinnedData::default();
    binned.update_incrementally(&[point(0, 1.0)], 10, &welford);
    binned.num_elements[0] = u32::MAX;
    assert!(!binned.can_update(&[point(0, 1.0), point(0, 1.0)], 10));
    binned.num_elements[0] = u32::MAX - 1;
    assert!(binned.can_update(&[point(0, 1.0), point(0, 1.0)], 10));
}

#[test]
fn ordered_points_are_admitted() {
    let points: Vec<(u32, u32)> = (0..1000u32).map(|i| point(i * 7, i as f32)).collect();
    let mut binned = BinnedData::default();
    let mut end: usize = 0;
    while end < points.len() {
        end += 13;
        let upto = end.min(points.len());
        assert!(binned.can_update(&points[..upto], 50));
        binned.update_incrementally(&points[..upto], 50, &welford);
    }
    let total: u32 = binned.num_elements.iter().sum();
    assert_eq!(total as usize, points.len());
    assert_eq!(binned.num_elements[0], 8);
}

#[test]
fn batches_count_as_one_update_does() {
    let points: Vec<(u32, u32)> = (0..200u32).map(|i| point(i * 3, (i % 7) as f32)).collect();
    let mut once = BinnedData::default();
    once.update_incrementally(&points, 20, &welford);
    let mut twice = BinnedData::default();
    twice.update_incrementally(&points[..77], 20, &welford);
    twice.update_incrementally(&points, 20, &welford);
    assert_eq!(once.num_elements, twice.num_elements);
    assert_eq!(once.x_coords, twice.x_coords);
    assert_eq!(once.processed_upto, twice.processed_upto);
}

/// A plain account of binning, in floating point throughout.
struct Plain {
    x: Vec<f64>,
    line: Vec<[f64; 2]>,
    lowers: Vec<f64>,
    uppers: Vec<f64>,
    m2: Vec<f32>,
    count: Vec<u32>,
    upto: usize,
}

impl Plain {
    fn take_in(&mut self, data: &[(u32, f32)], width: u32) {
        if data.is_empty() || self.upto >= data.len() {
            return;
        }
        let needed = (data[data.len() - 1].0 / width + 1) as usize;
        if self.lowers.len() < needed {
            self.lowers.resize(needed, 0.0);
            self.uppers.resize(needed, 0.0);
            self.m2.resize(needed, 0.0);
            self.count.resize(needed, 0);
            self.x.resize(needed, 0.0);
            self.line.resize(needed, [0.0, 0.0]);
            let interval = width as f64;
            for i in 0..needed {
                self.x[i] = i as f64 * interval + interval / 2.0;
            }
        }
        for (step, value) in &data[self.upto..] {
            let b = (step / width) as usize;
            self.count[b] += 1;
            let n = self.count[b] as f32;
            let mut mean = self.line[b][1] as f32;
            let delta = value - mean;
            mean += delta / n;
            self.m2[b] += delta * (value - mean);
            let deviation = (self.m2[b] / n).sqrt();
            self.uppers[b] = (mean + deviation).into();
            self.lowers[b] = (mean - deviation).into();
            self.line[b] = [self.x[b], mean as f64];
        }
        for i in 1..needed {
            if self.count[i] == 0 {
                self.lowers[i] = self.lowers[i - 1];
                self.uppers[i] = self.uppers[i - 1];
                self.line[i] = [self.x[i], self.line[i - 1][1]];
            }
        }
        self.upto = data.len();
    }
}

#[test]
fn binning_agrees_with_plain_floating_point() {
    let mut seed: u64 = 17;
    let mut random = || {
        seed = seed.wrapping_mul(6364136223846793005).wrapping_add(1442695040888963407);
        (seed >> 33) as u32
    };
    let mut step: u32 = 0;
    let mut data: Vec<(u32, f32)> = Vec::new();
    let mut points: Vec<(u32, u32)> = Vec::new();
    let mut plain = Plain {
        x: vec![],
        line: vec![],
        lowers: vec![],
        uppers: vec![],
        m2: vec![],
        count: vec![],
        upto: 0,
    };
    let mut binned = BinnedData::default();
    for round in 0..300 {
        for _ in 0..(random() % 5) {
            step += random() % 900;
            // Now and then a point comes late.
            let at = if round % 7 == 3 { step - step % 400 } else { step };
            let value = (random() % 10_000) as f32 / 17.0 - 200.0;
            data.push((at, value));
            points.push(point(at, value));
        }
        plain.take_in(&data, 333);
        assert!(binned.can_update(&points, 333));
        binned.update_incrementally(&points, 333, &welford);
    }
    assert!(plain.count.len() > 100);
    assert_eq!(binned.num_elements, plain.count);
    assert_eq!(floats(&binned.m2), plain.m2);
    let xs: Vec<f64> = binned.x_coords.iter().map(|x| *x as f64 / 2.0).collect();
    assert_eq!(xs, plain.x);
    let lowers: Vec<f64> = floats(&binned.lowers).iter().map(|v| *v as f64).collect();
    assert_eq!(lowers, plain.lowers);
    let uppers: Vec<f64> = floats(&binned.uppers).iter().map(|v| *v as f64).collect();
    assert_eq!(uppers, plain.uppers);
    let means: Vec<[f64; 2]> = line(&binned).iter().map(|(x, y)| [*x, *y as f64]).collect();
    assert_eq!(means, plain.line);
    assert_eq!(binned.processed_upto, plain.upto);
}

#[test]
fn raw_series_show_every_point() {
    let mut store = DataStore::fresh(true);
    let mut points = vec![point(4, 1.5), point(2, 2.5)];
    assert!(store.can_update(&points, 0, false));
    store.update(&points, 0, false, &welford);
    points.push(point(9, -1.0));
    store.update(&points, 0, false, &welford);
    match &store {
        DataStore::Raw(raw) => {
            assert_eq!(raw.coords, points);
            assert_eq!(raw.processed_upto, 3);
        }
        DataStore::Binned(_) => panic!("not shown point by point"),
    }
    store.update(&points, 0, true, &welford);
    match &store {
        DataStore::Raw(raw) => assert_eq!(raw.coords, points),
        DataStore::Binned(_) => panic!("not shown point by point"),
    }
}

#[test]
fn a_raw_series_keeps_what_is_no_longer_logged() {
    let mut store = DataStore::Raw(RawPoints { coords: vec![(1, 2), (3, 4)], processed_upto: 2 });
    store.update(&[(1, 2)], 0, false, &welford);
    match store {
        DataStore::Raw(raw) => {
            assert_eq!(raw.coords, vec![(1, 2), (3, 4)]);
            assert_eq!(raw.processed_upto, 1);
        }
        DataStore::Binned(_) => panic!("not shown point by point"),
    }
}

#[test]
fn a_reset_starts_a_binned_series_over() {
    let points = [point(3, 7.0), point(35, 1.0)];
    let mut store = DataStore::fresh(false);
    store.update(&points, 10, false, &welford);
    assert!(store.can_update(&points, 20, true));
    store.update(&points, 20, true, &welford);
    let mut anew = DataStore::fresh(false);
    anew.update(&points, 20, false, &welford);
    assert_eq!(format!("{:?}", store), format!("{:?}", anew));
    match store {
        DataStore::Binned(binned) => assert_eq!(binned.num_elements, vec![1, 1]),
        DataStore::Raw(_) => panic!("not binned"),
    }
}

#[test]
fn a_reset_is_admitted_by_the_points_alone() {
    let points = [point(100, 1.0), point(1, 1.0)];
    let mut store = DataStore::fresh(false);
    store.update(&points[..1], 10, false, &welford);
    assert!(store.can_update(&points, 10, false));
    assert!(!store.can_update(&points, 10, true));
    assert!(!store.can_update(&points, 0, true));
}

#[test]
fn copies_are_equal() {
    let mut store = DataStore::fresh(false);
    store.update(&[point(3, 7.0), point(35, 1.0)], 10, false, &welford);
    assert_eq!(format!("{:?}", store.clone()), format!("{:?}", store));
    let mut raw = DataStore::fresh(true);
    raw.update(&[point(3, 7.0)], 10, false, &welford);
    assert_eq!(format!("{:?}", raw.clone()), format!("{:?}", raw));
}
