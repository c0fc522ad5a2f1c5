use rush_nowel::bound::sort_ascending;
use rush_nowel::country::Country;
use rush_nowel::region::Region;

fn isolated(values: &[u64]) -> Country {
    let regions = values
        .iter()
        .enumerate()
        .map(|(i, v)| Region {
            name: format!("R{i}"),
            gdp: *v,
            links: Vec::new(),
        })
        .collect();
    Country { regions }
}

fn both(country: &Country, target: usize) -> (u128, u128) {
    let filled = country.optimal_std_dev_sq(target).unwrap();
    let summed = country.optimal_std_dev_sq2(target).unwrap();
    assert_eq!(filled.num, summed.num);
    assert_eq!(filled.den, summed.den);
    (filled.num, filled.den)
}

#[test]
fn the_mass_stops_below_the_next_bucket() {
    // buckets 2 and 6, mass 2: the window is the first bucket, raised to 4
    assert_eq!(both(&isolated(&[6, 1, 2, 1]), 2), (4, 4));
}

#[test]
fn the_mass_levels_every_bucket() {
    // buckets 3 and 4, mass 4: both are raised to 5.5
    assert_eq!(both(&isolated(&[1, 1, 1, 1, 3, 4]), 2), (0, 8));
}

#[test]
fn the_mass_reaches_the_next_bucket_exactly() {
    // buckets 2 and 4, mass 2: the first bucket is raised to 4
    assert_eq!(both(&isolated(&[1, 1, 2, 4]), 2), (0, 4));
}

#[test]
fn the_window_grows_over_several_buckets() {
    // buckets 1, 2, 10 and mass 5: the two lowest are raised to 4
    let (num, den) = both(&isolated(&[1, 10, 1, 1, 2, 1, 1, 1]), 3);
    // 3 * (8 * 8 + 2 * 100) - 2 * 18 * 18
    assert_eq!((num, den), (144, 18));
}

#[test]
fn the_window_stops_at_the_first_bucket_that_the_mass_does_not_reach() {
    // buckets 2, 5, 10 and mass 1: the lowest is raised to 3
    // 3 * (3 * 3 + 125) - 18 * 18
    assert_eq!(both(&isolated(&[10, 2, 1, 5]), 3), (78, 9));
}

#[test]
fn without_excess_the_bound_is_the_variance() {
    let country = isolated(&[1, 2, 3, 4]);
    let (num, den) = both(&country, 4);
    let variance = country.std_dev_sq().unwrap();
    assert_eq!(num * variance.den, variance.num * den);
    assert_eq!((num, den), (20, 16));
}

#[test]
fn one_cluster_has_no_variance() {
    assert_eq!(both(&isolated(&[5, 1, 9]), 1), (0, 1));
}

#[test]
fn no_bound_for_no_cluster_or_too_many() {
    let country = isolated(&[1, 2, 3]);
    assert!(country.optimal_std_dev_sq(0).is_none());
    assert!(country.optimal_std_dev_sq2(0).is_none());
    assert!(country.optimal_std_dev_sq(4).is_none());
    assert!(country.optimal_std_dev_sq2(4).is_none());
    assert!(isolated(&[]).optimal_std_dev_sq(0).is_none());
    assert!(isolated(&[]).optimal_std_dev_sq2(1).is_none());
}

#[test]
fn sorting_keeps_every_value() {
    assert_eq!(sort_ascending(&vec![3, 1, 2, 1, 0]), vec![0, 1, 1, 2, 3]);
    assert_eq!(sort_ascending(&vec![]), Vec::<u64>::new());
}
