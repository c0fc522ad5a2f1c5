use rush_nowel::country::Country;
use rush_nowel::ratio::improves;
use rush_nowel::ratio::Ratio;
use rush_nowel::region::Region;
use rush_nowel::stats::range_sum_sq;
use rush_nowel::stats::range_total;

fn isolated(values: &[u64]) -> Country {
    let regions = values
        .iter()
        .enumerate()
        .map(|(i, v)| Region {
            name: format!("R{i}"),
            gdp: *v,
            links: Vec::new(),
        })
        .collect();
    Country { regions }
}

#[test]
fn mean_is_the_sum_over_the_count() {
    let mean = isolated(&[1, 2, 3, 4]).avg_gdp().unwrap();
    assert_eq!(mean.num, 10);
    assert_eq!(mean.den, 4);
    assert_eq!(isolated(&[1, 2, 3, 4]).total_gdp(), 10);
}

#[test]
fn variance_divides_by_the_count() {
    let variance = isolated(&[1, 2, 3, 4]).std_dev_sq().unwrap();
    assert_eq!(variance.num, 20);
    assert_eq!(variance.den, 16);
    assert_eq!(variance.num as f64 / variance.den as f64, 1.25);
}

#[test]
fn variance_does_not_depend_on_the_order() {
    let a = isolated(&[7, 1, 4, 4, 9]).std_dev_sq().unwrap();
    let b = isolated(&[4, 9, 7, 4, 1]).std_dev_sq().unwrap();
    assert_eq!(a.num, b.num);
    assert_eq!(a.den, b.den);
    assert!(a.equals(&b));
}

#[test]
fn variance_of_equal_values_is_zero() {
    let variance = isolated(&[5, 5, 5]).std_dev_sq().unwrap();
    assert!(variance.is_zero());
    assert_eq!(variance.den, 9);
    assert!(isolated(&[0]).std_dev_sq().unwrap().is_zero());
}

#[test]
fn the_empty_country_has_no_statistics() {
    let empty = isolated(&[]);
    assert!(empty.avg_gdp().is_none());
    assert!(empty.std_dev_sq().is_none());
    assert_eq!(empty.total_gdp(), 0);
}

#[test]
fn values_come_in_the_order_of_the_regions_and_sorted() {
    let country = isolated(&[3, 1, 2, 1]);
    assert_eq!(country.gdp_values(), vec![3, 1, 2, 1]);
    assert_eq!(country.sorted_values(), vec![1, 1, 2, 3]);
}

#[test]
fn ranges_are_summed() {
    let v = vec![1, 2, 3, 4];
    assert_eq!(range_total(&v, 1, 3), 5);
    assert_eq!(range_total(&v, 2, 2), 0);
    assert_eq!(range_sum_sq(&v, 1, 4), 29);
    assert_eq!(range_sum_sq(&v, 0, 0), 0);
}

#[test]
fn fractions_are_compared_exactly() {
    let third = Ratio { num: 1, den: 3 };
    let half = Ratio { num: 2, den: 4 };
    let other_half = Ratio { num: 1, den: 2 };
    assert!(third.lt(&half));
    assert!(!half.lt(&third));
    assert!(!half.lt(&other_half));
    assert!(half.equals(&other_half));
    assert!(!half.equals(&third));
    assert!(!half.is_zero());
    assert!(Ratio { num: 0, den: 7 }.is_zero());
}

#[test]
fn anything_improves_on_no_value_yet() {
    let half = Ratio { num: 1, den: 2 };
    assert!(improves(&half, &None));
    assert!(improves(&half, &Some(Ratio { num: 2, den: 3 })));
    assert!(!improves(&half, &Some(half)));
    assert!(!improves(&half, &Some(Ratio { num: 1, den: 3 })));
}

#[test]
fn the_largest_total_is_held_exactly() {
    let variance = isolated(&[0xFFFF_FFFF, 0]).std_dev_sq().unwrap();
    assert_eq!(variance.num, 0xFFFF_FFFFu128 * 0xFFFF_FFFF);
    assert_eq!(variance.den, 4);
}
