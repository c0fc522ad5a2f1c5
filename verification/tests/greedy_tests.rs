use rush_nowel::country::Country;
use rush_nowel::greedy::score;
use rush_nowel::ratio::Ratio;

fn chain() -> Country {
    Country::from_str("A : 1 : B-C\nB : 1 : A\nC : 2 : A-D\nD : 6 : C\n").unwrap()
}

fn pair(a: &str, b: &str) -> Option<(String, String)> {
    Some((a.to_string(), b.to_string()))
}

#[test]
fn the_score_is_the_distance_from_the_target() {
    let target = Ratio { num: 10, den: 2 };
    assert_eq!(score(3, &target), 4);
    assert_eq!(score(5, &target), 0);
    assert_eq!(score(8, &target), 6);
    assert_eq!(score(8, &Ratio { num: 10, den: 0 }), 10);
}

#[test]
fn the_smallest_region_picks_its_best_neighbour() {
    let country = chain();
    let target = Ratio { num: 10, den: 2 };
    assert_eq!(country.regions_to_fuse_smallest(&target), pair("A", "C"));
    let low = Ratio { num: 2, den: 1 };
    assert_eq!(country.regions_to_fuse_smallest(&low), pair("A", "B"));
}

#[test]
fn the_closest_pair_is_picked_over_all_pairs() {
    let country = chain();
    assert_eq!(
        country.regions_to_fuse(&Ratio { num: 16, den: 2 }),
        pair("C", "D")
    );
    assert_eq!(
        country.regions_to_fuse(&Ratio { num: 2, den: 1 }),
        pair("A", "B")
    );
}

#[test]
fn no_pair_where_no_regions_are_adjacent() {
    let country = Country::from_str("A : 1 : B\nB : 2 : A\n").unwrap();
    let mut alone = country.clone();
    alone.fuse_regions(("A", "B"));
    let target = Ratio { num: 3, den: 1 };
    assert!(alone.regions_to_fuse(&target).is_none());
    assert!(alone.regions_to_fuse_smallest(&target).is_none());
}

#[test]
fn organize_fuses_until_the_count_is_reached() {
    let mut country = chain();
    assert_eq!(country.organize(2), Ok(()));
    assert_eq!(country.len(), 2);
    assert_eq!(country.region("B-A-C").unwrap().gdp, 4);
    assert_eq!(country.region("D").unwrap().gdp, 6);
    assert!(country.is_valid());
}

#[test]
fn organize_leaves_a_country_that_is_small_enough() {
    let mut country = chain();
    assert_eq!(country.organize(4), Ok(()));
    assert_eq!(country.len(), 4);
    assert_eq!(country.organize(9), Ok(()));
    assert_eq!(country.len(), 4);
    assert_eq!(country.regions[0].name, "A");
}

#[test]
fn organize_fails_where_nothing_is_left_to_fuse() {
    let mut country = chain();
    assert_eq!(country.organize(0), Err(()));
    assert_eq!(country.len(), 1);
    assert_eq!(country.regions[0].gdp, 10);
}
