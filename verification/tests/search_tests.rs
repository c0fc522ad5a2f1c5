use rush_nowel::country::Country;
use rush_nowel::ratio::Ratio;
use rush_nowel::region::Region;

fn region(name: &str, gdp: u64, links: &[&str]) -> Region {
    Region {
        name: name.to_string(),
        gdp,
        links: links.iter().map(|l| l.to_string()).collect(),
    }
}

fn square() -> Country {
    Country {
        regions: vec![
            region("A", 1, &["B", "D"]),
            region("B", 1, &["A", "C"]),
            region("C", 1, &["B", "D"]),
            region("D", 1, &["C", "A"]),
        ],
    }
}

fn chain() -> Country {
    Country::from_str("A : 1 : B-C\nB : 1 : A\nC : 2 : A-D\nD : 6 : C\n").unwrap()
}

fn names(country: &Country) -> Vec<String> {
    let mut names: Vec<String> = country.regions.iter().map(|r| r.name.clone()).collect();
    names.sort();
    names
}

fn values(country: &Country) -> Vec<u64> {
    let mut values: Vec<u64> = country.regions.iter().map(|r| r.gdp).collect();
    values.sort();
    values
}

#[test]
fn cycle_of_four_splits_into_two_even_clusters() {
    let mut country = square();
    assert_eq!(country.optimize3(2), Ok(()));
    assert_eq!(country.regions.len(), 2);
    let variance = country.std_dev_sq().unwrap();
    assert_eq!(variance.num, 0);
    assert_eq!(values(&country), vec![2, 2]);
    assert_eq!(names(&country), vec!["A-B", "C-D"]);
    assert!(country.is_valid());
}

#[test]
fn two_regions_fuse_into_one() {
    let mut country = Country {
        regions: vec![region("A", 5, &["B"]), region("B", 1, &["A"])],
    };
    assert_eq!(country.optimize3(1), Ok(()));
    assert_eq!(country.regions.len(), 1);
    assert_eq!(country.regions[0].name, "A-B");
    assert_eq!(country.regions[0].gdp, 6);
    assert!(country.regions[0].links.is_empty());
    assert_eq!(country.std_dev_sq().unwrap().num, 0);
}

#[test]
fn a_target_above_the_count_is_refused() {
    for target in [5, 6, 1000] {
        let mut country = square();
        assert_eq!(country.optimize3(target), Err(()));
        assert_eq!(names(&country), vec!["A", "B", "C", "D"]);
        let mut country = square();
        assert_eq!(country.optimize(target), Err(()));
        assert_eq!(country.len(), 4);
        let mut country = square();
        assert_eq!(country.optimize2(target), Err(()));
        assert_eq!(country.len(), 4);
    }
}

#[test]
fn a_target_equal_to_the_count_changes_nothing() {
    let mut country = square();
    assert_eq!(country.optimize3(4), Ok(()));
    assert_eq!(country.regions.len(), 4);
    for (r, n) in country.regions.iter().zip(["A", "B", "C", "D"]) {
        assert_eq!(r.name, n);
        assert_eq!(r.gdp, 1);
    }
    assert_eq!(country.regions[0].links, vec!["B", "D"]);
    let mut country = square();
    assert_eq!(country.optimize(4), Ok(()));
    assert_eq!(names(&country), vec!["A", "B", "C", "D"]);
    let mut country = square();
    assert_eq!(country.optimize2(4), Ok(()));
    assert_eq!(names(&country), vec!["A", "B", "C", "D"]);
    let mut empty = Country { regions: vec![] };
    assert_eq!(empty.optimize3(0), Ok(()));
}

#[test]
fn a_target_of_zero_is_refused() {
    let mut country = square();
    assert_eq!(country.optimize3(0), Err(()));
    assert_eq!(country.len(), 4);
    let mut country = square();
    assert_eq!(country.optimize(0), Err(()));
    assert_eq!(country.len(), 4);
    let mut country = square();
    assert_eq!(country.optimize2(0), Err(()));
    assert_eq!(country.len(), 4);
}

#[test]
fn a_graph_in_two_parts_cannot_become_one_cluster() {
    let build = || Country {
        regions: vec![
            region("A", 1, &["B"]),
            region("B", 2, &["A"]),
            region("C", 3, &[]),
        ],
    };
    let mut country = build();
    assert_eq!(country.optimize3(1), Err(()));
    assert_eq!(names(&country), vec!["A", "B", "C"]);
    let mut country = build();
    assert_eq!(country.optimize(1), Err(()));
    assert_eq!(country.len(), 3);
    let mut country = build();
    assert_eq!(country.optimize2(1), Err(()));
    assert_eq!(country.len(), 3);
    let mut country = build();
    assert_eq!(country.optimize3(2), Ok(()));
    assert_eq!(names(&country), vec!["A-B", "C"]);
}

#[test]
fn the_chain_is_cut_where_the_variance_is_least() {
    let mut country = chain();
    assert_eq!(country.optimize3(2), Ok(()));
    assert_eq!(values(&country), vec![4, 6]);
    let variance = country.std_dev_sq().unwrap();
    assert!(variance.equals(&Ratio { num: 1, den: 1 }));
    assert!(country.is_valid());
    assert!(country.region("D").is_some());
}

#[test]
fn exhaustive_search_agrees_with_pruned_search() {
    for target in 1..=4 {
        for build in [square, chain] {
            let mut pruned = build();
            let mut all = build();
            let mut once = build();
            assert_eq!(pruned.optimize3(target), Ok(()));
            assert_eq!(all.optimize(target), Ok(()));
            assert_eq!(once.optimize2(target), Ok(()));
            let a = pruned.std_dev_sq().unwrap();
            let b = all.std_dev_sq().unwrap();
            let c = once.std_dev_sq().unwrap();
            assert!(a.equals(&b));
            assert!(a.equals(&c));
            assert_eq!(pruned.len(), target);
            assert_eq!(all.len(), target);
            assert_eq!(once.len(), target);
            assert!(all.is_valid());
            assert!(once.is_valid());
        }
    }
}

#[test]
fn the_bound_is_below_the_variance_of_every_partition() {
    for build in [square, chain] {
        for target in 1..=4 {
            let start = build();
            let bound = start.optimal_std_dev_sq2(target).unwrap();
            let mut best = build();
            assert_eq!(best.optimize(target), Ok(()));
            let least = best.std_dev_sq().unwrap();
            assert!(!least.lt(&bound));
        }
    }
}

#[test]
fn each_pair_of_neighbours_is_listed_once() {
    let country = square();
    let links = country.links();
    let expected: Vec<(String, String)> = [("A", "B"), ("A", "D"), ("B", "C"), ("C", "D")]
        .iter()
        .map(|(a, b)| (a.to_string(), b.to_string()))
        .collect();
    assert_eq!(links, expected);
    assert_eq!(country.adjacent_pairs(false).len(), 8);
    assert_eq!(country.adjacent_pairs(true), expected);
}

#[test]
fn the_search_reports_only_what_beats_the_best_so_far() {
    let country = chain();
    let mut best = None;
    let found = country.optimize3_quel_enfer(2, &mut best);
    assert_eq!(values(&found.unwrap()), vec![4, 6]);
    let reached = best.unwrap();
    assert!(reached.equals(&Ratio { num: 1, den: 1 }));

    let mut best = Some(Ratio { num: 1, den: 1 });
    assert!(country.optimize3_quel_enfer(2, &mut best).is_none());
    assert!(best.unwrap().equals(&Ratio { num: 1, den: 1 }));

    let mut best = Some(Ratio { num: 3, den: 2 });
    let found = country.optimize3_quel_enfer(2, &mut best);
    assert_eq!(values(&found.unwrap()), vec![4, 6]);
    assert!(best.unwrap().equals(&Ratio { num: 1, den: 1 }));

    let mut best = None;
    assert!(country.optimize3_quel_enfer(5, &mut best).is_none());
    assert!(best.is_none());
    assert!(country.optimize3_quel_enfer(0, &mut best).is_none());
    assert!(best.is_none());
}

#[test]
fn a_terminal_country_is_its_own_partition() {
    let country = chain();
    let mut best = None;
    let found = country.optimize3_quel_enfer(4, &mut best).unwrap();
    assert_eq!(names(&found), vec!["A", "B", "C", "D"]);
    // values 1, 1, 2, 6: 4 * 42 - 100 over 16
    let variance = best.unwrap();
    assert_eq!((variance.num, variance.den), (68, 16));
}

#[test]
fn one_branch_is_searched_to_the_end() {
    let country = chain();
    let link = ("C".to_string(), "D".to_string());
    let found = country.explore_branch(&link, 2, true).unwrap();
    assert_eq!(values(&found), vec![2, 8]);
    assert!(found.region("C-D").is_some());
    assert!(country.explore_branch(&link, 4, true).is_none());
    assert_eq!(country.exhaustive(3, false).unwrap().len(), 3);
    assert!(country.exhaustive(5, false).is_none());
}
