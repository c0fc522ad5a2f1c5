use rush_nowel::country::Country;
use rush_nowel::region::Region;
use rush_nowel::validity::begins_with_joined;
use rush_nowel::validity::list_is_unique;

fn region(name: &str, gdp: u64, links: &[&str]) -> Region {
    Region {
        name: name.to_string(),
        gdp,
        links: links.iter().map(|l| l.to_string()).collect(),
    }
}

#[test]
fn a_valid_country_is_accepted() {
    let regions = vec![region("A", 5, &["B"]), region("B", 1, &["A"])];
    let country = Country::new(regions).unwrap();
    assert!(country.is_valid());
    assert_eq!(country.len(), 2);
}

#[test]
fn the_empty_country_is_valid() {
    assert!(Country::new(vec![]).is_some());
}

#[test]
fn a_name_used_twice_is_refused() {
    let regions = vec![region("A", 5, &[]), region("A", 1, &[])];
    assert!(Country::new(regions).is_none());
}

#[test]
fn a_neighbour_listed_twice_is_refused() {
    let regions = vec![region("A", 5, &["B", "B"]), region("B", 1, &["A"])];
    assert!(Country::new(regions).is_none());
}

#[test]
fn a_missing_neighbour_is_refused() {
    let regions = vec![region("A", 5, &["C"]), region("B", 1, &[])];
    let country = Country { regions };
    assert!(country.has_unique_names());
    assert!(!country.has_mutual_links());
    assert!(!country.is_valid());
}

#[test]
fn a_one_way_link_is_refused() {
    let regions = vec![region("A", 5, &["B"]), region("B", 1, &[])];
    assert!(Country::new(regions).is_none());
}

#[test]
fn a_self_loop_is_refused() {
    let regions = vec![region("A", 5, &["A"])];
    assert!(Country::new(regions).is_none());
}

#[test]
fn a_name_that_begins_with_another_and_the_separator_is_refused() {
    let regions = vec![region("Loire", 5, &[]), region("Loire-Atlantique", 1, &[])];
    let country = Country { regions };
    assert!(!country.has_separable_names());
    assert!(!country.is_valid());
    let regions = vec![region("Loire", 5, &[]), region("Loiret", 1, &[])];
    assert!(Country::new(regions).is_some());
}

#[test]
fn a_total_above_the_limit_is_refused() {
    let regions = vec![region("A", 0xFFFF_FFFF, &[]), region("B", 1, &[])];
    let country = Country { regions };
    assert!(!country.is_within_limits());
    assert!(!country.is_valid());
    let regions = vec![region("A", 0xFFFF_FFFE, &[]), region("B", 1, &[])];
    assert!(Country::new(regions).is_some());
    let regions = vec![region("A", u64::MAX, &[]), region("B", u64::MAX, &[])];
    assert!(Country::new(regions).is_none());
}

#[test]
fn too_many_regions_are_refused() {
    let mut regions = Vec::new();
    for i in 0..1025 {
        regions.push(region(&format!("R{i}"), 1, &[]));
    }
    assert!(Country::new(regions).is_none());
    let mut regions = Vec::new();
    for i in 0..1024 {
        regions.push(region(&format!("R{i}"), 1, &[]));
    }
    assert!(Country::new(regions).is_some());
}

#[test]
fn lists_without_repetition_are_told_apart() {
    assert!(list_is_unique(&vec![]));
    assert!(list_is_unique(&vec!["a".to_string(), "b".to_string()]));
    assert!(!list_is_unique(&vec![
        "a".to_string(),
        "b".to_string(),
        "a".to_string()
    ]));
}

#[test]
fn joined_prefixes_are_found() {
    assert!(begins_with_joined(&"A".to_string(), &"A-B".to_string()));
    assert!(begins_with_joined(&"A".to_string(), &"A-".to_string()));
    assert!(!begins_with_joined(&"A".to_string(), &"A".to_string()));
    assert!(!begins_with_joined(&"A".to_string(), &"AB-C".to_string()));
    assert!(!begins_with_joined(&"A-B".to_string(), &"A".to_string()));
    assert!(begins_with_joined(&"".to_string(), &"-x".to_string()));
    assert!(begins_with_joined(&"é".to_string(), &"é-è".to_string()));
}

#[test]
fn names_come_in_the_order_of_the_regions() {
    let regions = vec![region("B", 5, &["A"]), region("A", 1, &["B"])];
    let country = Country::new(regions).unwrap();
    assert_eq!(country.names(), vec!["B", "A"]);
    assert!(country.has_unique_names());
    assert!(country.has_mutual_links());
    assert!(country.has_separable_names());
    assert!(country.is_within_limits());
}
