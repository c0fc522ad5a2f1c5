use rush_nowel::country::Country;
use rush_nowel::region::Region;

const INPUT: &str = "Nord : 157 : Paris-Normandie-Est\n\
Paris : 709 : Nord-Normandie-Est-Centre\n\
Normandie : 92 : Nord-Paris-Bretagne-Centre\n\
Bretagne : 99 : Normandie-Centre\n\
Est : 155 : Nord-Paris-Centre\n\
Centre : 72 : Paris-Normandie-Bretagne-Est-Sud\n\
Sud : 163 : Centre\n";

const INPUT_TEST: &str = "A : 1 : B-C\nB : 1 : A\nC : 2 : A-D\nD : 6 : C\n";

fn check_bidir_links(country: Country) {
    for region in country.regions.iter() {
        for other in region.links.iter() {
            assert!(country
                .region(other)
                .unwrap()
                .links
                .contains(&region.name));
        }
    }
}

#[test]
fn remove_link_from_region() {
    let mut country: Country = INPUT.parse().unwrap();

    country.remove_link_from_region("Nord", "Paris");
    country.remove_link_from_region("Nord", "Normandie");

    assert!(!country
        .region("Nord")
        .unwrap()
        .links
        .contains(&"Paris".into()));
    assert!(!country
        .region("Nord")
        .unwrap()
        .links
        .contains(&"Normandie".into()));
}

#[test]
fn add_link_to_region() {
    let mut country: Country = INPUT.parse().unwrap();

    country.add_link_to_region("Nord", "Nouvelle-Acquitaine");

    assert!(country
        .region("Nord")
        .unwrap()
        .links
        .contains(&"Nouvelle-Acquitaine".into()));
}

#[test]
fn region_fuse() {
    let mut country: Country = INPUT_TEST.parse().unwrap();

    country.fuse_regions(("A", "C"));

    assert_eq!(country.region("A-C").unwrap().links, vec!["B", "D"]);
    assert_eq!(country.region("B").unwrap().links, vec!["A-C"]);
    assert_eq!(country.region("D").unwrap().links, vec!["A-C"]);
}

#[test]
fn bidirectional_links() {
    check_bidir_links(INPUT.parse().unwrap());
    check_bidir_links(INPUT_TEST.parse().unwrap());
}

#[test]
fn optimal_std_dev_sq() {
    let country: Country = INPUT_TEST.parse().unwrap();

    let bound = country.optimal_std_dev_sq(2).unwrap();
    assert_eq!(bound.num as f64 / bound.den as f64, 1.0)
}

#[test]
fn optimal_std_dev_sq2() {
    let country: Country = INPUT_TEST.parse().unwrap();
    let bound = country.optimal_std_dev_sq2(2).unwrap();
    assert_eq!(bound.num as f64 / bound.den as f64, 1.0);
}

#[test]
fn both_inputs_are_valid_countries() {
    assert!(Country::from_str(INPUT).unwrap().is_valid());
    assert!(Country::from_str(INPUT_TEST).unwrap().is_valid());
}

#[test]
fn fusion_removes_one_region_and_sums_the_values() {
    let mut country = Country::from_str(INPUT).unwrap();
    let before = country.len();
    let total = country.total_gdp();

    country.fuse_regions(("Nord", "Paris"));

    assert_eq!(country.len(), before - 1);
    assert_eq!(country.total_gdp(), total);
    assert!(country.region("Nord").is_none());
    assert!(country.region("Paris").is_none());
    let fused = country.region("Nord-Paris").unwrap();
    assert_eq!(fused.gdp, 157 + 709);
    let mut links = fused.links.clone();
    links.sort();
    assert_eq!(links, vec!["Centre", "Est", "Normandie"]);
}

#[test]
fn fusion_keeps_links_mutual() {
    let mut country = Country::from_str(INPUT).unwrap();
    country.fuse_regions(("Centre", "Sud"));
    assert!(country.is_valid());
    assert!(country.has_mutual_links());
    country.fuse_regions(("Bretagne", "Centre-Sud"));
    assert!(country.is_valid());
    assert_eq!(
        country.region("Normandie").unwrap().links,
        vec!["Nord", "Paris", "Bretagne-Centre-Sud"]
    );
    check_bidir_links(country);
}

#[test]
fn region_fuse_joins_names_and_merges_neighbours() {
    let a = Region {
        name: "A".to_string(),
        gdp: 3,
        links: vec!["B".to_string(), "X".to_string(), "Y".to_string()],
    };
    let b = Region {
        name: "B".to_string(),
        gdp: 4,
        links: vec!["Y".to_string(), "A".to_string(), "Z".to_string()],
    };
    let fused = a.fuse(b);
    assert_eq!(fused.name, "A-B");
    assert_eq!(fused.gdp, 7);
    assert_eq!(fused.links, vec!["X", "Y", "Z"]);
}

#[test]
fn find_and_region_look_up_by_name() {
    let country = Country::from_str(INPUT_TEST).unwrap();
    assert_eq!(country.find(&"C".to_string()), Some(2));
    assert_eq!(country.find(&"E".to_string()), None);
    assert_eq!(country.region("D").unwrap().gdp, 6);
    assert!(country.region("").is_none());
    assert_eq!(country.len(), 4);
}

#[test]
fn a_copy_is_independent_of_its_source() {
    let country = Country::from_str(INPUT_TEST).unwrap();
    let mut copy = country.clone();
    copy.fuse_regions(("A", "B"));
    assert_eq!(country.len(), 4);
    assert_eq!(copy.len(), 3);
    assert!(country.region("A").is_some());
}
