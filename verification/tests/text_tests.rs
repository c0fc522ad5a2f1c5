use std::cmp::Ordering;

use rush_nowel::country::Country;
use rush_nowel::parallel::variance_order;
use rush_nowel::region::insert_in_order;
use rush_nowel::region::position_of;
use rush_nowel::region::Region;
use rush_nowel::text::name_lt;

fn strings(items: &[&str]) -> Vec<String> {
    items.iter().map(|s| s.to_string()).collect()
}

#[test]
fn names_are_ordered_as_strings_are() {
    let names = ["", "A", "B", "AB", "A-B", "a", "Nord", "Normandie", "é", "è", "z", "A\u{10000}"];
    for a in names {
        for b in names {
            assert_eq!(
                name_lt(&a.to_string(), &b.to_string()),
                a < b,
                "{a:?} against {b:?}"
            );
        }
    }
}

#[test]
fn the_first_occurrence_is_found() {
    let list = strings(&["x", "y", "x"]);
    assert_eq!(position_of(&list, &"x".to_string()), Some(0));
    assert_eq!(position_of(&list, &"y".to_string()), Some(1));
    assert_eq!(position_of(&list, &"z".to_string()), None);
    assert_eq!(position_of(&vec![], &"z".to_string()), None);
}

#[test]
fn a_region_knows_its_neighbours() {
    let region = Region {
        name: "A".to_string(),
        gdp: 1,
        links: strings(&["B", "C"]),
    };
    assert!(region.has_link(&"C".to_string()));
    assert!(!region.has_link(&"A".to_string()));
    let copy = region.clone();
    assert_eq!(copy.name, "A");
    assert_eq!(copy.gdp, 1);
    assert_eq!(copy.links, vec!["B", "C"]);
}

#[test]
fn names_are_inserted_at_their_place() {
    let mut list = strings(&["b", "d"]);
    insert_in_order(&mut list, &"c".to_string());
    assert_eq!(list, vec!["b", "c", "d"]);
    insert_in_order(&mut list, &"a".to_string());
    insert_in_order(&mut list, &"e".to_string());
    assert_eq!(list, vec!["a", "b", "c", "d", "e"]);
    insert_in_order(&mut list, &"c".to_string());
    assert_eq!(list, vec!["a", "b", "c", "d", "e"]);
    let mut empty = Vec::new();
    insert_in_order(&mut empty, &"x".to_string());
    assert_eq!(empty, vec!["x"]);
}

#[test]
fn fused_neighbours_come_in_the_order_of_names() {
    let a = Region {
        name: "M".to_string(),
        gdp: 1,
        links: strings(&["Z", "N", "C"]),
    };
    let b = Region {
        name: "N".to_string(),
        gdp: 2,
        links: strings(&["M", "Y", "C", "A"]),
    };
    let fused = a.fuse(b);
    assert_eq!(fused.name, "M-N");
    assert_eq!(fused.links, vec!["A", "C", "Y", "Z"]);
}

#[test]
fn countries_are_ordered_by_variance() {
    let even = Country::from_str("A : 2 : B\nB : 2 : A\n").unwrap();
    let uneven = Country::from_str("A : 1 : B\nB : 3 : A\n").unwrap();
    let also_uneven = Country::from_str("A : 4 : B\nB : 6 : A\nC : 5 : \n").unwrap();
    assert_eq!(variance_order(&even, &uneven), Ordering::Less);
    assert_eq!(variance_order(&uneven, &even), Ordering::Greater);
    assert_eq!(variance_order(&even, &even), Ordering::Equal);
    // 1 against 2 / 3
    assert_eq!(variance_order(&uneven, &also_uneven), Ordering::Greater);
}
