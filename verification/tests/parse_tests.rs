use rush_nowel::country::Country;
use rush_nowel::parse::chars_of;
use rush_nowel::parse::code_of;
use rush_nowel::parse::lines;
use rush_nowel::parse::parse_value;
use rush_nowel::parse::split;
use rush_nowel::region::Region;

#[test]
fn a_line_is_a_name_a_value_and_neighbours() {
    let region = Region::from_str("Nord : 157 : Paris-Normandie").unwrap();
    assert_eq!(region.name, "Nord");
    assert_eq!(region.gdp, 157);
    assert_eq!(region.links, vec!["Paris", "Normandie"]);
}

#[test]
fn fields_beyond_the_third_are_left_out() {
    let region = Region::from_str("A : 1 : B : C").unwrap();
    assert_eq!(region.links, vec!["B"]);
}

#[test]
fn an_empty_list_of_neighbours_is_one_empty_name() {
    let region = Region::from_str("A : 1 : ").unwrap();
    assert_eq!(region.links, vec![""]);
}

#[test]
fn a_missing_field_is_refused() {
    assert!(Region::from_str("").is_err());
    assert!(Region::from_str("A").is_err());
    assert!(Region::from_str("A : 1").is_err());
    assert!(Region::from_str("A: 1 : B").is_err());
}

#[test]
fn a_value_that_is_no_number_is_refused() {
    assert!(Region::from_str("A : x : B").is_err());
    assert!(Region::from_str("A :  : B").is_err());
    assert!(Region::from_str("A : 1.5 : B").is_err());
    assert!(Region::from_str("A : -1 : B").is_err());
    assert!(Region::from_str("A : 18446744073709551616 : B").is_err());
    assert_eq!(
        Region::from_str("A : 18446744073709551615 : B").unwrap().gdp,
        u64::MAX
    );
    assert_eq!(Region::from_str("A : 007 : B").unwrap().gdp, 7);
}

#[test]
fn numbers_are_read_digit_by_digit() {
    assert_eq!(parse_value("0"), Some(0));
    assert_eq!(parse_value("42"), Some(42));
    assert_eq!(parse_value(""), None);
    assert_eq!(parse_value("4 2"), None);
    assert_eq!(parse_value("+5"), None);
    assert_eq!(parse_value("99999999999999999999"), None);
}

#[test]
fn text_is_split_at_every_occurrence() {
    assert_eq!(split("a-b-c", "-"), vec!["a", "b", "c"]);
    assert_eq!(split("abc", "-"), vec!["abc"]);
    assert_eq!(split("", "-"), vec![""]);
    assert_eq!(split("-a-", "-"), vec!["", "a", ""]);
    assert_eq!(split("a : b :c : d", " : "), vec!["a", "b :c", "d"]);
    assert_eq!(split("aaa", "aa"), vec!["", "a"]);
    assert_eq!(split("é-è", "-"), vec!["é", "è"]);
}

#[test]
fn lines_end_with_a_line_feed_or_the_text() {
    assert_eq!(lines("a\nb\n"), vec!["a", "b"]);
    assert_eq!(lines("a\nb"), vec!["a", "b"]);
    assert_eq!(lines(""), Vec::<String>::new());
    assert_eq!(lines("\n"), vec![""]);
    assert_eq!(lines("a\n\nb"), vec!["a", "", "b"]);
    assert_eq!(lines("a\r\nb\r\n"), vec!["a", "b"]);
    assert_eq!(lines("a\r\nb\r"), vec!["a", "b\r"]);
    let text = "x\r\ny\n\nz\r";
    let expected: Vec<String> = text.lines().map(|l| l.to_string()).collect();
    assert_eq!(lines(text), expected);
}

#[test]
fn characters_are_taken_one_by_one() {
    assert_eq!(chars_of("aé-"), vec!['a', 'é', '-']);
    assert!(chars_of("").is_empty());
}

#[test]
fn a_text_is_one_region_per_line() {
    let country = Country::from_str("A : 5 : B\nB : 1 : A\n").unwrap();
    assert_eq!(country.regions.len(), 2);
    assert_eq!(country.regions[0].name, "A");
    assert_eq!(country.regions[1].gdp, 1);
    assert!(country.is_valid());
    assert_eq!(Country::from_str("").unwrap().regions.len(), 0);
}

#[test]
fn a_line_that_is_no_region_fails_the_text() {
    assert!(Country::from_str("A : 5 : B\n\nB : 1 : A\n").is_err());
    assert!(Country::from_str("A : 5 : B\nB : one : A\n").is_err());
}

#[test]
fn a_text_may_describe_regions_that_make_no_valid_country() {
    let country = Country::from_str("A : 5 : B\n").unwrap();
    assert!(!country.is_valid());
}

#[test]
fn text_is_parsed_into_regions_and_countries() {
    let region: Region = "A : 5 : B-C".parse().unwrap();
    assert_eq!(region.name, "A");
    assert_eq!(region.gdp, 5);
    assert_eq!(region.links, vec!["B", "C"]);
    assert!("A : 5".parse::<Region>().is_err());
    let country: Country = "A : 5 : B\nB : 1 : A\n".parse().unwrap();
    assert_eq!(country.len(), 2);
    assert!("A : 5 : B\nB".parse::<Country>().is_err());
}

#[test]
fn a_character_has_its_code_point() {
    assert_eq!(code_of('0'), 48);
    assert_eq!(code_of('9'), 57);
    assert_eq!(code_of('é'), 0xE9);
}
