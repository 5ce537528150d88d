use rscrape::extract::prepare_options;
use rscrape::options::{option_for_of, parse_index_of, read_options_of, IndexedValue, OptionError, OptionKind};

fn strings(v: &[&str]) -> Vec<String> {
    v.iter().map(|s| s.to_string()).collect()
}

fn pairs(list: &[IndexedValue]) -> Vec<(usize, String)> {
    list.iter().map(|x| (x.index, x.value.clone())).collect()
}

#[test]
fn attributes_are_read_in_order() {
    let r = read_options_of(OptionKind::Attribute, &strings(&["0:href", "2:src"]));
    match r {
        Ok(list) => assert_eq!(pairs(&list), vec![(0, "href".to_string()), (2, "src".to_string())]),
        Err(e) => panic!("unexpected {:?}", e),
    }
}

#[test]
fn attribute_needs_exactly_one_colon() {
    let r = read_options_of(OptionKind::Attribute, &strings(&["0:a:b"]));
    assert_eq!(r.err(), Some(OptionError::InvalidAttribute));
    let r = read_options_of(OptionKind::Attribute, &strings(&["0"]));
    assert_eq!(r.err(), Some(OptionError::InvalidAttribute));
}

#[test]
fn attribute_index_must_be_a_number() {
    let r = read_options_of(OptionKind::Attribute, &strings(&["x:href"]));
    assert_eq!(r.err(), Some(OptionError::BadIndex(OptionKind::Attribute)));
    let r = read_options_of(OptionKind::Attribute, &strings(&["-1:href"]));
    assert_eq!(r.err(), Some(OptionError::BadIndex(OptionKind::Attribute)));
}

#[test]
fn one_attribute_per_selector() {
    let r = read_options_of(OptionKind::Attribute, &strings(&["0:a", "1:b", "0:c"]));
    assert_eq!(r.err(), Some(OptionError::Duplicate(OptionKind::Attribute)));
}

#[test]
fn prefix_value_is_everything_after_the_first_colon() {
    let r = read_options_of(OptionKind::Prefix, &strings(&["1:http://x.org/"]));
    match r {
        Ok(list) => assert_eq!(pairs(&list), vec![(1, "http://x.org/".to_string())]),
        Err(e) => panic!("unexpected {:?}", e),
    }
}

#[test]
fn prefix_without_colon_is_refused() {
    let r = read_options_of(OptionKind::Prefix, &strings(&["1"]));
    assert_eq!(r.err(), Some(OptionError::MissingColon(OptionKind::Prefix)));
}

#[test]
fn suffix_faults() {
    let r = read_options_of(OptionKind::Suffix, &strings(&["a:b"]));
    assert_eq!(r.err(), Some(OptionError::BadIndex(OptionKind::Suffix)));
    let r = read_options_of(OptionKind::Suffix, &strings(&["0:x", "0:y"]));
    assert_eq!(r.err(), Some(OptionError::Duplicate(OptionKind::Suffix)));
}

#[test]
fn index_reading_follows_usize_parsing() {
    let p = |s: &str| parse_index_of(&s.chars().collect());
    assert_eq!(p("42"), Some(42));
    assert_eq!(p("+3"), Some(3));
    assert_eq!(p("007"), Some(7));
    assert_eq!(p("+"), None);
    assert_eq!(p(""), None);
    assert_eq!(p(" 1"), None);
    assert_eq!(p("18446744073709551616"), None);
    assert_eq!(p("18446744073709551615"), Some(usize::MAX));
}

#[test]
fn option_for_a_selector() {
    let list = match read_options_of(OptionKind::Prefix, &strings(&["2:> ", "0:#"])) {
        Ok(l) => l,
        Err(e) => panic!("unexpected {:?}", e),
    };
    assert_eq!(option_for_of(&list, 0), Some("#".to_string()));
    assert_eq!(option_for_of(&list, 2), Some("> ".to_string()));
    assert_eq!(option_for_of(&list, 1), None);
}

#[test]
fn keys_must_match_selectors() {
    let r = prepare_options(&strings(&["h1", "p"]), &strings(&["t"]), &None, &None, &None);
    assert_eq!(r.err(), Some(OptionError::KeyCount));
}

#[test]
fn options_are_checked_kind_by_kind() {
    let sel = strings(&["h1", "p"]);
    let keys = strings(&["t", "b"]);
    // The attribute fault comes first, though the prefix is faulty too.
    let r = prepare_options(&sel, &keys, &Some(strings(&["0"])), &Some(strings(&["x"])), &None);
    assert_eq!(r.err(), Some(OptionError::InvalidAttribute));
    let r = prepare_options(&sel, &keys, &Some(strings(&["0:href"])), &Some(strings(&["x"])), &None);
    assert_eq!(r.err(), Some(OptionError::MissingColon(OptionKind::Prefix)));
    let r = prepare_options(&sel, &keys, &None, &None, &Some(strings(&["1:!"])));
    match r {
        Ok(o) => {
            assert!(o.attributes.is_empty());
            assert!(o.prefixes.is_empty());
            assert_eq!(pairs(&o.suffixes), vec![(1, "!".to_string())]);
        }
        Err(e) => panic!("unexpected {:?}", e),
    }
}
