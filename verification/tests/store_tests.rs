use rscrape::plans::plan_save;
use rscrape::presentation::Presentation;
use rscrape::scrape::{get_scrape_from_str, scrape_line_is_ok, scrape_line_of, Scrape};
use rscrape::store::{
    combined_lines_readable, get_all_scrape_names, get_combined_scrapes_for_scrape,
    get_saved_scrape, get_scrape_name, saved_scrape_is_readable, store_names_defined,
};

fn strings(v: &[&str]) -> Vec<String> {
    v.iter().map(|s| s.to_string()).collect()
}

const STORE: &str = "news;https://news.example;[\"h2.title\", \"a.more\"];[\"title\", \"link\"];[\"1:href\"];[];[\"0: !\"];Top stories;table;news.json\n\
weather;https://w.example;[\"td\"];[\"temp\"];[];[\"0:T=\"];[];;list;\n\
combined;both;[\"news\", \"weather\", \"gone\"]\n";

fn sample(name: &str) -> Scrape {
    Scrape {
        name: name.to_string(),
        url: "https://example.org/list".to_string(),
        selectors: strings(&["h1", "p.lead"]),
        keys: strings(&["head", "lead"]),
        attributes: None,
        prefixes: Some(strings(&["1:> "])),
        suffixes: None,
        title: Some("Example".to_string()),
        presentation: Some(Presentation::List),
        export: None,
    }
}

fn same(a: &Scrape, b: &Scrape) -> bool {
    a.name == b.name
        && a.url == b.url
        && a.selectors == b.selectors
        && a.keys == b.keys
        && a.attributes == b.attributes
        && a.prefixes == b.prefixes
        && a.suffixes == b.suffixes
        && a.title == b.title
        && a.presentation == b.presentation
        && a.export == b.export
}

#[test]
fn scrape_name_of_plain_and_combined_lines() {
    assert_eq!(get_scrape_name("news;https://x;[\"a\"]"), "news");
    assert_eq!(get_scrape_name("combined;both;[\"a\"]"), "both");
    assert_eq!(get_scrape_name("single"), "single");
}

#[test]
fn all_scrape_names_in_store_order() {
    assert_eq!(get_all_scrape_names(STORE), strings(&["news", "weather", "both"]));
}

#[test]
fn an_empty_store_has_one_empty_name() {
    assert_eq!(get_all_scrape_names(""), strings(&[""]));
    assert_eq!(get_all_scrape_names("  \n\n"), strings(&[""]));
}

#[test]
fn lines_are_trimmed_before_naming() {
    assert_eq!(get_all_scrape_names("  a;x\n\tcombined;c;[]  \n"), strings(&["a", "c"]));
}

#[test]
fn combined_scrapes_that_use_a_scrape() {
    let name = "weather".to_string();
    assert_eq!(
        get_combined_scrapes_for_scrape(STORE, &name),
        strings(&["combined;both;[\"news\", \"weather\", \"gone\"]"])
    );
    let other = "nothing".to_string();
    assert!(get_combined_scrapes_for_scrape(STORE, &other).is_empty());
    // A plain scrape that only starts with the name is not a user of it.
    let partial = "weath".to_string();
    assert!(get_combined_scrapes_for_scrape(STORE, &partial).is_empty());
}

#[test]
fn a_line_is_read_field_by_field() {
    let line = "news;https://news.example;[\"h2.title\", \"a.more\"];[\"title\", \"link\"];[\"1:href\"];[];[\"0: !\"];Top stories;table;news.json";
    let s = get_scrape_from_str(line);
    assert_eq!(s.name, "news");
    assert_eq!(s.url, "https://news.example");
    assert_eq!(s.selectors, strings(&["h2.title", "a.more"]));
    assert_eq!(s.keys, strings(&["title", "link"]));
    assert_eq!(s.attributes, Some(strings(&["1:href"])));
    assert_eq!(s.prefixes, None);
    assert_eq!(s.suffixes, Some(strings(&["0: !"])));
    assert_eq!(s.title, Some("Top stories".to_string()));
    assert_eq!(s.presentation, Some(Presentation::Table));
    assert_eq!(s.export, Some("news.json".to_string()));
}

#[test]
fn empty_fields_read_as_absent() {
    let s = get_scrape_from_str("w;u;[\"td\"];[\"t\"];[];[];[];  ;;  ");
    assert_eq!(s.attributes, None);
    assert_eq!(s.prefixes, None);
    assert_eq!(s.suffixes, None);
    assert_eq!(s.title, None);
    assert_eq!(s.presentation, None);
    assert_eq!(s.export, None);
}

#[test]
fn any_presentation_but_table_reads_as_list() {
    let s = get_scrape_from_str("w;u;[\"td\"];[\"t\"];[];[];[];;grid;");
    assert_eq!(s.presentation, Some(Presentation::List));
    let s = get_scrape_from_str("w;u;[\"td\"];[\"t\"];[];[];[];; table ;");
    assert_eq!(s.presentation, Some(Presentation::Table));
}

#[test]
fn malformed_lines_are_detected() {
    let ok = |s: &str| scrape_line_is_ok(&s.chars().collect());
    assert!(ok("w;u;[\"td\"];[\"t\"];[];[];[];;;"));
    assert!(!ok("w;u;[\"td\"];[\"t\"]"));
    assert!(!ok("w;u;x;[\"t\"];[];[];[];;;"));
    assert!(ok("w;u;[\"td\"];[\"t\"];abc;[];[];;;"));
    assert!(!ok("w;u;[\"td\"];[\"t\"];\u{e9}ab;[];[];;;"));
}

#[test]
fn the_line_of_a_scrape() {
    let line = scrape_line_of(&sample("ex"));
    assert_eq!(
        line,
        "ex;https://example.org/list;[\"h1\", \"p.lead\"];[\"head\", \"lead\"];[];[\"1:> \"];[];Example;list;"
    );
}

#[test]
fn the_line_of_a_scrape_escapes_as_debug_does() {
    let mut s = sample("ex");
    s.selectors = strings(&["a[title=\"x\"]", "b\\c"]);
    let line = scrape_line_of(&s);
    assert!(line.starts_with("ex;https://example.org/list;[\"a[title=\\\"x\\\"]\", \"b\\\\c\"];"));
}

#[test]
fn a_written_line_reads_back() {
    let s = sample("ex");
    let line = scrape_line_of(&s);
    let back = get_scrape_from_str(&line);
    assert!(same(&s, &back));
}

#[test]
fn a_saved_scrape_is_found() {
    match get_saved_scrape(STORE, "weather") {
        Some(v) => {
            assert_eq!(v.len(), 1);
            assert_eq!(v[0].url, "https://w.example");
            assert_eq!(v[0].prefixes, Some(strings(&["0:T="])));
            assert_eq!(v[0].export, None);
        }
        None => panic!("not found"),
    }
    assert!(get_saved_scrape(STORE, "missing").is_none());
}

#[test]
fn a_combined_scrape_gives_its_members_that_exist() {
    match get_saved_scrape(STORE, "both") {
        Some(v) => {
            let names: Vec<String> = v.iter().map(|s| s.name.clone()).collect();
            assert_eq!(names, strings(&["news", "weather"]));
        }
        None => panic!("not found"),
    }
}

#[test]
fn store_checks() {
    assert!(store_names_defined(STORE));
    assert!(!store_names_defined("a;b\ncombined\n"));
    assert!(combined_lines_readable(STORE));
    assert!(!combined_lines_readable("combined;x\n"));
    assert!(saved_scrape_is_readable(STORE, "both"));
    assert!(saved_scrape_is_readable(STORE, "missing"));
    assert!(!saved_scrape_is_readable("x;u;bad\n", "x"));
    // A broken line after the one looked for does not matter.
    assert!(saved_scrape_is_readable("x;u;[\"a\"];[\"b\"];[];[];[];;;\ncombined\n", "x"));
    assert!(!saved_scrape_is_readable("combined\nx;u;[\"a\"];[\"b\"];[];[];[];;;\n", "x"));
}

#[test]
fn a_saved_scrape_reads_back_from_the_store() {
    let s = sample("fresh");
    let line = match plan_save(STORE, &s) {
        Ok(l) => l,
        Err(e) => panic!("unexpected {:?}", e),
    };
    let content = format!("{}{}\n", STORE, line);
    let names = get_all_scrape_names(&content);
    assert_eq!(names, strings(&["news", "weather", "both", "fresh"]));
    match get_saved_scrape(&content, "fresh") {
        Some(v) => {
            assert_eq!(v.len(), 1);
            assert!(same(&v[0], &s));
        }
        None => panic!("not found"),
    }
}

#[test]
fn every_listed_name_can_be_looked_up() {
    for name in get_all_scrape_names(STORE) {
        assert!(get_saved_scrape(STORE, &name).is_some(), "{}", name);
    }
}
