use rscrape::export::{csv_export, export_kind, json_export, ExportKind};
use rscrape::presentation::Presentation;
use rscrape::report::{scrape_info_lines, scrapes_info_lines};
use rscrape::scrape::Scrape;

fn strings(v: &[&str]) -> Vec<String> {
    v.iter().map(|s| s.to_string()).collect()
}

#[test]
fn export_kind_by_file_extension() {
    assert_eq!(export_kind("out.json"), ExportKind::Json);
    assert_eq!(export_kind("a.b.csv"), ExportKind::Csv);
    assert_eq!(export_kind("csv"), ExportKind::Csv);
    assert_eq!(export_kind("out.JSON"), ExportKind::Unsupported);
    assert_eq!(export_kind("out.txt"), ExportKind::Unsupported);
    assert_eq!(export_kind("out."), ExportKind::Unsupported);
}

#[test]
fn json_document_of_rows() {
    let rows = vec![strings(&["1", "two"]), strings(&["3", "four"])];
    let r = json_export(&Some("Numbers".to_string()), &strings(&["n", "word"]), &rows);
    assert_eq!(
        r,
        "{\"results\":[{\"n\":\"1\",\"word\":\"two\"},{\"n\":\"3\",\"word\":\"four\"}],\"title\":\"Numbers\"}"
    );
}

#[test]
fn json_escapes_strings() {
    let rows = vec![strings(&["a\"b\\c", "line\nnext\ttab\u{1}\u{7f}é"])];
    let r = json_export(&None, &strings(&["q", "w"]), &rows);
    assert_eq!(
        r,
        "{\"results\":[{\"q\":\"a\\\"b\\\\c\",\"w\":\"line\\nnext\\ttab\\u0001\u{7f}é\"}],\"title\":\"\"}"
    );
}

#[test]
fn json_keeps_the_last_value_of_a_repeated_key() {
    let rows = vec![strings(&["x", "y", "z"])];
    let r = json_export(&None, &strings(&["k", "m", "k"]), &rows);
    assert_eq!(r, "{\"results\":[{\"k\":\"z\",\"m\":\"y\"}],\"title\":\"\"}");
}

#[test]
fn json_objects_list_their_keys_in_order() {
    let rows = vec![strings(&["two", "1", "up", "low"])];
    let r = json_export(&None, &strings(&["word", "n", "B", "a"]), &rows);
    assert_eq!(r, "{\"results\":[{\"B\":\"up\",\"a\":\"low\",\"n\":\"1\",\"word\":\"two\"}],\"title\":\"\"}");
}

#[test]
fn json_without_rows() {
    let r = json_export(&Some("T".to_string()), &strings(&["k"]), &Vec::new());
    assert_eq!(r, "{\"results\":[],\"title\":\"T\"}");
}

#[test]
fn csv_document_of_rows() {
    let rows = vec![strings(&["1", "a,b"]), strings(&["2", "say \"hi\""])];
    let r = csv_export(&strings(&["n", "text"]), &rows);
    assert_eq!(r, Some(b"n,text\n1,\"a,b\"\n2,\"say \"\"hi\"\"\"\n".to_vec()));
}

#[test]
fn csv_refuses_records_of_unequal_length() {
    let rows = vec![strings(&["1"])];
    assert_eq!(csv_export(&strings(&["a", "b"]), &rows), None);
}

#[test]
fn check_lines_of_a_scrape() {
    let s = Scrape {
        name: "n".to_string(),
        url: "https://u".to_string(),
        selectors: strings(&["h1", "p"]),
        keys: strings(&["t", "b"]),
        attributes: None,
        prefixes: Some(strings(&["0:>"])),
        suffixes: Some(Vec::new()),
        title: Some("My \"T\"".to_string()),
        presentation: Some(Presentation::List),
        export: None,
    };
    let expected = vec![
        "Name: n",
        "Url: https://u",
        "Selectors: [\"h1\", \"p\"]",
        "Keys: [\"t\", \"b\"]",
        "Attributes: []",
        "Prefixes: [\"0:>\"]",
        "Suffixes: []",
        "Title: \"My \\\"T\\\"\"",
        "Present: \"list\"",
        "Export: \"\"",
        "Full command: scrape --url \"https://u\" --selectors \"h1\" \"p\" --keys \"t\" \"b\" --prefixes \"0:>\" --title \"My \"T\"\" --present \"list\"",
        "",
    ];
    assert_eq!(scrape_info_lines(&s), strings(&expected));
}

#[test]
fn check_lines_with_every_option() {
    let s = Scrape {
        name: "n".to_string(),
        url: "u".to_string(),
        selectors: strings(&["a"]),
        keys: strings(&["k"]),
        attributes: Some(strings(&["0:href"])),
        prefixes: None,
        suffixes: Some(strings(&["0:!", "1:?"])),
        title: None,
        presentation: Some(Presentation::Table),
        export: Some("o.csv".to_string()),
    };
    let lines = scrape_info_lines(&s);
    assert_eq!(
        lines[10],
        "Full command: scrape --url \"u\" --selectors \"a\" --keys \"k\" --attributes \"0:href\" --suffixes \"0:!\" \"1:?\" --present \"table\" --export \"o.csv\""
    );
    assert_eq!(lines[7], "Title: \"\"");
    assert_eq!(lines[9], "Export: \"o.csv\"");
}

#[test]
fn presentation_names_read_back() {
    for p in [Presentation::List, Presentation::Table] {
        assert_eq!(Presentation::parse(&p.to_display_string()), Ok(p));
    }
    assert_eq!(Presentation::List.to_display_string(), "list");
    assert_eq!(Presentation::Table.to_display_string(), "table");
    assert_eq!("table".parse::<Presentation>(), Ok(Presentation::Table));
    assert_eq!(Presentation::parse("List"), Err(()));
    assert_eq!(Presentation::parse(" list"), Err(()));
}

#[test]
fn check_lines_of_several_scrapes() {
    let one = |name: &str| Scrape {
        name: name.to_string(),
        url: "u".to_string(),
        selectors: strings(&["a"]),
        keys: strings(&["k"]),
        attributes: None,
        prefixes: None,
        suffixes: None,
        title: None,
        presentation: None,
        export: None,
    };
    let scrapes = vec![one("x"), one("y")];
    let lines = scrapes_info_lines(&scrapes);
    assert_eq!(lines.len(), 24);
    assert_eq!(lines[0], "Name: x");
    assert_eq!(lines[12], "Name: y");
    assert_eq!(lines[10], "Full command: scrape --url \"u\" --selectors \"a\" --keys \"k\"");
    assert_eq!(lines[23], "");
    assert!(scrapes_info_lines(&Vec::new()).is_empty());
}
