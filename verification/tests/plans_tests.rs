use rscrape::plans::{
    contains_string, lines_are_named, plan_combine, plan_delete, plan_save,
    updated_combined_line_of, CombineError, DeletePlan, NameError,
};
use rscrape::presentation::Presentation;
use rscrape::scrape::Scrape;
use rscrape::store::get_saved_scrape;

fn strings(v: &[&str]) -> Vec<String> {
    v.iter().map(|s| s.to_string()).collect()
}

const A: &str = "a;u;[\"h\"];[\"k\"];[];[];[];;;";
const B: &str = "b;u;[\"p\"];[\"v\"];[];[];[];;table;";
const C: &str = "combined;c;[\"a\", \"b\"]";

fn lines() -> Vec<String> {
    strings(&[A, B, C])
}

fn content() -> String {
    format!("{}\n{}\n{}\n", A, B, C)
}

fn scrape_named(name: &str) -> Scrape {
    Scrape {
        name: name.to_string(),
        url: "u".to_string(),
        selectors: strings(&["h"]),
        keys: strings(&["k"]),
        attributes: None,
        prefixes: None,
        suffixes: None,
        title: None,
        presentation: Some(Presentation::Table),
        export: Some("out.csv".to_string()),
    }
}

#[test]
fn contains_string_compares_text() {
    assert!(contains_string(&strings(&["x", "y"]), &"y".to_string()));
    assert!(!contains_string(&strings(&["x", "y"]), &"Y".to_string()));
}

#[test]
fn save_gives_the_line_to_append() {
    match plan_save(&content(), &scrape_named("d")) {
        Ok(line) => assert_eq!(line, "d;u;[\"h\"];[\"k\"];[];[];[];;table;out.csv"),
        Err(e) => panic!("unexpected {:?}", e),
    }
}

#[test]
fn save_refuses_a_taken_name_in_lower_case() {
    assert_eq!(plan_save(&content(), &scrape_named("A")).err(), Some(NameError::NameTaken));
    assert_eq!(plan_save(&content(), &scrape_named("c")).err(), Some(NameError::NameTaken));
}

#[test]
fn save_refuses_the_reserved_word() {
    assert_eq!(plan_save(&content(), &scrape_named("Combined")).err(), Some(NameError::ReservedName));
    assert_eq!(plan_save(&content(), &scrape_named("COMBINED")).err(), Some(NameError::ReservedName));
}

#[test]
fn save_compares_only_the_lower_case_name() {
    // "B" is taken as "b"; a saved "Q" does not stop a new "Q".
    let store = format!("{}Q;u;[\"h\"];[\"k\"];[];[];[];;;\n", content());
    assert_eq!(plan_save(&store, &scrape_named("B")).err(), Some(NameError::NameTaken));
    assert!(plan_save(&store, &scrape_named("Q")).is_ok());
}

#[test]
fn combine_gives_the_line_to_append() {
    match plan_combine(&lines(), "both", &strings(&["a", "b"])) {
        Ok(line) => assert_eq!(line, "combined;both;[\"a\", \"b\"]"),
        Err(e) => panic!("unexpected {:?}", e),
    }
}

#[test]
fn combine_refusals() {
    assert_eq!(
        plan_combine(&lines(), "A", &strings(&["b"])).err(),
        Some(CombineError::Name(NameError::NameTaken))
    );
    assert_eq!(
        plan_combine(&lines(), "C", &strings(&["b"])).err(),
        Some(CombineError::Name(NameError::NameTaken))
    );
    assert_eq!(
        plan_combine(&lines(), "CoMbInEd", &strings(&["b"])).err(),
        Some(CombineError::Name(NameError::ReservedName))
    );
    assert_eq!(
        plan_combine(&lines(), "n", &strings(&["a", "x", "c"])).err(),
        Some(CombineError::UnknownScrape("x".to_string()))
    );
    assert_eq!(
        plan_combine(&lines(), "n", &strings(&["c"])).err(),
        Some(CombineError::UnknownScrape("c".to_string()))
    );
    let with_plain_c = vec![A.to_string(), "c;u;[\"x\"];[\"y\"];[];[];[];;;".to_string(), C.to_string()];
    assert_eq!(
        plan_combine(&with_plain_c, "n", &strings(&["a", "c"])).err(),
        Some(CombineError::CombinedMember("c".to_string()))
    );
}

#[test]
fn a_combined_scrape_reads_back_as_its_members() {
    let line = match plan_combine(&lines(), "pair", &strings(&["b", "a"])) {
        Ok(l) => l,
        Err(e) => panic!("unexpected {:?}", e),
    };
    let store = format!("{}{}\n", content(), line);
    match get_saved_scrape(&store, "pair") {
        Some(v) => {
            let names: Vec<String> = v.iter().map(|s| s.name.clone()).collect();
            assert_eq!(names, strings(&["b", "a"]));
            assert_eq!(v[0].presentation, Some(Presentation::Table));
        }
        None => panic!("not found"),
    }
}

#[test]
fn lines_without_a_name_are_detected() {
    assert!(lines_are_named(&lines()));
    assert!(!lines_are_named(&strings(&[A, "combined"])));
}

#[test]
fn a_rewritten_combined_line_drops_the_member() {
    let line: Vec<char> = "combined;c;[\"a\", \"b\", \"a\"]".chars().collect();
    let name: Vec<char> = "a".chars().collect();
    let r: String = updated_combined_line_of(&line, &name).into_iter().collect();
    assert_eq!(r, "combined;c;[\"b\"]");
    let all: Vec<char> = "b".chars().collect();
    let line: Vec<char> = "combined;c;[\"b\"]".chars().collect();
    let r: String = updated_combined_line_of(&line, &all).into_iter().collect();
    assert_eq!(r, "combined;c;[]");
}

#[test]
fn deleting_an_unknown_scrape_changes_nothing() {
    assert!(matches!(plan_delete(&lines(), &content(), "zzz"), DeletePlan::NotFound));
}

#[test]
fn deleting_a_used_scrape_asks_first() {
    match plan_delete(&lines(), &content(), "a") {
        DeletePlan::Confirm { message, lines: out } => {
            assert_eq!(
                message,
                "The following combined scrapes are using this scrape: \nc\nAre you sure you want to delete the scrape?"
            );
            assert_eq!(out, strings(&["combined;c;[\"b\"]", B]));
        }
        _ => panic!("expected a question"),
    }
}

#[test]
fn deleting_a_combined_scrape_rewrites_the_rest() {
    match plan_delete(&lines(), &content(), "c") {
        DeletePlan::Rewrite(out) => assert_eq!(out, strings(&[A, B])),
        _ => panic!("expected a rewrite"),
    }
}

#[test]
fn deleting_an_unused_scrape_rewrites_the_rest() {
    let ls = strings(&[A, B]);
    let text = format!("{}\n{}\n", A, B);
    match plan_delete(&ls, &text, "b") {
        DeletePlan::Rewrite(out) => assert_eq!(out, strings(&[A])),
        _ => panic!("expected a rewrite"),
    }
}

#[test]
fn deleting_removes_every_line_of_the_name() {
    let ls = strings(&[A, B, A]);
    let text = format!("{}\n{}\n", A, B);
    match plan_delete(&ls, &text, "a") {
        DeletePlan::Rewrite(out) => assert_eq!(out, strings(&[B])),
        _ => panic!("expected a rewrite"),
    }
}

#[test]
fn users_are_looked_up_in_the_store_text() {
    let ls = strings(&[A, "combined;x;[\"a\"]", B, "combined;y;[\"b\", \"a\"]"]);
    let text = format!("{}\n", ls.join("\n"));
    match plan_delete(&ls, &text, "a") {
        DeletePlan::Confirm { message, lines: out } => {
            assert_eq!(
                message,
                "The following combined scrapes are using this scrape: \nx\ny\nAre you sure you want to delete the scrape?"
            );
            assert_eq!(out, strings(&["combined;x;[]", "combined;y;[\"b\"]", B]));
        }
        _ => panic!("expected a question"),
    }
}

#[test]
fn any_three_field_line_is_rewritten_as_combined() {
    let line: Vec<char> = "x;c;[\"a\", \"b\"]".chars().collect();
    let name: Vec<char> = "a".chars().collect();
    let r: String = updated_combined_line_of(&line, &name).into_iter().collect();
    assert_eq!(r, "combined;c;[\"b\"]");
}

#[test]
fn a_combined_scrape_anywhere_in_the_store_is_found() {
    let store = format!("{}\ncombined;pair;[\"b\", \"a\", \"zz\"]\n{}\n", A, B);
    match get_saved_scrape(&store, "pair") {
        Some(v) => {
            let names: Vec<String> = v.iter().map(|s| s.name.clone()).collect();
            assert_eq!(names, strings(&["b", "a"]));
        }
        None => panic!("not found"),
    }
}

#[test]
fn users_come_from_the_store_text_trimmed() {
    // The store text lists a user that the file does not hold; its line is
    // trimmed before it is read and rewritten.
    let ls = strings(&[A, B]);
    let text = format!("{}\n  combined;z;[\"a\", \"b\"]  \n{}\n", A, B);
    match plan_delete(&ls, &text, "a") {
        DeletePlan::Confirm { message, lines: out } => {
            assert_eq!(
                message,
                "The following combined scrapes are using this scrape: \nz\nAre you sure you want to delete the scrape?"
            );
            assert_eq!(out, strings(&["combined;z;[\"b\"]", B]));
        }
        _ => panic!("expected a question"),
    }
}
