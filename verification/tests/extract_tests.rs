use rscrape::export::csv_export;
use rscrape::extract::{
    content_rows, element_text_of, extract_contents, inspect, prepare_options, rows_are_complete,
    selection_texts, selector_texts_of, ChildNode, ElementData, ExtractError, ScrapeOptions,
};

fn strings(v: &[&str]) -> Vec<String> {
    v.iter().map(|s| s.to_string()).collect()
}

const PAGE: &str = "<html><body>\
<h2 class=\"t\">  Hello <b>big <i>World</i></b><!-- note --></h2>\
<h2 class=\"t\">Second</h2>\
<a href=\"/one\">L1</a><a>L2</a>\
<p>x</p><p>y</p><p>z</p>\
</body></html>";

fn options(
    selectors: &[&str],
    attributes: Option<&[&str]>,
    prefixes: Option<&[&str]>,
    suffixes: Option<&[&str]>,
) -> ScrapeOptions {
    let keys: Vec<String> = selectors.iter().map(|_| "k".to_string()).collect();
    match prepare_options(
        &strings(selectors),
        &keys,
        &attributes.map(strings),
        &prefixes.map(strings),
        &suffixes.map(strings),
    ) {
        Ok(o) => o,
        Err(e) => panic!("unexpected {:?}", e),
    }
}

#[test]
fn texts_of_selected_elements() {
    let sel = ["h2.t"];
    let r = extract_contents(PAGE, &strings(&sel), &options(&sel, None, None, None));
    assert_eq!(r, Ok(vec![strings(&[" Hellobig World", " Second"])]));
}

#[test]
fn attribute_values_replace_the_text() {
    let sel = ["a[href]", "p"];
    let r = extract_contents(PAGE, &strings(&sel), &options(&sel, Some(&["0:href"]), None, None));
    assert_eq!(r, Ok(vec![strings(&["/one"]), strings(&[" x", " y", " z"])]));
}

#[test]
fn a_missing_attribute_is_a_fault() {
    let sel = ["p", "a"];
    let r = extract_contents(PAGE, &strings(&sel), &options(&sel, Some(&["1:href"]), None, None));
    assert_eq!(r, Err(ExtractError::MissingAttribute(1)));
}

#[test]
fn an_invalid_selector_is_a_fault() {
    let sel = ["p", "[[", "nothing"];
    let r = extract_contents(PAGE, &strings(&sel), &options(&sel, None, None, None));
    assert_eq!(r, Err(ExtractError::InvalidSelector(1)));
}

#[test]
fn a_selector_without_elements_is_a_fault() {
    let sel = ["p", "table", "[["];
    let r = extract_contents(PAGE, &strings(&sel), &options(&sel, None, None, None));
    assert_eq!(r, Err(ExtractError::NoElements(1)));
}

#[test]
fn prefixes_and_suffixes_wrap_the_text() {
    let sel = ["a[href]", "h2.t"];
    let r = extract_contents(
        PAGE,
        &strings(&sel),
        &options(&sel, Some(&["0:href"]), Some(&["0:https://x.org", "1:<"]), Some(&["1:>"])),
    );
    assert_eq!(
        r,
        Ok(vec![strings(&["https://x.org/one"]), strings(&["< Hellobig World>", "< Second>"])])
    );
}

#[test]
fn the_text_of_one_element() {
    let e = ElementData {
        attribute: Some(String::new()),
        children: vec![
            ChildNode::Text("  a  ".to_string()),
            ChildNode::Other,
            ChildNode::Element("B c".to_string()),
            ChildNode::Text("\n".to_string()),
        ],
    };
    // An empty attribute value falls back to the children's text.
    assert_eq!(element_text_of(&e, true, &None, &None), " aB c ");
    assert_eq!(element_text_of(&e, false, &Some("[".to_string()), &Some("]".to_string())), "[ aB c ]");
    let with_value = ElementData { attribute: Some("v".to_string()), children: vec![] };
    assert_eq!(element_text_of(&with_value, true, &None, &None), "v");
    assert_eq!(element_text_of(&with_value, false, &None, &None), "");
}

#[test]
fn rows_take_one_text_of_each_selector() {
    let contents = vec![strings(&[" a ", "b"]), strings(&["1", " 2", "3"])];
    assert!(rows_are_complete(&contents));
    assert_eq!(content_rows(&contents), vec![strings(&["a", "1"]), strings(&["b", "2"])]);
}

#[test]
fn rows_need_enough_texts() {
    let contents = vec![strings(&["a", "b"]), strings(&["1"])];
    assert!(!rows_are_complete(&contents));
    assert!(rows_are_complete(&Vec::new()));
    assert!(content_rows(&Vec::new()).is_empty());
}

#[test]
fn inspect_does_nothing() {
    inspect("https://example.org".to_string(), None, Some("x".to_string()));
}

#[test]
fn texts_of_one_selector() {
    let els = vec![
        ElementData { attribute: Some("a".to_string()), children: vec![] },
        ElementData { attribute: None, children: vec![ChildNode::Text("t".to_string())] },
    ];
    assert_eq!(selector_texts_of(&els, true, &None, &None), None);
    assert_eq!(
        selector_texts_of(&els, false, &Some("<".to_string()), &None),
        Some(strings(&["<", "< t"]))
    );
    let one = vec![ElementData { attribute: Some("a".to_string()), children: vec![] }];
    assert_eq!(selector_texts_of(&one, true, &None, &Some("!".to_string())), Some(strings(&["a!"])));
}

#[test]
fn what_a_selection_yields() {
    let sel = ["a", "p"];
    let opts = options(&sel, Some(&["0:href"]), Some(&["1:#"]), None);
    assert_eq!(selection_texts(None, 0, &opts), Err(ExtractError::InvalidSelector(0)));
    assert_eq!(selection_texts(Some(vec![]), 1, &opts), Err(ExtractError::NoElements(1)));
    let lacking = vec![ElementData { attribute: None, children: vec![] }];
    assert_eq!(selection_texts(Some(lacking), 0, &opts), Err(ExtractError::MissingAttribute(0)));
    let with = vec![ElementData { attribute: Some("/x".to_string()), children: vec![] }];
    assert_eq!(selection_texts(Some(with), 0, &opts), Ok(strings(&["/x"])));
    let texts = vec![ElementData { attribute: None, children: vec![ChildNode::Text(" p ".to_string())] }];
    assert_eq!(selection_texts(Some(texts), 1, &opts), Ok(strings(&["# p"])));
}

#[test]
fn page_to_csv_rows() {
    let keys = strings(&["head", "para"]);
    let sel = ["p", "h2.t"];
    let opts = options(&sel, None, None, None);
    let contents = match extract_contents(PAGE, &strings(&sel), &opts) {
        Ok(c) => c,
        Err(e) => panic!("unexpected {:?}", e),
    };
    // The first selector has three texts, the second only two.
    assert!(!rows_are_complete(&contents));
    let sel = ["h2.t", "p"];
    let opts = options(&sel, None, Some(&["0:<"]), Some(&["1:!"]));
    let contents = match extract_contents(PAGE, &strings(&sel), &opts) {
        Ok(c) => c,
        Err(e) => panic!("unexpected {:?}", e),
    };
    assert!(rows_are_complete(&contents));
    let rows = content_rows(&contents);
    assert_eq!(
        csv_export(&keys, &rows),
        Some(b"head,para\n< Hellobig World,x!\n< Second,y!\n".to_vec())
    );
}
