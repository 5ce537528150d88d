//! What the scrape command takes from a fetched page: for each selector, the
//! text of every element it selects, arranged into rows.
use vstd::prelude::*;

use crate::options::{
    distinct_indices, indexed_view, lemma_read_options_distinct, option_for, option_for_of,
    read_options, read_options_of, IndexedValue, OptionError, OptionKind,
};
use crate::text::{
    append_chars, chars_of, string_of, strings_of, strings_view, trim, trim_chars, utf8_len,
};

verus! {

// ---------------------------------------------------------------------------
// Options
// ---------------------------------------------------------------------------

/// The parsed per-selector options of a scrape.
pub struct ScrapeOptions {
    pub attributes: Vec<IndexedValue>,
    pub prefixes: Vec<IndexedValue>,
    pub suffixes: Vec<IndexedValue>,
}

/// The mathematical content of [`ScrapeOptions`].
pub struct OptionsModel {
    pub attributes: Seq<(usize, Seq<char>)>,
    pub prefixes: Seq<(usize, Seq<char>)>,
    pub suffixes: Seq<(usize, Seq<char>)>,
}

impl View for ScrapeOptions {
    type V = OptionsModel;

    open spec fn view(&self) -> OptionsModel {
        OptionsModel {
            attributes: indexed_view(self.attributes@),
            prefixes: indexed_view(self.prefixes@),
            suffixes: indexed_view(self.suffixes@),
        }
    }
}

/// Options with at most one of each kind per selector.
pub open spec fn options_wf(o: OptionsModel) -> bool {
    distinct_indices(o.attributes) && distinct_indices(o.prefixes) && distinct_indices(o.suffixes)
}

/// The options given, or none when absent.
pub open spec fn given(o: Option<Vec<String>>) -> Seq<Seq<char>> {
    match o {
        Some(v) => strings_view(v@),
        None => Seq::empty(),
    }
}

/// Checking and reading the options of a scrape: as many keys as
/// selectors, then the attributes, the prefixes and the suffixes in turn,
/// each read up to its first fault.
pub open spec fn prepared_options(
    n_selectors: nat,
    n_keys: nat,
    attributes: Seq<Seq<char>>,
    prefixes: Seq<Seq<char>>,
    suffixes: Seq<Seq<char>>,
) -> Result<OptionsModel, OptionError> {
    if n_keys != n_selectors {
        Err(OptionError::KeyCount)
    } else {
        match read_options(OptionKind::Attribute, attributes) {
            Err(e) => Err(e),
            Ok(a) => match read_options(OptionKind::Prefix, prefixes) {
                Err(e) => Err(e),
                Ok(p) => match read_options(OptionKind::Suffix, suffixes) {
                    Err(e) => Err(e),
                    Ok(s) => Ok(OptionsModel { attributes: a, prefixes: p, suffixes: s }),
                },
            },
        }
    }
}

/// The options are read only when there are as many keys as selectors, and
/// refused for the key count whenever there are not.
pub proof fn lemma_key_count(
    n_selectors: nat,
    n_keys: nat,
    attributes: Seq<Seq<char>>,
    prefixes: Seq<Seq<char>>,
    suffixes: Seq<Seq<char>>,
)
    ensures
        prepared_options(n_selectors, n_keys, attributes, prefixes, suffixes) is Ok ==> n_keys
            == n_selectors,
        n_keys != n_selectors ==> prepared_options(n_selectors, n_keys, attributes, prefixes, suffixes)
            == Err::<OptionsModel, OptionError>(OptionError::KeyCount),
{
}

fn read_given(kind: OptionKind, o: &Option<Vec<String>>) -> (r: Result<Vec<IndexedValue>, OptionError>)
    ensures
        match r {
            Ok(list) => read_options(kind, given(*o)) == Ok::<Seq<(usize, Seq<char>)>, OptionError>(
                indexed_view(list@),
            ),
            Err(e) => read_options(kind, given(*o)) == Err::<Seq<(usize, Seq<char>)>, OptionError>(
                e,
            ),
        },
{
    match o {
        Some(v) => read_options_of(kind, v),
        None => {
            let empty: Vec<String> = Vec::new();
            assert(strings_view(empty@) =~= Seq::<Seq<char>>::empty());
            read_options_of(kind, &empty)
        },
    }
}

/// Checks the keys and reads the per-selector options of a scrape.
pub fn prepare_options(
    selectors: &Vec<String>,
    keys: &Vec<String>,
    attributes: &Option<Vec<String>>,
    prefixes: &Option<Vec<String>>,
    suffixes: &Option<Vec<String>>,
) -> (r: Result<ScrapeOptions, OptionError>)
    ensures
        r is Ok ==> keys.len() == selectors.len(),
        keys.len() != selectors.len() ==> r == Err::<ScrapeOptions, OptionError>(
            OptionError::KeyCount,
        ),
        match r {
            Ok(o) => options_wf(o@) && prepared_options(
                selectors.len() as nat,
                keys.len() as nat,
                given(*attributes),
                given(*prefixes),
                given(*suffixes),
            ) == Ok::<OptionsModel, OptionError>(o@),
            Err(e) => prepared_options(
                selectors.len() as nat,
                keys.len() as nat,
                given(*attributes),
                given(*prefixes),
                given(*suffixes),
            ) == Err::<OptionsModel, OptionError>(e),
        },
{
    if keys.len() != selectors.len() {
        return Err(OptionError::KeyCount);
    }
    let a = match read_given(OptionKind::Attribute, attributes) {
        Ok(a) => a,
        Err(e) => return Err(e),
    };
    let p = match read_given(OptionKind::Prefix, prefixes) {
        Ok(p) => p,
        Err(e) => return Err(e),
    };
    let s = match read_given(OptionKind::Suffix, suffixes) {
        Ok(s) => s,
        Err(e) => return Err(e),
    };
    proof {
        lemma_read_options_distinct(OptionKind::Attribute, given(*attributes));
        lemma_read_options_distinct(OptionKind::Prefix, given(*prefixes));
        lemma_read_options_distinct(OptionKind::Suffix, given(*suffixes));
    }
    Ok(ScrapeOptions { attributes: a, prefixes: p, suffixes: s })
}

// ---------------------------------------------------------------------------
// Elements of a page
// ---------------------------------------------------------------------------

/// A child node of a selected element.
pub enum ChildNode {
    /// A text node.
    Text(String),
    /// An element, given by the text of all the text nodes inside it.
    Element(String),
    /// Any other node (a comment, for instance).
    Other,
}

/// What the scrape reads of a selected element: the requested attribute, if
/// the element has it, and the child nodes in order.
pub struct ElementData {
    pub attribute: Option<String>,
    pub children: Vec<ChildNode>,
}

/// The mathematical content of a [`ChildNode`].
pub enum ChildModel {
    Text(Seq<char>),
    Element(Seq<char>),
    Other,
}

/// The mathematical content of an [`ElementData`].
pub struct ElementModel {
    pub attribute: Option<Seq<char>>,
    pub children: Seq<ChildModel>,
}

impl View for ChildNode {
    type V = ChildModel;

    open spec fn view(&self) -> ChildModel {
        match self {
            ChildNode::Text(t) => ChildModel::Text(t@),
            ChildNode::Element(t) => ChildModel::Element(t@),
            ChildNode::Other => ChildModel::Other,
        }
    }
}

impl View for ElementData {
    type V = ElementModel;

    open spec fn view(&self) -> ElementModel {
        ElementModel {
            attribute: match self.attribute {
                Some(a) => Some(a@),
                None => None,
            },
            children: self.children@.map_values(|c: ChildNode| c@),
        }
    }
}

/// The views of the selected elements.
pub open spec fn elements_view(o: Option<Vec<ElementData>>) -> Option<Seq<ElementModel>> {
    match o {
        Some(v) => Some(v@.map_values(|e: ElementData| e@)),
        None => None,
    }
}

/// The view of an optional text.
pub open spec fn opt_text_view(o: Option<&str>) -> Option<Seq<char>> {
    match o {
        Some(s) => Some(s@),
        None => None,
    }
}

/// What `scraper` selects in a page: `None` when the selector does not
/// parse, else the matching elements in the order that `Html::select` walks
/// the parsed tree, each with the value of the named attribute (when one is
/// named) and its child nodes.
pub uninterp spec fn selection(
    html: Seq<char>,
    selector: Seq<char>,
    attribute: Option<Seq<char>>,
) -> Option<Seq<ElementModel>>;

/// Parses `html` as a document (`scraper::Html::parse_document`) and selects
/// the elements that `selector` matches (`scraper::Selector::parse`,
/// `Html::select`), reading each element's attribute `attribute`
/// (`Element::attr`), its text children and the text of its element
/// children (`ElementRef::text`).
///
/// The page must take at most `u32::MAX` bytes: parsing copies it into a
/// tendril, which asserts that bound.
///
/// Claimed: the result is a function of the three arguments, and no element
/// carries an attribute when none is named. Not claimed: which selectors
/// parse, how the page is parsed, or which elements match.
#[verifier::external_body]
fn select_elements(html: &str, selector: &str, attribute: Option<&str>) -> (r: Option<
    Vec<ElementData>,
>)
    requires
        utf8_len(html@) <= u32::MAX,
    ensures
        elements_view(r) == selection(html@, selector@, opt_text_view(attribute)),
        attribute is None && r is Some ==> forall|k: int|
            0 <= k < r->0.len() ==> (#[trigger] r->0[k]).attribute is None,
{
    let selector = scraper::Selector::parse(selector).ok()?;
    let document = scraper::Html::parse_document(html);
    Some(document.select(&selector).map(|e| ElementData {
        attribute: attribute.and_then(|a| e.value().attr(a)).map(String::from),
        children: e.children().map(|n| match n.value() {
            scraper::Node::Text(t) => ChildNode::Text(String::from(&**t)),
            scraper::Node::Element(_) => ChildNode::Element(
                scraper::ElementRef::wrap(n).map_or(String::new(), |c| c.text().collect()),
            ),
            _ => ChildNode::Other,
        }).collect(),
    }).collect())
}

/// The text of the child nodes: each text node trimmed and after a space,
/// each element's text as it is, other nodes left out.
pub open spec fn children_text(cs: Seq<ChildModel>) -> Seq<char>
    decreases cs.len(),
{
    if cs.len() == 0 {
        Seq::empty()
    } else {
        let prev = children_text(cs.drop_last());
        match cs.last() {
            ChildModel::Text(t) => prev + seq![' '] + trim(t),
            ChildModel::Element(t) => prev + t,
            ChildModel::Other => prev,
        }
    }
}

/// The text taken from an element: the requested attribute's value, or the
/// children's text when no attribute is requested or the value is empty;
/// then the prefix before it and the suffix after it.
pub open spec fn element_text(
    e: ElementModel,
    attribute_requested: bool,
    prefix: Option<Seq<char>>,
    suffix: Option<Seq<char>>,
) -> Seq<char> {
    let base = if attribute_requested {
        match e.attribute {
            Some(v) => v,
            None => Seq::empty(),
        }
    } else {
        Seq::empty()
    };
    let full = if base.len() == 0 {
        children_text(e.children)
    } else {
        base
    };
    let with_prefix = match prefix {
        Some(p) => p + full,
        None => full,
    };
    match suffix {
        Some(s) => with_prefix + s,
        None => with_prefix,
    }
}

/// The text of the child nodes.
fn children_text_of(cs: &Vec<ChildNode>) -> (r: Vec<char>)
    ensures
        r@ == children_text(cs@.map_values(|c: ChildNode| c@)),
{
    let ghost cv = cs@.map_values(|c: ChildNode| c@);
    let mut r: Vec<char> = Vec::new();
    for i in 0..cs.len()
        invariant
            cv == cs@.map_values(|c: ChildNode| c@),
            r@ == children_text(cv.take(i as int)),
    {
        proof {
            assert(cv.take(i + 1).drop_last() =~= cv.take(i as int));
            assert(cv.take(i + 1).last() == cs[i as int]@);
        }
        match &cs[i] {
            ChildNode::Text(t) => {
                r.push(' ');
                let c = chars_of(t.as_str());
                let tt = trim_chars(&c);
                append_chars(&mut r, &tt);
            },
            ChildNode::Element(t) => {
                let c = chars_of(t.as_str());
                append_chars(&mut r, &c);
            },
            ChildNode::Other => {},
        }
    }
    assert(cv.take(cs.len() as int) =~= cv);
    r
}

/// The text taken from one selected element.
pub fn element_text_of(
    e: &ElementData,
    attribute_requested: bool,
    prefix: &Option<String>,
    suffix: &Option<String>,
) -> (r: String)
    ensures
        r@ == element_text(
            e@,
            attribute_requested,
            crate::scrape::opt_string_view(*prefix),
            crate::scrape::opt_string_view(*suffix),
        ),
{
    let mut full: Vec<char> = Vec::new();
    if attribute_requested {
        if let Some(v) = &e.attribute {
            full = chars_of(v.as_str());
        }
    }
    if full.len() == 0 {
        full = children_text_of(&e.children);
    }
    let mut out: Vec<char> = match prefix {
        Some(p) => chars_of(p.as_str()),
        None => Vec::new(),
    };
    append_chars(&mut out, &full);
    let ghost with_prefix = out@;
    proof {
        if prefix.is_none() {
            assert(out@ =~= full@);
        }
    }
    if let Some(s) = suffix {
        let sc = chars_of(s.as_str());
        append_chars(&mut out, &sc);
    }
    string_of(out.as_slice())
}

// ---------------------------------------------------------------------------
// Contents of the selectors
// ---------------------------------------------------------------------------

/// Why the contents of a page cannot be taken.
#[derive(Debug, Clone, Copy, PartialEq, Eq, Structural)]
pub enum ExtractError {
    /// The selector at this position does not parse.
    InvalidSelector(usize),
    /// The selector at this position selects nothing.
    NoElements(usize),
    /// An element selected by the selector at this position lacks the
    /// attribute requested for it.
    MissingAttribute(usize),
}

/// The texts of the elements a selector selected, or the fault.
pub open spec fn selector_texts(els: Seq<ElementModel>, o: OptionsModel, i: usize) -> Result<
    Seq<Seq<char>>,
    ExtractError,
> {
    let requested = option_for(o.attributes, i) is Some;
    if requested && exists|k: int| 0 <= k < els.len() && (#[trigger] els[k]).attribute is None {
        Err(ExtractError::MissingAttribute(i))
    } else {
        Ok(
            els.map_values(
                |e: ElementModel|
                    element_text(e, requested, option_for(o.prefixes, i), option_for(o.suffixes, i)),
            ),
        )
    }
}

/// What the selector at position `i` yields, given what it selected: a fault
/// when it does not parse or selects nothing, else the texts of its
/// elements.
pub open spec fn selector_outcome(
    selected: Option<Seq<ElementModel>>,
    o: OptionsModel,
    i: usize,
) -> Result<Seq<Seq<char>>, ExtractError> {
    match selected {
        None => Err(ExtractError::InvalidSelector(i)),
        Some(els) => if els.len() == 0 {
            Err(ExtractError::NoElements(i))
        } else {
            selector_texts(els, o, i)
        },
    }
}

/// The texts of the first `n` selectors, one sequence per selector, or the
/// fault of the first selector that fails.
pub open spec fn contents_upto(
    html: Seq<char>,
    selectors: Seq<Seq<char>>,
    o: OptionsModel,
    n: nat,
) -> Result<Seq<Seq<Seq<char>>>, ExtractError>
    decreases n,
{
    if n == 0 {
        Ok(Seq::empty())
    } else {
        let i = (n - 1) as nat;
        match contents_upto(html, selectors, o, i) {
            Err(e) => Err(e),
            Ok(acc) => match selector_outcome(
                selection(html, selectors[i as int], option_for(o.attributes, i as usize)),
                o,
                i as usize,
            ) {
                Err(e) => Err(e),
                Ok(ts) => Ok(acc.push(ts)),
            },
        }
    }
}

/// The texts of all the selectors.
pub open spec fn page_contents(html: Seq<char>, selectors: Seq<Seq<char>>, o: OptionsModel) -> Result<
    Seq<Seq<Seq<char>>>,
    ExtractError,
> {
    contents_upto(html, selectors, o, selectors.len())
}

/// The views of a vector of vectors of strings.
pub open spec fn nested_view(v: Seq<Vec<String>>) -> Seq<Seq<Seq<char>>> {
    v.map_values(|x: Vec<String>| strings_view(x@))
}

proof fn lemma_contents_fault_stays(
    html: Seq<char>,
    selectors: Seq<Seq<char>>,
    o: OptionsModel,
    i: nat,
    n: nat,
)
    requires
        i <= n,
        contents_upto(html, selectors, o, i) is Err,
    ensures
        contents_upto(html, selectors, o, n) == contents_upto(html, selectors, o, i),
    decreases n - i,
{
    if i < n {
        lemma_contents_fault_stays(html, selectors, o, i, (n - 1) as nat);
    }
}

/// The texts of one selector's elements, or `None` when an attribute is
/// requested and some element lacks it.
pub fn selector_texts_of(
    els: &Vec<ElementData>,
    requested: bool,
    prefix: &Option<String>,
    suffix: &Option<String>,
) -> (r: Option<Vec<String>>)
    ensures
        ({
            let ev = els@.map_values(|e: ElementData| e@);
            match r {
                None => requested && exists|k: int|
                    0 <= k < ev.len() && (#[trigger] ev[k]).attribute is None,
                Some(ts) => !(requested && exists|k: int|
                    0 <= k < ev.len() && (#[trigger] ev[k]).attribute is None) && strings_view(ts@)
                    == ev.map_values(
                    |e: ElementModel|
                        element_text(
                            e,
                            requested,
                            crate::scrape::opt_string_view(*prefix),
                            crate::scrape::opt_string_view(*suffix),
                        ),
                ),
            }
        }),
{
    let ghost ev = els@.map_values(|e: ElementData| e@);
    let mut ts: Vec<String> = Vec::new();
    for k in 0..els.len()
        invariant
            ev == els@.map_values(|e: ElementData| e@),
            requested ==> forall|j: int| 0 <= j < k ==> (#[trigger] ev[j]).attribute is Some,
            ts.len() == k,
            forall|j: int|
                0 <= j < k ==> #[trigger] ts[j]@ == element_text(
                    ev[j],
                    requested,
                    crate::scrape::opt_string_view(*prefix),
                    crate::scrape::opt_string_view(*suffix),
                ),
    {
        if requested && els[k].attribute.is_none() {
            assert(ev[k as int].attribute is None);
            return None;
        }
        ts.push(element_text_of(&els[k], requested, prefix, suffix));
    }
    assert(strings_view(ts@) =~= ev.map_values(
        |e: ElementModel|
            element_text(
                e,
                requested,
                crate::scrape::opt_string_view(*prefix),
                crate::scrape::opt_string_view(*suffix),
            ),
    ));
    Some(ts)
}

/// What the selector at position `i` yields, given what it selected (as
/// the page lookup gives it): its texts, or the fault.
pub fn selection_texts(selected: Option<Vec<ElementData>>, i: usize, opts: &ScrapeOptions) -> (r:
    Result<Vec<String>, ExtractError>)
    requires
        options_wf(opts@),
    ensures
        match r {
            Ok(ts) => selector_outcome(elements_view(selected), opts@, i) == Ok::<
                Seq<Seq<char>>,
                ExtractError,
            >(strings_view(ts@)),
            Err(e) => selector_outcome(elements_view(selected), opts@, i) == Err::<
                Seq<Seq<char>>,
                ExtractError,
            >(e),
        },
{
    let els = match selected {
        None => return Err(ExtractError::InvalidSelector(i)),
        Some(els) => els,
    };
    if els.len() == 0 {
        return Err(ExtractError::NoElements(i));
    }
    let attr = option_for_of(&opts.attributes, i);
    let prefix = option_for_of(&opts.prefixes, i);
    let suffix = option_for_of(&opts.suffixes, i);
    match selector_texts_of(&els, attr.is_some(), &prefix, &suffix) {
        None => Err(ExtractError::MissingAttribute(i)),
        Some(ts) => Ok(ts),
    }
}

/// The texts that each selector selects in the page `html`, one vector per
/// selector, or the fault of the first selector that fails. The page must
/// take at most `u32::MAX` bytes, the most that the HTML parser accepts.
pub fn extract_contents(html: &str, selectors: &Vec<String>, opts: &ScrapeOptions) -> (r: Result<
    Vec<Vec<String>>,
    ExtractError,
>)
    requires
        options_wf(opts@),
        utf8_len(html@) <= u32::MAX,
    ensures
        r matches Ok(c) ==> c.len() == selectors.len(),
        match r {
            Ok(c) => page_contents(html@, strings_view(selectors@), opts@) == Ok::<
                Seq<Seq<Seq<char>>>,
                ExtractError,
            >(nested_view(c@)),
            Err(e) => page_contents(html@, strings_view(selectors@), opts@) == Err::<
                Seq<Seq<Seq<char>>>,
                ExtractError,
            >(e),
        },
{
    let ghost sv = strings_view(selectors@);
    let mut contents: Vec<Vec<String>> = Vec::new();
    assert(nested_view(contents@) =~= Seq::<Seq<Seq<char>>>::empty());
    for i in 0..selectors.len()
        invariant
            sv == strings_view(selectors@),
            options_wf(opts@),
            utf8_len(html@) <= u32::MAX,
            contents.len() == i,
            contents_upto(html@, sv, opts@, i as nat) == Ok::<Seq<Seq<Seq<char>>>, ExtractError>(
                nested_view(contents@),
            ),
    {
        let attr = option_for_of(&opts.attributes, i);
        assert(crate::scrape::opt_string_view(attr) == option_for(opts@.attributes, i));
        let found = match &attr {
            Some(a) => select_elements(html, selectors[i].as_str(), Some(a.as_str())),
            None => select_elements(html, selectors[i].as_str(), None),
        };
        assert(sv[i as int] == selectors[i as int]@);
        match selection_texts(found, i, opts) {
            Err(e) => {
                proof {
                    lemma_contents_fault_stays(html@, sv, opts@, (i + 1) as nat, sv.len());
                }
                return Err(e);
            },
            Ok(ts) => {
                let ghost old_contents = contents@;
                contents.push(ts);
                assert(nested_view(contents@) =~= nested_view(old_contents).push(
                    strings_view(ts@),
                ));
            },
        }
    }
    Ok(contents)
}

// ---------------------------------------------------------------------------
// Rows
// ---------------------------------------------------------------------------

/// Every selector has at least as many texts as the first one.
pub open spec fn rows_complete(contents: Seq<Seq<Seq<char>>>) -> bool {
    forall|j: int| 0 <= j < contents.len() ==> (#[trigger] contents[j]).len() >= contents[0].len()
}

/// The rows of the results: row `k` holds the `k`-th text of each selector,
/// trimmed; there are as many rows as the first selector has texts.
pub open spec fn content_rows_of(contents: Seq<Seq<Seq<char>>>) -> Seq<Seq<Seq<char>>> {
    if contents.len() == 0 {
        Seq::empty()
    } else {
        Seq::new(
            contents[0].len(),
            |k: int| Seq::new(contents.len(), |j: int| trim(contents[j][k])),
        )
    }
}

/// Whether every selector has at least as many texts as the first one.
pub fn rows_are_complete(contents: &Vec<Vec<String>>) -> (r: bool)
    ensures
        r == rows_complete(nested_view(contents@)),
{
    if contents.len() == 0 {
        return true;
    }
    let n = contents[0].len();
    for j in 0..contents.len()
        invariant
            contents.len() > 0,
            n == contents[0].len(),
            forall|k: int| 0 <= k < j ==> (#[trigger] contents[k]).len() >= n,
    {
        if contents[j].len() < n {
            assert(nested_view(contents@)[j as int].len() < nested_view(contents@)[0].len());
            return false;
        }
    }
    assert forall|k: int| 0 <= k < contents.len() implies (
    #[trigger] nested_view(contents@)[k]).len() >= nested_view(contents@)[0].len() by {
        assert(contents[k].len() >= n);
    }
    true
}

/// Arranges the texts into rows: row `k` holds the `k`-th text of each
/// selector, trimmed.
pub fn content_rows(contents: &Vec<Vec<String>>) -> (r: Vec<Vec<String>>)
    requires
        rows_complete(nested_view(contents@)),
    ensures
        nested_view(r@) == content_rows_of(nested_view(contents@)),
{
    let ghost cv = nested_view(contents@);
    let mut rows: Vec<Vec<String>> = Vec::new();
    if contents.len() == 0 {
        assert(nested_view(rows@) =~= content_rows_of(cv));
        return rows;
    }
    let n = contents[0].len();
    for k in 0..n
        invariant
            cv == nested_view(contents@),
            contents.len() > 0,
            n == contents[0].len(),
            rows_complete(cv),
            rows.len() == k,
            forall|a: int|
                0 <= a < k ==> #[trigger] strings_view(rows[a]@) == Seq::new(
                    contents.len() as nat,
                    |j: int| trim(cv[j][a]),
                ),
    {
        let mut row: Vec<String> = Vec::new();
        for j in 0..contents.len()
            invariant
                cv == nested_view(contents@),
                contents.len() > 0,
                n == contents[0].len(),
                k < n,
                rows_complete(cv),
                row.len() == j,
                forall|b: int| 0 <= b < j ==> #[trigger] row[b]@ == trim(cv[b][k as int]),
        {
            assert(cv[j as int].len() >= cv[0].len());
            assert(cv[j as int] == strings_view(contents[j as int]@));
            let c = chars_of(contents[j][k].as_str());
            let t = trim_chars(&c);
            row.push(string_of(t.as_slice()));
        }
        assert(strings_view(row@) =~= Seq::new(contents.len() as nat, |j: int| trim(cv[j][k as int])));
        rows.push(row);
    }
    assert(nested_view(rows@) =~= content_rows_of(cv));
    rows
}

/// The contents of the first `n` selectors that were read hold, at each
/// position, what that selector yields.
proof fn lemma_contents_upto_shape(html: Seq<char>, selectors: Seq<Seq<char>>, o: OptionsModel, n: nat)
    requires
        contents_upto(html, selectors, o, n) is Ok,
    ensures
        contents_upto(html, selectors, o, n)->Ok_0.len() == n,
        forall|j: int|
            0 <= j < n ==> selector_outcome(
                selection(html, selectors[j], option_for(o.attributes, j as usize)),
                o,
                j as usize,
            ) == Ok::<Seq<Seq<char>>, ExtractError>(
                #[trigger] contents_upto(html, selectors, o, n)->Ok_0[j],
            ),
    decreases n,
{
    if n > 0 {
        let i = (n - 1) as nat;
        lemma_contents_upto_shape(html, selectors, o, i);
    }
}

/// Row `i` of a page's results holds, in column `j`, the text taken from
/// the `i`-th element that selector `j` selects (its attribute's value if
/// one is requested and not empty, else its children's text; the
/// selector's prefix before it and suffix after it), trimmed; there is one
/// row per element of the first selector and one column per selector.
pub proof fn lemma_row_values(
    html: Seq<char>,
    selectors: Seq<Seq<char>>,
    o: OptionsModel,
    c: Seq<Seq<Seq<char>>>,
    i: int,
    j: int,
)
    requires
        page_contents(html, selectors, o) == Ok::<Seq<Seq<Seq<char>>>, ExtractError>(c),
        rows_complete(c),
        0 <= j < selectors.len(),
        0 <= i < c[0].len(),
    ensures
        content_rows_of(c).len() == c[0].len(),
        content_rows_of(c)[i].len() == selectors.len(),
        selection(html, selectors[j], option_for(o.attributes, j as usize)) matches Some(els) && i
            < els.len() && content_rows_of(c)[i][j] == trim(
            element_text(
                els[i],
                option_for(o.attributes, j as usize) is Some,
                option_for(o.prefixes, j as usize),
                option_for(o.suffixes, j as usize),
            ),
        ),
{
    lemma_contents_upto_shape(html, selectors, o, selectors.len());
    assert(c.len() == selectors.len());
    assert(c[j].len() >= c[0].len());
    let sel = selection(html, selectors[j], option_for(o.attributes, j as usize));
    assert(selector_outcome(sel, o, j as usize) == Ok::<Seq<Seq<char>>, ExtractError>(c[j]));
    let els = sel.unwrap();
    assert(c[j] == els.map_values(
        |e: ElementModel|
            element_text(
                e,
                option_for(o.attributes, j as usize) is Some,
                option_for(o.prefixes, j as usize),
                option_for(o.suffixes, j as usize),
            ),
    ));
}

/// The records that an export of a page's results writes: the keys first,
/// then one record per element of the first selector, whose value in
/// column `j` is the trimmed text taken from the matching element of
/// selector `j` (its requested attribute's value when that is not empty,
/// else its children's text; the prefix before it, the suffix after it).
pub proof fn lemma_export_records(
    html: Seq<char>,
    selectors: Seq<Seq<char>>,
    keys: Seq<Seq<char>>,
    o: OptionsModel,
    c: Seq<Seq<Seq<char>>>,
)
    requires
        page_contents(html, selectors, o) == Ok::<Seq<Seq<Seq<char>>>, ExtractError>(c),
        rows_complete(c),
        selectors.len() > 0,
    ensures
        ({
            let records = seq![keys] + content_rows_of(c);
            &&& records.len() == c[0].len() + 1
            &&& records[0] == keys
            &&& forall|i: int, j: int|
                0 <= i < c[0].len() && 0 <= j < selectors.len() ==> (#[trigger] records[i + 1][j])
                    == trim(
                    element_text(
                        selection(html, selectors[j], option_for(o.attributes, j as usize))->0[i],
                        option_for(o.attributes, j as usize) is Some,
                        option_for(o.prefixes, j as usize),
                        option_for(o.suffixes, j as usize),
                    ),
                ) && records[i + 1].len() == selectors.len()
        }),
{
    let records = seq![keys] + content_rows_of(c);
    lemma_contents_upto_shape(html, selectors, o, selectors.len());
    assert(c.len() == selectors.len());
    assert forall|i: int, j: int|
        0 <= i < c[0].len() && 0 <= j < selectors.len() implies (#[trigger] records[i + 1][j])
            == trim(
            element_text(
                selection(html, selectors[j], option_for(o.attributes, j as usize))->0[i],
                option_for(o.attributes, j as usize) is Some,
                option_for(o.prefixes, j as usize),
                option_for(o.suffixes, j as usize),
            ),
        ) && records[i + 1].len() == selectors.len() by {
        lemma_row_values(html, selectors, o, c, i, j);
        assert(records[i + 1] == content_rows_of(c)[i]);
    }
}

// ---------------------------------------------------------------------------
// The command that was never finished
// ---------------------------------------------------------------------------

/// Inspecting a page: the command takes a url, a filter and a search text,
/// and does nothing with them.
pub fn inspect(url: String, filter: Option<String>, search: Option<String>) {
}

} // verus!
