//! A saved scrape and the line of the store file that holds it.
//!
//! A saved scrape is one line of ten fields separated by `;`:
//! name, url, selectors, keys, attributes, prefixes, suffixes, title,
//! presentation and export file. The four lists are written as `Debug`
//! writes a vector of strings, `["a", "b"]`.
use vstd::prelude::*;

use crate::presentation::{
    is_presentation_text, presentation_chars, presentation_text, Presentation,
};
use crate::text::{
    append_chars, chars_of, debug_quote, debug_str, has_char, is_ascii_char, is_plain,
    is_plain_char, join, join_chars, lemma_chars_deep_view, lemma_has_char_concat,
    lemma_join_lacks_char, lemma_remove_char_absent, lemma_remove_char_concat, lemma_split_join,
    lemma_split_pair_join, lemma_trim_unchanged, lemma_utf8_len_at_least_len, no_pair,
    remove_char, remove_char_chars, split_chars, split_chars_pair, split_on, split_on_pair,
    string_of, strings_view, sub_chars, trim, trim_chars, utf8_len, utf8_len_exceeds_two,
};

verus! {

/// A scrape: where to fetch, what to select, and how to show the results.
#[derive(Debug)]
pub struct Scrape {
    pub name: String,
    pub url: String,
    pub selectors: Vec<String>,
    pub keys: Vec<String>,
    pub attributes: Option<Vec<String>>,
    pub prefixes: Option<Vec<String>>,
    pub suffixes: Option<Vec<String>>,
    pub title: Option<String>,
    pub presentation: Option<Presentation>,
    pub export: Option<String>,
}

/// A named group of scrapes that run together.
pub struct CombinedScrape {
    pub name: String,
    pub scrapes: Vec<Scrape>,
}

/// The mathematical content of a [`Scrape`].
pub struct ScrapeModel {
    pub name: Seq<char>,
    pub url: Seq<char>,
    pub selectors: Seq<Seq<char>>,
    pub keys: Seq<Seq<char>>,
    pub attributes: Option<Seq<Seq<char>>>,
    pub prefixes: Option<Seq<Seq<char>>>,
    pub suffixes: Option<Seq<Seq<char>>>,
    pub title: Option<Seq<char>>,
    pub presentation: Option<Presentation>,
    pub export: Option<Seq<char>>,
}

/// The view of an optional list of strings.
pub open spec fn opt_strings_view(o: Option<Vec<String>>) -> Option<Seq<Seq<char>>> {
    match o {
        Some(v) => Some(strings_view(v@)),
        None => None,
    }
}

/// The view of an optional string.
pub open spec fn opt_string_view(o: Option<String>) -> Option<Seq<char>> {
    match o {
        Some(s) => Some(s@),
        None => None,
    }
}

impl View for Scrape {
    type V = ScrapeModel;

    open spec fn view(&self) -> ScrapeModel {
        ScrapeModel {
            name: self.name@,
            url: self.url@,
            selectors: strings_view(self.selectors@),
            keys: strings_view(self.keys@),
            attributes: opt_strings_view(self.attributes),
            prefixes: opt_strings_view(self.prefixes),
            suffixes: opt_strings_view(self.suffixes),
            title: opt_string_view(self.title),
            presentation: self.presentation,
            export: opt_string_view(self.export),
        }
    }
}

// ---------------------------------------------------------------------------
// Reading a line
// ---------------------------------------------------------------------------

/// A list field can be unwrapped: at least two characters, the first and the
/// last of them ASCII (so that cutting one byte at each end is well defined).
pub open spec fn bracketed(f: Seq<char>) -> bool {
    f.len() >= 2 && is_ascii_char(f[0]) && is_ascii_char(f.last())
}

/// The items of a list field: the text inside the outer brackets, split at
/// `, `, each piece trimmed and stripped of double quotes.
pub open spec fn list_items(f: Seq<char>) -> Seq<Seq<char>> {
    split_on_pair(f.subrange(1, f.len() - 1), ',', ' ').map_values(
        |p: Seq<char>| remove_char(trim(p), '"'),
    )
}

/// An optional list field: present when it takes more than two bytes.
pub open spec fn optional_list(f: Seq<char>) -> Option<Seq<Seq<char>>> {
    if utf8_len(f) > 2 {
        Some(list_items(f))
    } else {
        None
    }
}

/// An optional text field: its trimmed text, when that is not empty.
pub open spec fn optional_text(f: Seq<char>) -> Option<Seq<char>> {
    if trim(f).len() > 0 {
        Some(trim(f))
    } else {
        None
    }
}

/// The presentation field: absent when empty, a table when it reads `table`
/// once trimmed, a list otherwise.
pub open spec fn presentation_field(f: Seq<char>) -> Option<Presentation> {
    if f.len() > 0 {
        if trim(f) == presentation_text(Presentation::Table) {
            Some(Presentation::Table)
        } else {
            Some(Presentation::List)
        }
    } else {
        None
    }
}

/// A line can be read as a scrape: ten fields or more, the selector and key
/// lists bracketed, and each optional list bracketed where it is read.
pub open spec fn scrape_line_ok(line: Seq<char>) -> bool {
    let d = split_on(line, ';');
    &&& d.len() >= 10
    &&& bracketed(d[2])
    &&& bracketed(d[3])
    &&& (utf8_len(d[4]) > 2 ==> bracketed(d[4]))
    &&& (utf8_len(d[5]) > 2 ==> bracketed(d[5]))
    &&& (utf8_len(d[6]) > 2 ==> bracketed(d[6]))
}

/// The scrape that a line holds.
pub open spec fn scrape_of_line(line: Seq<char>) -> ScrapeModel {
    let d = split_on(line, ';');
    ScrapeModel {
        name: d[0],
        url: d[1],
        selectors: list_items(d[2]),
        keys: list_items(d[3]),
        attributes: optional_list(d[4]),
        prefixes: optional_list(d[5]),
        suffixes: optional_list(d[6]),
        title: optional_text(d[7]),
        presentation: presentation_field(d[8]),
        export: optional_text(d[9]),
    }
}

/// The view of one piece of a split is the piece.
pub proof fn lemma_piece_view(v: &Vec<Vec<char>>, i: int)
    requires
        0 <= i < v.len(),
    ensures
        v.deep_view()[i] == v[i]@,
{
    lemma_chars_deep_view(v[i]);
}

/// The items of a list field.
pub fn list_items_of(f: &Vec<char>) -> (r: Vec<String>)
    requires
        bracketed(f@),
    ensures
        strings_view(r@) == list_items(f@),
{
    let inner = sub_chars(f, 1, f.len() - 1);
    let pieces = split_chars_pair(&inner, ',', ' ');
    let mut r: Vec<String> = Vec::new();
    for i in 0..pieces.len()
        invariant
            pieces.deep_view() == split_on_pair(inner@, ',', ' '),
            inner@ == f@.subrange(1, f@.len() - 1),
            r.len() == i,
            forall|j: int| 0 <= j < i ==> #[trigger] r[j]@ == remove_char(trim(pieces[j]@), '"'),
    {
        let t = trim_chars(&pieces[i]);
        let u = remove_char_chars(&t, '"');
        r.push(string_of(u.as_slice()));
    }
    proof {
        assert forall|j: int| 0 <= j < pieces.len() implies #[trigger] pieces.deep_view()[j]
            == pieces[j]@ by {
            lemma_piece_view(&pieces, j);
        }
        assert(strings_view(r@) =~= list_items(f@));
    }
    r
}

/// The optional list held by a field.
pub fn optional_list_of(f: &Vec<char>) -> (r: Option<Vec<String>>)
    requires
        utf8_len(f@) > 2 ==> bracketed(f@),
    ensures
        opt_strings_view(r) == optional_list(f@),
{
    if utf8_len_exceeds_two(f) {
        Some(list_items_of(f))
    } else {
        None
    }
}

/// The optional text held by a field.
pub fn optional_text_of(f: &Vec<char>) -> (r: Option<String>)
    ensures
        opt_string_view(r) == optional_text(f@),
{
    let t = trim_chars(f);
    if t.len() > 0 {
        Some(string_of(t.as_slice()))
    } else {
        None
    }
}

/// The presentation held by a field.
pub fn presentation_of(f: &Vec<char>) -> (r: Option<Presentation>)
    ensures
        r == presentation_field(f@),
{
    if f.len() > 0 {
        let t = trim_chars(f);
        if is_presentation_text(&t, Presentation::Table) {
            Some(Presentation::Table)
        } else {
            Some(Presentation::List)
        }
    } else {
        None
    }
}

/// Whether a field is bracketed.
fn is_bracketed(f: &Vec<char>) -> (r: bool)
    ensures
        r == bracketed(f@),
{
    f.len() >= 2 && (f[0] as u32) < 0x80 && (f[f.len() - 1] as u32) < 0x80
}

/// Whether an optional list field can be read.
fn optional_list_ok(f: &Vec<char>) -> (r: bool)
    ensures
        r == (utf8_len(f@) > 2 ==> bracketed(f@)),
{
    !utf8_len_exceeds_two(f) || is_bracketed(f)
}

/// Whether a store line, given as characters, can be read as a scrape.
pub fn scrape_line_is_ok(line: &Vec<char>) -> (r: bool)
    ensures
        r == scrape_line_ok(line@),
{
    let d = split_chars(line, ';');
    proof {
        assert forall|j: int| 0 <= j < d.len() implies #[trigger] d.deep_view()[j] == d[j]@ by {
            lemma_piece_view(&d, j);
        }
    }
    d.len() >= 10 && is_bracketed(&d[2]) && is_bracketed(&d[3]) && optional_list_ok(&d[4])
        && optional_list_ok(&d[5]) && optional_list_ok(&d[6])
}

/// Reads the scrape that a store line holds.
pub fn get_scrape_from_str(data_str: &str) -> (r: Scrape)
    requires
        scrape_line_ok(data_str@),
    ensures
        r@ == scrape_of_line(data_str@),
{
    let line = chars_of(data_str);
    scrape_from_chars(&line)
}

/// Reads the scrape that a store line, given as characters, holds.
pub fn scrape_from_chars(line: &Vec<char>) -> (r: Scrape)
    requires
        scrape_line_ok(line@),
    ensures
        r@ == scrape_of_line(line@),
{
    let data = split_chars(line, ';');
    proof {
        assert forall|j: int| 0 <= j < data.len() implies #[trigger] data.deep_view()[j]
            == data[j]@ by {
            lemma_piece_view(&data, j);
        }
    }
    let name = string_of(data[0].as_slice());
    let url = string_of(data[1].as_slice());
    let selectors = list_items_of(&data[2]);
    let keys = list_items_of(&data[3]);
    let attributes = optional_list_of(&data[4]);
    let prefixes = optional_list_of(&data[5]);
    let suffixes = optional_list_of(&data[6]);
    let title = optional_text_of(&data[7]);
    let presentation = presentation_of(&data[8]);
    let export = optional_text_of(&data[9]);
    let r = Scrape {
        name,
        url,
        selectors,
        keys,
        attributes,
        prefixes,
        suffixes,
        title,
        presentation,
        export,
    };
    r
}

// ---------------------------------------------------------------------------
// Writing a line
// ---------------------------------------------------------------------------

/// A list of strings as `Debug` writes it: `["a", "b"]`.
pub open spec fn debug_list(v: Seq<Seq<char>>) -> Seq<char> {
    seq!['['] + join(v.map_values(|e: Seq<char>| debug_str(e)), seq![',', ' ']) + seq![']']
}

/// An optional list as the store writes it: an absent list is written empty.
pub open spec fn list_or_empty(o: Option<Seq<Seq<char>>>) -> Seq<Seq<char>> {
    match o {
        Some(v) => v,
        None => Seq::empty(),
    }
}

/// An optional text as the store writes it: an absent text is written empty.
pub open spec fn text_or_empty(o: Option<Seq<char>>) -> Seq<char> {
    match o {
        Some(t) => t,
        None => Seq::empty(),
    }
}

/// An optional presentation as the store writes it.
pub open spec fn presentation_or_empty(o: Option<Presentation>) -> Seq<char> {
    match o {
        Some(p) => presentation_text(p),
        None => Seq::empty(),
    }
}

/// The ten fields of the line that saves `s`.
pub open spec fn scrape_fields(s: ScrapeModel) -> Seq<Seq<char>> {
    seq![
        s.name,
        s.url,
        debug_list(s.selectors),
        debug_list(s.keys),
        debug_list(list_or_empty(s.attributes)),
        debug_list(list_or_empty(s.prefixes)),
        debug_list(list_or_empty(s.suffixes)),
        text_or_empty(s.title),
        presentation_or_empty(s.presentation),
        text_or_empty(s.export),
    ]
}

/// The line that saves `s`: its fields joined by `;`.
pub open spec fn scrape_line(s: ScrapeModel) -> Seq<char> {
    join(scrape_fields(s), seq![';'])
}

/// A list of strings as `Debug` writes it.
pub fn debug_list_of(v: &Vec<String>) -> (r: Vec<char>)
    ensures
        r@ == debug_list(strings_view(v@)),
        all_plain(strings_view(v@)) ==> r@ == plain_list(strings_view(v@)),
{
    let mut quoted: Vec<Vec<char>> = Vec::new();
    for i in 0..v.len()
        invariant
            quoted.len() == i,
            forall|j: int| 0 <= j < i ==> #[trigger] quoted[j]@ == debug_str(v[j]@),
            forall|j: int| 0 <= j < i ==> is_plain(v[j]@) ==> #[trigger] quoted[j]@ == quote(
                v[j]@,
            ),
    {
        let q = debug_quote(v[i].as_str());
        quoted.push(chars_of(q.as_str()));
    }
    let sep = vec![',', ' '];
    assert(sep@ =~= seq![',', ' ']);
    let body = join_chars(&quoted, &sep);
    let mut r = vec!['['];
    append_chars(&mut r, &body);
    r.push(']');
    proof {
        assert forall|j: int| 0 <= j < quoted.len() implies #[trigger] quoted.deep_view()[j]
            == quoted[j]@ by {
            lemma_piece_view(&quoted, j);
        }
        assert(quoted.deep_view() =~= strings_view(v@).map_values(|e: Seq<char>| debug_str(e)));
        assert(r@ =~= debug_list(strings_view(v@)));
        if all_plain(strings_view(v@)) {
            assert forall|j: int| 0 <= j < v.len() implies #[trigger] quoted.deep_view()[j]
                == quote(strings_view(v@)[j]) by {
                assert(is_plain(strings_view(v@)[j]));
            }
            assert(quoted.deep_view() =~= strings_view(v@).map_values(|e: Seq<char>| quote(e)));
            assert(r@ =~= plain_list(strings_view(v@)));
        }
    }
    r
}

/// An optional list as the store writes it.
fn optional_list_chars(o: &Option<Vec<String>>) -> (r: Vec<char>)
    ensures
        r@ == debug_list(list_or_empty(opt_strings_view(*o))),
        all_plain(list_or_empty(opt_strings_view(*o))) ==> r@ == plain_list(
            list_or_empty(opt_strings_view(*o)),
        ),
{
    match o {
        Some(v) => debug_list_of(v),
        None => {
            let empty: Vec<String> = Vec::new();
            let r = debug_list_of(&empty);
            proof {
                assert(strings_view(empty@) =~= Seq::<Seq<char>>::empty());
            }
            r
        },
    }
}

/// An optional text as the store writes it.
fn optional_text_chars(o: &Option<String>) -> (r: Vec<char>)
    ensures
        r@ == text_or_empty(opt_string_view(*o)),
{
    match o {
        Some(t) => chars_of(t.as_str()),
        None => Vec::new(),
    }
}

/// The line that saves `scrape` in the store (without the line break).
///
/// Reading the line back gives the scrape, whenever the scrape is storable.
pub fn scrape_line_of(scrape: &Scrape) -> (r: String)
    ensures
        r@ == scrape_line(scrape@),
        storable(scrape@) ==> r@ == plain_scrape_line(scrape@),
        storable(scrape@) ==> scrape_line_ok(r@) && scrape_of_line(r@) == scrape@,
{
    let mut fields: Vec<Vec<char>> = Vec::new();
    fields.push(chars_of(scrape.name.as_str()));
    fields.push(chars_of(scrape.url.as_str()));
    fields.push(debug_list_of(&scrape.selectors));
    fields.push(debug_list_of(&scrape.keys));
    fields.push(optional_list_chars(&scrape.attributes));
    fields.push(optional_list_chars(&scrape.prefixes));
    fields.push(optional_list_chars(&scrape.suffixes));
    fields.push(optional_text_chars(&scrape.title));
    let p = match scrape.presentation {
        Some(p) => presentation_chars(p),
        None => Vec::new(),
    };
    fields.push(p);
    fields.push(optional_text_chars(&scrape.export));
    proof {
        assert forall|j: int| 0 <= j < fields.len() implies #[trigger] fields.deep_view()[j]
            == fields[j]@ by {
            lemma_piece_view(&fields, j);
        }
        assert(fields.deep_view() =~= scrape_fields(scrape@));
        if storable(scrape@) {
            let m = scrape@;
            assert(all_plain(m.selectors));
            assert(all_plain(m.keys));
            assert(all_plain(list_or_empty(m.attributes)));
            assert(all_plain(list_or_empty(m.prefixes)));
            assert(all_plain(list_or_empty(m.suffixes)));
            assert(fields.deep_view() =~= plain_fields(scrape@));
            lemma_plain_line_roundtrip(scrape@);
        }
    }
    let sep = vec![';'];
    assert(sep@ =~= seq![';']);
    let line = join_chars(&fields, &sep);
    string_of(line.as_slice())
}

// ---------------------------------------------------------------------------
// Reading back what was written
// ---------------------------------------------------------------------------

/// A text between double quotes.
pub open spec fn quote(e: Seq<char>) -> Seq<char> {
    seq!['"'] + e + seq!['"']
}

/// A list of plain strings as `Debug` writes it: each quoted, `, ` between.
pub open spec fn plain_list(v: Seq<Seq<char>>) -> Seq<char> {
    seq!['['] + join(v.map_values(|e: Seq<char>| quote(e)), seq![',', ' ']) + seq![']']
}

/// The fields of the line for `s` when every list item is plain.
pub open spec fn plain_fields(s: ScrapeModel) -> Seq<Seq<char>> {
    seq![
        s.name,
        s.url,
        plain_list(s.selectors),
        plain_list(s.keys),
        plain_list(list_or_empty(s.attributes)),
        plain_list(list_or_empty(s.prefixes)),
        plain_list(list_or_empty(s.suffixes)),
        text_or_empty(s.title),
        presentation_or_empty(s.presentation),
        text_or_empty(s.export),
    ]
}

/// The line for `s` when every list item is plain.
pub open spec fn plain_scrape_line(s: ScrapeModel) -> Seq<char> {
    join(plain_fields(s), seq![';'])
}

/// A text field that a line keeps: no `;`.
pub open spec fn storable_text(t: Seq<char>) -> bool {
    !has_char(t, ';')
}

/// A list item that a line keeps: plain, no `;`, no `, `.
pub open spec fn storable_item(e: Seq<char>) -> bool {
    is_plain(e) && !has_char(e, ';') && no_pair(e, ',', ' ')
}

/// A list that a line keeps: at least one item, each storable.
pub open spec fn storable_list(v: Seq<Seq<char>>) -> bool {
    v.len() >= 1 && forall|i: int| 0 <= i < v.len() ==> storable_item(#[trigger] v[i])
}

/// An optional list that a line keeps.
pub open spec fn storable_optional_list(o: Option<Seq<Seq<char>>>) -> bool {
    match o {
        Some(v) => storable_list(v),
        None => true,
    }
}

/// An optional text that a line keeps: when present, not empty, already
/// trimmed and without `;`.
pub open spec fn storable_optional_text(o: Option<Seq<char>>) -> bool {
    match o {
        Some(t) => t.len() > 0 && trim(t) == t && storable_text(t),
        None => true,
    }
}

/// A scrape that its store line gives back unchanged.
pub open spec fn storable(s: ScrapeModel) -> bool {
    &&& storable_text(s.name)
    &&& storable_text(s.url)
    &&& storable_list(s.selectors)
    &&& storable_list(s.keys)
    &&& storable_optional_list(s.attributes)
    &&& storable_optional_list(s.prefixes)
    &&& storable_optional_list(s.suffixes)
    &&& storable_optional_text(s.title)
    &&& storable_optional_text(s.export)
}

/// Every item of the list is plain.
pub open spec fn all_plain(v: Seq<Seq<char>>) -> bool {
    forall|i: int| 0 <= i < v.len() ==> is_plain(#[trigger] v[i])
}

/// A storable item, quoted, holds no `;` and no `, `, and unquotes back.
pub proof fn lemma_quote_facts(e: Seq<char>)
    requires
        storable_item(e),
    ensures
        !has_char(quote(e), ';'),
        no_pair(quote(e), ',', ' '),
        remove_char(trim(quote(e)), '"') == e,
{
    let q = quote(e);
    lemma_has_char_concat(seq!['"'], e, ';');
    lemma_has_char_concat(seq!['"'] + e, seq!['"'], ';');
    assert(!has_char(seq!['"'], ';'));
    assert forall|i: int| 0 <= i < q.len() - 1 implies !(#[trigger] q[i] == ',' && q[i + 1]
        == ' ') by {
        if i == 0 {
            assert(q[0] == '"');
        } else if i < e.len() {
            assert(q[i] == e[i - 1] && q[i + 1] == e[i]);
        } else {
            assert(q[i + 1] == '"');
        }
    }
    lemma_trim_unchanged(q);
    assert(!has_char(e, '"')) by {
        if has_char(e, '"') {
            let j = choose|j: int| 0 <= j < e.len() && e[j] == '"';
            assert(is_plain_char(e[j]));
        }
    }
    lemma_remove_char_concat(seq!['"'], e, '"');
    lemma_remove_char_concat(seq!['"'] + e, seq!['"'], '"');
    lemma_remove_char_absent(e, '"');
    let q1 = seq!['"'];
    assert(q1.len() == 1 && q1.last() == '"');
    assert(q1.drop_last() =~= Seq::<char>::empty());
    assert(remove_char(q1.drop_last(), '"') =~= Seq::<char>::empty());
    assert(remove_char(q1, '"') =~= Seq::<char>::empty());
    assert(remove_char(seq!['"'], '"') + remove_char(e, '"') + remove_char(seq!['"'], '"')
        =~= e);
}

/// The list written for storable items holds no `;`, can be unwrapped,
/// and reads back as the items.
pub proof fn lemma_plain_list_facts(v: Seq<Seq<char>>)
    requires
        storable_list(v),
    ensures
        !has_char(plain_list(v), ';'),
        bracketed(plain_list(v)),
        utf8_len(plain_list(v)) > 2,
        list_items(plain_list(v)) == v,
{
    let qs = v.map_values(|e: Seq<char>| quote(e));
    let body = join(qs, seq![',', ' ']);
    let l = plain_list(v);
    assert forall|i: int| 0 <= i < qs.len() implies !has_char(#[trigger] qs[i], ';') && no_pair(
        qs[i],
        ',',
        ' ',
    ) by {
        lemma_quote_facts(v[i]);
    }
    assert(!has_char(seq![',', ' '], ';'));
    lemma_join_lacks_char(qs, seq![',', ' '], ';');
    lemma_has_char_concat(seq!['['], body, ';');
    lemma_has_char_concat(seq!['['] + body, seq![']'], ';');
    assert(!has_char(seq!['['], ';'));
    assert(!has_char(seq![']'], ';'));
    lemma_split_pair_join(qs, ',', ' ');
    assert(l.subrange(1, l.len() - 1) =~= body);
    assert forall|i: int| 0 <= i < v.len() implies remove_char(trim(#[trigger] qs[i]), '"')
        == v[i] by {
        lemma_quote_facts(v[i]);
    }
    assert(list_items(l) =~= v);
    // The list has at least one quoted item, so at least four characters.
    assert(qs.len() >= 1);
    lemma_join_len_at_least_first(qs, seq![',', ' ']);
    lemma_utf8_len_at_least_len(l);
}

proof fn lemma_join_len_at_least_first(ps: Seq<Seq<char>>, sep: Seq<char>)
    requires
        ps.len() >= 1,
    ensures
        join(ps, sep).len() >= ps[0].len(),
    decreases ps.len(),
{
    if ps.len() > 1 {
        lemma_join_len_at_least_first(ps.drop_last(), sep);
    }
}

proof fn lemma_empty_list_facts()
    ensures
        !has_char(plain_list(Seq::empty()), ';'),
        bracketed(plain_list(Seq::empty())),
        optional_list(plain_list(Seq::empty())) == None::<Seq<Seq<char>>>,
{
    let l = plain_list(Seq::<Seq<char>>::empty());
    assert(l =~= seq!['[', ']']);
    assert(!has_char(l, ';')) by {
        if has_char(l, ';') {
            let j = choose|j: int| 0 <= j < l.len() && l[j] == ';';
        }
    }
    assert(l.drop_last() =~= seq!['[']);
    assert(l.drop_last().drop_last() =~= Seq::<char>::empty());
    assert(l.drop_last().last() == '[' && l.last() == ']');
    assert(('[' as u32) == 91 && (']' as u32) == 93);
    assert(utf8_len(l.drop_last().drop_last()) == 0);
    assert(utf8_len(l.drop_last()) == 1);
    assert(utf8_len(l) == 2);
}

proof fn lemma_optional_list_facts(o: Option<Seq<Seq<char>>>)
    requires
        storable_optional_list(o),
    ensures
        !has_char(plain_list(list_or_empty(o)), ';'),
        utf8_len(plain_list(list_or_empty(o))) > 2 ==> bracketed(plain_list(list_or_empty(o))),
        optional_list(plain_list(list_or_empty(o))) == o,
{
    match o {
        Some(v) => {
            lemma_plain_list_facts(v);
        },
        None => {
            lemma_empty_list_facts();
        },
    }
}

proof fn lemma_optional_text_facts(o: Option<Seq<char>>)
    requires
        storable_optional_text(o),
    ensures
        !has_char(text_or_empty(o), ';'),
        optional_text(text_or_empty(o)) == o,
{
    match o {
        Some(t) => {},
        None => {
            lemma_trim_unchanged(Seq::<char>::empty());
        },
    }
}

proof fn lemma_presentation_facts(o: Option<Presentation>)
    ensures
        !has_char(presentation_or_empty(o), ';'),
        presentation_field(presentation_or_empty(o)) == o,
{
    let t = presentation_or_empty(o);
    lemma_trim_unchanged(t);
    assert(!has_char(t, ';')) by {
        if has_char(t, ';') {
            let j = choose|j: int| 0 <= j < t.len() && t[j] == ';';
        }
    }
    assert(presentation_text(Presentation::List) != presentation_text(Presentation::Table)) by {
        assert(presentation_text(Presentation::List).len() != presentation_text(
            Presentation::Table,
        ).len());
    }
}

/// Reading the line written for a storable scrape gives the scrape back.
pub proof fn lemma_plain_line_roundtrip(s: ScrapeModel)
    requires
        storable(s),
    ensures
        scrape_line_ok(plain_scrape_line(s)),
        scrape_of_line(plain_scrape_line(s)) == s,
{
    let f = plain_fields(s);
    lemma_plain_list_facts(s.selectors);
    lemma_plain_list_facts(s.keys);
    lemma_optional_list_facts(s.attributes);
    lemma_optional_list_facts(s.prefixes);
    lemma_optional_list_facts(s.suffixes);
    lemma_optional_text_facts(s.title);
    lemma_optional_text_facts(s.export);
    lemma_presentation_facts(s.presentation);
    assert forall|i: int| 0 <= i < f.len() implies !has_char(#[trigger] f[i], ';') by {}
    lemma_split_join(f, ';');
    let r = scrape_of_line(plain_scrape_line(s));
    assert(r.selectors == s.selectors);
    assert(r == s);
}

} // verus!
