//! What the check command shows of a saved scrape: each setting on a line of
//! its own, then the full command that runs the same scrape again.
use vstd::prelude::*;

use crate::scrape::{
    debug_list, debug_list_of, lemma_piece_view, list_or_empty, presentation_or_empty, quote,
    scrape_fields, text_or_empty, Scrape, ScrapeModel,
};
use crate::presentation::presentation_chars;
use crate::text::{
    append_chars, chars_of, debug_quote, debug_str, join, join_chars, string_of, strings_view,
};

verus! {

/// The items, each between double quotes, one space between two of them.
pub open spec fn spaced_quoted(v: Seq<Seq<char>>) -> Seq<char> {
    join(v.map_values(|e: Seq<char>| quote(e)), seq![' '])
}

/// A list option of the full command: the flag and the quoted items, or
/// nothing when the list is empty.
pub open spec fn list_option(flag: Seq<char>, v: Seq<Seq<char>>) -> Seq<char> {
    if v.len() > 0 {
        flag + spaced_quoted(v)
    } else {
        Seq::empty()
    }
}

/// A text option of the full command: the flag and the quoted text, or
/// nothing when the text is empty.
pub open spec fn text_option(flag: Seq<char>, t: Seq<char>) -> Seq<char> {
    if t.len() > 0 {
        flag + quote(t)
    } else {
        Seq::empty()
    }
}

/// The line that gives the command which runs the scrape again.
pub open spec fn full_command(s: ScrapeModel) -> Seq<char> {
    "Full command: scrape --url "@ + quote(s.url) + " --selectors "@ + spaced_quoted(s.selectors)
        + " --keys "@ + spaced_quoted(s.keys) + list_option(
        " --attributes "@,
        list_or_empty(s.attributes),
    ) + list_option(" --prefixes "@, list_or_empty(s.prefixes)) + list_option(
        " --suffixes "@,
        list_or_empty(s.suffixes),
    ) + text_option(" --title "@, text_or_empty(s.title)) + text_option(
        " --present "@,
        presentation_or_empty(s.presentation),
    ) + text_option(" --export "@, text_or_empty(s.export))
}

/// The lines that show a scrape: name and url as they are, the lists and
/// the texts as `Debug` writes them (an absent one as empty), the full
/// command, and an empty line.
pub open spec fn info_lines(s: ScrapeModel) -> Seq<Seq<char>> {
    seq![
        "Name: "@ + s.name,
        "Url: "@ + s.url,
        "Selectors: "@ + debug_list(s.selectors),
        "Keys: "@ + debug_list(s.keys),
        "Attributes: "@ + debug_list(list_or_empty(s.attributes)),
        "Prefixes: "@ + debug_list(list_or_empty(s.prefixes)),
        "Suffixes: "@ + debug_list(list_or_empty(s.suffixes)),
        "Title: "@ + debug_str(text_or_empty(s.title)),
        "Present: "@ + debug_str(presentation_or_empty(s.presentation)),
        "Export: "@ + debug_str(text_or_empty(s.export)),
        full_command(s),
        Seq::empty(),
    ]
}

/// A text between double quotes.
fn quoted_of(t: &Vec<char>) -> (r: Vec<char>)
    ensures
        r@ == quote(t@),
{
    let mut q = vec!['"'];
    append_chars(&mut q, t);
    q.push('"');
    assert(q@ =~= quote(t@));
    q
}

/// The items, each quoted, one space between two of them.
fn spaced_quoted_of(v: &Vec<String>) -> (r: Vec<char>)
    ensures
        r@ == spaced_quoted(strings_view(v@)),
{
    let mut quoted: Vec<Vec<char>> = Vec::new();
    for i in 0..v.len()
        invariant
            quoted.len() == i,
            forall|j: int| 0 <= j < i ==> #[trigger] quoted[j]@ == quote(v[j]@),
    {
        let c = chars_of(v[i].as_str());
        quoted.push(quoted_of(&c));
    }
    let sep = vec![' '];
    assert(sep@ =~= seq![' ']);
    let r = join_chars(&quoted, &sep);
    proof {
        assert forall|j: int| 0 <= j < quoted.len() implies #[trigger] quoted.deep_view()[j]
            == quoted[j]@ by {
            lemma_piece_view(&quoted, j);
        }
        assert(quoted.deep_view() =~= strings_view(v@).map_values(|e: Seq<char>| quote(e)));
    }
    r
}

/// An optional list, an absent one as empty.
fn list_or_empty_of(o: &Option<Vec<String>>) -> (r: Vec<String>)
    ensures
        strings_view(r@) == list_or_empty(crate::scrape::opt_strings_view(*o)),
{
    match o {
        Some(v) => crate::text::clone_strings(v),
        None => {
            let e: Vec<String> = Vec::new();
            assert(strings_view(e@) =~= Seq::<Seq<char>>::empty());
            e
        },
    }
}

/// A list option of the full command.
fn list_option_of(flag: &str, v: &Vec<String>) -> (r: Vec<char>)
    ensures
        r@ == list_option(flag@, strings_view(v@)),
{
    if v.len() > 0 {
        let mut r = chars_of(flag);
        let items = spaced_quoted_of(v);
        append_chars(&mut r, &items);
        r
    } else {
        Vec::new()
    }
}

/// A text option of the full command.
fn text_option_of(flag: &str, t: &Vec<char>) -> (r: Vec<char>)
    ensures
        r@ == text_option(flag@, t@),
{
    if t.len() > 0 {
        let mut r = chars_of(flag);
        let q = quoted_of(t);
        append_chars(&mut r, &q);
        r
    } else {
        Vec::new()
    }
}

/// A label followed by a text.
fn labeled(label: &str, body: &Vec<char>) -> (r: String)
    ensures
        r@ == label@ + body@,
{
    let mut r = chars_of(label);
    append_chars(&mut r, body);
    string_of(r.as_slice())
}

/// A label followed by a text as `Debug` writes it.
fn labeled_debug(label: &str, body: &Vec<char>) -> (r: String)
    ensures
        r@ == label@ + debug_str(body@),
{
    let s = string_of(body.as_slice());
    let d = debug_quote(s.as_str());
    let dc = chars_of(d.as_str());
    labeled(label, &dc)
}

/// The characters of an optional text, an absent one as empty.
fn text_or_empty_of(o: &Option<String>) -> (r: Vec<char>)
    ensures
        r@ == text_or_empty(crate::scrape::opt_string_view(*o)),
{
    match o {
        Some(t) => chars_of(t.as_str()),
        None => Vec::new(),
    }
}

/// The full command that runs the scrape again.
fn full_command_of(scrape: &Scrape) -> (r: Vec<char>)
    ensures
        r@ == full_command(scrape@),
{
    let ghost s = scrape@;
    let mut r = chars_of("Full command: scrape --url ");
    let url = chars_of(scrape.url.as_str());
    append_chars(&mut r, &quoted_of(&url));
    append_chars(&mut r, &chars_of(" --selectors "));
    append_chars(&mut r, &spaced_quoted_of(&scrape.selectors));
    append_chars(&mut r, &chars_of(" --keys "));
    append_chars(&mut r, &spaced_quoted_of(&scrape.keys));
    let attributes = list_or_empty_of(&scrape.attributes);
    append_chars(&mut r, &list_option_of(" --attributes ", &attributes));
    let prefixes = list_or_empty_of(&scrape.prefixes);
    append_chars(&mut r, &list_option_of(" --prefixes ", &prefixes));
    let suffixes = list_or_empty_of(&scrape.suffixes);
    append_chars(&mut r, &list_option_of(" --suffixes ", &suffixes));
    let title = text_or_empty_of(&scrape.title);
    append_chars(&mut r, &text_option_of(" --title ", &title));
    let present = match scrape.presentation {
        Some(p) => presentation_chars(p),
        None => Vec::new(),
    };
    append_chars(&mut r, &text_option_of(" --present ", &present));
    let export = text_or_empty_of(&scrape.export);
    append_chars(&mut r, &text_option_of(" --export ", &export));
    assert(r@ =~= full_command(s));
    r
}

/// The lines that the check command prints for a saved scrape.
pub fn scrape_info_lines(scrape: &Scrape) -> (r: Vec<String>)
    requires
        scrape.selectors.len() > 0,
        scrape.keys.len() > 0,
    ensures
        strings_view(r@) == info_lines(scrape@),
{
    let mut r: Vec<String> = Vec::new();
    r.push(labeled("Name: ", &chars_of(scrape.name.as_str())));
    r.push(labeled("Url: ", &chars_of(scrape.url.as_str())));
    r.push(labeled("Selectors: ", &debug_list_of(&scrape.selectors)));
    r.push(labeled("Keys: ", &debug_list_of(&scrape.keys)));
    let attributes = list_or_empty_of(&scrape.attributes);
    r.push(labeled("Attributes: ", &debug_list_of(&attributes)));
    let prefixes = list_or_empty_of(&scrape.prefixes);
    r.push(labeled("Prefixes: ", &debug_list_of(&prefixes)));
    let suffixes = list_or_empty_of(&scrape.suffixes);
    r.push(labeled("Suffixes: ", &debug_list_of(&suffixes)));
    r.push(labeled_debug("Title: ", &text_or_empty_of(&scrape.title)));
    let present = match scrape.presentation {
        Some(p) => presentation_chars(p),
        None => Vec::new(),
    };
    r.push(labeled_debug("Present: ", &present));
    r.push(labeled_debug("Export: ", &text_or_empty_of(&scrape.export)));
    r.push(string_of(full_command_of(scrape).as_slice()));
    r.push(String::new());
    assert(strings_view(r@) =~= info_lines(scrape@));
    r
}

/// The lines that show each scrape in turn.
pub open spec fn scrapes_info(ss: Seq<ScrapeModel>) -> Seq<Seq<char>>
    decreases ss.len(),
{
    if ss.len() == 0 {
        Seq::empty()
    } else {
        scrapes_info(ss.drop_last()) + info_lines(ss.last())
    }
}

/// The lines that the check command prints for the scrapes saved under a
/// name: the lines of each scrape, in order.
pub fn scrapes_info_lines(scrapes: &Vec<Scrape>) -> (r: Vec<String>)
    requires
        forall|i: int|
            0 <= i < scrapes.len() ==> (#[trigger] scrapes[i]).selectors.len() > 0
                && scrapes[i].keys.len() > 0,
    ensures
        strings_view(r@) == scrapes_info(crate::store::scrapes_view(scrapes@)),
{
    let ghost sv = crate::store::scrapes_view(scrapes@);
    let mut r: Vec<String> = Vec::new();
    for i in 0..scrapes.len()
        invariant
            sv == crate::store::scrapes_view(scrapes@),
            forall|j: int|
                0 <= j < scrapes.len() ==> (#[trigger] scrapes[j]).selectors.len() > 0
                    && scrapes[j].keys.len() > 0,
            strings_view(r@) == scrapes_info(sv.take(i as int)),
    {
        let lines = scrape_info_lines(&scrapes[i]);
        let ghost old_r = r@;
        for k in 0..lines.len()
            invariant
                strings_view(r@) == strings_view(old_r) + strings_view(lines@).take(k as int),
        {
            let ghost before = r@;
            let c = lines[k].clone();
            r.push(c);
            assert(r@ == before.push(c));
            assert(strings_view(r@) =~= strings_view(before).push(c@));
            assert(c@ == strings_view(lines@)[k as int]);
            assert(strings_view(r@) =~= strings_view(old_r) + strings_view(lines@).take(k + 1));
        }
        proof {
            assert(strings_view(lines@).take(lines.len() as int) =~= strings_view(lines@));
            assert(sv.take(i + 1).drop_last() =~= sv.take(i as int));
            assert(sv.take(i + 1).last() == scrapes[i as int]@);
        }
    }
    assert(sv.take(scrapes.len() as int) =~= sv);
    r
}

/// The settings lines of a scrape's report show the fields of the line that
/// saves the scrape: its name and url as they are, its five lists as the
/// store writes them, and its title, presentation and export as `Debug`
/// writes the store's fields.
pub proof fn lemma_info_shows_saved_fields(s: ScrapeModel)
    ensures
        info_lines(s).len() == 12,
        info_lines(s)[0] == "Name: "@ + scrape_fields(s)[0],
        info_lines(s)[1] == "Url: "@ + scrape_fields(s)[1],
        info_lines(s)[2] == "Selectors: "@ + scrape_fields(s)[2],
        info_lines(s)[3] == "Keys: "@ + scrape_fields(s)[3],
        info_lines(s)[4] == "Attributes: "@ + scrape_fields(s)[4],
        info_lines(s)[5] == "Prefixes: "@ + scrape_fields(s)[5],
        info_lines(s)[6] == "Suffixes: "@ + scrape_fields(s)[6],
        info_lines(s)[7] == "Title: "@ + debug_str(scrape_fields(s)[7]),
        info_lines(s)[8] == "Present: "@ + debug_str(scrape_fields(s)[8]),
        info_lines(s)[9] == "Export: "@ + debug_str(scrape_fields(s)[9]),
        info_lines(s)[11].len() == 0,
{
}

} // verus!
