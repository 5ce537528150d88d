//! Looking things up in the store of saved scrapes.
//!
//! The store is text with one saved scrape per line. A plain scrape line
//! starts with the scrape's name (see [`crate::scrape`]); a combined scrape
//! line reads `combined;<name>;<list of scrape names>`.
use vstd::prelude::*;

use crate::scrape::{
    all_plain, lemma_plain_line_roundtrip, list_or_empty, plain_fields, plain_list,
    plain_scrape_line, presentation_or_empty, quote, scrape_from_chars, scrape_line_ok,
    scrape_of_line, storable, text_or_empty, Scrape, ScrapeModel,
};
use crate::text::{
    char_views, chars_eq, chars_of, has_char, is_plain_char, is_space, join,
    lemma_chars_deep_view, lemma_has_char_concat, lemma_join_lacks_char, lemma_remove_char_absent,
    lemma_remove_char_from, lemma_split_join, lemma_split_on_pieces_from,
    lemma_split_on_pieces_lack, lemma_trim_end_prefix, lemma_trim_facts, lemma_trim_unchanged,
    remove_char, remove_char_chars, split_chars, split_on, string_of, strings_view, trim,
    trim_chars, trim_end, trim_start,
};

verus! {

// ---------------------------------------------------------------------------
// Line names
// ---------------------------------------------------------------------------

/// The word that marks a combined scrape line.
pub open spec fn combined_word() -> Seq<char> {
    seq!['c', 'o', 'm', 'b', 'i', 'n', 'e', 'd']
}

/// The first field of a line.
pub open spec fn head(line: Seq<char>) -> Seq<char> {
    split_on(line, ';')[0]
}

/// Whether a line holds a combined scrape: its first field is `combined`.
pub open spec fn is_combined_line(line: Seq<char>) -> bool {
    head(line) == combined_word()
}

/// A line has a name: a combined line has a second field.
pub open spec fn name_defined(line: Seq<char>) -> bool {
    is_combined_line(line) ==> split_on(line, ';').len() >= 2
}

/// The name of the scrape that a line holds: the second field of a combined
/// line, the first field of any other.
pub open spec fn line_name(line: Seq<char>) -> Seq<char> {
    if is_combined_line(line) {
        split_on(line, ';')[1]
    } else {
        head(line)
    }
}

/// The lines of the store: its trimmed text split at line breaks.
pub open spec fn store_lines(content: Seq<char>) -> Seq<Seq<char>> {
    split_on(trim(content), '\n')
}

/// The lines of the store, each trimmed.
pub open spec fn trimmed_store_lines(content: Seq<char>) -> Seq<Seq<char>> {
    store_lines(content).map_values(|l: Seq<char>| trim(l))
}

/// Whether the characters spell `combined`.
pub fn is_combined_word(v: &Vec<char>) -> (r: bool)
    ensures
        r == (v@ == combined_word()),
{
    let w = vec!['c', 'o', 'm', 'b', 'i', 'n', 'e', 'd'];
    assert(w@ =~= combined_word());
    chars_eq(v, &w)
}

/// The fields of a line, with each field's view at hand.
pub fn fields_of(line: &Vec<char>) -> (r: Vec<Vec<char>>)
    ensures
        r.len() >= 1,
        r.len() == split_on(line@, ';').len(),
        forall|i: int| 0 <= i < r.len() ==> #[trigger] r[i]@ == split_on(line@, ';')[i],
{
    let r = split_chars(line, ';');
    proof {
        assert forall|i: int| 0 <= i < r.len() implies #[trigger] r[i]@ == split_on(
            line@,
            ';',
        )[i] by {
            lemma_chars_deep_view(r[i]);
        }
    }
    r
}

/// The name of the scrape that a line, given as characters, holds.
pub fn line_name_of(line: &Vec<char>) -> (r: Vec<char>)
    requires
        name_defined(line@),
    ensures
        r@ == line_name(line@),
{
    let parts = fields_of(line);
    if is_combined_word(&parts[0]) {
        parts[1].clone()
    } else {
        parts[0].clone()
    }
}

/// The name of the scrape that a store line holds: the second field of a
/// `combined` line, the first field of any other.
pub fn get_scrape_name(scrape: &str) -> (r: String)
    requires
        name_defined(scrape@),
    ensures
        r@ == line_name(scrape@),
{
    let line = chars_of(scrape);
    let n = line_name_of(&line);
    string_of(n.as_slice())
}

/// The lines of the store, as characters.
pub fn store_lines_of(content: &str) -> (r: Vec<Vec<char>>)
    ensures
        char_views(r@) == store_lines(content@),
        r.len() == store_lines(content@).len(),
        forall|i: int| 0 <= i < r.len() ==> #[trigger] r[i]@ == store_lines(content@)[i],
{
    let c = chars_of(content);
    let t = trim_chars(&c);
    let r = split_chars(&t, '\n');
    proof {
        assert forall|i: int| 0 <= i < r.len() implies #[trigger] r[i]@ == store_lines(
            content@,
        )[i] by {
            lemma_chars_deep_view(r[i]);
        }
        assert(char_views(r@) =~= store_lines(content@));
    }
    r
}

// ---------------------------------------------------------------------------
// All names
// ---------------------------------------------------------------------------

/// Every trimmed line of the store has a name.
pub open spec fn all_names_defined(content: Seq<char>) -> bool {
    forall|i: int|
        0 <= i < trimmed_store_lines(content).len() ==> name_defined(
            #[trigger] trimmed_store_lines(content)[i],
        )
}

/// The names of all saved scrapes, plain and combined, in store order.
pub open spec fn all_scrape_names(content: Seq<char>) -> Seq<Seq<char>> {
    trimmed_store_lines(content).map_values(|l: Seq<char>| line_name(l))
}

/// The names of all saved scrapes, in the order of the store's lines.
pub fn get_all_scrape_names(content: &str) -> (r: Vec<String>)
    requires
        all_names_defined(content@),
    ensures
        strings_view(r@) == all_scrape_names(content@),
{
    let lines = store_lines_of(content);
    let mut names: Vec<String> = Vec::new();
    for i in 0..lines.len()
        invariant
            lines.len() == store_lines(content@).len(),
            forall|j: int| 0 <= j < lines.len() ==> #[trigger] lines[j]@ == store_lines(
                content@,
            )[j],
            all_names_defined(content@),
            names.len() == i,
            forall|j: int| 0 <= j < i ==> #[trigger] names[j]@ == line_name(
                trim(store_lines(content@)[j]),
            ),
    {
        let l = trim_chars(&lines[i]);
        assert(l@ == trimmed_store_lines(content@)[i as int]);
        let n = line_name_of(&l);
        names.push(string_of(n.as_slice()));
    }
    assert(strings_view(names@) =~= all_scrape_names(content@));
    names
}

/// Whether a line has a name.
pub fn line_has_name(line: &Vec<char>) -> (r: bool)
    ensures
        r == name_defined(line@),
{
    let parts = fields_of(line);
    !is_combined_word(&parts[0]) || parts.len() >= 2
}

/// Whether every trimmed line of the store has a name (what reading the
/// names of all saved scrapes needs).
pub fn store_names_defined(content: &str) -> (r: bool)
    ensures
        r == all_names_defined(content@),
{
    let lines = store_lines_of(content);
    for i in 0..lines.len()
        invariant
            lines.len() == store_lines(content@).len(),
            forall|j: int| 0 <= j < lines.len() ==> #[trigger] lines[j]@ == store_lines(
                content@,
            )[j],
            forall|j: int| 0 <= j < i ==> name_defined(#[trigger] trimmed_store_lines(content@)[j]),
    {
        let l = trim_chars(&lines[i]);
        assert(l@ == trimmed_store_lines(content@)[i as int]);
        if !line_has_name(&l) {
            return false;
        }
    }
    true
}

// ---------------------------------------------------------------------------
// Combined scrapes
// ---------------------------------------------------------------------------

/// A combined line can be read: it has a third field.
pub open spec fn combined_line_ok(line: Seq<char>) -> bool {
    is_combined_line(line) ==> split_on(line, ';').len() >= 3
}

/// The list field of a combined line with its brackets and quotes removed.
pub open spec fn unwrapped_members(line: Seq<char>) -> Seq<char> {
    remove_char(remove_char(remove_char(split_on(line, ';')[2], '['), ']'), '"')
}

/// The scrape names that a combined line lists: the list field without
/// brackets and quotes, split at `,`, each piece trimmed.
pub open spec fn combined_members(line: Seq<char>) -> Seq<Seq<char>> {
    split_on(unwrapped_members(line), ',').map_values(|p: Seq<char>| remove_char(trim(p), ','))
}

/// Each member that a line with a list field lists is trimmed and holds
/// none of `;`, `,`, `[`, `]` and `"`.
pub proof fn lemma_combined_members_shape(line: Seq<char>)
    requires
        split_on(line, ';').len() >= 3,
    ensures
        forall|i: int|
            0 <= i < combined_members(line).len() ==> {
                let m = #[trigger] combined_members(line)[i];
                &&& !has_char(m, ';')
                &&& !has_char(m, ',')
                &&& !has_char(m, '[')
                &&& !has_char(m, ']')
                &&& !has_char(m, '"')
                &&& trim(m) == m
            },
{
    let f = split_on(line, ';')[2];
    lemma_split_on_pieces_lack(line, ';');
    let a = remove_char(f, '[');
    let b = remove_char(a, ']');
    let u = remove_char(b, '"');
    assert(u == unwrapped_members(line));
    let ps = split_on(u, ',');
    lemma_split_on_pieces_lack(u, ',');
    assert forall|i: int| 0 <= i < combined_members(line).len() implies {
        let m = #[trigger] combined_members(line)[i];
        &&& !has_char(m, ';')
        &&& !has_char(m, ',')
        &&& !has_char(m, '[')
        &&& !has_char(m, ']')
        &&& !has_char(m, '"')
        &&& trim(m) == m
    } by {
        let p = ps[i];
        let m = combined_members(line)[i];
        assert(!has_char(p, ','));
        lemma_trim_facts(p, ',');
        lemma_remove_char_absent(trim(p), ',');
        assert(m == trim(p));
        lemma_trim_facts(p, ';');
        lemma_trim_facts(p, '[');
        lemma_trim_facts(p, ']');
        lemma_trim_facts(p, '"');
        lemma_split_on_pieces_from(u, ',', ';');
        lemma_split_on_pieces_from(u, ',', '[');
        lemma_split_on_pieces_from(u, ',', ']');
        lemma_split_on_pieces_from(u, ',', '"');
        lemma_remove_char_from(b, '"', ';');
        lemma_remove_char_from(b, '"', '[');
        lemma_remove_char_from(b, '"', ']');
        lemma_remove_char_from(b, '"', '"');
        lemma_remove_char_from(a, ']', ';');
        lemma_remove_char_from(a, ']', '[');
        lemma_remove_char_from(a, ']', ']');
        lemma_remove_char_from(f, '[', ';');
        lemma_remove_char_from(f, '[', '[');
    }
}

/// Every combined line of the store can be read.
pub open spec fn combined_lines_ok(content: Seq<char>) -> bool {
    forall|i: int|
        0 <= i < trimmed_store_lines(content).len() ==> combined_line_ok(
            #[trigger] trimmed_store_lines(content)[i],
        )
}

/// Whether a combined line, if the line is one, can be read.
fn combined_line_is_ok(line: &Vec<char>) -> (r: bool)
    ensures
        r == combined_line_ok(line@),
{
    let parts = fields_of(line);
    !is_combined_word(&parts[0]) || parts.len() >= 3
}

/// Whether every combined line of the store can be read (what looking up
/// the combined scrapes that use a scrape needs).
pub fn combined_lines_readable(content: &str) -> (r: bool)
    ensures
        r == combined_lines_ok(content@),
{
    let lines = store_lines_of(content);
    for i in 0..lines.len()
        invariant
            lines.len() == store_lines(content@).len(),
            forall|j: int| 0 <= j < lines.len() ==> #[trigger] lines[j]@ == store_lines(
                content@,
            )[j],
            forall|j: int|
                0 <= j < i ==> combined_line_ok(#[trigger] trimmed_store_lines(content@)[j]),
    {
        let l = trim_chars(&lines[i]);
        assert(l@ == trimmed_store_lines(content@)[i as int]);
        if !combined_line_is_ok(&l) {
            return false;
        }
    }
    true
}

/// Whether a line is a combined line that lists `name`.
pub open spec fn uses_scrape(line: Seq<char>, name: Seq<char>) -> bool {
    is_combined_line(line) && combined_members(line).contains(name)
}

/// The trimmed combined lines of the store that list `name`, in store order.
pub open spec fn combined_lines_using(content: Seq<char>, name: Seq<char>) -> Seq<Seq<char>> {
    trimmed_store_lines(content).filter(|l: Seq<char>| uses_scrape(l, name))
}

/// The scrape names that a combined line lists.
pub fn combined_members_of(line: &Vec<char>) -> (r: Vec<Vec<char>>)
    requires
        split_on(line@, ';').len() >= 3,
    ensures
        r.len() == combined_members(line@).len(),
        forall|i: int| 0 <= i < r.len() ==> #[trigger] r[i]@ == combined_members(line@)[i],
{
    let parts = fields_of(line);
    let a = remove_char_chars(&parts[2], '[');
    let b = remove_char_chars(&a, ']');
    let c = remove_char_chars(&b, '"');
    let pieces = split_chars(&c, ',');
    let mut r: Vec<Vec<char>> = Vec::new();
    for i in 0..pieces.len()
        invariant
            pieces.deep_view() == split_on(unwrapped_members(line@), ','),
            r.len() == i,
            forall|j: int| 0 <= j < i ==> #[trigger] r[j]@ == remove_char(trim(pieces[j]@), ','),
    {
        let t = trim_chars(&pieces[i]);
        r.push(remove_char_chars(&t, ','));
    }
    proof {
        assert forall|j: int| 0 <= j < r.len() implies #[trigger] r[j]@ == combined_members(
            line@,
        )[j] by {
            lemma_chars_deep_view(pieces[j]);
        }
    }
    r
}

/// Whether some item of `v` equals `x`.
pub fn contains_chars(v: &Vec<Vec<char>>, x: &Vec<char>) -> (r: bool)
    ensures
        r == exists|j: int| 0 <= j < v.len() && #[trigger] v[j]@ == x@,
{
    for i in 0..v.len()
        invariant
            forall|j: int| 0 <= j < i ==> #[trigger] v[j]@ != x@,
    {
        if chars_eq(&v[i], x) {
            return true;
        }
    }
    false
}

/// Whether the line, given as characters, is a combined line listing `name`.
pub fn uses_scrape_of(line: &Vec<char>, name: &Vec<char>) -> (r: bool)
    requires
        combined_line_ok(line@),
    ensures
        r == uses_scrape(line@, name@),
{
    let parts = fields_of(line);
    if !is_combined_word(&parts[0]) {
        return false;
    }
    let members = combined_members_of(line);
    let found = contains_chars(&members, name);
    proof {
        let m = combined_members(line@);
        if found {
            let j = choose|j: int| 0 <= j < members.len() && #[trigger] members[j]@ == name@;
            assert(m[j] == name@);
        } else {
            assert forall|j: int| 0 <= j < m.len() implies m[j] != name@ by {
                assert(members[j]@ == m[j]);
            }
        }
    }
    found
}

/// The combined scrapes of the store that use the scrape `scrape_name`:
/// their lines, trimmed, in store order.
pub fn get_combined_scrapes_for_scrape(content: &str, scrape_name: &String) -> (r: Vec<String>)
    requires
        combined_lines_ok(content@),
    ensures
        strings_view(r@) == combined_lines_using(content@, scrape_name@),
{
    let lines = store_lines_of(content);
    let name = chars_of(scrape_name.as_str());
    let ghost tl = trimmed_store_lines(content@);
    let ghost pred = |l: Seq<char>| uses_scrape(l, name@);
    let mut r: Vec<String> = Vec::new();
    for i in 0..lines.len()
        invariant
            lines.len() == tl.len(),
            tl == trimmed_store_lines(content@),
            name@ == scrape_name@,
            pred == (|l: Seq<char>| uses_scrape(l, name@)),
            forall|j: int| 0 <= j < lines.len() ==> #[trigger] lines[j]@ == store_lines(
                content@,
            )[j],
            combined_lines_ok(content@),
            strings_view(r@) == tl.take(i as int).filter(pred),
    {
        let l = trim_chars(&lines[i]);
        assert(l@ == tl[i as int]);
        proof {
            assert(tl.take(i + 1).drop_last() =~= tl.take(i as int));
            reveal_with_fuel(Seq::filter, 1);
        }
        if uses_scrape_of(&l, &name) {
            r.push(string_of(l.as_slice()));
            assert(strings_view(r@) =~= tl.take(i + 1).filter(pred));
        } else {
            assert(strings_view(r@) =~= tl.take(i + 1).filter(pred));
        }
    }
    assert(tl.take(lines.len() as int) =~= tl);
    r
}

// ---------------------------------------------------------------------------
// One saved scrape
// ---------------------------------------------------------------------------

/// Line `i` is the first line named `name`.
pub open spec fn is_first_named(lines: Seq<Seq<char>>, name: Seq<char>, i: int) -> bool {
    &&& 0 <= i < lines.len()
    &&& line_name(lines[i]) == name
    &&& forall|j: int| 0 <= j < i ==> line_name(#[trigger] lines[j]) != name
}

/// The index of the first line named `name`, if any.
pub open spec fn first_named(lines: Seq<Seq<char>>, name: Seq<char>) -> Option<int> {
    if exists|i: int| is_first_named(lines, name, i) {
        Some(choose|i: int| is_first_named(lines, name, i))
    } else {
        None
    }
}

/// Every line up to the first one named `name` (all of them, if none is)
/// has a name.
pub open spec fn names_defined_until(lines: Seq<Seq<char>>, name: Seq<char>) -> bool {
    forall|i: int|
        #![trigger name_defined(lines[i])]
        0 <= i < lines.len() && (forall|j: int| 0 <= j < i ==> line_name(#[trigger] lines[j])
            != name) ==> name_defined(lines[i])
}

/// Line `i` is the first line whose first field is `h`.
pub open spec fn is_first_headed(lines: Seq<Seq<char>>, h: Seq<char>, i: int) -> bool {
    &&& 0 <= i < lines.len()
    &&& head(lines[i]) == h
    &&& forall|j: int| 0 <= j < i ==> head(#[trigger] lines[j]) != h
}

/// The index of the first line whose first field is `h`, if any.
pub open spec fn first_headed(lines: Seq<Seq<char>>, h: Seq<char>) -> Option<int> {
    if exists|i: int| is_first_headed(lines, h, i) {
        Some(choose|i: int| is_first_headed(lines, h, i))
    } else {
        None
    }
}

/// The scrapes that the members of a combined scrape name, in member order:
/// for each member, the first line that starts with it, if there is one.
pub open spec fn member_scrapes(lines: Seq<Seq<char>>, ms: Seq<Seq<char>>) -> Seq<ScrapeModel>
    decreases ms.len(),
{
    if ms.len() == 0 {
        Seq::empty()
    } else {
        let prev = member_scrapes(lines, ms.drop_last());
        match first_headed(lines, ms.last()) {
            Some(j) => prev.push(scrape_of_line(lines[j])),
            None => prev,
        }
    }
}

/// Every member that some line starts with leads to a readable scrape line.
pub open spec fn members_readable(lines: Seq<Seq<char>>, ms: Seq<Seq<char>>) -> bool {
    forall|k: int|
        0 <= k < ms.len() ==> match first_headed(lines, #[trigger] ms[k]) {
            Some(j) => scrape_line_ok(lines[j]),
            None => true,
        }
}

/// The saved scrape `name` can be read from the store without fault.
pub open spec fn saved_scrape_readable(content: Seq<char>, name: Seq<char>) -> bool {
    let lines = store_lines(content);
    &&& names_defined_until(lines, name)
    &&& match first_named(lines, name) {
        None => true,
        Some(i) => if is_combined_line(lines[i]) {
            combined_line_ok(lines[i]) && members_readable(lines, combined_members(lines[i]))
        } else {
            scrape_line_ok(lines[i])
        },
    }
}

/// The scrapes saved under `name`: none when no line is named so; the
/// scrapes of its members for a combined scrape; else the scrape itself.
pub open spec fn saved_scrape(content: Seq<char>, name: Seq<char>) -> Option<Seq<ScrapeModel>> {
    let lines = store_lines(content);
    match first_named(lines, name) {
        None => None,
        Some(i) => if is_combined_line(lines[i]) {
            Some(member_scrapes(lines, combined_members(lines[i])))
        } else {
            Some(seq![scrape_of_line(lines[i])])
        },
    }
}

/// The views of a vector of scrapes.
pub open spec fn scrapes_view(v: Seq<Scrape>) -> Seq<ScrapeModel> {
    v.map_values(|s: Scrape| s@)
}

/// The view of an optional vector of scrapes.
pub open spec fn opt_scrapes_view(o: Option<Vec<Scrape>>) -> Option<Seq<ScrapeModel>> {
    match o {
        Some(v) => Some(scrapes_view(v@)),
        None => None,
    }
}

/// The first line named `name`.
fn find_named(lines: &Vec<Vec<char>>, name: &Vec<char>) -> (r: Option<usize>)
    requires
        names_defined_until(char_views(lines@), name@),
    ensures
        match r {
            Some(i) => is_first_named(char_views(lines@), name@, i as int),
            None => !exists|i: int| is_first_named(char_views(lines@), name@, i),
        },
{
    let ghost ls = char_views(lines@);
    for i in 0..lines.len()
        invariant
            ls == char_views(lines@),
            names_defined_until(ls, name@),
            forall|j: int| 0 <= j < i ==> line_name(#[trigger] ls[j]) != name@,
    {
        assert(ls[i as int] == lines[i as int]@);
        assert(name_defined(ls[i as int]));
        let n = line_name_of(&lines[i]);
        if chars_eq(&n, name) {
            return Some(i);
        }
    }
    None
}

/// The first line whose first field is `h`.
fn find_headed(lines: &Vec<Vec<char>>, h: &Vec<char>) -> (r: Option<usize>)
    ensures
        match r {
            Some(i) => is_first_headed(char_views(lines@), h@, i as int),
            None => !exists|i: int| is_first_headed(char_views(lines@), h@, i),
        },
{
    let ghost ls = char_views(lines@);
    for i in 0..lines.len()
        invariant
            ls == char_views(lines@),
            forall|j: int| 0 <= j < i ==> head(#[trigger] ls[j]) != h@,
    {
        assert(ls[i as int] == lines[i as int]@);
        let parts = fields_of(&lines[i]);
        if chars_eq(&parts[0], h) {
            return Some(i);
        }
    }
    None
}

/// The first line named `name` is the one that `first_named` gives.
pub proof fn lemma_first_named_unique(lines: Seq<Seq<char>>, name: Seq<char>, i: int)
    requires
        is_first_named(lines, name, i),
    ensures
        first_named(lines, name) == Some(i),
{
    let k = choose|k: int| is_first_named(lines, name, k);
    if k < i {
        assert(line_name(lines[k]) != name);
    } else if i < k {
        assert(line_name(lines[i]) != name);
    }
}

/// The first line that starts with `h` is the one that `first_headed` gives.
pub proof fn lemma_first_headed_unique(lines: Seq<Seq<char>>, h: Seq<char>, i: int)
    requires
        is_first_headed(lines, h, i),
    ensures
        first_headed(lines, h) == Some(i),
{
    let k = choose|k: int| is_first_headed(lines, h, k);
    if k < i {
        assert(head(lines[k]) != h);
    } else if i < k {
        assert(head(lines[i]) != h);
    }
}

/// Whether the saved scrape `name` can be read from the store without fault
/// (what [`get_saved_scrape`] needs).
pub fn saved_scrape_is_readable(content: &str, name: &str) -> (r: bool)
    ensures
        r == saved_scrape_readable(content@, name@),
{
    let lines = store_lines_of(content);
    let name_chars = chars_of(name);
    let ghost ls = store_lines(content@);
    assert(ls == char_views(lines@));
    let mut found: Option<usize> = None;
    for i in 0..lines.len()
        invariant_except_break
            found is None,
            forall|j: int| 0 <= j < i ==> name_defined(#[trigger] ls[j]) && line_name(ls[j])
                != name@,
        invariant
            ls == char_views(lines@),
            ls == store_lines(content@),
            name_chars@ == name@,
        ensures
            match found {
                Some(k) => k < lines.len() && name_defined(ls[k as int]) && line_name(ls[k as int])
                    == name@ && forall|j: int|
                    0 <= j < k ==> name_defined(#[trigger] ls[j]) && line_name(ls[j]) != name@,
                None => forall|j: int|
                    0 <= j < lines.len() ==> name_defined(#[trigger] ls[j]) && line_name(ls[j])
                        != name@,
            },
    {
        assert(lines[i as int]@ == ls[i as int]);
        if !line_has_name(&lines[i]) {
            proof {
                assert(forall|j: int| 0 <= j < i ==> line_name(#[trigger] ls[j]) != name@);
                assert(!name_defined(ls[i as int]));
                assert(!names_defined_until(ls, name@));
            }
            return false;
        }
        let n = line_name_of(&lines[i]);
        if chars_eq(&n, &name_chars) {
            found = Some(i);
            break;
        }
    }
    match found {
        None => {
            assert(names_defined_until(ls, name@));
            assert(!exists|k: int| is_first_named(ls, name@, k));
            true
        },
        Some(i) => {
            proof {
                assert forall|j: int|
                    #![trigger name_defined(ls[j])]
                    0 <= j < ls.len() && (forall|k: int| 0 <= k < j ==> line_name(#[trigger] ls[k])
                        != name@) implies name_defined(ls[j]) by {
                    if j > i {
                        assert(line_name(ls[i as int]) == name@);
                    }
                }
                assert(is_first_named(ls, name@, i as int));
                lemma_first_named_unique(ls, name@, i as int);
            }
            let line = &lines[i];
            assert(line@ == ls[i as int]);
            let parts = fields_of(line);
            if is_combined_word(&parts[0]) {
                if parts.len() < 3 {
                    return false;
                }
                let members = combined_members_of(line);
                let ghost ms = combined_members(ls[i as int]);
                for k in 0..members.len()
                    invariant
                        ls == char_views(lines@),
                        ls == store_lines(content@),
                        names_defined_until(ls, name@),
                        first_named(ls, name@) == Some(i as int),
                        is_combined_line(ls[i as int]),
                        combined_line_ok(ls[i as int]),
                        ms == combined_members(ls[i as int]),
                        members.len() == ms.len(),
                        forall|a: int| 0 <= a < members.len() ==> #[trigger] members[a]@ == ms[a],
                        forall|a: int|
                            0 <= a < k ==> match first_headed(ls, #[trigger] ms[a]) {
                                Some(j) => scrape_line_ok(ls[j]),
                                None => true,
                            },
                {
                    assert(members[k as int]@ == ms[k as int]);
                    match find_headed(&lines, &members[k]) {
                        Some(j) => {
                            proof {
                                lemma_first_headed_unique(ls, ms[k as int], j as int);
                            }
                            assert(lines[j as int]@ == ls[j as int]);
                            if !crate::scrape::scrape_line_is_ok(&lines[j]) {
                                assert(!members_readable(ls, ms));
                                return false;
                            }
                        },
                        None => {
                            assert(first_headed(ls, ms[k as int]) is None);
                        },
                    }
                }
                true
            } else {
                crate::scrape::scrape_line_is_ok(line)
            }
        },
    }
}

/// The scrapes saved under `name` in the store: `None` when no line is named
/// `name`; for a combined scrape, the scrapes its members name (a member that
/// no line starts with is left out); else the one scrape.
pub fn get_saved_scrape(content: &str, name: &str) -> (r: Option<Vec<Scrape>>)
    requires
        saved_scrape_readable(content@, name@),
    ensures
        opt_scrapes_view(r) == saved_scrape(content@, name@),
{
    let lines = store_lines_of(content);
    let name_chars = chars_of(name);
    let ghost ls = store_lines(content@);
    match find_named(&lines, &name_chars) {
        None => None,
        Some(i) => {
            proof {
                lemma_first_named_unique(ls, name@, i as int);
            }
            let line = &lines[i];
            assert(line@ == ls[i as int]);
            let parts = fields_of(line);
            let mut scrapes: Vec<Scrape> = Vec::new();
            if is_combined_word(&parts[0]) {
                let members = combined_members_of(line);
                let ghost ms = combined_members(ls[i as int]);
                assert(char_views(members@) =~= ms);
                for k in 0..members.len()
                    invariant
                        ls == char_views(lines@),
                        ms == char_views(members@),
                        members_readable(ls, ms),
                        scrapes_view(scrapes@) == member_scrapes(ls, ms.take(k as int)),
                {
                    proof {
                        assert(ms.take(k + 1).drop_last() =~= ms.take(k as int));
                        assert(ms.take(k + 1).last() == ms[k as int]);
                    }
                    match find_headed(&lines, &members[k]) {
                        Some(j) => {
                            proof {
                                lemma_first_headed_unique(ls, ms[k as int], j as int);
                            }
                            assert(lines[j as int]@ == ls[j as int]);
                            let s = scrape_from_chars(&lines[j]);
                            scrapes.push(s);
                            assert(scrapes_view(scrapes@) =~= member_scrapes(
                                ls,
                                ms.take(k + 1),
                            ));
                        },
                        None => {
                            assert(scrapes_view(scrapes@) =~= member_scrapes(
                                ls,
                                ms.take(k + 1),
                            ));
                        },
                    }
                }
                assert(ms.take(members.len() as int) =~= ms);
            } else {
                let s = scrape_from_chars(line);
                scrapes.push(s);
                assert(scrapes_view(scrapes@) =~= seq![scrape_of_line(ls[i as int])]);
            }
            Some(scrapes)
        },
    }
}

// ---------------------------------------------------------------------------
// Reading back what was saved
// ---------------------------------------------------------------------------

/// The text of a store whose lines are `ls`, each ended by a line break, as
/// the program writes them.
pub open spec fn store_text(ls: Seq<Seq<char>>) -> Seq<char>
    decreases ls.len(),
{
    if ls.len() == 0 {
        Seq::empty()
    } else {
        store_text(ls.drop_last()) + ls.last() + seq!['\n']
    }
}

/// A line that the store keeps as it is: not empty, without a line break,
/// and without white space at either end.
pub open spec fn clean_line(l: Seq<char>) -> bool {
    &&& l.len() > 0
    &&& !has_char(l, '\n')
    &&& !is_space(l[0])
    &&& !is_space(l.last())
}

proof fn lemma_store_text_join(ls: Seq<Seq<char>>)
    requires
        ls.len() >= 1,
    ensures
        store_text(ls) == join(ls, seq!['\n']) + seq!['\n'],
    decreases ls.len(),
{
    if ls.len() > 1 {
        let init = ls.drop_last();
        lemma_store_text_join(init);
        let nl = seq!['\n'];
        let a = join(init, nl);
        assert(join(ls, nl) == a + nl + ls.last());
        assert(store_text(ls) == (a + nl) + ls.last() + nl);
        assert((a + nl) + ls.last() + nl =~= (a + nl + ls.last()) + nl);
    } else {
        assert(ls.drop_last() =~= Seq::<Seq<char>>::empty());
        assert(store_text(ls.drop_last()) == Seq::<char>::empty());
        assert(join(ls, seq!['\n']) == ls[0]);
        assert(store_text(ls) == Seq::<char>::empty() + ls[0] + seq!['\n']);
        assert(store_text(ls) =~= join(ls, seq!['\n']) + seq!['\n']);
    }
}

/// The first piece of joined pieces comes first, the last piece last.
proof fn lemma_join_ends(ps: Seq<Seq<char>>, sep: Seq<char>)
    requires
        ps.len() >= 2,
    ensures
        join(ps, sep) == ps[0] + sep + join(ps.drop_first(), sep),
        join(ps, sep) == join(ps.drop_last(), sep) + sep + ps.last(),
    decreases ps.len(),
{
    if ps.len() > 2 {
        let init = ps.drop_last();
        let tail = ps.drop_first();
        lemma_join_ends(init, sep);
        assert(init.drop_first() =~= tail.drop_last());
        assert(init[0] == ps[0]);
        assert(tail.last() == ps.last());
        let m = join(init.drop_first(), sep);
        assert(join(tail, sep) == m + sep + ps.last());
        assert(join(ps, sep) == (ps[0] + sep + m) + sep + ps.last());
        assert((ps[0] + sep + m) + sep + ps.last() =~= ps[0] + sep + (m + sep + ps.last()));
    } else {
        assert(ps.drop_first() =~= seq![ps[1]]);
        assert(ps.drop_last() =~= seq![ps[0]]);
        assert(join(ps.drop_last(), sep) == ps[0]);
        assert(join(ps.drop_first(), sep) == ps[1]);
    }
}

/// Joined pieces that are not empty begin with the first piece's first
/// character and end with the last piece's last character.
proof fn lemma_join_first_last(ps: Seq<Seq<char>>, sep: Seq<char>)
    requires
        ps.len() >= 1,
        forall|i: int| 0 <= i < ps.len() ==> (#[trigger] ps[i]).len() > 0,
    ensures
        join(ps, sep).len() > 0,
        join(ps, sep)[0] == ps[0][0],
        join(ps, sep).last() == ps.last().last(),
    decreases ps.len(),
{
    if ps.len() >= 2 {
        lemma_join_ends(ps, sep);
        let init = ps.drop_last();
        assert(init[0] == ps[0]);
        lemma_join_first_last(init, sep);
    }
}

/// Reading the lines of a store text gives back the clean lines it was
/// written from.
pub proof fn lemma_store_lines_of_text(ls: Seq<Seq<char>>)
    requires
        ls.len() >= 1,
        forall|i: int| 0 <= i < ls.len() ==> clean_line(#[trigger] ls[i]),
    ensures
        store_lines(store_text(ls)) == ls,
        trimmed_store_lines(store_text(ls)) == ls,
{
    lemma_store_text_join(ls);
    let j = join(ls, seq!['\n']);
    lemma_join_first_last(ls, seq!['\n']);
    let t = j + seq!['\n'];
    assert(t[0] == j[0]);
    assert(trim_start(t) == t);
    assert(t.drop_last() =~= j);
    assert(t.last() == '\n');
    assert(is_space(t.last()));
    assert(clean_line(ls[ls.len() - 1]));
    assert(!is_space(j.last()));
    assert(trim_end(j) == j);
    assert(trim_end(t) == trim_end(j));
    assert(trim(t) == j);
    assert forall|i: int| 0 <= i < ls.len() implies !has_char(#[trigger] ls[i], '\n') by {
        assert(clean_line(ls[i]));
    }
    lemma_split_join(ls, '\n');
    assert forall|i: int| 0 <= i < ls.len() implies trim(#[trigger] ls[i]) == ls[i] by {
        assert(clean_line(ls[i]));
        lemma_trim_unchanged(ls[i]);
    }
    assert(trimmed_store_lines(store_text(ls)) =~= ls);
}

/// A `Debug` list of plain items holds no line break.
pub proof fn lemma_plain_list_one_line(v: Seq<Seq<char>>)
    requires
        all_plain(v),
    ensures
        !has_char(plain_list(v), '\n'),
{
    let qs = v.map_values(|e: Seq<char>| quote(e));
    assert forall|i: int| 0 <= i < qs.len() implies !has_char(#[trigger] qs[i], '\n') by {
        let e = v[i];
        assert(!has_char(e, '\n')) by {
            if has_char(e, '\n') {
                let k = choose|k: int| 0 <= k < e.len() && e[k] == '\n';
                assert(is_plain_char(e[k]));
            }
        }
        lemma_has_char_concat(seq!['"'], e, '\n');
        lemma_has_char_concat(seq!['"'] + e, seq!['"'], '\n');
        assert(!has_char(seq!['"'], '\n'));
    }
    assert(!has_char(seq![',', ' '], '\n'));
    lemma_join_lacks_char(qs, seq![',', ' '], '\n');
    let body = join(qs, seq![',', ' ']);
    lemma_has_char_concat(seq!['['], body, '\n');
    lemma_has_char_concat(seq!['['] + body, seq![']'], '\n');
    assert(!has_char(seq!['['], '\n'));
    assert(!has_char(seq![']'], '\n'));
}

/// The line saved for a storable scrape whose texts hold no line break,
/// whose name does not begin with white space and is not `combined`, is a
/// clean line named by the scrape's name.
proof fn lemma_saved_line_clean(s: ScrapeModel)
    requires
        storable(s),
        s.name != combined_word(),
        s.name.len() > 0 ==> !is_space(s.name[0]),
        !has_char(s.name, '\n'),
        !has_char(s.url, '\n'),
        !has_char(text_or_empty(s.title), '\n'),
        !has_char(text_or_empty(s.export), '\n'),
    ensures
        clean_line(plain_scrape_line(s)),
        name_defined(plain_scrape_line(s)),
        line_name(plain_scrape_line(s)) == s.name,
        scrape_line_ok(plain_scrape_line(s)),
        scrape_of_line(plain_scrape_line(s)) == s,
{
    let line = plain_scrape_line(s);
    let f = plain_fields(s);
    lemma_plain_line_roundtrip(s);
    assert(split_on(line, ';')[0] == s.name);
    assert(!is_combined_line(line));
    // No line break.
    assert forall|i: int| 0 <= i < s.selectors.len() implies crate::text::is_plain(
        #[trigger] s.selectors[i],
    ) by {
        assert(crate::scrape::storable_item(s.selectors[i]));
    }
    assert forall|i: int| 0 <= i < s.keys.len() implies crate::text::is_plain(
        #[trigger] s.keys[i],
    ) by {
        assert(crate::scrape::storable_item(s.keys[i]));
    }
    lemma_plain_list_one_line(s.selectors);
    lemma_plain_list_one_line(s.keys);
    assert forall|o: Option<Seq<Seq<char>>>|
        crate::scrape::storable_optional_list(o) implies #[trigger] all_plain(list_or_empty(o)) by {
        match o {
            Some(v) => {
                assert forall|i: int| 0 <= i < v.len() implies crate::text::is_plain(
                    #[trigger] v[i],
                ) by {
                    assert(crate::scrape::storable_item(v[i]));
                }
            },
            None => {},
        }
    }
    assert(all_plain(list_or_empty(s.attributes)));
    assert(all_plain(list_or_empty(s.prefixes)));
    assert(all_plain(list_or_empty(s.suffixes)));
    lemma_plain_list_one_line(list_or_empty(s.attributes));
    lemma_plain_list_one_line(list_or_empty(s.prefixes));
    lemma_plain_list_one_line(list_or_empty(s.suffixes));
    let p = presentation_or_empty(s.presentation);
    assert(!has_char(p, '\n')) by {
        if has_char(p, '\n') {
            let k = choose|k: int| 0 <= k < p.len() && p[k] == '\n';
        }
    }
    assert forall|i: int| 0 <= i < f.len() implies !has_char(#[trigger] f[i], '\n') by {}
    assert(!has_char(seq![';'], '\n'));
    lemma_join_lacks_char(f, seq![';'], '\n');
    // The ends.
    lemma_join_ends(f, seq![';']);
    let rest = join(f.drop_first(), seq![';']);
    assert(line == s.name + seq![';'] + rest);
    assert(line.len() > 0);
    if s.name.len() == 0 {
        assert(line[0] == ';');
    } else {
        assert(line[0] == s.name[0]);
    }
    let last = text_or_empty(s.export);
    assert(line == join(f.drop_last(), seq![';']) + seq![';'] + last);
    if last.len() == 0 {
        assert(line.last() == ';');
    } else {
        lemma_trim_end_prefix(trim_start(last));
        assert(line.last() == last.last());
        assert(!is_space(last.last()));
    }
}

/// A storable scrape saved at the end of the store is read back as it was
/// saved, and its name is listed after the names already there: given clean,
/// named lines none of which is named as the scrape, whose name is not
/// `combined` and does not begin with white space, and whose texts hold no
/// line break.
pub proof fn lemma_saved_scrape_read_back(ls: Seq<Seq<char>>, s: ScrapeModel)
    requires
        forall|i: int|
            0 <= i < ls.len() ==> clean_line(#[trigger] ls[i]) && name_defined(ls[i]) && line_name(
                ls[i],
            ) != s.name,
        storable(s),
        s.name != combined_word(),
        s.name.len() > 0 ==> !is_space(s.name[0]),
        !has_char(s.name, '\n'),
        !has_char(s.url, '\n'),
        !has_char(text_or_empty(s.title), '\n'),
        !has_char(text_or_empty(s.export), '\n'),
    ensures
        saved_scrape_readable(store_text(ls.push(plain_scrape_line(s))), s.name),
        saved_scrape(store_text(ls.push(plain_scrape_line(s))), s.name) == Some(seq![s]),
        all_scrape_names(store_text(ls.push(plain_scrape_line(s)))) == ls.map_values(
            |l: Seq<char>| line_name(l),
        ).push(s.name),
{
    let line = plain_scrape_line(s);
    let all = ls.push(line);
    let content = store_text(all);
    lemma_saved_line_clean(s);
    assert forall|i: int| 0 <= i < all.len() implies clean_line(#[trigger] all[i]) by {
        if i < ls.len() {
            assert(all[i] == ls[i]);
        }
    }
    lemma_store_lines_of_text(all);
    let n = ls.len() as int;
    assert forall|i: int| 0 <= i < all.len() implies #[trigger] name_defined(all[i]) by {
        if i < ls.len() {
            assert(all[i] == ls[i]);
        }
    }
    assert(names_defined_until(all, s.name));
    assert forall|j: int| 0 <= j < n implies line_name(#[trigger] all[j]) != s.name by {
        assert(all[j] == ls[j]);
    }
    assert(is_first_named(all, s.name, n));
    lemma_first_named_unique(all, s.name, n);
    assert(saved_scrape_readable(content, s.name));
    assert(saved_scrape(content, s.name) == Some(seq![s]));
    assert(all_scrape_names(content) =~= ls.map_values(|l: Seq<char>| line_name(l)).push(s.name));
}

/// Some line starting with `h` makes the first such line exist.
pub proof fn lemma_first_headed_exists(lines: Seq<Seq<char>>, h: Seq<char>, i: int)
    requires
        0 <= i < lines.len(),
        head(lines[i]) == h,
    ensures
        exists|k: int| is_first_headed(lines, h, k),
    decreases i,
{
    if exists|j: int| 0 <= j < i && head(#[trigger] lines[j]) == h {
        let j = choose|j: int| 0 <= j < i && head(#[trigger] lines[j]) == h;
        lemma_first_headed_exists(lines, h, j);
    } else {
        assert(is_first_headed(lines, h, i));
    }
}

/// A line added at the end does not change which line first starts with
/// `h`, when some line already does.
pub proof fn lemma_first_headed_push(lines: Seq<Seq<char>>, x: Seq<char>, h: Seq<char>, i: int)
    requires
        0 <= i < lines.len(),
        head(lines[i]) == h,
    ensures
        first_headed(lines, h) is Some,
        first_headed(lines.push(x), h) == first_headed(lines, h),
{
    lemma_first_headed_exists(lines, h, i);
    let k = choose|k: int| is_first_headed(lines, h, k);
    lemma_first_headed_unique(lines, h, k);
    let all = lines.push(x);
    assert forall|j: int| 0 <= j < k implies head(#[trigger] all[j]) != h by {
        assert(all[j] == lines[j]);
    }
    assert(all[k] == lines[k]);
    assert(is_first_headed(all, h, k));
    lemma_first_headed_unique(all, h, k);
}

/// Some line starts with `h`.
pub open spec fn some_line_headed(lines: Seq<Seq<char>>, h: Seq<char>) -> bool {
    exists|i: int| 0 <= i < lines.len() && head(#[trigger] lines[i]) == h
}

/// A line added at the end changes neither the scrapes that members name nor
/// whether they can be read, when every member starts some line already.
pub proof fn lemma_member_scrapes_push(lines: Seq<Seq<char>>, x: Seq<char>, ms: Seq<Seq<char>>)
    requires
        forall|k: int| 0 <= k < ms.len() ==> some_line_headed(lines, #[trigger] ms[k]),
    ensures
        member_scrapes(lines.push(x), ms) == member_scrapes(lines, ms),
        members_readable(lines.push(x), ms) == members_readable(lines, ms),
    decreases ms.len(),
{
    let all = lines.push(x);
    assert forall|k: int| 0 <= k < ms.len() implies first_headed(all, #[trigger] ms[k])
        == first_headed(lines, ms[k]) && first_headed(lines, ms[k]) is Some by {
        let i = choose|i: int| 0 <= i < lines.len() && head(#[trigger] lines[i]) == ms[k];
        lemma_first_headed_push(lines, x, ms[k], i);
    }
    if ms.len() > 0 {
        let init = ms.drop_last();
        assert forall|k: int| 0 <= k < init.len() implies some_line_headed(
            lines,
            #[trigger] init[k],
        ) by {
            assert(init[k] == ms[k]);
        }
        lemma_member_scrapes_push(lines, x, init);
        let last = ms[ms.len() - 1];
        assert(first_headed(all, last) == first_headed(lines, last));
        let j = first_headed(lines, last)->0;
        assert(0 <= j < lines.len()) by {
            let i = choose|i: int| 0 <= i < lines.len() && head(#[trigger] lines[i]) == last;
            lemma_first_headed_exists(lines, last, i);
            let k = choose|k: int| is_first_headed(lines, last, k);
            lemma_first_headed_unique(lines, last, k);
        }
        assert(all[j] == lines[j]);
    }
    assert(members_readable(all, ms) == members_readable(lines, ms)) by {
        if members_readable(lines, ms) {
            assert forall|k: int| 0 <= k < ms.len() implies match first_headed(
                all,
                #[trigger] ms[k],
            ) {
                Some(j) => scrape_line_ok(all[j]),
                None => true,
            } by {
                let j = first_headed(lines, ms[k])->0;
                let i = choose|i: int| 0 <= i < lines.len() && head(#[trigger] lines[i]) == ms[k];
                lemma_first_headed_exists(lines, ms[k], i);
                let q = choose|q: int| is_first_headed(lines, ms[k], q);
                lemma_first_headed_unique(lines, ms[k], q);
                assert(all[j] == lines[j]);
            }
        }
        if members_readable(all, ms) {
            assert forall|k: int| 0 <= k < ms.len() implies match first_headed(
                lines,
                #[trigger] ms[k],
            ) {
                Some(j) => scrape_line_ok(lines[j]),
                None => true,
            } by {
                let j = first_headed(lines, ms[k])->0;
                let i = choose|i: int| 0 <= i < lines.len() && head(#[trigger] lines[i]) == ms[k];
                lemma_first_headed_exists(lines, ms[k], i);
                let q = choose|q: int| is_first_headed(lines, ms[k], q);
                lemma_first_headed_unique(lines, ms[k], q);
                assert(all[j] == lines[j]);
                assert(first_headed(all, ms[k]) == Some(j));
            }
        }
    }
}

/// Some line named `name` makes the first such line exist.
pub proof fn lemma_first_named_exists(lines: Seq<Seq<char>>, name: Seq<char>, i: int)
    requires
        0 <= i < lines.len(),
        line_name(lines[i]) == name,
    ensures
        first_named(lines, name) is Some,
    decreases i,
{
    if exists|j: int| 0 <= j < i && line_name(#[trigger] lines[j]) == name {
        let j = choose|j: int| 0 <= j < i && line_name(#[trigger] lines[j]) == name;
        lemma_first_named_exists(lines, name, j);
    } else {
        assert(is_first_named(lines, name, i));
    }
}

/// Every name that the store lists can be looked up, when no line of the
/// store has white space at either end.
pub proof fn lemma_listed_names_found(content: Seq<char>, n: Seq<char>)
    requires
        forall|i: int|
            0 <= i < store_lines(content).len() ==> trim(#[trigger] store_lines(content)[i])
                == store_lines(content)[i],
        all_scrape_names(content).contains(n),
    ensures
        saved_scrape(content, n) is Some,
{
    let ls = store_lines(content);
    let k = choose|k: int| 0 <= k < all_scrape_names(content).len() && all_scrape_names(content)[k] == n;
    assert(trimmed_store_lines(content)[k] == trim(ls[k]));
    assert(trim(ls[k]) == ls[k]);
    assert(line_name(ls[k]) == n);
    lemma_first_named_exists(ls, n, k);
}

/// What the members of a combined scrape name does not depend on one
/// another: the scrapes of two runs of members, one after the other, are the
/// scrapes of the first run, then those of the second.
pub proof fn lemma_member_scrapes_concat(lines: Seq<Seq<char>>, a: Seq<Seq<char>>, b: Seq<Seq<char>>)
    ensures
        member_scrapes(lines, a + b) == member_scrapes(lines, a) + member_scrapes(lines, b),
    decreases b.len(),
{
    if b.len() == 0 {
        assert(a + b =~= a);
        assert(member_scrapes(lines, a) + member_scrapes(lines, b) =~= member_scrapes(lines, a));
    } else {
        lemma_member_scrapes_concat(lines, a, b.drop_last());
        assert((a + b).drop_last() =~= a + b.drop_last());
        assert((a + b).last() == b.last());
        match first_headed(lines, b.last()) {
            Some(j) => {
                assert(member_scrapes(lines, a) + member_scrapes(lines, b) =~= (member_scrapes(
                    lines,
                    a,
                ) + member_scrapes(lines, b.drop_last())).push(scrape_of_line(lines[j])));
            },
            None => {},
        }
    }
}

/// One member names the scrape of the first line that it starts, or nothing
/// when no line starts with it.
pub proof fn lemma_member_scrapes_single(lines: Seq<Seq<char>>, m: Seq<char>)
    ensures
        member_scrapes(lines, seq![m]) == match first_headed(lines, m) {
            Some(j) => seq![scrape_of_line(lines[j])],
            None => Seq::<ScrapeModel>::empty(),
        },
{
    assert(seq![m].drop_last() =~= Seq::<Seq<char>>::empty());
    assert(seq![m].last() == m);
    assert(member_scrapes(lines, Seq::<Seq<char>>::empty()) == Seq::<ScrapeModel>::empty());
    match first_headed(lines, m) {
        Some(j) => {
            assert(Seq::<ScrapeModel>::empty().push(scrape_of_line(lines[j])) =~= seq![
                scrape_of_line(lines[j]),
            ]);
        },
        None => {},
    }
}

} // verus!
