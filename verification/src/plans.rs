//! Decisions that change the store: saving a scrape, combining scrapes and
//! deleting a scrape. Each decision yields the lines to write; reading the
//! store, asking the user and writing the file are left to the caller.
use vstd::prelude::*;

use crate::scrape::{
    all_plain, debug_list, debug_list_of, plain_list, plain_scrape_line, quote, scrape_line,
    scrape_line_of, storable, Scrape,
};
use crate::store::{
    all_names_defined, all_scrape_names, combined_line_ok, combined_members,
    combined_members_of, combined_word, fields_of, get_all_scrape_names, head, is_combined_line,
    is_combined_word, line_name, line_name_of, name_defined,
};
use crate::text::{
    append_chars, char_views, chars_eq, chars_of, has_char, is_plain, is_plain_char, is_space,
    join, lemma_chars_deep_view, lemma_has_char_concat, lemma_remove_char_absent,
    lemma_remove_char_concat, lemma_split_join, lemma_split_on_pieces_lack, lemma_split_on_prefix,
    lemma_trim_unchanged, remove_char, split_on,
    string_of, strings_of, strings_view, trim, trim_chars, trim_end, trim_start,
};

verus! {

/// Whether the strings of `v` include one with the view `x`.
pub fn contains_string(v: &Vec<String>, x: &String) -> (r: bool)
    ensures
        r == strings_view(v@).contains(x@),
{
    for i in 0..v.len()
        invariant
            forall|j: int| 0 <= j < i ==> #[trigger] v[j]@ != x@,
    {
        if v[i] == *x {
            assert(strings_view(v@)[i as int] == x@);
            return true;
        }
    }
    proof {
        if strings_view(v@).contains(x@) {
            let j = choose|j: int| 0 <= j < v.len() && strings_view(v@)[j] == x@;
            assert(v[j]@ == x@);
        }
    }
    false
}

// ---------------------------------------------------------------------------
// Saving
// ---------------------------------------------------------------------------

/// Why a scrape cannot be saved or combined under a name.
#[derive(Debug, Clone, Copy, PartialEq, Eq, Structural)]
pub enum NameError {
    /// Some saved scrape already has the name (in lower case).
    NameTaken,
    /// The name, in lower case, is the reserved word `combined`.
    ReservedName,
}

/// Saving `scrape` into the store: refused when a saved scrape is already
/// named as the scrape's name in lower case, or when that is `combined`;
/// otherwise the line to append.
pub fn plan_save(content: &str, scrape: &Scrape) -> (r: Result<String, NameError>)
    requires
        all_names_defined(content@),
    ensures
        match r {
            Ok(line) => {
                &&& !all_scrape_names(content@).contains(lowercase_of(scrape.name@))
                &&& lowercase_of(scrape.name@) != combined_word()
                &&& line@ == scrape_line(scrape@)
                &&& (storable(scrape@) ==> line@ == plain_scrape_line(scrape@))
            },
            Err(NameError::NameTaken) => all_scrape_names(content@).contains(
                lowercase_of(scrape.name@),
            ),
            Err(NameError::ReservedName) => {
                &&& !all_scrape_names(content@).contains(lowercase_of(scrape.name@))
                &&& lowercase_of(scrape.name@) == combined_word()
            },
        },
{
    let names = get_all_scrape_names(content);
    let lower = crate::text::to_lowercase(scrape.name.as_str());
    if contains_string(&names, &lower) {
        return Err(NameError::NameTaken);
    }
    let lower_chars = chars_of(lower.as_str());
    if is_combined_word(&lower_chars) {
        return Err(NameError::ReservedName);
    }
    Ok(scrape_line_of(scrape))
}

/// The lower-case form of a name (`str::to_lowercase`).
pub open spec fn lowercase_of(s: Seq<char>) -> Seq<char> {
    crate::text::lowercase(s)
}

// ---------------------------------------------------------------------------
// Combining
// ---------------------------------------------------------------------------

/// Why scrapes cannot be combined.
#[derive(Debug, PartialEq, Eq)]
pub enum CombineError {
    /// The name is taken or reserved.
    Name(NameError),
    /// No plain scrape has this name.
    UnknownScrape(String),
    /// This name belongs to a combined scrape, which cannot be a member.
    CombinedMember(String),
}

/// Some plain (not combined) line of the file starts with `x`.
pub open spec fn has_plain_name(lines: Seq<Seq<char>>, x: Seq<char>) -> bool {
    exists|i: int| 0 <= i < lines.len() && !is_combined_line(#[trigger] lines[i]) && head(lines[i]) == x
}

/// Some combined line of the file is named `x`.
pub open spec fn has_combined_name(lines: Seq<Seq<char>>, x: Seq<char>) -> bool {
    exists|i: int|
        0 <= i < lines.len() && is_combined_line(#[trigger] lines[i]) && split_on(lines[i], ';')[1]
            == x
}

/// Every line of the file has a name.
pub open spec fn lines_named(lines: Seq<Seq<char>>) -> bool {
    forall|i: int| 0 <= i < lines.len() ==> name_defined(#[trigger] lines[i])
}

/// The problem with the first member that cannot join, if any: a name that
/// no plain scrape has (`true`), or the name of a combined scrape (`false`).
pub open spec fn member_problem(lines: Seq<Seq<char>>, ms: Seq<Seq<char>>) -> Option<(bool, Seq<char>)>
    decreases ms.len(),
{
    if ms.len() == 0 {
        None
    } else if !has_plain_name(lines, ms[0]) {
        Some((true, ms[0]))
    } else if has_combined_name(lines, ms[0]) {
        Some((false, ms[0]))
    } else {
        member_problem(lines, ms.drop_first())
    }
}

/// The line that saves a combined scrape: `combined;<name>;<members>`.
pub open spec fn combined_line(name: Seq<char>, members: Seq<Seq<char>>) -> Seq<char> {
    combined_word() + seq![';'] + name + seq![';'] + debug_list(members)
}

/// Whether a plain line of the file starts with `x`.
fn has_plain_name_of(lines: &Vec<Vec<char>>, x: &Vec<char>) -> (r: bool)
    ensures
        r == has_plain_name(char_views(lines@), x@),
{
    let ghost ls = char_views(lines@);
    for i in 0..lines.len()
        invariant
            ls == char_views(lines@),
            forall|j: int| 0 <= j < i ==> !(!is_combined_line(#[trigger] ls[j]) && head(ls[j]) == x@),
    {
        assert(lines[i as int]@ == ls[i as int]);
        let parts = fields_of(&lines[i]);
        if !is_combined_word(&parts[0]) && chars_eq(&parts[0], x) {
            return true;
        }
    }
    false
}

/// Whether a combined line of the file is named `x`.
fn has_combined_name_of(lines: &Vec<Vec<char>>, x: &Vec<char>) -> (r: bool)
    requires
        lines_named(char_views(lines@)),
    ensures
        r == has_combined_name(char_views(lines@), x@),
{
    let ghost ls = char_views(lines@);
    for i in 0..lines.len()
        invariant
            ls == char_views(lines@),
            lines_named(ls),
            forall|j: int|
                0 <= j < i ==> !(is_combined_line(#[trigger] ls[j]) && split_on(ls[j], ';')[1]
                    == x@),
    {
        assert(lines[i as int]@ == ls[i as int]);
        assert(name_defined(ls[i as int]));
        let parts = fields_of(&lines[i]);
        if is_combined_word(&parts[0]) && chars_eq(&parts[1], x) {
            return true;
        }
    }
    false
}

/// Whether every line of the file has a name (what combining and deleting
/// need).
pub fn lines_are_named(lines: &Vec<String>) -> (r: bool)
    ensures
        r == lines_named(strings_view(lines@)),
{
    for i in 0..lines.len()
        invariant
            forall|j: int| 0 <= j < i ==> name_defined(#[trigger] strings_view(lines@)[j]),
    {
        let l = chars_of(lines[i].as_str());
        assert(l@ == strings_view(lines@)[i as int]);
        if !crate::store::line_has_name(&l) {
            return false;
        }
    }
    true
}

/// The characters of each line.
pub fn lines_chars(lines: &Vec<String>) -> (r: Vec<Vec<char>>)
    ensures
        char_views(r@) == strings_view(lines@),
{
    let mut r: Vec<Vec<char>> = Vec::new();
    for i in 0..lines.len()
        invariant
            r.len() == i,
            char_views(r@) == strings_view(lines@).take(i as int),
    {
        let c = chars_of(lines[i].as_str());
        let ghost old_r = r@;
        r.push(c);
        assert(r@ == old_r.push(c));
        assert(strings_view(lines@)[i as int] == lines[i as int]@);
        assert(char_views(r@).len() == i + 1);
        assert(char_views(r@)[i as int] == c@);
        assert forall|j: int| 0 <= j < i implies char_views(r@)[j] == char_views(old_r)[j] by {
            assert(r@[j] == old_r[j]);
        }
        assert(char_views(r@) =~= strings_view(lines@).take(i + 1));
    }
    assert(strings_view(lines@).take(lines.len() as int) =~= strings_view(lines@));
    r
}

/// Combining the saved scrapes `scrapes` under `name`, given the lines of the
/// store: refused when a plain or combined scrape already has the name in
/// lower case, or when that is `combined`; then refused at the first member
/// that is not a plain scrape, or that is a combined scrape; otherwise the
/// line to append.
pub fn plan_combine(lines: &Vec<String>, name: &str, scrapes: &Vec<String>) -> (r: Result<
    String,
    CombineError,
>)
    requires
        lines_named(strings_view(lines@)),
    ensures
        ({
            let ls = strings_view(lines@);
            let lower = lowercase_of(name@);
            let taken = has_plain_name(ls, lower) || has_combined_name(ls, lower);
            match r {
                Ok(line) => {
                    &&& !taken
                    &&& lower != combined_word()
                    &&& member_problem(ls, strings_view(scrapes@)) is None
                    &&& line@ == combined_line(name@, strings_view(scrapes@))
                    &&& (all_plain(strings_view(scrapes@)) ==> line@ == plain_combined_line(
                        name@,
                        strings_view(scrapes@),
                    ))
                    &&& (!has_char(name@, ';') && members_storable(strings_view(scrapes@))
                        ==> line_name(line@) == name@ && crate::store::combined_members(line@)
                        == strings_view(scrapes@))
                },
                Err(CombineError::Name(NameError::NameTaken)) => taken,
                Err(CombineError::Name(NameError::ReservedName)) => !taken && lower
                    == combined_word(),
                Err(CombineError::UnknownScrape(s)) => !taken && lower != combined_word()
                    && member_problem(ls, strings_view(scrapes@)) == Some((true, s@)),
                Err(CombineError::CombinedMember(s)) => !taken && lower != combined_word()
                    && member_problem(ls, strings_view(scrapes@)) == Some((false, s@)),
            }
        }),
{
    let ls = lines_chars(lines);
    let lower = crate::text::to_lowercase(name);
    let lower_chars = chars_of(lower.as_str());
    if has_plain_name_of(&ls, &lower_chars) || has_combined_name_of(&ls, &lower_chars) {
        return Err(CombineError::Name(NameError::NameTaken));
    }
    if is_combined_word(&lower_chars) {
        return Err(CombineError::Name(NameError::ReservedName));
    }
    let ghost ms = strings_view(scrapes@);
    assert(ms.skip(0) =~= ms);
    for i in 0..scrapes.len()
        invariant
            char_views(ls@) == strings_view(lines@),
            lines_named(char_views(ls@)),
            ms == strings_view(scrapes@),
            lower_chars@ == lowercase_of(name@),
            !(has_plain_name(strings_view(lines@), lowercase_of(name@)) || has_combined_name(
                strings_view(lines@),
                lowercase_of(name@),
            )),
            lowercase_of(name@) != combined_word(),
            member_problem(char_views(ls@), ms) == member_problem(
                char_views(ls@),
                ms.skip(i as int),
            ),
    {
        let s = chars_of(scrapes[i].as_str());
        proof {
            assert(ms.skip(i as int)[0] == s@);
            assert(ms.skip(i as int).drop_first() =~= ms.skip(i + 1));
        }
        if !has_plain_name_of(&ls, &s) {
            let bad = scrapes[i].clone();
            assert(bad@ == s@);
            assert(ms.skip(i as int).len() > 0);
            assert(member_problem(char_views(ls@), ms.skip(i as int)) == Some((true, s@)));
            return Err(CombineError::UnknownScrape(bad));
        }
        if has_combined_name_of(&ls, &s) {
            let bad = scrapes[i].clone();
            assert(bad@ == s@);
            assert(ms.skip(i as int).len() > 0);
            assert(member_problem(char_views(ls@), ms.skip(i as int)) == Some((false, s@)));
            return Err(CombineError::CombinedMember(bad));
        }
    }
    assert(ms.skip(scrapes.len() as int) =~= Seq::<Seq<char>>::empty());
    let mut line = vec!['c', 'o', 'm', 'b', 'i', 'n', 'e', 'd', ';'];
    let n = chars_of(name);
    append_chars(&mut line, &n);
    line.push(';');
    let l = debug_list_of(scrapes);
    append_chars(&mut line, &l);
    assert(line@ =~= combined_line(name@, strings_view(scrapes@)));
    proof {
        if all_plain(strings_view(scrapes@)) {
            assert(line@ =~= plain_combined_line(name@, strings_view(scrapes@)));
        }
        if !has_char(name@, ';') && members_storable(strings_view(scrapes@)) {
            assert(all_plain(strings_view(scrapes@))) by {
                assert forall|i: int| 0 <= i < scrapes.len() implies is_plain(
                    #[trigger] strings_view(scrapes@)[i],
                ) by {
                    assert(member_storable(strings_view(scrapes@)[i]));
                }
            }
            lemma_combined_line_roundtrip(name@, strings_view(scrapes@));
        }
    }
    Ok(string_of(line.as_slice()))
}

/// The combined line when every member is plain.
pub open spec fn plain_combined_line(name: Seq<char>, members: Seq<Seq<char>>) -> Seq<char> {
    combined_word() + seq![';'] + name + seq![';'] + plain_list(members)
}

/// A member name that a combined line gives back: plain, trimmed, and free
/// of `;`, `,`, `[` and `]`.
pub open spec fn member_storable(e: Seq<char>) -> bool {
    &&& is_plain(e)
    &&& !has_char(e, ';')
    &&& !has_char(e, ',')
    &&& !has_char(e, '[')
    &&& !has_char(e, ']')
    &&& trim(e) == e
}

/// Members that a combined line gives back: at least one, each storable.
pub open spec fn members_storable(ms: Seq<Seq<char>>) -> bool {
    ms.len() >= 1 && forall|i: int| 0 <= i < ms.len() ==> member_storable(#[trigger] ms[i])
}

proof fn lemma_lacks_literal(s: Seq<char>, c: char)
    requires
        forall|i: int| 0 <= i < s.len() ==> s[i] != c,
    ensures
        !has_char(s, c),
{
}

/// A combined line names the combined scrape and lists back its members.
pub proof fn lemma_combined_line_roundtrip(name: Seq<char>, ms: Seq<Seq<char>>)
    requires
        !has_char(name, ';'),
        members_storable(ms),
    ensures
        is_combined_line(plain_combined_line(name, ms)),
        name_defined(plain_combined_line(name, ms)),
        line_name(plain_combined_line(name, ms)) == name,
        crate::store::combined_line_ok(plain_combined_line(name, ms)),
        crate::store::combined_members(plain_combined_line(name, ms)) == ms,
{
    let l = plain_combined_line(name, ms);
    let pl = plain_list(ms);
    assert(forall|i: int| 0 <= i < ms.len() ==> #[trigger] crate::scrape::storable_item(ms[i]))
        by {
        assert forall|i: int| 0 <= i < ms.len() implies #[trigger] crate::scrape::storable_item(
            ms[i],
        ) by {
            assert(member_storable(ms[i]));
            assert(crate::text::no_pair(ms[i], ',', ' ')) by {
                assert forall|k: int| 0 <= k < ms[i].len() - 1 implies !(#[trigger] ms[i][k]
                    == ',' && ms[i][k + 1] == ' ') by {
                    if ms[i][k] == ',' {
                        assert(has_char(ms[i], ','));
                    }
                }
            }
        }
    }
    crate::scrape::lemma_plain_list_facts(ms);
    let fields = seq![combined_word(), name, pl];
    lemma_lacks_literal(combined_word(), ';');
    assert(fields.drop_last() =~= seq![combined_word(), name]);
    assert(seq![combined_word(), name].drop_last() =~= seq![combined_word()]);
    assert(join(seq![combined_word()], seq![';']) == combined_word());
    assert(join(seq![combined_word(), name], seq![';']) == combined_word() + seq![';'] + name);
    assert(l =~= join(fields, seq![';']));
    assert forall|i: int| 0 <= i < fields.len() implies !has_char(#[trigger] fields[i], ';') by {}
    lemma_split_join(fields, ';');
    assert(split_on(l, ';') == fields);
    // The list field without brackets and quotes is the members joined by `, `.
    let qs = ms.map_values(|e: Seq<char>| quote(e));
    let body = join(qs, seq![',', ' ']);
    assert(pl == seq!['['] + body + seq![']']);
    assert forall|i: int| 0 <= i < qs.len() implies !has_char(#[trigger] qs[i], '[') && !has_char(
        qs[i],
        ']',
    ) by {
        assert(member_storable(ms[i]));
        lemma_lacks_literal(seq!['"'], '[');
        lemma_lacks_literal(seq!['"'], ']');
        lemma_has_char_concat(seq!['"'], ms[i], '[');
        lemma_has_char_concat(seq!['"'] + ms[i], seq!['"'], '[');
        lemma_has_char_concat(seq!['"'], ms[i], ']');
        lemma_has_char_concat(seq!['"'] + ms[i], seq!['"'], ']');
    }
    lemma_lacks_literal(seq![',', ' '], '[');
    lemma_lacks_literal(seq![',', ' '], ']');
    lemma_lacks_literal(seq![',', ' '], '"');
    crate::text::lemma_join_lacks_char(qs, seq![',', ' '], '[');
    crate::text::lemma_join_lacks_char(qs, seq![',', ' '], ']');
    lemma_lacks_literal(seq![']'], '[');
    lemma_remove_char_concat(seq!['['], body, '[');
    lemma_remove_char_concat(seq!['['] + body, seq![']'], '[');
    lemma_remove_char_absent(body, '[');
    lemma_remove_char_absent(seq![']'], '[');
    crate::text::lemma_remove_char_single('[');
    let a = remove_char(pl, '[');
    assert(a =~= body + seq![']']);
    lemma_remove_char_concat(body, seq![']'], ']');
    lemma_remove_char_absent(body, ']');
    crate::text::lemma_remove_char_single(']');
    let b = remove_char(a, ']');
    assert(b =~= body);
    crate::text::lemma_remove_char_join(qs, seq![',', ' '], '"');
    lemma_remove_char_absent(seq![',', ' '], '"');
    assert forall|i: int| 0 <= i < qs.len() implies remove_char(#[trigger] qs[i], '"') == ms[i] by {
        assert(member_storable(ms[i]));
        assert(!has_char(ms[i], '"')) by {
            if has_char(ms[i], '"') {
                let j = choose|j: int| 0 <= j < ms[i].len() && ms[i][j] == '"';
                assert(is_plain_char(ms[i][j]));
            }
        }
        let q = seq!['"'];
        crate::text::lemma_remove_char_single('"');
        lemma_remove_char_concat(q, ms[i], '"');
        lemma_remove_char_concat(q + ms[i], q, '"');
        lemma_remove_char_absent(ms[i], '"');
    }
    assert(qs.map_values(|p: Seq<char>| remove_char(p, '"')) =~= ms);
    let u = crate::store::unwrapped_members(l);
    assert(u == join(ms, seq![',', ' ']));
    // Split at `,`: the members, each but the first after a space.
    crate::text::lemma_join_pair_as_single(ms, ',', ' ');
    let ps = crate::text::after_first(ms, ' ');
    assert forall|i: int| 0 <= i < ps.len() implies !has_char(#[trigger] ps[i], ',') by {
        assert(member_storable(ms[i]));
        if i > 0 {
            lemma_lacks_literal(seq![' '], ',');
            lemma_has_char_concat(seq![' '], ms[i], ',');
        }
    }
    lemma_split_join(ps, ',');
    assert forall|i: int| 0 <= i < ms.len() implies remove_char(trim(#[trigger] ps[i]), ',')
        == ms[i] by {
        assert(member_storable(ms[i]));
        if i > 0 {
            crate::text::lemma_trim_after_space(ms[i]);
        }
        lemma_remove_char_absent(ms[i], ',');
    }
    assert(crate::store::combined_members(l) =~= ms);
}

// ---------------------------------------------------------------------------
// Deleting
// ---------------------------------------------------------------------------

/// The members of a combined line other than `name`.
pub open spec fn members_without(line: Seq<char>, name: Seq<char>) -> Seq<Seq<char>> {
    combined_members(line).filter(|m: Seq<char>| m != name)
}

/// A combined line rewritten without the member `name`.
pub open spec fn updated_combined_line(line: Seq<char>, name: Seq<char>) -> Seq<char> {
    combined_line(split_on(line, ';')[1], members_without(line, name))
}

/// The line `line` (a combined line, or any line with three fields), which
/// lists `name`, rewritten as a combined line without that member: the same
/// combined name and the remaining members.
///
/// The rewritten line no longer lists `name`, whenever its members are plain
/// and `name` is not empty.
pub fn updated_combined_line_of(line: &Vec<char>, name: &Vec<char>) -> (r: Vec<char>)
    requires
        split_on(line@, ';').len() >= 3,
    ensures
        r@ == updated_combined_line(line@, name@),
        name_defined(r@),
        line_name(r@) == split_on(line@, ';')[1],
        all_plain(members_without(line@, name@)) && name@.len() > 0 ==> !combined_members(
            r@,
        ).contains(name@),
{
    let parts = fields_of(line);
    let members = combined_members_of(line);
    let ghost ms = combined_members(line@);
    let mut kept: Vec<String> = Vec::new();
    let ghost pred = |m: Seq<char>| m != name@;
    for i in 0..members.len()
        invariant
            members.len() == ms.len(),
            forall|j: int| 0 <= j < members.len() ==> #[trigger] members[j]@ == ms[j],
            pred == (|m: Seq<char>| m != name@),
            strings_view(kept@) == ms.take(i as int).filter(pred),
    {
        proof {
            assert(ms.take(i + 1).drop_last() =~= ms.take(i as int));
            reveal_with_fuel(Seq::filter, 1);
        }
        if !chars_eq(&members[i], name) {
            kept.push(string_of(members[i].as_slice()));
        }
        assert(strings_view(kept@) =~= ms.take(i + 1).filter(pred));
    }
    assert(ms.take(members.len() as int) =~= ms);
    let mut r = vec!['c', 'o', 'm', 'b', 'i', 'n', 'e', 'd', ';'];
    append_chars(&mut r, &parts[1]);
    r.push(';');
    let l = debug_list_of(&kept);
    append_chars(&mut r, &l);
    proof {
        let n = split_on(line@, ';')[1];
        lemma_split_on_pieces_lack(line@, ';');
        assert(!has_char(n, ';'));
        assert(r@ =~= updated_combined_line(line@, name@));
        let rest = n + seq![';'] + debug_list(members_without(line@, name@));
        assert(r@ =~= combined_word() + seq![';'] + rest);
        lemma_lacks_literal(combined_word(), ';');
        lemma_split_on_prefix(combined_word(), ';', rest);
        lemma_split_on_prefix(n, ';', debug_list(members_without(line@, name@)));
        assert(split_on(r@, ';')[0] == combined_word());
        assert(split_on(r@, ';')[1] == n);
        let w = members_without(line@, name@);
        if all_plain(w) && name@.len() > 0 {
            crate::store::lemma_combined_members_shape(line@);
            if w.len() == 0 {
                lemma_combined_line_no_members(n);
                assert(r@ =~= plain_combined_line(n, w));
                assert(combined_members(r@) == seq![Seq::<char>::empty()]);
                assert(!combined_members(r@).contains(name@)) by {
                    if combined_members(r@).contains(name@) {
                        let k = choose|k: int|
                            0 <= k < combined_members(r@).len() && combined_members(r@)[k]
                                == name@;
                    }
                }
            } else {
                assert forall|k: int| 0 <= k < w.len() implies member_storable(#[trigger] w[k]) by {
                    assert(w.contains(w[k]));
                    ms.lemma_filter_contains_rev(pred, w[k]);
                    let j = choose|j: int| 0 <= j < ms.len() && ms[j] == w[k];
                    assert(is_plain(w[k]));
                }
                assert(r@ =~= plain_combined_line(n, w));
                lemma_combined_line_roundtrip(n, w);
                assert(!w.contains(name@)) by {
                    if w.contains(name@) {
                        let k = choose|k: int| 0 <= k < w.len() && w[k] == name@;
                        ms.lemma_filter_pred(pred, k);
                    }
                }
            }
        }
    }
    r
}

/// A combined line with no members lists the one empty name.
/// A combined scrape saved anywhere in the store is found as the scrapes
/// of its members, in member order (a member that starts no line is left
/// out): given clean lines, the first line named `name` being the combined
/// line of `name` and storable members, every line before it named, and a
/// name without `;`. It can be read when its members' lines can.
pub proof fn lemma_combined_scrape_found(ls: Seq<Seq<char>>, p: int, name: Seq<char>, ms: Seq<Seq<char>>)
    requires
        forall|i: int| 0 <= i < ls.len() ==> crate::store::clean_line(#[trigger] ls[i]),
        0 <= p < ls.len(),
        ls[p] == plain_combined_line(name, ms),
        forall|j: int| 0 <= j < p ==> name_defined(#[trigger] ls[j]) && line_name(ls[j]) != name,
        !has_char(name, ';'),
        members_storable(ms),
    ensures
        crate::store::saved_scrape(crate::store::store_text(ls), name) == Some(
            crate::store::member_scrapes(ls, ms),
        ),
        crate::store::members_readable(ls, ms) ==> crate::store::saved_scrape_readable(
            crate::store::store_text(ls),
            name,
        ),
{
    crate::store::lemma_store_lines_of_text(ls);
    lemma_combined_line_roundtrip(name, ms);
    assert forall|i: int|
        #![trigger name_defined(ls[i])]
        0 <= i < ls.len() && (forall|j: int| 0 <= j < i ==> line_name(#[trigger] ls[j]) != name)
            implies name_defined(ls[i]) by {
        if i > p {
            assert(line_name(ls[p]) == name);
        }
    }
    assert(crate::store::names_defined_until(ls, name));
    assert(crate::store::is_first_named(ls, name, p));
    crate::store::lemma_first_named_unique(ls, name, p);
}

/// With no member problem, every member starts a plain line of the file.
proof fn lemma_no_member_problem(lines: Seq<Seq<char>>, ms: Seq<Seq<char>>)
    requires
        member_problem(lines, ms) is None,
    ensures
        forall|k: int| 0 <= k < ms.len() ==> has_plain_name(lines, #[trigger] ms[k]),
    decreases ms.len(),
{
    if ms.len() > 0 {
        lemma_no_member_problem(lines, ms.drop_first());
        assert forall|k: int| 0 <= k < ms.len() implies has_plain_name(lines, #[trigger] ms[k]) by {
            if k > 0 {
                assert(ms[k] == ms.drop_first()[k - 1]);
            }
        }
    }
}

/// A combined scrape saved at the end of the store is read back as the
/// scrapes of its members, in member order, and its name is listed after the
/// names already there: given clean, named lines none of
/// which is named as the combined scrape, a name without `;` or line break,
/// storable members that the combine check lets through, and member lines
/// that can be read.
pub proof fn lemma_combined_scrape_read_back(ls: Seq<Seq<char>>, name: Seq<char>, ms: Seq<Seq<char>>)
    requires
        forall|i: int|
            0 <= i < ls.len() ==> crate::store::clean_line(#[trigger] ls[i]) && name_defined(ls[i])
                && line_name(ls[i]) != name,
        !has_char(name, ';'),
        !has_char(name, '\n'),
        members_storable(ms),
        member_problem(ls, ms) is None,
        crate::store::members_readable(ls, ms),
    ensures
        crate::store::saved_scrape_readable(
            crate::store::store_text(ls.push(plain_combined_line(name, ms))),
            name,
        ),
        crate::store::saved_scrape(
            crate::store::store_text(ls.push(plain_combined_line(name, ms))),
            name,
        ) == Some(crate::store::member_scrapes(ls, ms)),
        crate::store::all_scrape_names(
            crate::store::store_text(ls.push(plain_combined_line(name, ms))),
        ) == ls.map_values(|l: Seq<char>| line_name(l)).push(name),
{
    let line = plain_combined_line(name, ms);
    let all = ls.push(line);
    lemma_combined_line_roundtrip(name, ms);
    // The combined line is clean.
    assert(crate::scrape::all_plain(ms)) by {
        assert forall|i: int| 0 <= i < ms.len() implies is_plain(#[trigger] ms[i]) by {
            assert(member_storable(ms[i]));
        }
    }
    crate::store::lemma_plain_list_one_line(ms);
    let pl = plain_list(ms);
    assert(!has_char(combined_word() + seq![';'], '\n')) by {
        let w = combined_word() + seq![';'];
        if has_char(w, '\n') {
            let k = choose|k: int| 0 <= k < w.len() && w[k] == '\n';
        }
    }
    lemma_has_char_concat(combined_word() + seq![';'], name, '\n');
    lemma_has_char_concat(combined_word() + seq![';'] + name, seq![';'], '\n');
    lemma_has_char_concat(combined_word() + seq![';'] + name + seq![';'], pl, '\n');
    assert(!has_char(seq![';'], '\n'));
    assert(line[0] == 'c');
    assert(line.last() == pl.last());
    assert(pl.last() == ']');
    assert(crate::store::clean_line(line));
    assert forall|i: int| 0 <= i < all.len() implies crate::store::clean_line(#[trigger] all[i]) by {
        if i < ls.len() {
            assert(all[i] == ls[i]);
        }
    }
    crate::store::lemma_store_lines_of_text(all);
    // The combined line is the first named so.
    let n = ls.len() as int;
    assert forall|i: int| 0 <= i < all.len() implies #[trigger] name_defined(all[i]) by {
        if i < ls.len() {
            assert(all[i] == ls[i]);
        }
    }
    assert(crate::store::names_defined_until(all, name));
    assert forall|j: int| 0 <= j < n implies line_name(#[trigger] all[j]) != name by {
        assert(all[j] == ls[j]);
    }
    assert(crate::store::is_first_named(all, name, n));
    crate::store::lemma_first_named_unique(all, name, n);
    // Its members read the same scrapes as before it was added.
    lemma_no_member_problem(ls, ms);
    assert forall|k: int| 0 <= k < ms.len() implies crate::store::some_line_headed(
        ls,
        #[trigger] ms[k],
    ) by {
        assert(has_plain_name(ls, ms[k]));
        let i = choose|i: int| 0 <= i < ls.len() && !is_combined_line(#[trigger] ls[i]) && head(ls[i]) == ms[k];
        assert(head(ls[i]) == ms[k]);
    }
    crate::store::lemma_member_scrapes_push(ls, line, ms);
    assert(crate::store::all_scrape_names(crate::store::store_text(all)) =~= ls.map_values(
        |l: Seq<char>| line_name(l),
    ).push(name));
}

proof fn lemma_combined_line_no_members(n: Seq<char>)
    requires
        !has_char(n, ';'),
    ensures
        combined_members(plain_combined_line(n, Seq::empty())) == seq![Seq::<char>::empty()],
{
    let l = plain_combined_line(n, Seq::empty());
    let pl = plain_list(Seq::<Seq<char>>::empty());
    assert(pl =~= seq!['[', ']']);
    assert(!has_char(pl, ';')) by {
        if has_char(pl, ';') {
            let j = choose|j: int| 0 <= j < pl.len() && pl[j] == ';';
        }
    }
    let fields = seq![combined_word(), n, pl];
    lemma_lacks_literal(combined_word(), ';');
    assert(fields.drop_last() =~= seq![combined_word(), n]);
    assert(seq![combined_word(), n].drop_last() =~= seq![combined_word()]);
    assert(join(seq![combined_word()], seq![';']) == combined_word());
    assert(join(seq![combined_word(), n], seq![';']) == combined_word() + seq![';'] + n);
    assert(l =~= join(fields, seq![';']));
    assert forall|i: int| 0 <= i < fields.len() implies !has_char(#[trigger] fields[i], ';') by {}
    lemma_split_join(fields, ';');
    lemma_remove_char_concat(seq!['['], seq![']'], '[');
    crate::text::lemma_remove_char_single('[');
    crate::text::lemma_remove_char_single(']');
    lemma_remove_char_absent(seq![']'], '[');
    assert(seq!['['] + seq![']'] =~= pl);
    assert(remove_char(pl, '[') =~= seq![']']);
    assert(remove_char(remove_char(pl, '['), ']') =~= Seq::<char>::empty());
    assert(remove_char(Seq::<char>::empty(), '"') == Seq::<char>::empty());
    let u = crate::store::unwrapped_members(l);
    assert(u =~= Seq::<char>::empty());
    assert(split_on(u, ',') =~= seq![Seq::<char>::empty()]);
    lemma_trim_unchanged(Seq::<char>::empty());
    assert(remove_char(Seq::<char>::empty(), ',') == Seq::<char>::empty());
    assert(combined_members(l) =~= seq![Seq::<char>::empty()]);
}

/// What deleting a scrape comes to.
pub enum DeletePlan {
    /// No line of the file is named so: nothing changes.
    NotFound,
    /// The lines to write back to the file.
    Rewrite(Vec<String>),
    /// Combined scrapes use the scrape: ask with `message`, and on consent
    /// write back `lines`.
    Confirm { message: String, lines: Vec<String> },
}

/// Some line of the file is named `name`.
pub open spec fn found_named(lines: Seq<Seq<char>>, name: Seq<char>) -> bool {
    exists|i: int| 0 <= i < lines.len() && line_name(#[trigger] lines[i]) == name
}

/// Some line named `name` is a plain scrape (its trimmed first field is not
/// `combined`).
pub open spec fn plain_named(lines: Seq<Seq<char>>, name: Seq<char>) -> bool {
    exists|i: int|
        0 <= i < lines.len() && line_name(#[trigger] lines[i]) == name && trim(head(lines[i]))
            != combined_word()
}

/// The lines that are not named `name`, in order.
pub open spec fn kept_lines(lines: Seq<Seq<char>>, name: Seq<char>) -> Seq<Seq<char>> {
    lines.filter(|l: Seq<char>| line_name(l) != name)
}

/// The combined lines of the store to rewrite: those of the store's text
/// (its lines trimmed) that use `name`, when a plain scrape of that name is
/// deleted from the file.
pub open spec fn lines_to_update(lines: Seq<Seq<char>>, content: Seq<char>, name: Seq<char>) -> Seq<
    Seq<char>,
> {
    if plain_named(lines, name) {
        crate::store::combined_lines_using(content, name)
    } else {
        Seq::empty()
    }
}

/// The rewritten combined lines.
pub open spec fn updated_lines(to_update: Seq<Seq<char>>, name: Seq<char>) -> Seq<Seq<char>> {
    to_update.map_values(|l: Seq<char>| updated_combined_line(l, name))
}

/// `front`, then each line of `rest` whose name no earlier line has.
pub open spec fn merge_lines(front: Seq<Seq<char>>, rest: Seq<Seq<char>>) -> Seq<Seq<char>>
    decreases rest.len(),
{
    if rest.len() == 0 {
        front
    } else {
        let prev = merge_lines(front, rest.drop_last());
        if exists|j: int| 0 <= j < prev.len() && line_name(#[trigger] prev[j]) == line_name(
            rest.last(),
        ) {
            prev
        } else {
            prev.push(rest.last())
        }
    }
}

/// The lines to write back once `name` is deleted.
pub open spec fn lines_after_delete(lines: Seq<Seq<char>>, content: Seq<char>, name: Seq<char>) -> Seq<
    Seq<char>,
> {
    merge_lines(
        updated_lines(lines_to_update(lines, content, name), name),
        kept_lines(lines, name),
    )
}

/// The start of the question asked before combined scrapes are rewritten.
pub open spec fn delete_question_head() -> Seq<char> {
    "The following combined scrapes are using this scrape: "@
}

/// The end of the question asked before combined scrapes are rewritten.
pub open spec fn delete_question_tail() -> Seq<char> {
    "\nAre you sure you want to delete the scrape?"@
}

/// The names of the combined lines, each after a line break.
pub open spec fn listed_names(ls: Seq<Seq<char>>) -> Seq<char>
    decreases ls.len(),
{
    if ls.len() == 0 {
        Seq::empty()
    } else {
        listed_names(ls.drop_last()) + seq!['\n'] + split_on(ls.last(), ';')[1]
    }
}

/// The question asked before the combined lines `ls` are rewritten.
pub open spec fn delete_question(ls: Seq<Seq<char>>) -> Seq<char> {
    delete_question_head() + listed_names(ls) + delete_question_tail()
}

/// Whether some line of the file named `name` is a plain scrape (when it
/// is, deleting it looks up the combined scrapes that use it).
pub fn names_plain_scrape(lines: &Vec<String>, name: &str) -> (r: bool)
    requires
        lines_named(strings_view(lines@)),
    ensures
        r == plain_named(strings_view(lines@), name@),
{
    let ls = lines_chars(lines);
    let name_c = chars_of(name);
    let ghost lv = strings_view(lines@);
    for i in 0..ls.len()
        invariant
            lv == char_views(ls@),
            lv == strings_view(lines@),
            name_c@ == name@,
            lines_named(lv),
            forall|j: int|
                0 <= j < i ==> !(line_name(#[trigger] lv[j]) == name@ && trim(head(lv[j]))
                    != combined_word()),
    {
        assert(ls[i as int]@ == lv[i as int]);
        assert(name_defined(lv[i as int]));
        let n = line_name_of(&ls[i]);
        if chars_eq(&n, &name_c) {
            let parts = fields_of(&ls[i]);
            let h = trim_chars(&parts[0]);
            if !is_combined_word(&h) {
                assert(h@ == trim(head(lv[i as int])));
                assert(line_name(lv[i as int]) == name@);
                return true;
            }
        }
    }
    false
}

/// Whether some line of `acc` is named `n`.
fn any_named(acc: &Vec<Vec<char>>, n: &Vec<char>) -> (r: bool)
    requires
        lines_named(char_views(acc@)),
    ensures
        r == exists|j: int| 0 <= j < acc.len() && line_name(#[trigger] char_views(acc@)[j]) == n@,
{
    let ghost av = char_views(acc@);
    for j in 0..acc.len()
        invariant
            av == char_views(acc@),
            lines_named(av),
            forall|k: int| 0 <= k < j ==> line_name(#[trigger] av[k]) != n@,
    {
        assert(acc[j as int]@ == av[j as int]);
        assert(name_defined(av[j as int]));
        let m = line_name_of(&acc[j]);
        if chars_eq(&m, n) {
            return true;
        }
    }
    false
}

proof fn lemma_merge_from(front: Seq<Seq<char>>, rest: Seq<Seq<char>>, l: Seq<char>)
    requires
        merge_lines(front, rest).contains(l),
    ensures
        front.contains(l) || rest.contains(l),
    decreases rest.len(),
{
    if rest.len() > 0 {
        let prev = merge_lines(front, rest.drop_last());
        if prev.contains(l) {
            lemma_merge_from(front, rest.drop_last(), l);
            if rest.drop_last().contains(l) {
                let k = choose|k: int| 0 <= k < rest.drop_last().len() && rest.drop_last()[k] == l;
                assert(rest[k] == l);
            }
        } else {
            assert(rest[rest.len() - 1] == l);
        }
    }
}

/// Every line of `rest` has its name among the merged lines.
proof fn lemma_merge_covers(front: Seq<Seq<char>>, rest: Seq<Seq<char>>)
    ensures
        forall|x: int|
            0 <= x < rest.len() ==> exists|y: int|
                0 <= y < merge_lines(front, rest).len() && line_name(
                    #[trigger] merge_lines(front, rest)[y],
                ) == line_name(#[trigger] rest[x]),
    decreases rest.len(),
{
    if rest.len() > 0 {
        let init = rest.drop_last();
        lemma_merge_covers(front, init);
        let prev = merge_lines(front, init);
        let m = merge_lines(front, rest);
        assert forall|y: int| 0 <= y < prev.len() implies #[trigger] m[y] == prev[y] by {}
        assert forall|x: int| 0 <= x < rest.len() implies exists|y: int|
            0 <= y < m.len() && line_name(#[trigger] m[y]) == line_name(#[trigger] rest[x]) by {
            if x < init.len() {
                assert(rest[x] == init[x]);
                let y = choose|y: int|
                    0 <= y < prev.len() && line_name(#[trigger] prev[y]) == line_name(init[x]);
                assert(m[y] == prev[y]);
            } else if exists|j: int|
                0 <= j < prev.len() && line_name(#[trigger] prev[j]) == line_name(rest.last()) {
                let y = choose|y: int|
                    0 <= y < prev.len() && line_name(#[trigger] prev[y]) == line_name(rest.last());
                assert(m[y] == prev[y]);
            } else {
                assert(m[prev.len() as int] == rest.last());
            }
        }
    }
}

/// The lines kept when `name` is deleted are exactly the lines of the file
/// whose name is not `name`.
pub proof fn lemma_kept_lines_exact(lines: Seq<Seq<char>>, name: Seq<char>)
    ensures
        forall|l: Seq<char>|
            #[trigger] kept_lines(lines, name).contains(l) <==> (lines.contains(l) && line_name(l)
                != name),
{
    let pred = |l: Seq<char>| line_name(l) != name;
    assert forall|l: Seq<char>|
        #[trigger] kept_lines(lines, name).contains(l) <==> (lines.contains(l) && line_name(l)
            != name) by {
        if kept_lines(lines, name).contains(l) {
            lines.lemma_filter_contains_rev(pred, l);
            let k = choose|k: int|
                0 <= k < kept_lines(lines, name).len() && kept_lines(lines, name)[k] == l;
            lines.lemma_filter_pred(pred, k);
        }
        if lines.contains(l) && line_name(l) != name {
            let i = choose|i: int| 0 <= i < lines.len() && lines[i] == l;
            lines.lemma_filter_contains(pred, i);
        }
    }
}

/// Deleting `name` keeps the name of every other scrape of the file: each
/// line of the file named otherwise is written back, or another line of its
/// name is (a rewritten combined line, or an earlier line of that name).
pub proof fn lemma_delete_keeps_other_names(lines: Seq<Seq<char>>, content: Seq<char>, name: Seq<char>)
    ensures
        forall|i: int|
            0 <= i < lines.len() && line_name(#[trigger] lines[i]) != name ==> exists|k: int|
                0 <= k < lines_after_delete(lines, content, name).len() && line_name(
                    #[trigger] lines_after_delete(lines, content, name)[k],
                ) == line_name(lines[i]),
{
    let front = updated_lines(lines_to_update(lines, content, name), name);
    let kept = kept_lines(lines, name);
    lemma_kept_lines_exact(lines, name);
    lemma_merge_covers(front, kept);
    assert forall|i: int|
        0 <= i < lines.len() && line_name(#[trigger] lines[i]) != name implies exists|k: int|
            0 <= k < lines_after_delete(lines, content, name).len() && line_name(
                #[trigger] lines_after_delete(lines, content, name)[k],
            ) == line_name(lines[i]) by {
        assert(lines.contains(lines[i]));
        assert(kept.contains(lines[i]));
        let x = choose|x: int| 0 <= x < kept.len() && kept[x] == lines[i];
        let m = merge_lines(front, kept);
        assert(m == lines_after_delete(lines, content, name));
        assert(exists|y: int|
            0 <= y < m.len() && line_name(#[trigger] m[y]) == line_name(kept[x]));
        let y = choose|y: int| 0 <= y < m.len() && line_name(#[trigger] m[y]) == line_name(kept[x]);
        assert(line_name(m[y]) == line_name(lines[i]));
    }
}

/// Merges the lines of `rest` after `front`, skipping any line whose name an
/// earlier line has.
fn merge_lines_of(front: Vec<Vec<char>>, rest: &Vec<Vec<char>>) -> (r: Vec<Vec<char>>)
    requires
        lines_named(char_views(front@)),
        lines_named(char_views(rest@)),
    ensures
        char_views(r@) == merge_lines(char_views(front@), char_views(rest@)),
{
    let mut acc = front;
    let ghost fv = char_views(acc@);
    let ghost rv = char_views(rest@);
    assert(rv.take(0) =~= Seq::<Seq<char>>::empty());
    for i in 0..rest.len()
        invariant
            rv == char_views(rest@),
            lines_named(rv),
            lines_named(char_views(acc@)),
            char_views(acc@) == merge_lines(fv, rv.take(i as int)),
    {
        proof {
            assert(rv.take(i + 1).drop_last() =~= rv.take(i as int));
            assert(rv.take(i + 1).last() == rv[i as int]);
            assert(rest[i as int]@ == rv[i as int]);
            assert(name_defined(rv[i as int]));
        }
        let n = line_name_of(&rest[i]);
        if !any_named(&acc, &n) {
            let ghost old_acc = acc@;
            let c = rest[i].clone();
            assert(c@ =~= rest[i as int]@);
            acc.push(c);
            proof {
                assert(acc@ == old_acc.push(c));
                assert(char_views(acc@) =~= char_views(old_acc).push(rv[i as int]));
            }
        }
    }
    assert(rv.take(rest.len() as int) =~= rv);
    acc
}

/// The store's text holds the lines of the file, each trimmed.
pub open spec fn same_store(lines: Seq<Seq<char>>, content: Seq<char>) -> bool {
    crate::store::trimmed_store_lines(content) == lines
}

/// Every combined line lists plain member names only.
pub open spec fn combined_members_plain(lines: Seq<Seq<char>>) -> bool {
    forall|i: int|
        0 <= i < lines.len() && is_combined_line(lines[i]) ==> all_plain(
            combined_members(#[trigger] lines[i]),
        )
}

/// No combined line lists `name`.
pub open spec fn none_lists(lines: Seq<Seq<char>>, name: Seq<char>) -> bool {
    forall|i: int|
        0 <= i < lines.len() && is_combined_line(lines[i]) ==> !combined_members(
            #[trigger] lines[i],
        ).contains(name)
}

proof fn lemma_merge_front_prefix(front: Seq<Seq<char>>, rest: Seq<Seq<char>>)
    ensures
        merge_lines(front, rest).len() >= front.len(),
        forall|i: int| 0 <= i < front.len() ==> #[trigger] merge_lines(front, rest)[i] == front[i],
    decreases rest.len(),
{
    if rest.len() > 0 {
        lemma_merge_front_prefix(front, rest.drop_last());
    }
}

/// A line that merging takes from the rest shares its name with no line in
/// front.
proof fn lemma_merge_skips_front_names(front: Seq<Seq<char>>, rest: Seq<Seq<char>>, l: Seq<char>)
    requires
        merge_lines(front, rest).contains(l),
        !front.contains(l),
    ensures
        forall|j: int| 0 <= j < front.len() ==> line_name(#[trigger] front[j]) != line_name(l),
    decreases rest.len(),
{
    if rest.len() == 0 {
    } else {
        let prev = merge_lines(front, rest.drop_last());
        if prev.contains(l) {
            lemma_merge_skips_front_names(front, rest.drop_last(), l);
        } else {
            lemma_merge_front_prefix(front, rest.drop_last());
            let m = merge_lines(front, rest);
            let k = choose|k: int| 0 <= k < m.len() && m[k] == l;
            assert(m != prev);
            assert(m == prev.push(rest.last()));
            assert(k == prev.len());
            assert forall|j: int| 0 <= j < front.len() implies line_name(#[trigger] front[j])
                != line_name(l) by {
                assert(prev[j] == front[j]);
            }
        }
    }
}

/// Deleting the scrape `name` from the lines of the file, given the store's
/// text where the combined scrapes that use a deleted plain scrape are
/// looked up (its lines trimmed): not found when no line of the file is
/// named so; otherwise the lines without those named `name`, after those
/// combined lines rewritten without it, which need the user's consent.
///
/// No line that it keeps is named `name`, unless it is a rewritten combined
/// line. When the store's text holds the same lines as the file and combined
/// lines list plain names only, deleting a plain scrape (with a name that is
/// not empty) leaves no combined line that lists it.
pub fn plan_delete(lines: &Vec<String>, content: &str, name: &str) -> (r: DeletePlan)
    requires
        lines_named(strings_view(lines@)),
        plain_named(strings_view(lines@), name@) ==> crate::store::combined_lines_ok(content@),
    ensures
        ({
            let ls = strings_view(lines@);
            let up = lines_to_update(ls, content@, name@);
            match r {
                DeletePlan::NotFound => !found_named(ls, name@),
                DeletePlan::Rewrite(out) => {
                    &&& found_named(ls, name@)
                    &&& up.len() == 0
                    &&& strings_view(out@) == lines_after_delete(ls, content@, name@)
                },
                DeletePlan::Confirm { message, lines: out } => {
                    &&& found_named(ls, name@)
                    &&& up.len() > 0
                    &&& message@ == delete_question(up)
                    &&& strings_view(out@) == lines_after_delete(ls, content@, name@)
                },
            }
        }),
        match r {
            DeletePlan::NotFound => true,
            DeletePlan::Rewrite(out) | DeletePlan::Confirm { lines: out, .. } => forall|k: int|
                0 <= k < out.len() ==> updated_lines(
                    lines_to_update(strings_view(lines@), content@, name@),
                    name@,
                ).contains(#[trigger] out[k]@) || (line_name(out[k]@) != name@ && strings_view(
                    lines@,
                ).contains(out[k]@)),
        },
        match r {
            DeletePlan::NotFound => true,
            DeletePlan::Rewrite(out) | DeletePlan::Confirm { lines: out, .. } => same_store(
                strings_view(lines@),
                content@,
            ) && name@.len() > 0 && plain_named(strings_view(lines@), name@)
                && combined_members_plain(strings_view(lines@)) ==> none_lists(
                strings_view(out@),
                name@,
            ),
        },
{
    let ls = lines_chars(lines);
    let name_c = chars_of(name);
    let ghost lv = strings_view(lines@);
    let ghost pred = |l: Seq<char>| line_name(l) != name@;
    let mut found = false;
    let mut plain = false;
    let mut kept: Vec<Vec<char>> = Vec::new();
    for i in 0..ls.len()
        invariant
            lv == char_views(ls@),
            name_c@ == name@,
            lines_named(lv),
            pred == (|l: Seq<char>| line_name(l) != name@),
            found == exists|j: int| 0 <= j < i && line_name(#[trigger] lv[j]) == name@,
            plain == exists|j: int|
                0 <= j < i && line_name(#[trigger] lv[j]) == name@ && trim(head(lv[j]))
                    != combined_word(),
            char_views(kept@) == lv.take(i as int).filter(pred),
    {
        proof {
            assert(lv.take(i + 1).drop_last() =~= lv.take(i as int));
            assert(lv.take(i + 1).last() == lv[i as int]);
            reveal_with_fuel(Seq::filter, 1);
            assert(ls[i as int]@ == lv[i as int]);
            assert(name_defined(lv[i as int]));
        }
        let n = line_name_of(&ls[i]);
        if chars_eq(&n, &name_c) {
            found = true;
            let parts = fields_of(&ls[i]);
            let h = trim_chars(&parts[0]);
            if !is_combined_word(&h) {
                plain = true;
            }
            proof {
                reveal_with_fuel(Seq::filter, 1);
                assert(n@ == line_name(lv[i as int]));
                assert(line_name(lv[i as int]) == name@);
                assert(!pred(lv[i as int]));
                assert(char_views(kept@) =~= lv.take(i + 1).filter(pred));
            }
        } else {
            let ghost old_kept = kept@;
            let c = ls[i].clone();
            assert(c@ =~= ls[i as int]@);
            kept.push(c);
            proof {
                reveal_with_fuel(Seq::filter, 1);
                assert(pred(lv[i as int]));
                assert(kept@ == old_kept.push(c));
                assert(char_views(kept@) =~= char_views(old_kept).push(lv[i as int]));
                assert(char_views(kept@) =~= lv.take(i + 1).filter(pred));
            }
        }
    }
    assert(lv.take(ls.len() as int) =~= lv);
    if !found {
        return DeletePlan::NotFound;
    }
    let to_update: Vec<String> = if plain {
        let name_s = string_of(name_c.as_slice());
        crate::store::get_combined_scrapes_for_scrape(content, &name_s)
    } else {
        Vec::new()
    };
    let ghost up = lines_to_update(lv, content@, name@);
    assert(strings_view(to_update@) =~= up);
    // The combined lines rewritten without the deleted member, and the question.
    let mut updated: Vec<Vec<char>> = Vec::new();
    let mut question = chars_of("The following combined scrapes are using this scrape: ");
    let ghost upred = |l: Seq<char>| crate::store::uses_scrape(l, name@);
    for k in 0..to_update.len()
        invariant
            strings_view(to_update@) == up,
            name_c@ == name@,
            lv == strings_view(lines@),
            up == lines_to_update(lv, content@, name@),
            upred == (|l: Seq<char>| crate::store::uses_scrape(l, name@)),
            plain == plain_named(lv, name@),
            plain ==> crate::store::combined_lines_ok(content@),
            !plain ==> up.len() == 0,
            char_views(updated@) == updated_lines(up.take(k as int), name@),
            lines_named(char_views(updated@)),
            forall|j: int|
                0 <= j < k ==> line_name(#[trigger] char_views(updated@)[j]) == split_on(
                    up[j],
                    ';',
                )[1],
            forall|j: int|
                0 <= j < k ==> (all_plain(members_without(up[j], name@)) && name@.len() > 0
                    ==> !combined_members(#[trigger] char_views(updated@)[j]).contains(name@)),
            question@ == delete_question_head() + listed_names(up.take(k as int)),
    {
        let l = chars_of(to_update[k].as_str());
        proof {
            assert(l@ == up[k as int]);
            let tl = crate::store::trimmed_store_lines(content@);
            assert(up == tl.filter(upred));
            tl.lemma_filter_pred(upred, k as int);
            assert(up.contains(l@));
            tl.lemma_filter_contains_rev(upred, l@);
            let j = choose|j: int| 0 <= j < tl.len() && tl[j] == l@;
            assert(crate::store::combined_line_ok(tl[j]));
            assert(up.take(k + 1).drop_last() =~= up.take(k as int));
            assert(up.take(k + 1).last() == up[k as int]);
        }
        let u = updated_combined_line_of(&l, &name_c);
        let ghost old_updated = updated@;
        updated.push(u);
        proof {
            assert(updated@ == old_updated.push(u));
            assert(u@ == updated_combined_line(up[k as int], name@));
            assert(updated_lines(up.take(k + 1), name@) =~= updated_lines(up.take(k as int), name@).push(
                updated_combined_line(up[k as int], name@),
            ));
            assert(char_views(updated@) =~= char_views(old_updated).push(u@));
            assert(char_views(updated@) =~= updated_lines(up.take(k + 1), name@));
            assert forall|j: int| 0 <= j < updated.len() implies name_defined(
                #[trigger] char_views(updated@)[j],
            ) by {
                if j < old_updated.len() {
                    assert(char_views(updated@)[j] == char_views(old_updated)[j]);
                }
            }
            assert forall|j: int| 0 <= j < k + 1 implies line_name(
                #[trigger] char_views(updated@)[j],
            ) == split_on(up[j], ';')[1] by {
                if j < old_updated.len() {
                    assert(char_views(updated@)[j] == char_views(old_updated)[j]);
                }
            }
            assert forall|j: int|
                0 <= j < k + 1 && all_plain(members_without(up[j], name@)) && name@.len()
                    > 0 implies !combined_members(#[trigger] char_views(updated@)[j]).contains(
                name@,
            ) by {
                if j < old_updated.len() {
                    assert(char_views(updated@)[j] == char_views(old_updated)[j]);
                }
            }
        }
        question.push('\n');
        let parts = fields_of(&l);
        append_chars(&mut question, &parts[1]);
        assert(question@ =~= delete_question_head() + listed_names(up.take(k + 1)));
    }
    assert(up.take(to_update.len() as int) =~= up);
    let tail = chars_of("\nAre you sure you want to delete the scrape?");
    append_chars(&mut question, &tail);
    proof {
        assert forall|j: int| 0 <= j < kept.len() implies name_defined(
            #[trigger] char_views(kept@)[j],
        ) by {
            lv.lemma_filter_contains_rev(pred, char_views(kept@)[j]);
        }
    }
    let merged = merge_lines_of(updated, &kept);
    let out = strings_of(&merged);
    proof {
        let ov = strings_view(out@);
        assert forall|j: int| 0 <= j < out.len() implies #[trigger] ov[j] == char_views(merged@)[j]
            by {}
        assert(ov =~= char_views(merged@));
        let upd = updated_lines(up, name@);
        let kv = lv.filter(pred);
        assert forall|k: int| 0 <= k < out.len() implies upd.contains(#[trigger] out[k]@) || (
        line_name(out[k]@) != name@ && lv.contains(out[k]@)) by {
            assert(ov[k] == out[k]@);
            lemma_merge_from(upd, kv, ov[k]);
            if kv.contains(ov[k]) {
                lv.lemma_filter_contains_rev(pred, ov[k]);
                let j = choose|j: int| 0 <= j < kv.len() && kv[j] == ov[k];
                lv.lemma_filter_pred(pred, j);
            }
        }
        if same_store(lv, content@) && name@.len() > 0 && plain_named(lv, name@)
            && combined_members_plain(lv) {
            let tl = crate::store::trimmed_store_lines(content@);
            assert(up == tl.filter(upred));
            assert(upd == char_views(updated@));
            assert(ov == merge_lines(upd, kv));
            assert forall|i: int|
                0 <= i < ov.len() && is_combined_line(ov[i]) implies !combined_members(
                #[trigger] ov[i],
            ).contains(name@) by {
                let o = ov[i];
                assert(ov.contains(o));
                lemma_merge_from(upd, kv, o);
                if upd.contains(o) {
                    let j = choose|j: int| 0 <= j < upd.len() && upd[j] == o;
                    tl.lemma_filter_pred(upred, j);
                    assert(up.contains(up[j]));
                    tl.lemma_filter_contains_rev(upred, up[j]);
                    let q = choose|q: int| 0 <= q < tl.len() && tl[q] == up[j];
                    assert(lv[q] == up[j]);
                    assert(is_combined_line(lv[q]));
                    assert(all_plain(combined_members(up[j])));
                    let mp = |m: Seq<char>| m != name@;
                    assert(members_without(up[j], name@) == combined_members(up[j]).filter(mp));
                    assert forall|a: int|
                        0 <= a < members_without(up[j], name@).len() implies is_plain(
                        #[trigger] members_without(up[j], name@)[a],
                    ) by {
                        let x = members_without(up[j], name@)[a];
                        assert(members_without(up[j], name@).contains(x));
                        combined_members(up[j]).lemma_filter_contains_rev(mp, x);
                    }
                    assert(char_views(updated@)[j] == o);
                } else {
                    lemma_merge_skips_front_names(upd, kv, o);
                    lv.lemma_filter_contains_rev(pred, o);
                    if combined_members(o).contains(name@) {
                        let q = choose|q: int| 0 <= q < lv.len() && lv[q] == o;
                        assert(tl[q] == o);
                        assert(upred(o));
                        tl.lemma_filter_contains(upred, q);
                        assert(up.contains(o));
                        let j = choose|j: int| 0 <= j < up.len() && up[j] == o;
                        assert(line_name(upd[j]) == split_on(o, ';')[1]);
                        assert(line_name(o) == split_on(o, ';')[1]);
                        assert(false);
                    }
                }
            }
        }
    }
    if to_update.len() > 0 {
        DeletePlan::Confirm { message: string_of(question.as_slice()), lines: out }
    } else {
        DeletePlan::Rewrite(out)
    }
}

} // verus!
