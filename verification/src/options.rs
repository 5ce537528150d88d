//! The per-selector options of the scrape command: `<selector index>:<value>`
//! for attributes, prefixes and suffixes.
use vstd::prelude::*;

use crate::text::{chars_of, has_char, split_chars, split_on, string_of, strings_view, sub_chars};

verus! {

// ---------------------------------------------------------------------------
// Selector indices
// ---------------------------------------------------------------------------

/// Whether `c` is an ASCII decimal digit.
pub open spec fn is_digit(c: char) -> bool {
    '0' <= c <= '9'
}

/// The value of a run of decimal digits.
pub open spec fn digits_value(s: Seq<char>) -> int
    decreases s.len(),
{
    if s.len() == 0 {
        0
    } else {
        digits_value(s.drop_last()) * 10 + ((s.last() as int) - ('0' as int))
    }
}

/// The digits of an index: the text without a leading `+`, when there is
/// more after it.
pub open spec fn index_digits(s: Seq<char>) -> Seq<char> {
    if s.len() > 1 && s[0] == '+' {
        s.drop_first()
    } else {
        s
    }
}

/// The index that `str::parse::<usize>` reads from `s`: an optional `+`,
/// then one or more decimal digits whose value fits in `usize`.
pub open spec fn parse_index(s: Seq<char>) -> Option<usize> {
    let d = index_digits(s);
    if d.len() > 0 && (forall|i: int| 0 <= i < d.len() ==> is_digit(#[trigger] d[i]))
        && digits_value(d) <= usize::MAX {
        Some(digits_value(d) as usize)
    } else {
        None
    }
}

proof fn lemma_digits_value_grows(s: Seq<char>, i: int)
    requires
        0 <= i <= s.len(),
        forall|j: int| 0 <= j < s.len() ==> is_digit(#[trigger] s[j]),
    ensures
        0 <= digits_value(s.take(i)) <= digits_value(s),
    decreases s.len() - i,
{
    if i < s.len() {
        lemma_digits_value_grows(s, i + 1);
        let t = s.take(i + 1);
        assert(t.drop_last() =~= s.take(i));
        assert(is_digit(s[i]));
        assert(t.last() == s[i]);
        let v = digits_value(s.take(i));
        let d = (s[i] as int) - ('0' as int);
        assert(0 <= d <= 9);
        assert(v >= 0 ==> v * 10 + d >= v) by (nonlinear_arith)
            requires
                d >= 0,
        ;
    } else {
        assert(s.take(i) =~= s);
        lemma_digits_value_nonneg(s);
    }
}

proof fn lemma_digits_value_nonneg(s: Seq<char>)
    requires
        forall|j: int| 0 <= j < s.len() ==> is_digit(#[trigger] s[j]),
    ensures
        digits_value(s) >= 0,
    decreases s.len(),
{
    if s.len() > 0 {
        let t = s.drop_last();
        assert forall|j: int| 0 <= j < t.len() implies is_digit(#[trigger] t[j]) by {
            assert(t[j] == s[j]);
        }
        lemma_digits_value_nonneg(t);
        assert(is_digit(s[s.len() - 1]));
        let v = digits_value(t);
        assert(v >= 0 ==> v * 10 >= 0) by (nonlinear_arith);
    }
}

/// Reads a selector index as `str::parse::<usize>` does.
pub fn parse_index_of(s: &Vec<char>) -> (r: Option<usize>)
    ensures
        r == parse_index(s@),
{
    let d = if s.len() > 1 && s[0] == '+' {
        sub_chars(s, 1, s.len())
    } else {
        sub_chars(s, 0, s.len())
    };
    assert(d@ =~= index_digits(s@));
    if d.len() == 0 {
        return None;
    }
    let mut v: usize = 0;
    for i in 0..d.len()
        invariant
            d@ == index_digits(s@),
            d.len() > 0,
            forall|j: int| 0 <= j < i ==> is_digit(#[trigger] d[j]),
            v == digits_value(d@.take(i as int)),
    {
        let c = d[i];
        proof {
            assert(d@.take(i + 1).drop_last() =~= d@.take(i as int));
            assert(d@.take(i + 1).last() == c);
        }
        if !('0' <= c && c <= '9') {
            assert(!is_digit(d@[i as int]));
            return None;
        }
        let digit = (c as u32 - '0' as u32) as usize;
        assert(digit as int == (c as int) - ('0' as int));
        if v > (usize::MAX - digit) / 10 {
            proof {
                assert(v * 10 + digit > usize::MAX) by (nonlinear_arith)
                    requires
                        v > (usize::MAX - digit) / 10,
                        digit <= 9,
                ;
                assert(digits_value(d@.take(i + 1)) > usize::MAX);
                if forall|j: int| 0 <= j < d.len() ==> is_digit(#[trigger] d[j]) {
                    lemma_digits_value_grows(d@, i + 1);
                }
            }
            return None;
        }
        assert(v * 10 + digit <= usize::MAX) by (nonlinear_arith)
            requires
                v <= (usize::MAX - digit) / 10,
                digit <= 9,
        ;
        v = v * 10 + digit;
    }
    assert(d@.take(d.len() as int) =~= d@);
    Some(v)
}

// ---------------------------------------------------------------------------
// Parsed options
// ---------------------------------------------------------------------------

/// Which option a fault is about.
#[derive(Debug, Clone, Copy, PartialEq, Eq, Structural)]
pub enum OptionKind {
    Attribute,
    Prefix,
    Suffix,
}

/// Why the options of a scrape are refused.
#[derive(Debug, Clone, Copy, PartialEq, Eq, Structural)]
pub enum OptionError {
    /// There are not as many keys as selectors.
    KeyCount,
    /// An attribute option does not have exactly one `:`.
    InvalidAttribute,
    /// A prefix or suffix option has no `:`.
    MissingColon(OptionKind),
    /// The selector index of an option is not a number.
    BadIndex(OptionKind),
    /// A second option of the kind for one selector.
    Duplicate(OptionKind),
}

/// One parsed option: the selector index and the value.
pub struct IndexedValue {
    pub index: usize,
    pub value: String,
}

/// The view of a sequence of parsed options.
pub open spec fn indexed_view(v: Seq<IndexedValue>) -> Seq<(usize, Seq<char>)> {
    v.map_values(|x: IndexedValue| (x.index, x.value@))
}

/// Some option of `list` is for the selector `i`.
pub open spec fn has_index(list: Seq<(usize, Seq<char>)>, i: usize) -> bool {
    exists|k: int| 0 <= k < list.len() && (#[trigger] list[k]).0 == i
}

/// The position of the first `c` in `s`.
pub open spec fn first_index_of(s: Seq<char>, c: char) -> int {
    choose|k: int| 0 <= k < s.len() && s[k] == c && forall|j: int| 0 <= j < k ==> s[j] != c
}

/// `str::split_once` at a character: the text before the first `c` and the
/// text after it.
pub open spec fn split_once(s: Seq<char>, c: char) -> Option<(Seq<char>, Seq<char>)> {
    if has_char(s, c) {
        let k = first_index_of(s, c);
        Some((s.take(k), s.skip(k + 1)))
    } else {
        None
    }
}

/// One attribute option added to those read so far: it needs exactly one
/// `:`, a selector index before it, and a selector without an attribute yet.
pub open spec fn attribute_step(
    acc: Result<Seq<(usize, Seq<char>)>, OptionError>,
    opt: Seq<char>,
) -> Result<Seq<(usize, Seq<char>)>, OptionError> {
    match acc {
        Err(e) => Err(e),
        Ok(list) => {
            let parts = split_on(opt, ':');
            if parts.len() != 2 {
                Err(OptionError::InvalidAttribute)
            } else {
                match parse_index(parts[0]) {
                    None => Err(OptionError::BadIndex(OptionKind::Attribute)),
                    Some(i) => if has_index(list, i) {
                        Err(OptionError::Duplicate(OptionKind::Attribute))
                    } else {
                        Ok(list.push((i, parts[1])))
                    },
                }
            }
        },
    }
}

/// One prefix or suffix option added to those read so far: it needs a `:`,
/// a selector index before the first one, and a selector without such an
/// option yet; the value is all that follows the first `:`.
pub open spec fn affix_step(
    kind: OptionKind,
    acc: Result<Seq<(usize, Seq<char>)>, OptionError>,
    opt: Seq<char>,
) -> Result<Seq<(usize, Seq<char>)>, OptionError> {
    match acc {
        Err(e) => Err(e),
        Ok(list) => match split_once(opt, ':') {
            None => Err(OptionError::MissingColon(kind)),
            Some((idx, value)) => match parse_index(idx) {
                None => Err(OptionError::BadIndex(kind)),
                Some(i) => if has_index(list, i) {
                    Err(OptionError::Duplicate(kind))
                } else {
                    Ok(list.push((i, value)))
                },
            },
        },
    }
}

/// Reading options in order, stopping at the first fault.
pub open spec fn read_options(kind: OptionKind, opts: Seq<Seq<char>>) -> Result<
    Seq<(usize, Seq<char>)>,
    OptionError,
>
    decreases opts.len(),
{
    if opts.len() == 0 {
        Ok(Seq::empty())
    } else {
        let prev = read_options(kind, opts.drop_last());
        if kind == OptionKind::Attribute {
            attribute_step(prev, opts.last())
        } else {
            affix_step(kind, prev, opts.last())
        }
    }
}

/// A fault stays the fault of every longer run of options.
proof fn lemma_read_options_fault_stays(kind: OptionKind, opts: Seq<Seq<char>>, i: int)
    requires
        0 <= i <= opts.len(),
        read_options(kind, opts.take(i)) is Err,
    ensures
        read_options(kind, opts) == read_options(kind, opts.take(i)),
    decreases opts.len() - i,
{
    if i < opts.len() {
        assert(opts.take(i + 1).drop_last() =~= opts.take(i));
        lemma_read_options_fault_stays(kind, opts, i + 1);
    } else {
        assert(opts.take(i) =~= opts);
    }
}

/// Whether some parsed option is for the selector `i`.
fn has_index_of(list: &Vec<IndexedValue>, i: usize) -> (r: bool)
    ensures
        r == has_index(indexed_view(list@), i),
{
    for k in 0..list.len()
        invariant
            forall|j: int| 0 <= j < k ==> (#[trigger] list[j]).index != i,
    {
        if list[k].index == i {
            assert(indexed_view(list@)[k as int].0 == i);
            return true;
        }
    }
    proof {
        if has_index(indexed_view(list@), i) {
            let j = choose|j: int|
                0 <= j < indexed_view(list@).len() && (#[trigger] indexed_view(list@)[j]).0 == i;
            assert(list[j].index == i);
        }
    }
    false
}

/// The position of the first `c`, if any.
fn find_char(s: &Vec<char>, c: char) -> (r: Option<usize>)
    ensures
        match r {
            Some(k) => k < s.len() && s[k as int] == c && forall|j: int| 0 <= j < k ==> s[j] != c,
            None => !has_char(s@, c),
        },
{
    for k in 0..s.len()
        invariant
            forall|j: int| 0 <= j < k ==> s[j] != c,
    {
        if s[k] == c {
            return Some(k);
        }
    }
    None
}

/// Reads the options of one kind, in order: the selector index and value of
/// each, or the first fault.
pub fn read_options_of(kind: OptionKind, opts: &Vec<String>) -> (r: Result<Vec<IndexedValue>, OptionError>)
    ensures
        match r {
            Ok(list) => read_options(kind, strings_view(opts@)) == Ok::<
                Seq<(usize, Seq<char>)>,
                OptionError,
            >(indexed_view(list@)),
            Err(e) => read_options(kind, strings_view(opts@)) == Err::<
                Seq<(usize, Seq<char>)>,
                OptionError,
            >(e),
        },
{
    let ghost ov = strings_view(opts@);
    let mut list: Vec<IndexedValue> = Vec::new();
    assert(ov.take(0) =~= Seq::<Seq<char>>::empty());
    assert(indexed_view(list@) =~= Seq::<(usize, Seq<char>)>::empty());
    for n in 0..opts.len()
        invariant
            ov == strings_view(opts@),
            read_options(kind, ov.take(n as int)) == Ok::<Seq<(usize, Seq<char>)>, OptionError>(
                indexed_view(list@),
            ),
    {
        let o = chars_of(opts[n].as_str());
        proof {
            assert(ov.take(n + 1).drop_last() =~= ov.take(n as int));
            assert(ov.take(n + 1).last() == o@);
        }
        let ghost prev = indexed_view(list@);
        let (idx, value) = if kind == OptionKind::Attribute {
            let parts = split_chars(&o, ':');
            if parts.len() != 2 {
                proof {
                    lemma_read_options_fault_stays(kind, ov, n + 1);
                }
                return Err(OptionError::InvalidAttribute);
            }
            proof {
                crate::text::lemma_chars_deep_view(parts[0]);
                crate::text::lemma_chars_deep_view(parts[1]);
            }
            (parts[0].clone(), parts[1].clone())
        } else {
            match find_char(&o, ':') {
                None => {
                    proof {
                        lemma_read_options_fault_stays(kind, ov, n + 1);
                    }
                    return Err(OptionError::MissingColon(kind));
                },
                Some(k) => {
                    proof {
                        assert(has_char(o@, ':'));
                        let f = first_index_of(o@, ':');
                        if f < k {
                            assert(o@[f] == ':');
                        } else if k < f {
                            assert(o@[k as int] == ':');
                        }
                    }
                    (sub_chars(&o, 0, k), sub_chars(&o, k + 1, o.len()))
                },
            }
        };
        match parse_index_of(&idx) {
            None => {
                proof {
                    lemma_read_options_fault_stays(kind, ov, n + 1);
                }
                return Err(OptionError::BadIndex(kind));
            },
            Some(i) => {
                if has_index_of(&list, i) {
                    proof {
                        lemma_read_options_fault_stays(kind, ov, n + 1);
                    }
                    return Err(OptionError::Duplicate(kind));
                }
                list.push(IndexedValue { index: i, value: string_of(value.as_slice()) });
                assert(indexed_view(list@) =~= prev.push((i, value@)));
            },
        }
    }
    assert(ov.take(opts.len() as int) =~= ov);
    Ok(list)
}

/// The value of the option for the selector `i`, if any.
pub open spec fn option_for(list: Seq<(usize, Seq<char>)>, i: usize) -> Option<Seq<char>> {
    if has_index(list, i) {
        Some(list[choose|k: int| 0 <= k < list.len() && (#[trigger] list[k]).0 == i].1)
    } else {
        None
    }
}

/// No two options are for one selector.
pub open spec fn distinct_indices(list: Seq<(usize, Seq<char>)>) -> bool {
    forall|a: int, b: int|
        0 <= a < list.len() && 0 <= b < list.len() && (#[trigger] list[a]).0 == (
        #[trigger] list[b]).0 ==> a == b
}

/// Options that were read have distinct selector indices.
pub proof fn lemma_read_options_distinct(kind: OptionKind, opts: Seq<Seq<char>>)
    ensures
        read_options(kind, opts) matches Ok(list) ==> distinct_indices(list),
    decreases opts.len(),
{
    if opts.len() > 0 {
        lemma_read_options_distinct(kind, opts.drop_last());
        if let Ok(list) = read_options(kind, opts) {
            let prev = read_options(kind, opts.drop_last());
            if let Ok(p) = prev {
                assert forall|a: int, b: int|
                    0 <= a < list.len() && 0 <= b < list.len() && (#[trigger] list[a]).0 == (
                    #[trigger] list[b]).0 implies a == b by {
                    if a < p.len() && b < p.len() {
                        assert(list[a] == p[a] && list[b] == p[b]);
                    } else if a < p.len() {
                        assert(list[a] == p[a]);
                        assert(has_index(p, list[b].0));
                    } else if b < p.len() {
                        assert(list[b] == p[b]);
                        assert(has_index(p, list[a].0));
                    }
                }
            }
        }
    }
}

/// The value of the option for the selector `i`, if any.
pub fn option_for_of(list: &Vec<IndexedValue>, i: usize) -> (r: Option<String>)
    requires
        distinct_indices(indexed_view(list@)),
    ensures
        match r {
            Some(v) => option_for(indexed_view(list@), i) == Some(v@),
            None => option_for(indexed_view(list@), i) is None,
        },
{
    let ghost lv = indexed_view(list@);
    for k in 0..list.len()
        invariant
            lv == indexed_view(list@),
            distinct_indices(lv),
            forall|j: int| 0 <= j < k ==> (#[trigger] list[j]).index != i,
    {
        if list[k].index == i {
            let v = list[k].value.clone();
            proof {
                assert(lv[k as int].0 == i);
                assert(has_index(lv, i));
                let c = choose|c: int| 0 <= c < lv.len() && (#[trigger] lv[c]).0 == i;
                assert(lv[c].0 == lv[k as int].0);
                assert(c == k);
                assert(v@ == lv[k as int].1);
            }
            return Some(v);
        }
    }
    proof {
        if has_index(lv, i) {
            let j = choose|j: int| 0 <= j < lv.len() && (#[trigger] lv[j]).0 == i;
            assert(list[j].index == i);
        }
    }
    None
}

} // verus!
