//! Character-sequence operations that the store format and the scrape
//! command are built from: splitting, trimming, character removal, joining.
use vstd::prelude::*;

verus! {

// ---------------------------------------------------------------------------
// Specifications
// ---------------------------------------------------------------------------

/// The Unicode `White_Space` characters, which `char::is_whitespace` recognises.
pub open spec fn is_space(c: char) -> bool {
    let n = c as u32;
    ||| 0x9 <= n <= 0xd
    ||| n == 0x20
    ||| n == 0x85
    ||| n == 0xa0
    ||| n == 0x1680
    ||| 0x2000 <= n <= 0x200a
    ||| n == 0x2028
    ||| n == 0x2029
    ||| n == 0x202f
    ||| n == 0x205f
    ||| n == 0x3000
}

/// `s` with its leading white space removed.
pub open spec fn trim_start(s: Seq<char>) -> Seq<char>
    decreases s.len(),
{
    if s.len() > 0 && is_space(s[0]) {
        trim_start(s.drop_first())
    } else {
        s
    }
}

/// `s` with its trailing white space removed.
pub open spec fn trim_end(s: Seq<char>) -> Seq<char>
    decreases s.len(),
{
    if s.len() > 0 && is_space(s.last()) {
        trim_end(s.drop_last())
    } else {
        s
    }
}

/// `s` with white space removed at both ends, as `str::trim` does.
pub open spec fn trim(s: Seq<char>) -> Seq<char> {
    trim_end(trim_start(s))
}

/// The pieces of `s` between occurrences of `sep`, as `str::split` with a
/// `char` pattern yields them (always at least one piece).
pub open spec fn split_on(s: Seq<char>, sep: char) -> Seq<Seq<char>>
    decreases s.len(),
{
    if s.len() == 0 {
        seq![Seq::<char>::empty()]
    } else {
        let rest = split_on(s.drop_first(), sep);
        if s[0] == sep {
            seq![Seq::<char>::empty()] + rest
        } else {
            prepend_first(seq![s[0]], rest)
        }
    }
}

/// The pieces of `s` between the non-overlapping, leftmost occurrences of the
/// two-character pattern `a b`, as `str::split` with a `&str` pattern yields them.
pub open spec fn split_on_pair(s: Seq<char>, a: char, b: char) -> Seq<Seq<char>>
    decreases s.len(),
{
    if s.len() == 0 {
        seq![Seq::<char>::empty()]
    } else if s.len() >= 2 && s[0] == a && s[1] == b {
        seq![Seq::<char>::empty()] + split_on_pair(s.skip(2), a, b)
    } else {
        prepend_first(seq![s[0]], split_on_pair(s.drop_first(), a, b))
    }
}

/// `pieces` with `p` put in front of its first piece.
pub open spec fn prepend_first(p: Seq<char>, pieces: Seq<Seq<char>>) -> Seq<Seq<char>> {
    pieces.update(0, p + pieces[0])
}

/// `s` without any occurrence of `c`.
pub open spec fn remove_char(s: Seq<char>, c: char) -> Seq<char>
    decreases s.len(),
{
    if s.len() == 0 {
        s
    } else if s.last() == c {
        remove_char(s.drop_last(), c)
    } else {
        remove_char(s.drop_last(), c).push(s.last())
    }
}

/// The pieces joined with `sep` between each two.
pub open spec fn join(pieces: Seq<Seq<char>>, sep: Seq<char>) -> Seq<char>
    decreases pieces.len(),
{
    if pieces.len() == 0 {
        Seq::empty()
    } else if pieces.len() == 1 {
        pieces[0]
    } else {
        join(pieces.drop_last(), sep) + sep + pieces.last()
    }
}

/// Whether `s` has the character `c` at some position.
pub open spec fn has_char(s: Seq<char>, c: char) -> bool {
    exists|i: int| 0 <= i < s.len() && s[i] == c
}

/// The number of bytes that UTF-8 takes for `c`, as `char::len_utf8` gives it.
pub open spec fn char_utf8_len(c: char) -> nat {
    let n = c as u32;
    if n < 0x80 {
        1
    } else if n < 0x800 {
        2
    } else if n < 0x10000 {
        3
    } else {
        4
    }
}

/// The length in bytes of the UTF-8 encoding of `s`, which `str::len` gives.
pub open spec fn utf8_len(s: Seq<char>) -> nat
    decreases s.len(),
{
    if s.len() == 0 {
        0
    } else {
        utf8_len(s.drop_last()) + char_utf8_len(s.last())
    }
}

/// Whether `c` is an ASCII character.
pub open spec fn is_ascii_char(c: char) -> bool {
    (c as u32) < 0x80
}

/// The views of a sequence of character vectors.
pub open spec fn char_views(v: Seq<Vec<char>>) -> Seq<Seq<char>> {
    v.map_values(|x: Vec<char>| x@)
}

/// The views of a vector of strings.
pub open spec fn strings_view(v: Seq<String>) -> Seq<Seq<char>> {
    v.map_values(|s: String| s@)
}

// ---------------------------------------------------------------------------
// Lemmas
// ---------------------------------------------------------------------------

/// `split_on` always yields at least one piece.
pub proof fn lemma_split_on_nonempty(s: Seq<char>, sep: char)
    ensures
        split_on(s, sep).len() >= 1,
    decreases s.len(),
{
    if s.len() > 0 {
        lemma_split_on_nonempty(s.drop_first(), sep);
    }
}

/// `split_on_pair` always yields at least one piece.
pub proof fn lemma_split_on_pair_nonempty(s: Seq<char>, a: char, b: char)
    ensures
        split_on_pair(s, a, b).len() >= 1,
    decreases s.len(),
{
    if s.len() == 0 {
    } else if s.len() >= 2 && s[0] == a && s[1] == b {
        lemma_split_on_pair_nonempty(s.skip(2), a, b);
    } else {
        lemma_split_on_pair_nonempty(s.drop_first(), a, b);
    }
}

/// The deep view of a character vector is its view.
pub proof fn lemma_chars_deep_view(v: Vec<char>)
    ensures
        v.deep_view() == v@,
{
    assert(v.deep_view() =~= v@);
}

proof fn lemma_prepend_twice(p: Seq<char>, q: Seq<char>, pieces: Seq<Seq<char>>)
    requires
        pieces.len() >= 1,
    ensures
        prepend_first(p, prepend_first(q, pieces)) == prepend_first(p + q, pieces),
{
    assert(p + (q + pieces[0]) =~= (p + q) + pieces[0]);
    assert(prepend_first(p, prepend_first(q, pieces)) =~= prepend_first(p + q, pieces));
}

proof fn lemma_prepend_empty(pieces: Seq<Seq<char>>)
    requires
        pieces.len() >= 1,
    ensures
        prepend_first(Seq::empty(), pieces) == pieces,
{
    assert(Seq::<char>::empty() + pieces[0] =~= pieces[0]);
    assert(prepend_first(Seq::empty(), pieces) =~= pieces);
}

/// A prefix takes no more UTF-8 bytes than the whole.
pub proof fn lemma_utf8_len_prefix(s: Seq<char>, i: int)
    requires
        0 <= i <= s.len(),
    ensures
        utf8_len(s.take(i)) <= utf8_len(s),
    decreases s.len() - i,
{
    if i < s.len() {
        lemma_utf8_len_prefix(s, i + 1);
        assert(s.take(i + 1).drop_last() =~= s.take(i));
    } else {
        assert(s.take(i) =~= s);
    }
}

/// `trim_start` drops exactly the leading white space.
proof fn lemma_trim_start_skip(s: Seq<char>, k: int)
    requires
        0 <= k <= s.len(),
        forall|j: int| 0 <= j < k ==> is_space(#[trigger] s[j]),
        k == s.len() || !is_space(s[k]),
    ensures
        trim_start(s) == s.skip(k),
    decreases k,
{
    if k == 0 {
        assert(s.skip(0) =~= s);
    } else {
        let t = s.drop_first();
        assert forall|j: int| 0 <= j < k - 1 implies is_space(#[trigger] t[j]) by {
            assert(t[j] == s[j + 1]);
        }
        lemma_trim_start_skip(t, k - 1);
        assert(t.skip(k - 1) =~= s.skip(k));
    }
}

/// `trim_end` drops exactly the trailing white space.
proof fn lemma_trim_end_take(s: Seq<char>, k: int)
    requires
        0 <= k <= s.len(),
        forall|j: int| k <= j < s.len() ==> is_space(#[trigger] s[j]),
        k == 0 || !is_space(s[k - 1]),
    ensures
        trim_end(s) == s.take(k),
    decreases s.len() - k,
{
    if k == s.len() {
        assert(s.take(k) =~= s);
    } else {
        let t = s.drop_last();
        assert forall|j: int| k <= j < t.len() implies is_space(#[trigger] t[j]) by {
            assert(t[j] == s[j]);
        }
        lemma_trim_end_take(t, k);
        assert(t.take(k) =~= s.take(k));
    }
}

/// Whether `s` holds the two-character pattern `a b` nowhere.
pub open spec fn no_pair(s: Seq<char>, a: char, b: char) -> bool {
    forall|i: int| 0 <= i < s.len() - 1 ==> !(#[trigger] s[i] == a && s[i + 1] == b)
}

/// A text without the separator is one piece.
pub proof fn lemma_split_on_single(x: Seq<char>, sep: char)
    requires
        !has_char(x, sep),
    ensures
        split_on(x, sep) == seq![x],
    decreases x.len(),
{
    if x.len() > 0 {
        let t = x.drop_first();
        assert(!has_char(t, sep)) by {
            if has_char(t, sep) {
                let j = choose|j: int| 0 <= j < t.len() && t[j] == sep;
                assert(x[j + 1] == sep);
            }
        }
        assert(x[0] != sep);
        lemma_split_on_single(t, sep);
        assert(seq![x[0]] + t =~= x);
        assert(prepend_first(seq![x[0]], seq![t]) =~= seq![x]);
    } else {
        assert(x =~= Seq::<char>::empty());
    }
}

/// Splitting `x`, a separator and a last piece `y` gives the pieces of `x`
/// and then `y`.
pub proof fn lemma_split_on_append(x: Seq<char>, sep: char, y: Seq<char>)
    requires
        !has_char(y, sep),
    ensures
        split_on(x + seq![sep] + y, sep) == split_on(x, sep).push(y),
    decreases x.len(),
{
    let s = x + seq![sep] + y;
    if x.len() == 0 {
        assert(s.drop_first() =~= y);
        lemma_split_on_single(y, sep);
        assert(split_on(s, sep) =~= split_on(x, sep).push(y));
    } else {
        let t = x.drop_first();
        assert(s.drop_first() =~= t + seq![sep] + y);
        assert(s[0] == x[0]);
        lemma_split_on_append(t, sep, y);
        lemma_split_on_nonempty(t, sep);
        if x[0] == sep {
            assert(split_on(s, sep) =~= split_on(x, sep).push(y));
        } else {
            assert(split_on(s, sep) =~= split_on(x, sep).push(y));
        }
    }
}

/// Splitting pieces joined by a separator that none of them holds gives the
/// pieces back.
pub proof fn lemma_split_join(ps: Seq<Seq<char>>, sep: char)
    requires
        ps.len() >= 1,
        forall|i: int| 0 <= i < ps.len() ==> !has_char(#[trigger] ps[i], sep),
    ensures
        split_on(join(ps, seq![sep]), sep) == ps,
    decreases ps.len(),
{
    if ps.len() == 1 {
        lemma_split_on_single(ps[0], sep);
        assert(seq![ps[0]] =~= ps);
    } else {
        let init = ps.drop_last();
        assert forall|i: int| 0 <= i < init.len() implies !has_char(#[trigger] init[i], sep) by {
            assert(init[i] == ps[i]);
        }
        lemma_split_join(init, sep);
        assert(!has_char(ps.last(), sep));
        lemma_split_on_append(join(init, seq![sep]), sep, ps.last());
        assert(init.push(ps.last()) =~= ps);
    }
}

/// A text without the pattern is one piece.
pub proof fn lemma_split_on_pair_single(x: Seq<char>, a: char, b: char)
    requires
        no_pair(x, a, b),
    ensures
        split_on_pair(x, a, b) == seq![x],
    decreases x.len(),
{
    if x.len() > 0 {
        let t = x.drop_first();
        assert(no_pair(t, a, b)) by {
            assert forall|i: int| 0 <= i < t.len() - 1 implies !(#[trigger] t[i] == a && t[i + 1]
                == b) by {
                assert(t[i] == x[i + 1] && t[i + 1] == x[i + 2]);
            }
        }
        if x.len() >= 2 {
            assert(!(x[0] == a && x[1] == b));
        }
        lemma_split_on_pair_single(t, a, b);
        assert(seq![x[0]] + t =~= x);
        assert(prepend_first(seq![x[0]], seq![t]) =~= seq![x]);
    } else {
        assert(x =~= Seq::<char>::empty());
    }
}

/// Splitting `x`, the pattern and a last piece `y` gives the pieces of `x`
/// and then `y`.
pub proof fn lemma_split_on_pair_append(x: Seq<char>, a: char, b: char, y: Seq<char>)
    requires
        a != b,
        no_pair(y, a, b),
    ensures
        split_on_pair(x + seq![a, b] + y, a, b) == split_on_pair(x, a, b).push(y),
    decreases x.len(),
{
    let s = x + seq![a, b] + y;
    if x.len() == 0 {
        assert(s.skip(2) =~= y);
        assert(s[0] == a && s[1] == b);
        lemma_split_on_pair_single(y, a, b);
        assert(split_on_pair(s, a, b) =~= split_on_pair(x, a, b).push(y));
    } else if x.len() >= 2 && x[0] == a && x[1] == b {
        let t = x.skip(2);
        assert(s.skip(2) =~= t + seq![a, b] + y);
        assert(s[0] == a && s[1] == b);
        lemma_split_on_pair_append(t, a, b, y);
        assert(split_on_pair(s, a, b) =~= split_on_pair(x, a, b).push(y));
    } else {
        let t = x.drop_first();
        assert(s.drop_first() =~= t + seq![a, b] + y);
        assert(s[0] == x[0]);
        if x.len() >= 2 {
            assert(s[1] == x[1]);
        } else {
            assert(s[1] == a);
        }
        assert(!(s.len() >= 2 && s[0] == a && s[1] == b));
        lemma_split_on_pair_append(t, a, b, y);
        lemma_split_on_pair_nonempty(t, a, b);
        assert(split_on_pair(s, a, b) =~= split_on_pair(x, a, b).push(y));
    }
}

/// Splitting pieces joined by the pattern, which none of them holds, gives
/// the pieces back.
pub proof fn lemma_split_pair_join(ps: Seq<Seq<char>>, a: char, b: char)
    requires
        a != b,
        ps.len() >= 1,
        forall|i: int| 0 <= i < ps.len() ==> no_pair(#[trigger] ps[i], a, b),
    ensures
        split_on_pair(join(ps, seq![a, b]), a, b) == ps,
    decreases ps.len(),
{
    if ps.len() == 1 {
        lemma_split_on_pair_single(ps[0], a, b);
        assert(seq![ps[0]] =~= ps);
    } else {
        let init = ps.drop_last();
        assert forall|i: int| 0 <= i < init.len() implies no_pair(#[trigger] init[i], a, b) by {
            assert(init[i] == ps[i]);
        }
        lemma_split_pair_join(init, a, b);
        assert(no_pair(ps.last(), a, b));
        lemma_split_on_pair_append(join(init, seq![a, b]), a, b, ps.last());
        assert(init.push(ps.last()) =~= ps);
    }
}

/// A text that neither begins nor ends with white space is its own trim.
pub proof fn lemma_trim_unchanged(s: Seq<char>)
    requires
        s.len() > 0 ==> !is_space(s[0]) && !is_space(s.last()),
    ensures
        trim(s) == s,
{
}

/// Removing a character from a concatenation removes it from both parts.
pub proof fn lemma_remove_char_concat(x: Seq<char>, y: Seq<char>, c: char)
    ensures
        remove_char(x + y, c) == remove_char(x, c) + remove_char(y, c),
    decreases y.len(),
{
    if y.len() == 0 {
        assert(x + y =~= x);
        assert(remove_char(x, c) + remove_char(y, c) =~= remove_char(x, c));
    } else {
        assert((x + y).drop_last() =~= x + y.drop_last());
        assert((x + y).last() == y.last());
        lemma_remove_char_concat(x, y.drop_last(), c);
        if y.last() == c {
        } else {
            assert(remove_char(x, c) + remove_char(y.drop_last(), c).push(y.last()) =~= (
            remove_char(x, c) + remove_char(y.drop_last(), c)).push(y.last()));
        }
    }
}

/// Removing a character from the text of that one character leaves nothing.
pub proof fn lemma_remove_char_single(c: char)
    ensures
        remove_char(seq![c], c) == Seq::<char>::empty(),
{
    let q = seq![c];
    assert(q.len() == 1 && q.last() == c);
    assert(q.drop_last() =~= Seq::<char>::empty());
    assert(remove_char(q.drop_last(), c) =~= Seq::<char>::empty());
}

/// Removing a character that a text lacks leaves the text.
pub proof fn lemma_remove_char_absent(x: Seq<char>, c: char)
    requires
        !has_char(x, c),
    ensures
        remove_char(x, c) == x,
    decreases x.len(),
{
    if x.len() > 0 {
        let t = x.drop_last();
        assert(!has_char(t, c)) by {
            if has_char(t, c) {
                let j = choose|j: int| 0 <= j < t.len() && t[j] == c;
                assert(x[j] == c);
            }
        }
        lemma_remove_char_absent(t, c);
        assert(x.last() != c);
        assert(t.push(x.last()) =~= x);
    }
}

/// Every character takes at least one byte.
pub proof fn lemma_utf8_len_at_least_len(s: Seq<char>)
    ensures
        utf8_len(s) >= s.len(),
    decreases s.len(),
{
    if s.len() > 0 {
        lemma_utf8_len_at_least_len(s.drop_last());
    }
}

/// A concatenation holds a character exactly when one of its parts does.
pub proof fn lemma_has_char_concat(x: Seq<char>, y: Seq<char>, c: char)
    ensures
        has_char(x + y, c) == (has_char(x, c) || has_char(y, c)),
{
    if has_char(x, c) {
        let j = choose|j: int| 0 <= j < x.len() && x[j] == c;
        assert((x + y)[j] == c);
    }
    if has_char(y, c) {
        let j = choose|j: int| 0 <= j < y.len() && y[j] == c;
        assert((x + y)[x.len() + j] == c);
    }
    if has_char(x + y, c) {
        let j = choose|j: int| 0 <= j < (x + y).len() && (x + y)[j] == c;
        if j < x.len() {
            assert(x[j] == c);
        } else {
            assert(y[j - x.len()] == c);
        }
    }
}

/// Pieces and a separator without a character join into a text without it.
pub proof fn lemma_join_lacks_char(ps: Seq<Seq<char>>, sep: Seq<char>, c: char)
    requires
        !has_char(sep, c),
        forall|i: int| 0 <= i < ps.len() ==> !has_char(#[trigger] ps[i], c),
    ensures
        !has_char(join(ps, sep), c),
    decreases ps.len(),
{
    if ps.len() == 0 {
    } else if ps.len() == 1 {
        assert(!has_char(ps[0], c));
    } else {
        let init = ps.drop_last();
        assert forall|i: int| 0 <= i < init.len() implies !has_char(#[trigger] init[i], c) by {
            assert(init[i] == ps[i]);
        }
        lemma_join_lacks_char(init, sep, c);
        assert(!has_char(ps.last(), c));
        lemma_has_char_concat(join(init, sep), sep, c);
        lemma_has_char_concat(join(init, sep) + sep, ps.last(), c);
    }
}

/// Removing a character from joined pieces removes it from each piece and
/// from the separator.
pub proof fn lemma_remove_char_join(ps: Seq<Seq<char>>, sep: Seq<char>, c: char)
    ensures
        remove_char(join(ps, sep), c) == join(
            ps.map_values(|p: Seq<char>| remove_char(p, c)),
            remove_char(sep, c),
        ),
    decreases ps.len(),
{
    let qs = ps.map_values(|p: Seq<char>| remove_char(p, c));
    if ps.len() == 0 {
        assert(remove_char(Seq::<char>::empty(), c) == Seq::<char>::empty());
    } else if ps.len() == 1 {
    } else {
        let init = ps.drop_last();
        lemma_remove_char_join(init, sep, c);
        lemma_remove_char_concat(join(init, sep), sep, c);
        lemma_remove_char_concat(join(init, sep) + sep, ps.last(), c);
        assert(init.map_values(|p: Seq<char>| remove_char(p, c)) =~= qs.drop_last());
    }
}

/// Pieces joined by `a b` are the same text as the pieces, each but the first
/// preceded by `b`, joined by `a`.
pub proof fn lemma_join_pair_as_single(ps: Seq<Seq<char>>, a: char, b: char)
    requires
        ps.len() >= 1,
    ensures
        join(ps, seq![a, b]) == join(after_first(ps, b), seq![a]),
    decreases ps.len(),
{
    let qs = after_first(ps, b);
    if ps.len() == 1 {
        assert(qs[0] == ps[0]);
    } else {
        let init = ps.drop_last();
        lemma_join_pair_as_single(init, a, b);
        assert(after_first(init, b) =~= qs.drop_last());
        assert(qs.last() == seq![b] + ps.last());
        assert(join(init, seq![a, b]) + seq![a, b] + ps.last() =~= join(after_first(init, b), seq![
            a,
        ]) + seq![a] + (seq![b] + ps.last()));
    }
}

/// The pieces, each but the first preceded by `b`.
pub open spec fn after_first(ps: Seq<Seq<char>>, b: char) -> Seq<Seq<char>> {
    Seq::new(ps.len(), |i: int| if i == 0 { ps[0] } else { seq![b] + ps[i] })
}

/// A trimmed text after a space trims back to itself.
pub proof fn lemma_trim_after_space(e: Seq<char>)
    requires
        trim(e) == e,
    ensures
        trim(seq![' '] + e) == e,
{
    let s = seq![' '] + e;
    assert(s.drop_first() =~= e);
    assert(is_space(s[0]));
    assert(trim_start(s) == trim_start(e));
}

/// No piece of a split holds the separator.
pub proof fn lemma_split_on_pieces_lack(s: Seq<char>, sep: char)
    ensures
        forall|i: int|
            0 <= i < split_on(s, sep).len() ==> !has_char(#[trigger] split_on(s, sep)[i], sep),
    decreases s.len(),
{
    if s.len() > 0 {
        let t = s.drop_first();
        lemma_split_on_pieces_lack(t, sep);
        lemma_split_on_nonempty(t, sep);
        let rest = split_on(t, sep);
        if s[0] == sep {
            assert forall|i: int| 0 <= i < split_on(s, sep).len() implies !has_char(
                #[trigger] split_on(s, sep)[i],
                sep,
            ) by {
                if i > 0 {
                    assert(split_on(s, sep)[i] == rest[i - 1]);
                }
            }
        } else {
            assert forall|i: int| 0 <= i < split_on(s, sep).len() implies !has_char(
                #[trigger] split_on(s, sep)[i],
                sep,
            ) by {
                if i == 0 {
                    lemma_has_char_concat(seq![s[0]], rest[0], sep);
                    assert(!has_char(seq![s[0]], sep)) by {
                        if has_char(seq![s[0]], sep) {
                            let j = choose|j: int| 0 <= j < 1 && seq![s[0]][j] == sep;
                        }
                    }
                } else {
                    assert(split_on(s, sep)[i] == rest[i]);
                }
            }
        }
    }
}

/// Splitting a first piece without the separator, the separator and the
/// rest gives that piece and then the pieces of the rest.
pub proof fn lemma_split_on_prefix(x: Seq<char>, sep: char, y: Seq<char>)
    requires
        !has_char(x, sep),
    ensures
        split_on(x + seq![sep] + y, sep) == seq![x] + split_on(y, sep),
    decreases x.len(),
{
    let s = x + seq![sep] + y;
    if x.len() == 0 {
        assert(s.drop_first() =~= y);
        assert(s[0] == sep);
        assert(x =~= Seq::<char>::empty());
    } else {
        let t = x.drop_first();
        assert(!has_char(t, sep)) by {
            if has_char(t, sep) {
                let j = choose|j: int| 0 <= j < t.len() && t[j] == sep;
                assert(x[j + 1] == sep);
            }
        }
        assert(x[0] != sep);
        assert(s.drop_first() =~= t + seq![sep] + y);
        lemma_split_on_prefix(t, sep, y);
        assert(seq![x[0]] + t =~= x);
        assert(prepend_first(seq![x[0]], seq![t] + split_on(y, sep)) =~= seq![x] + split_on(
            y,
            sep,
        ));
    }
}

/// `trim_end` keeps a prefix of the text.
pub proof fn lemma_trim_end_prefix(s: Seq<char>)
    ensures
        trim_end(s).len() <= s.len(),
        trim_end(s) == s.take(trim_end(s).len() as int),
        trim_end(s).len() == 0 || !is_space(trim_end(s).last()),
    decreases s.len(),
{
    if s.len() > 0 && is_space(s.last()) {
        lemma_trim_end_prefix(s.drop_last());
        assert(s.drop_last().take(trim_end(s).len() as int) =~= s.take(trim_end(s).len() as int));
    } else {
        assert(s.take(s.len() as int) =~= s);
    }
}

/// `trim_start` keeps a suffix of the text.
pub proof fn lemma_trim_start_suffix(s: Seq<char>)
    ensures
        trim_start(s).len() <= s.len(),
        trim_start(s) == s.skip(s.len() - trim_start(s).len()),
        trim_start(s).len() == 0 || !is_space(trim_start(s)[0]),
    decreases s.len(),
{
    if s.len() > 0 && is_space(s[0]) {
        lemma_trim_start_suffix(s.drop_first());
        assert(s.drop_first().skip(s.len() - 1 - trim_start(s).len()) =~= s.skip(
            s.len() - trim_start(s).len(),
        ));
    } else {
        assert(s.skip(0) =~= s);
    }
}

/// Trimming twice is trimming once; a trimmed text lacks what the text lacks.
pub proof fn lemma_trim_facts(s: Seq<char>, c: char)
    ensures
        trim(trim(s)) == trim(s),
        !has_char(s, c) ==> !has_char(trim(s), c),
{
    let a = trim_start(s);
    lemma_trim_start_suffix(s);
    lemma_trim_end_prefix(a);
    let t = trim(s);
    if t.len() > 0 {
        assert(t[0] == a[0]);
    }
    lemma_trim_unchanged(t);
    if !has_char(s, c) && has_char(t, c) {
        let j = choose|j: int| 0 <= j < t.len() && t[j] == c;
        assert(t[j] == a[j]);
        assert(a[j] == s[s.len() - a.len() + j]);
    }
}

/// A piece of a split holds only characters of the text, never the separator.
pub proof fn lemma_split_on_pieces_from(s: Seq<char>, sep: char, d: char)
    ensures
        forall|i: int|
            0 <= i < split_on(s, sep).len() && has_char(#[trigger] split_on(s, sep)[i], d) ==> d
                != sep && has_char(s, d),
    decreases s.len(),
{
    lemma_split_on_pieces_lack(s, sep);
    if s.len() > 0 {
        let t = s.drop_first();
        lemma_split_on_pieces_from(t, sep, d);
        lemma_split_on_nonempty(t, sep);
        let rest = split_on(t, sep);
        assert forall|i: int|
            0 <= i < split_on(s, sep).len() && has_char(#[trigger] split_on(s, sep)[i], d) implies d
            != sep && has_char(s, d) by {
            let p = split_on(s, sep)[i];
            if s[0] == sep {
                assert(p == rest[i - 1]);
                let j = choose|j: int| 0 <= j < t.len() && t[j] == d;
                assert(s[j + 1] == d);
            } else if i == 0 {
                let j = choose|j: int| 0 <= j < p.len() && p[j] == d;
                if j == 0 {
                    assert(s[0] == d);
                } else {
                    assert(p[j] == rest[0][j - 1]);
                    assert(has_char(rest[0], d));
                    let k = choose|k: int| 0 <= k < t.len() && t[k] == d;
                    assert(s[k + 1] == d);
                }
            } else {
                assert(p == rest[i]);
                let k = choose|k: int| 0 <= k < t.len() && t[k] == d;
                assert(s[k + 1] == d);
            }
        }
    } else {
        assert forall|i: int|
            0 <= i < split_on(s, sep).len() && has_char(#[trigger] split_on(s, sep)[i], d) implies d
            != sep && has_char(s, d) by {
            let p = split_on(s, sep)[i];
            assert(p.len() == 0);
        }
    }
}

/// Removing `c` leaves only characters of the text other than `c`.
pub proof fn lemma_remove_char_from(s: Seq<char>, c: char, d: char)
    ensures
        has_char(remove_char(s, c), d) ==> d != c && has_char(s, d),
    decreases s.len(),
{
    if s.len() > 0 {
        let t = s.drop_last();
        lemma_remove_char_from(t, c, d);
        let r = remove_char(s, c);
        if has_char(r, d) {
            let j = choose|j: int| 0 <= j < r.len() && r[j] == d;
            if s.last() == c {
                let k = choose|k: int| 0 <= k < t.len() && t[k] == d;
                assert(s[k] == d);
            } else if j < r.len() - 1 {
                assert(remove_char(t, c)[j] == d);
                let k = choose|k: int| 0 <= k < t.len() && t[k] == d;
                assert(s[k] == d);
            } else {
                assert(s[s.len() - 1] == d);
            }
        }
    }
}

// ---------------------------------------------------------------------------
// Executable operations
// ---------------------------------------------------------------------------

/// The characters of a string slice, in order.
pub fn chars_of(s: &str) -> (r: Vec<char>)
    ensures
        r@ == s@,
{
    let mut r: Vec<char> = Vec::new();
    for c in it: s.chars()
        invariant
            r@ == it.seq().take(it.index() as int),
            it.seq() == s@,
    {
        r.push(c);
    }
    r
}

/// A string made of the given characters (`FromIterator<char>` for `String`).
#[verifier::external_body]
pub(crate) fn string_of(v: &[char]) -> (r: String)
    ensures
        r@ == v@,
{
    v.iter().collect()
}

/// The string views of a vector of character vectors.
pub fn strings_of(v: &Vec<Vec<char>>) -> (r: Vec<String>)
    ensures
        r.len() == v.len(),
        forall|i: int| 0 <= i < v.len() ==> #[trigger] r[i]@ == v[i]@,
{
    let mut r: Vec<String> = Vec::new();
    for i in 0..v.len()
        invariant
            r.len() == i,
            forall|j: int| 0 <= j < i ==> #[trigger] r[j]@ == v[j]@,
    {
        r.push(string_of(v[i].as_slice()));
    }
    r
}

/// A copy of a vector of strings.
pub fn clone_strings(v: &Vec<String>) -> (r: Vec<String>)
    ensures
        strings_view(r@) == strings_view(v@),
        r.len() == v.len(),
{
    let mut r: Vec<String> = Vec::new();
    for i in 0..v.len()
        invariant
            r.len() == i,
            forall|j: int| 0 <= j < i ==> #[trigger] r[j]@ == v[j]@,
    {
        r.push(v[i].clone());
    }
    assert(strings_view(r@) =~= strings_view(v@));
    r
}

/// Whether two character vectors are equal.
pub fn chars_eq(a: &Vec<char>, b: &Vec<char>) -> (r: bool)
    ensures
        r == (a@ == b@),
{
    if a.len() != b.len() {
        return false;
    }
    for i in 0..a.len()
        invariant
            a.len() == b.len(),
            forall|j: int| 0 <= j < i ==> a[j] == b[j],
    {
        if a[i] != b[i] {
            return false;
        }
    }
    assert(a@ =~= b@);
    true
}

/// Whether the character is white space (`char::is_whitespace`).
pub fn char_is_space(c: char) -> (r: bool)
    ensures
        r == is_space(c),
{
    let n = c as u32;
    (0x9 <= n && n <= 0xd) || n == 0x20 || n == 0x85 || n == 0xa0 || n == 0x1680 || (0x2000 <= n
        && n <= 0x200a) || n == 0x2028 || n == 0x2029 || n == 0x202f || n == 0x205f || n == 0x3000
}

/// The characters of `s` from `from` up to `to`.
pub fn sub_chars(s: &Vec<char>, from: usize, to: usize) -> (r: Vec<char>)
    requires
        from <= to <= s.len(),
    ensures
        r@ == s@.subrange(from as int, to as int),
{
    let mut r: Vec<char> = Vec::new();
    for i in from..to
        invariant
            from <= i <= to <= s.len(),
            r@ == s@.subrange(from as int, i as int),
    {
        r.push(s[i]);
        assert(r@ =~= s@.subrange(from as int, i + 1));
    }
    r
}

/// `s` with white space removed at both ends (`str::trim`).
pub fn trim_chars(s: &Vec<char>) -> (r: Vec<char>)
    ensures
        r@ == trim(s@),
{
    let mut a: usize = 0;
    while a < s.len() && char_is_space(s[a])
        invariant
            a <= s.len(),
            forall|j: int| 0 <= j < a ==> is_space(#[trigger] s[j]),
        decreases s.len() - a,
    {
        a = a + 1;
    }
    proof {
        lemma_trim_start_skip(s@, a as int);
    }
    let t = sub_chars(s, a, s.len());
    let mut b: usize = t.len();
    while b > 0 && char_is_space(t[b - 1])
        invariant
            b <= t.len(),
            forall|j: int| b <= j < t.len() ==> is_space(#[trigger] t[j]),
        decreases b,
    {
        b = b - 1;
    }
    proof {
        lemma_trim_end_take(t@, b as int);
    }
    sub_chars(&t, 0, b)
}

/// The pieces of `s` between occurrences of `sep` (`str::split` on a `char`).
pub fn split_chars(s: &Vec<char>, sep: char) -> (r: Vec<Vec<char>>)
    ensures
        r.deep_view() == split_on(s@, sep),
        r.len() >= 1,
{
    let mut parts: Vec<Vec<char>> = Vec::new();
    let mut cur: Vec<char> = Vec::new();
    let n = s.len();
    proof {
        assert(s@.skip(0) =~= s@);
        lemma_split_on_nonempty(s@, sep);
        lemma_prepend_empty(split_on(s@, sep));
        assert(parts.deep_view() + prepend_first(cur@, split_on(s@.skip(0), sep)) =~= split_on(
            s@,
            sep,
        ));
    }
    for i in 0..n
        invariant
            n == s.len(),
            split_on(s@, sep) == parts.deep_view() + prepend_first(
                cur@,
                split_on(s@.skip(i as int), sep),
            ),
    {
        let ghost rest = split_on(s@.skip(i + 1), sep);
        proof {
            lemma_split_on_nonempty(s@.skip(i + 1), sep);
            assert(s@.skip(i as int).drop_first() =~= s@.skip(i + 1));
            assert(s@.skip(i as int)[0] == s[i as int]);
        }
        if s[i] == sep {
            let ghost old_parts = parts.deep_view();
            let ghost old_cur = cur@;
            let ghost cv = cur;
            parts.push(cur);
            cur = Vec::new();
            proof {
                lemma_chars_deep_view(cv);
                lemma_prepend_empty(rest);
                assert(prepend_first(old_cur, seq![Seq::<char>::empty()] + rest) =~= seq![old_cur]
                    + rest);
                assert(parts.deep_view() =~= old_parts.push(old_cur));
                assert(old_parts + (seq![old_cur] + rest) =~= parts.deep_view() + prepend_first(
                    cur@,
                    rest,
                ));
            }
        } else {
            let ghost old_cur = cur@;
            cur.push(s[i]);
            proof {
                lemma_prepend_twice(old_cur, seq![s[i as int]], rest);
                assert(old_cur + seq![s[i as int]] =~= cur@);
            }
        }
    }
    proof {
        assert(s@.skip(n as int) =~= Seq::<char>::empty());
        assert(prepend_first(cur@, seq![Seq::<char>::empty()]) =~= seq![cur@]);
    }
    let ghost old_parts = parts.deep_view();
    let ghost last = cur@;
    let ghost cv = cur;
    parts.push(cur);
    proof {
        lemma_chars_deep_view(cv);
        assert(parts.deep_view() =~= old_parts + seq![last]);
    }
    parts
}

/// The pieces of `s` between the leftmost non-overlapping occurrences of
/// `a b` (`str::split` on a two-character pattern).
pub fn split_chars_pair(s: &Vec<char>, a: char, b: char) -> (r: Vec<Vec<char>>)
    ensures
        r.deep_view() == split_on_pair(s@, a, b),
{
    let mut parts: Vec<Vec<char>> = Vec::new();
    let mut cur: Vec<char> = Vec::new();
    let n = s.len();
    let mut i: usize = 0;
    proof {
        assert(s@.skip(0) =~= s@);
        lemma_split_on_pair_nonempty(s@, a, b);
        lemma_prepend_empty(split_on_pair(s@, a, b));
        assert(parts.deep_view() + prepend_first(cur@, split_on_pair(s@.skip(0), a, b))
            =~= split_on_pair(s@, a, b));
    }
    while i < n
        invariant
            n == s.len(),
            i <= n,
            split_on_pair(s@, a, b) == parts.deep_view() + prepend_first(
                cur@,
                split_on_pair(s@.skip(i as int), a, b),
            ),
        decreases n - i,
    {
        let ghost t = s@.skip(i as int);
        if i + 1 < n && s[i] == a && s[i + 1] == b {
            let ghost rest = split_on_pair(s@.skip(i + 2), a, b);
            proof {
                lemma_split_on_pair_nonempty(s@.skip(i + 2), a, b);
                assert(t.skip(2) =~= s@.skip(i + 2));
                assert(t[0] == s[i as int] && t[1] == s[i + 1]);
                lemma_prepend_empty(rest);
            }
            let ghost old_parts = parts.deep_view();
            let ghost old_cur = cur@;
            let ghost cv = cur;
            parts.push(cur);
            cur = Vec::new();
            proof {
                lemma_chars_deep_view(cv);
                assert(prepend_first(old_cur, seq![Seq::<char>::empty()] + rest) =~= seq![old_cur]
                    + rest);
                assert(parts.deep_view() =~= old_parts.push(old_cur));
                assert(old_parts + (seq![old_cur] + rest) =~= parts.deep_view() + prepend_first(
                    cur@,
                    rest,
                ));
            }
            i = i + 2;
        } else {
            let ghost rest = split_on_pair(s@.skip(i + 1), a, b);
            proof {
                lemma_split_on_pair_nonempty(s@.skip(i + 1), a, b);
                assert(t.drop_first() =~= s@.skip(i + 1));
                assert(t[0] == s[i as int]);
                assert(!(t.len() >= 2 && t[0] == a && t[1] == b));
            }
            let ghost old_cur = cur@;
            cur.push(s[i]);
            proof {
                lemma_prepend_twice(old_cur, seq![s[i as int]], rest);
                assert(old_cur + seq![s[i as int]] =~= cur@);
            }
            i = i + 1;
        }
    }
    proof {
        assert(s@.skip(n as int) =~= Seq::<char>::empty());
        assert(prepend_first(cur@, seq![Seq::<char>::empty()]) =~= seq![cur@]);
    }
    let ghost old_parts = parts.deep_view();
    let ghost last = cur@;
    let ghost cv = cur;
    parts.push(cur);
    proof {
        lemma_chars_deep_view(cv);
        assert(parts.deep_view() =~= old_parts + seq![last]);
    }
    parts
}

/// `s` without any occurrence of `c` (`str::replace(c, "")`).
pub fn remove_char_chars(s: &Vec<char>, c: char) -> (r: Vec<char>)
    ensures
        r@ == remove_char(s@, c),
{
    let mut r: Vec<char> = Vec::new();
    for i in 0..s.len()
        invariant
            r@ == remove_char(s@.take(i as int), c),
    {
        proof {
            assert(s@.take(i + 1).drop_last() =~= s@.take(i as int));
        }
        if s[i] != c {
            r.push(s[i]);
        }
    }
    proof {
        assert(s@.take(s.len() as int) =~= s@);
    }
    r
}

/// Whether `s` takes more than two bytes in UTF-8 (`str::len() > 2`).
pub fn utf8_len_exceeds_two(s: &Vec<char>) -> (r: bool)
    ensures
        r == (utf8_len(s@) > 2),
{
    let mut acc: usize = 0;
    for i in 0..s.len()
        invariant
            acc == utf8_len(s@.take(i as int)),
            acc <= 2,
    {
        proof {
            assert(s@.take(i + 1).drop_last() =~= s@.take(i as int));
        }
        let c = s[i] as u32;
        let l: usize = if c < 0x80 {
            1
        } else if c < 0x800 {
            2
        } else if c < 0x10000 {
            3
        } else {
            4
        };
        acc = acc + l;
        if acc > 2 {
            proof {
                lemma_utf8_len_prefix(s@, i + 1);
            }
            return true;
        }
    }
    proof {
        assert(s@.take(s.len() as int) =~= s@);
    }
    false
}

/// The pieces joined with `sep` between each two.
pub fn join_chars(pieces: &Vec<Vec<char>>, sep: &Vec<char>) -> (r: Vec<char>)
    ensures
        r@ == join(pieces.deep_view(), sep@),
{
    let mut r: Vec<char> = Vec::new();
    for i in 0..pieces.len()
        invariant
            r@ == join(pieces.deep_view().take(i as int), sep@),
    {
        proof {
            assert(pieces.deep_view().take(i + 1).drop_last() =~= pieces.deep_view().take(
                i as int,
            ));
            assert(pieces.deep_view().take(i + 1).last() == pieces[i as int]@);
        }
        if i > 0 {
            append_chars(&mut r, sep);
        }
        append_chars(&mut r, &pieces[i]);
        proof {
            if i == 0 {
                assert(pieces.deep_view().take(1) =~= seq![pieces[0]@]);
            }
        }
    }
    proof {
        assert(pieces.deep_view().take(pieces.len() as int) =~= pieces.deep_view());
    }
    r
}

/// Appends the characters of `t` to `r`.
pub fn append_chars(r: &mut Vec<char>, t: &Vec<char>)
    ensures
        final(r)@ == old(r)@ + t@,
{
    for i in 0..t.len()
        invariant
            r@ == old(r)@ + t@.take(i as int),
    {
        r.push(t[i]);
        assert(r@ =~= old(r)@ + t@.take(i + 1));
    }
    assert(t@.take(t.len() as int) =~= t@);
}

// ---------------------------------------------------------------------------
// Standard-library formatting that the store format relies on
// ---------------------------------------------------------------------------

/// What `format!("{:?}", s)` gives for a string slice: the text in double
/// quotes, with some characters escaped.
pub uninterp spec fn debug_str(s: Seq<char>) -> Seq<char>;

/// A character that `Debug` for `str` writes as it is: printable ASCII other
/// than the double quote and the backslash.
pub open spec fn is_plain_char(c: char) -> bool {
    0x20 <= (c as u32) <= 0x7e && c != '"' && c != '\\'
}

/// Every character of `s` is plain.
pub open spec fn is_plain(s: Seq<char>) -> bool {
    forall|i: int| 0 <= i < s.len() ==> is_plain_char(#[trigger] s[i])
}

/// `Debug` formatting of a string slice (`format!("{:?}", s)`).
///
/// Claimed: the result is a function of the text alone, and text made of
/// printable ASCII other than `"` and `\\` comes out unchanged between two
/// double quotes. Not claimed: how other characters are escaped.
#[verifier::external_body]
pub(crate) fn debug_quote(s: &str) -> (r: String)
    ensures
        r@ == debug_str(s@),
        is_plain(s@) ==> r@ == seq!['"'] + s@ + seq!['"'],
{
    format!("{:?}", s)
}

/// What `str::to_lowercase` gives.
pub uninterp spec fn lowercase(s: Seq<char>) -> Seq<char>;

/// A character in ASCII lower case: `A` to `Z` become `a` to `z`, any other
/// character stays.
pub open spec fn ascii_lower(c: char) -> char {
    if 0x41 <= (c as u32) <= 0x5a {
        ((c as u32) + 0x20) as char
    } else {
        c
    }
}

/// `str::to_lowercase`: the Unicode lower-case mapping of the text.
///
/// Claimed: the result is a function of the text alone, and on ASCII text
/// it maps `A` to `Z` to `a` to `z` and keeps every other character. Not
/// claimed: the mapping of other characters.
#[verifier::external_body]
pub(crate) fn to_lowercase(s: &str) -> (r: String)
    ensures
        r@ == lowercase(s@),
        (forall|i: int| 0 <= i < s@.len() ==> is_ascii_char(#[trigger] s@[i])) ==> r@
            == s@.map_values(|c: char| ascii_lower(c)),
{
    s.to_lowercase()
}

} // verus!
