//! Character-level helpers on strings: trimming a character, removing `..`
//! pairs, comparing in lexicographic order.

use vstd::prelude::*;

verus! {

/// `s` with every leading occurrence of `c` removed.
pub open spec fn trim_start_char(s: Seq<char>, c: char) -> Seq<char>
    decreases s.len(),
{
    if s.len() > 0 && s[0] == c {
        trim_start_char(s.drop_first(), c)
    } else {
        s
    }
}

/// `s` with every trailing occurrence of `c` removed.
pub open spec fn trim_end_char(s: Seq<char>, c: char) -> Seq<char>
    decreases s.len(),
{
    if s.len() > 0 && s.last() == c {
        trim_end_char(s.drop_last(), c)
    } else {
        s
    }
}

/// `s` with every leading and trailing occurrence of `c` removed
/// (what `str::trim_matches(c)` gives for a single character).
pub open spec fn trim_char(s: Seq<char>, c: char) -> Seq<char> {
    trim_end_char(trim_start_char(s, c), c)
}

/// Returns `s` with all leading and trailing `c` removed.
pub fn trim_char_exec(s: &str, c: char) -> (out: String)
    ensures
        out@ == trim_char(s@, c),
{
    let n = s.unicode_len();
    let mut start: usize = 0;
    assert(s@.subrange(0, n as int) =~= s@);
    while start < n && s.get_char(start) == c
        invariant
            start <= n,
            n == s@.len(),
            trim_start_char(s@, c) == trim_start_char(s@.subrange(start as int, n as int), c),
        decreases n - start,
    {
        assert(s@.subrange(start as int, n as int).drop_first() =~= s@.subrange(
            start + 1,
            n as int,
        ));
        start = start + 1;
    }
    let ghost head = s@.subrange(start as int, n as int);
    assert(trim_start_char(s@, c) == head);
    let mut end: usize = n;
    while end > start && s.get_char(end - 1) == c
        invariant
            start <= end <= n,
            n == s@.len(),
            head == s@.subrange(start as int, n as int),
            trim_end_char(head, c) == trim_end_char(s@.subrange(start as int, end as int), c),
        decreases end,
    {
        assert(s@.subrange(start as int, end as int).drop_last() =~= s@.subrange(
            start as int,
            end - 1,
        ));
        end = end - 1;
    }
    String::from_str(s.substring_char(start, end))
}


/// `s` with every `..` removed, scanning left to right over non-overlapping
/// matches (what `str::replace("..", "")` gives).
pub open spec fn remove_dot_pairs(s: Seq<char>) -> Seq<char>
    decreases s.len(),
{
    if s.len() < 2 {
        s
    } else if s[0] == '.' && s[1] == '.' {
        remove_dot_pairs(s.subrange(2, s.len() as int))
    } else {
        seq![s[0]] + remove_dot_pairs(s.drop_first())
    }
}

/// No two adjacent characters of `s` are both `.`.
pub open spec fn no_dot_pair(s: Seq<char>) -> bool {
    forall|i: int| 0 <= i < s.len() - 1 ==> !(#[trigger] s[i] == '.' && s[i + 1] == '.')
}

/// Removing `..` pairs leaves no two adjacent dots, and the result begins
/// with a dot only where the input did.
pub proof fn lemma_remove_dot_pairs_no_pair(s: Seq<char>)
    ensures
        no_dot_pair(remove_dot_pairs(s)),
        remove_dot_pairs(s).len() > 0 && remove_dot_pairs(s)[0] == '.' ==> s.len() > 0 && s[0]
            == '.',
        remove_dot_pairs(s).len() <= s.len(),
    decreases s.len(),
{
    if s.len() < 2 {
    } else if s[0] == '.' && s[1] == '.' {
        lemma_remove_dot_pairs_no_pair(s.subrange(2, s.len() as int));
    } else {
        let t = s.drop_first();
        lemma_remove_dot_pairs_no_pair(t);
        let r = remove_dot_pairs(s);
        let rt = remove_dot_pairs(t);
        assert(r == seq![s[0]] + rt);
        assert forall|i: int| 0 <= i < r.len() - 1 implies !(#[trigger] r[i] == '.' && r[i + 1]
            == '.') by {
            if i == 0 {
                if r[0] == '.' && r[1] == '.' {
                    assert(rt[0] == '.');
                    assert(t[0] == '.');
                    assert(s[1] == '.');
                }
            } else {
                assert(r[i] == rt[i - 1]);
                assert(r[i + 1] == rt[i]);
            }
        }
    }
}

/// Returns `s` with every `..` removed, matches taken left to right without
/// overlap.
pub fn remove_dot_pairs_exec(s: &str) -> (out: String)
    ensures
        out@ == remove_dot_pairs(s@),
{
    let n = s.unicode_len();
    let mut out = String::new();
    let mut i: usize = 0;
    assert(s@.subrange(0, n as int) =~= s@);
    while i < n
        invariant
            i <= n,
            n == s@.len(),
            remove_dot_pairs(s@) == out@ + remove_dot_pairs(s@.subrange(i as int, n as int)),
        decreases n - i,
    {
        let ghost rest = s@.subrange(i as int, n as int);
        if i + 1 < n && s.get_char(i) == '.' && s.get_char(i + 1) == '.' {
            assert(rest.subrange(2, rest.len() as int) =~= s@.subrange(i + 2, n as int));
            i = i + 2;
        } else {
            let one = s.substring_char(i, i + 1);
            assert(rest.drop_first() =~= s@.subrange(i + 1, n as int));
            assert(one@ =~= seq![rest[0]]);
            let ghost before = out@;
            out.append(one);
            assert(before + (seq![rest[0]] + remove_dot_pairs(rest.drop_first())) =~= out@
                + remove_dot_pairs(rest.drop_first()));
            i = i + 1;
        }
    }
    assert(s@.subrange(n as int, n as int) =~= Seq::<char>::empty());
    assert(out@ + Seq::<char>::empty() =~= out@);
    out
}


/// Number of characters of `s` before the first `c` (or its length).
pub open spec fn run_len(s: Seq<char>, c: char) -> nat
    decreases s.len(),
{
    if s.len() == 0 || s[0] == c {
        0
    } else {
        1 + run_len(s.drop_first(), c)
    }
}

pub proof fn lemma_run_len(s: Seq<char>, c: char)
    ensures
        run_len(s, c) <= s.len(),
        forall|i: int| 0 <= i < run_len(s, c) ==> s[i] != c,
        run_len(s, c) < s.len() ==> s[run_len(s, c) as int] == c,
    decreases s.len(),
{
    if s.len() > 0 && s[0] != c {
        lemma_run_len(s.drop_first(), c);
        assert forall|i: int| 0 <= i < run_len(s, c) implies s[i] != c by {
            if i > 0 {
                assert(s[i] == s.drop_first()[i - 1]);
            }
        }
    }
}

pub proof fn lemma_run_len_at(s: Seq<char>, j: int, c: char)
    requires
        0 <= j <= s.len(),
        forall|i: int| 0 <= i < j ==> s[i] != c,
        j == s.len() || s[j] == c,
    ensures
        run_len(s, c) == j,
    decreases j,
{
    if j > 0 {
        let t = s.drop_first();
        assert forall|i: int| 0 <= i < j - 1 implies t[i] != c by {
            assert(t[i] == s[i + 1]);
        }
        lemma_run_len_at(t, j - 1, c);
    }
}


/// Whether `c` has the Unicode `White_Space` property, as
/// `char::is_whitespace` reports it.
pub uninterp spec fn unicode_whitespace(c: char) -> bool;

/// Whether `c` is alphabetic or numeric in Unicode, as
/// `char::is_alphanumeric` reports it.
pub uninterp spec fn unicode_alphanumeric(c: char) -> bool;

/// Calls `char::is_whitespace`. Claimed: the result is the `White_Space`
/// property of `c`, and among ASCII characters exactly tab, line feed,
/// vertical tab, form feed, carriage return and space have it. The Unicode
/// table beyond ASCII is not stated.
#[verifier::external_body]
fn char_is_whitespace(c: char) -> (r: bool)
    ensures
        r == unicode_whitespace(c),
        c <= '\x7f' ==> (r <==> (c == ' ' || '\t' <= c <= '\r')),
{
    c.is_whitespace()
}

/// Calls `char::is_alphanumeric`. Claimed: the result is the named
/// property of `c`, and among ASCII characters exactly the letters and the
/// digits have it. The Unicode tables beyond ASCII are not stated.
#[verifier::external_body]
pub(crate) fn char_is_alphanumeric(c: char) -> (r: bool)
    ensures
        r == unicode_alphanumeric(c),
        c <= '\x7f' ==> (r <==> ('a' <= c <= 'z' || 'A' <= c <= 'Z' || '0' <= c <= '9')),
{
    c.is_alphanumeric()
}

/// `s` without leading Unicode whitespace.
pub open spec fn trim_start_ws(s: Seq<char>) -> Seq<char>
    decreases s.len(),
{
    if s.len() > 0 && unicode_whitespace(s[0]) {
        trim_start_ws(s.drop_first())
    } else {
        s
    }
}

/// `s` without trailing Unicode whitespace.
pub open spec fn trim_end_ws(s: Seq<char>) -> Seq<char>
    decreases s.len(),
{
    if s.len() > 0 && unicode_whitespace(s.last()) {
        trim_end_ws(s.drop_last())
    } else {
        s
    }
}

/// `s` without leading and trailing Unicode whitespace (`str::trim`).
pub open spec fn trim_ws(s: Seq<char>) -> Seq<char> {
    trim_end_ws(trim_start_ws(s))
}

/// Returns `s` without leading and trailing whitespace.
pub fn trim(s: &str) -> (out: String)
    ensures
        out@ == trim_ws(s@),
{
    let n = s.unicode_len();
    let mut start: usize = 0;
    assert(s@.subrange(0, n as int) =~= s@);
    while start < n && char_is_whitespace(s.get_char(start))
        invariant
            start <= n,
            n == s@.len(),
            trim_start_ws(s@) == trim_start_ws(s@.subrange(start as int, n as int)),
        decreases n - start,
    {
        assert(s@.subrange(start as int, n as int).drop_first() =~= s@.subrange(
            start + 1,
            n as int,
        ));
        start = start + 1;
    }
    let ghost head = s@.subrange(start as int, n as int);
    assert(trim_start_ws(s@) == head);
    let mut end: usize = n;
    while end > start && char_is_whitespace(s.get_char(end - 1))
        invariant
            start <= end <= n,
            n == s@.len(),
            head == s@.subrange(start as int, n as int),
            trim_end_ws(head) == trim_end_ws(s@.subrange(start as int, end as int)),
        decreases end,
    {
        assert(s@.subrange(start as int, end as int).drop_last() =~= s@.subrange(
            start as int,
            end - 1,
        ));
        end = end - 1;
    }
    String::from_str(s.substring_char(start, end))
}

/// A line without the carriage return that ends it, if any.
pub open spec fn strip_cr(line: Seq<char>) -> Seq<char> {
    if line.len() > 0 && line.last() == '\r' {
        line.drop_last()
    } else {
        line
    }
}

/// The lines of `s` as `str::lines` yields them: split at `\n`, a `\r`
/// before the `\n` dropped, a final line ending optional.
pub open spec fn text_lines(s: Seq<char>) -> Seq<Seq<char>>
    decreases s.len(),
{
    if s.len() == 0 {
        Seq::empty()
    } else {
        let k = run_len(s, '\n');
        if k < s.len() {
            seq![strip_cr(s.take(k as int))] + text_lines(s.skip(k as int + 1))
        } else {
            seq![s]
        }
    }
}

/// The views of a list of strings.
pub open spec fn strings_view(v: Seq<String>) -> Seq<Seq<char>> {
    v.map_values(|x: String| x@)
}

/// Splits `text` into its lines (`str::lines`).
pub fn lines(text: &str) -> (v: Vec<String>)
    ensures
        strings_view(v@) == text_lines(text@),
        v@.len() == text_lines(text@).len(),
        forall|i: int| 0 <= i < v@.len() ==> #[trigger] v@[i]@ == text_lines(text@)[i],
{
    let n = text.unicode_len();
    let mut out: Vec<String> = Vec::new();
    let mut start: usize = 0;
    let mut i: usize = 0;
    assert(text@.subrange(0, n as int) =~= text@);
    while i < n
        invariant
            start <= i <= n,
            n == text@.len(),
            forall|k: int| start <= k < i ==> text@[k] != '\n',
            text_lines(text@) == strings_view(out@) + text_lines(
                text@.subrange(start as int, n as int),
            ),
        decreases n - i,
    {
        if text.get_char(i) == '\n' {
            let ghost rest = text@.subrange(start as int, n as int);
            let ghost j = i - start;
            assert forall|k: int| 0 <= k < j implies rest[k] != '\n' by {
                assert(rest[k] == text@[start + k]);
            }
            assert(rest[j] == text@[i as int]);
            proof {
                lemma_run_len_at(rest, j, '\n');
            }
            assert(rest.take(j) =~= text@.subrange(start as int, i as int));
            assert(rest.skip(j + 1) =~= text@.subrange(i + 1, n as int));
            let mut end = i;
            if end > start && text.get_char(end - 1) == '\r' {
                end = end - 1;
            }
            let line = String::from_str(text.substring_char(start, end));
            assert(line@ =~= strip_cr(rest.take(j)));
            let ghost before = out@;
            out.push(line);
            assert(strings_view(out@) =~= strings_view(before).push(line@));
            assert(strings_view(before) + text_lines(rest) =~= strings_view(out@) + text_lines(
                text@.subrange(i + 1, n as int),
            ));
            start = i + 1;
        }
        i = i + 1;
    }
    if start < n {
        let ghost rest = text@.subrange(start as int, n as int);
        assert forall|k: int| 0 <= k < rest.len() implies rest[k] != '\n' by {
            assert(rest[k] == text@[start + k]);
        }
        proof {
            lemma_run_len_at(rest, rest.len() as int, '\n');
        }
        let line = String::from_str(text.substring_char(start, n));
        let ghost before = out@;
        out.push(line);
        assert(strings_view(out@) =~= strings_view(before).push(line@));
        assert(strings_view(before) + text_lines(rest) =~= strings_view(out@));
    } else {
        assert(text_lines(text@.subrange(start as int, n as int)) =~= Seq::<Seq<char>>::empty());
        assert(strings_view(out@) + Seq::<Seq<char>>::empty() =~= strings_view(out@));
    }
    assert forall|i: int| 0 <= i < out@.len() implies #[trigger] out@[i]@ == text_lines(text@)[i] by {
        assert(strings_view(out@)[i] == out@[i]@);
    }
    out
}


/// Whether a character is not a dot.
pub open spec fn not_dot() -> spec_fn(char) -> bool {
    |c: char| c != '.'
}

/// Removing `..` pairs only takes dots away: every other character stays,
/// in its order, and a text without dots is left exactly as it is.
pub proof fn law_dot_removal_only_drops_dots(s: Seq<char>)
    ensures
        remove_dot_pairs(s).filter(not_dot()) == s.filter(not_dot()),
        (forall|i: int| 0 <= i < s.len() ==> s[i] != '.') ==> remove_dot_pairs(s) == s,
        forall|a: Seq<char>|
            (forall|i: int| 0 <= i < a.len() ==> a[i] != '.') ==> #[trigger] remove_dot_pairs(a + s)
                == a + remove_dot_pairs(s),
    decreases s.len(),
{
    let p = not_dot();
    if s.len() < 2 {
    } else if s[0] == '.' && s[1] == '.' {
        let t = s.subrange(2, s.len() as int);
        law_dot_removal_only_drops_dots(t);
        assert(s =~= seq![s[0]] + (seq![s[1]] + t));
        (seq![s[1]] + t).lemma_filter_prepend(s[0], p);
        t.lemma_filter_prepend(s[1], p);
        assert(s.filter(p) =~= t.filter(p));
    } else {
        let t = s.drop_first();
        law_dot_removal_only_drops_dots(t);
        assert(s =~= seq![s[0]] + t);
        t.lemma_filter_prepend(s[0], p);
        remove_dot_pairs(t).lemma_filter_prepend(s[0], p);
        if forall|i: int| 0 <= i < s.len() ==> s[i] != '.' {
            assert forall|i: int| 0 <= i < t.len() implies t[i] != '.' by {
                assert(t[i] == s[i + 1]);
            }
        }
    }
    assert forall|a: Seq<char>|
        (forall|i: int| 0 <= i < a.len() ==> a[i] != '.') implies #[trigger] remove_dot_pairs(a + s)
            == a + remove_dot_pairs(s) by {
        lemma_dot_free_prefix(a, s);
    }
}

proof fn lemma_dot_free_prefix(a: Seq<char>, s: Seq<char>)
    requires
        forall|i: int| 0 <= i < a.len() ==> a[i] != '.',
    ensures
        remove_dot_pairs(a + s) == a + remove_dot_pairs(s),
    decreases a.len(),
{
    if a.len() == 0 {
        assert(a + s =~= s);
        assert(a + remove_dot_pairs(s) =~= remove_dot_pairs(s));
    } else {
        let x = a + s;
        let a2 = a.drop_first();
        assert forall|i: int| 0 <= i < a2.len() implies a2[i] != '.' by {
            assert(a2[i] == a[i + 1]);
        }
        lemma_dot_free_prefix(a2, s);
        assert(x.drop_first() =~= a2 + s);
        assert(x[0] == a[0]);
        if x.len() < 2 {
            assert(s.len() == 0);
            assert(a2.len() == 0);
            assert(remove_dot_pairs(s) =~= s);
            assert(x =~= a + remove_dot_pairs(s));
        } else {
            assert(remove_dot_pairs(x) == seq![a[0]] + remove_dot_pairs(a2 + s));
            assert(seq![a[0]] + (a2 + remove_dot_pairs(s)) =~= a + remove_dot_pairs(s));
        }
    }
}

proof fn lemma_trim_start_char(s: Seq<char>, c: char) -> (i: int)
    ensures
        0 <= i <= s.len(),
        trim_start_char(s, c) == s.subrange(i, s.len() as int),
        forall|k: int| 0 <= k < i ==> s[k] == c,
        i < s.len() ==> s[i] != c,
    decreases s.len(),
{
    if s.len() > 0 && s[0] == c {
        let j = lemma_trim_start_char(s.drop_first(), c);
        assert(s.drop_first().subrange(j, s.len() - 1) =~= s.subrange(j + 1, s.len() as int));
        assert forall|k: int| 0 <= k < j + 1 implies s[k] == c by {
            if k > 0 {
                assert(s[k] == s.drop_first()[k - 1]);
            }
        }
        if j + 1 < s.len() {
            assert(s[j + 1] == s.drop_first()[j]);
        }
        j + 1
    } else {
        assert(s.subrange(0, s.len() as int) =~= s);
        0
    }
}

proof fn lemma_trim_end_char(s: Seq<char>, c: char) -> (j: int)
    ensures
        0 <= j <= s.len(),
        trim_end_char(s, c) == s.subrange(0, j),
        forall|k: int| j <= k < s.len() ==> s[k] == c,
        j > 0 ==> s[j - 1] != c,
    decreases s.len(),
{
    if s.len() > 0 && s.last() == c {
        let j = lemma_trim_end_char(s.drop_last(), c);
        assert(s.drop_last().subrange(0, j) =~= s.subrange(0, j));
        assert forall|k: int| j <= k < s.len() implies s[k] == c by {
            if k < s.len() - 1 {
                assert(s[k] == s.drop_last()[k]);
            }
        }
        if j > 0 {
            assert(s[j - 1] == s.drop_last()[j - 1]);
        }
        j
    } else {
        assert(s.subrange(0, s.len() as int) =~= s);
        s.len() as int
    }
}

/// Trimming a character cuts a run of it from each end and nothing else:
/// the result is a contiguous part of the text, everything cut is that
/// character, and the result neither starts nor ends with it.
pub proof fn law_trim_char_cuts_only_ends(s: Seq<char>, c: char)
    ensures
        exists|i: int, j: int|
            0 <= i <= j <= s.len() && trim_char(s, c) == s.subrange(i, j) && (forall|k: int|
                0 <= k < i ==> s[k] == c) && (forall|k: int| j <= k < s.len() ==> s[k] == c),
        trim_char(s, c).len() > 0 ==> trim_char(s, c)[0] != c && trim_char(s, c).last() != c,
{
    let i = lemma_trim_start_char(s, c);
    let h = s.subrange(i, s.len() as int);
    let j = lemma_trim_end_char(h, c);
    assert(trim_char(s, c) == h.subrange(0, j));
    assert(h.subrange(0, j) =~= s.subrange(i, i + j));
    assert forall|k: int| i + j <= k < s.len() implies s[k] == c by {
        assert(s[k] == h[k - i]);
    }
    if j > 0 {
        assert(h[0] == s[i]);
    }
    assert(0 <= i <= i + j <= s.len() && trim_char(s, c) == s.subrange(i, i + j) && (forall|k: int|
        0 <= k < i ==> s[k] == c) && (forall|k: int| i + j <= k < s.len() ==> s[k] == c));
}

proof fn lemma_trim_start_ws(s: Seq<char>) -> (i: int)
    ensures
        0 <= i <= s.len(),
        trim_start_ws(s) == s.subrange(i, s.len() as int),
        forall|k: int| 0 <= k < i ==> unicode_whitespace(s[k]),
        i < s.len() ==> !unicode_whitespace(s[i]),
    decreases s.len(),
{
    if s.len() > 0 && unicode_whitespace(s[0]) {
        let j = lemma_trim_start_ws(s.drop_first());
        assert(s.drop_first().subrange(j, s.len() - 1) =~= s.subrange(j + 1, s.len() as int));
        assert forall|k: int| 0 <= k < j + 1 implies unicode_whitespace(s[k]) by {
            if k > 0 {
                assert(s[k] == s.drop_first()[k - 1]);
            }
        }
        if j + 1 < s.len() {
            assert(s[j + 1] == s.drop_first()[j]);
        }
        j + 1
    } else {
        assert(s.subrange(0, s.len() as int) =~= s);
        0
    }
}

proof fn lemma_trim_end_ws(s: Seq<char>) -> (j: int)
    ensures
        0 <= j <= s.len(),
        trim_end_ws(s) == s.subrange(0, j),
        forall|k: int| j <= k < s.len() ==> unicode_whitespace(s[k]),
        j > 0 ==> !unicode_whitespace(s[j - 1]),
    decreases s.len(),
{
    if s.len() > 0 && unicode_whitespace(s.last()) {
        let j = lemma_trim_end_ws(s.drop_last());
        assert(s.drop_last().subrange(0, j) =~= s.subrange(0, j));
        assert forall|k: int| j <= k < s.len() implies unicode_whitespace(s[k]) by {
            if k < s.len() - 1 {
                assert(s[k] == s.drop_last()[k]);
            }
        }
        if j > 0 {
            assert(s[j - 1] == s.drop_last()[j - 1]);
        }
        j
    } else {
        assert(s.subrange(0, s.len() as int) =~= s);
        s.len() as int
    }
}

/// Trimming whitespace cuts whitespace from each end and nothing else:
/// the result is a contiguous part of the text, everything cut is
/// whitespace, and the result neither starts nor ends with whitespace.
pub proof fn law_trim_ws_cuts_only_ends(s: Seq<char>)
    ensures
        exists|i: int, j: int|
            0 <= i <= j <= s.len() && trim_ws(s) == s.subrange(i, j) && (forall|k: int|
                0 <= k < i ==> unicode_whitespace(s[k])) && (forall|k: int|
                j <= k < s.len() ==> unicode_whitespace(s[k])),
        trim_ws(s).len() > 0 ==> !unicode_whitespace(trim_ws(s)[0]) && !unicode_whitespace(
            trim_ws(s).last(),
        ),
{
    let i = lemma_trim_start_ws(s);
    let h = s.subrange(i, s.len() as int);
    let j = lemma_trim_end_ws(h);
    assert(trim_ws(s) == h.subrange(0, j));
    assert(h.subrange(0, j) =~= s.subrange(i, i + j));
    assert forall|k: int| i + j <= k < s.len() implies unicode_whitespace(s[k]) by {
        assert(s[k] == h[k - i]);
    }
    if j > 0 {
        assert(h[0] == s[i]);
    }
    assert(0 <= i <= i + j <= s.len() && trim_ws(s) == s.subrange(i, i + j) && (forall|k: int|
        0 <= k < i ==> unicode_whitespace(s[k])) && (forall|k: int|
        i + j <= k < s.len() ==> unicode_whitespace(s[k])));
}

/// How a text falls into lines: no text has none but the empty one, a
/// text without line feed is one line as it is, and a line feed ends the
/// line before it (dropping a carriage return just before it) and starts
/// the lines of what follows.
pub proof fn law_lines_split_at_line_feeds(a: Seq<char>, b: Seq<char>)
    requires
        forall|i: int| 0 <= i < a.len() ==> a[i] != '\n',
    ensures
        text_lines(Seq::empty()) == Seq::<Seq<char>>::empty(),
        a.len() > 0 ==> text_lines(a) == seq![a],
        text_lines(a + seq!['\n'] + b) == seq![
            if a.len() > 0 && a.last() == '\r' {
                a.drop_last()
            } else {
                a
            },
        ] + text_lines(b),
{
    lemma_run_len_at(a, a.len() as int, '\n');
    let x = a + seq!['\n'] + b;
    assert forall|i: int| 0 <= i < a.len() implies x[i] != '\n' by {
        assert(x[i] == a[i]);
    }
    lemma_run_len_at(x, a.len() as int, '\n');
    assert(x.take(a.len() as int) =~= a);
    assert(x.skip(a.len() as int + 1) =~= b);
}

} // verus!
