//! Character-level string utilities with their specifications.
use vstd::prelude::*;

verus! {

broadcast use vstd::string::group_string_axioms;

/// The characters of `s`, in order.
pub fn chars_of(s: &str) -> (v: Vec<char>)
    ensures
        v@ == s@,
{
    let mut v: Vec<char> = Vec::new();
    for c in it: s.chars()
        invariant
            it.seq() == s@,
            v@ == it.seq().take(it.index() as int),
    {
        v.push(c);
    }
    v
}

/// Appends one character to a string (`String::push`).
#[verifier::external_body]
pub(crate) fn push_char(s: &mut String, c: char)
    ensures
        final(s)@ == old(s)@.push(c),
{
    s.push(c);
}

/// Appends a string slice to a string.
pub fn push_str(s: &mut String, t: &str)
    ensures
        final(s)@ == old(s)@ + t@,
{
    s.append(t);
}

/// A string made of the given characters.
pub fn string_of(v: &Vec<char>) -> (s: String)
    ensures
        s@ == v@,
{
    let mut s = String::new();
    let mut i: usize = 0;
    while i < v.len()
        invariant
            i <= v.len(),
            s@ == v@.take(i as int),
        decreases v.len() - i,
    {
        push_char(&mut s, v[i]);
        assert(v@.take(i + 1) == v@.take(i as int).push(v@[i as int]));
        i = i + 1;
    }
    assert(v@.take(v.len() as int) == v@);
    s
}

/// The characters `v[from..to]` as a string.
pub fn string_of_range(v: &Vec<char>, from: usize, to: usize) -> (s: String)
    requires
        from <= to <= v.len(),
    ensures
        s@ == v@.subrange(from as int, to as int),
{
    let mut s = String::new();
    let mut i: usize = from;
    while i < to
        invariant
            from <= i <= to <= v.len(),
            s@ == v@.subrange(from as int, i as int),
        decreases to - i,
    {
        push_char(&mut s, v[i]);
        assert(v@.subrange(from as int, i + 1) == v@.subrange(from as int, i as int).push(v@[i as int]));
        i = i + 1;
    }
    s
}

/// Unicode `White_Space`, the property that `char::is_whitespace` tests.
pub open spec fn is_white_space(c: char) -> bool {
    ||| ('\u{9}' <= c && c <= '\u{d}')
    ||| c == ' '
    ||| c == '\u{85}'
    ||| c == '\u{a0}'
    ||| c == '\u{1680}'
    ||| ('\u{2000}' <= c && c <= '\u{200a}')
    ||| c == '\u{2028}'
    ||| c == '\u{2029}'
    ||| c == '\u{202f}'
    ||| c == '\u{205f}'
    ||| c == '\u{3000}'
}

/// Whether `c` is white space, as `char::is_whitespace` decides.
pub fn is_whitespace(c: char) -> (b: bool)
    ensures
        b == is_white_space(c),
{
    ('\u{9}' <= c && c <= '\u{d}') || c == ' ' || c == '\u{85}' || c == '\u{a0}' || c == '\u{1680}'
        || ('\u{2000}' <= c && c <= '\u{200a}') || c == '\u{2028}' || c == '\u{2029}' || c
        == '\u{202f}' || c == '\u{205f}' || c == '\u{3000}'
}

/// The number of white-space characters at the start of `s`.
pub open spec fn leading_ws(s: Seq<char>) -> nat
    decreases s.len(),
{
    if s.len() > 0 && is_white_space(s[0]) {
        1 + leading_ws(s.drop_first())
    } else {
        0
    }
}

/// The number of white-space characters at the end of `s`.
pub open spec fn trailing_ws(s: Seq<char>) -> nat
    decreases s.len(),
{
    if s.len() > 0 && is_white_space(s.last()) {
        1 + trailing_ws(s.drop_last())
    } else {
        0
    }
}

/// `s` without its leading white space (`str::trim_start`).
pub open spec fn trim_start(s: Seq<char>) -> Seq<char> {
    s.skip(leading_ws(s) as int)
}

/// `s` without its trailing white space (`str::trim_end`).
pub open spec fn trim_end(s: Seq<char>) -> Seq<char> {
    s.take(s.len() - trailing_ws(s))
}

/// `s` without white space at either end (`str::trim`).
pub open spec fn trim(s: Seq<char>) -> Seq<char> {
    trim_end(trim_start(s))
}

pub proof fn lemma_leading_ws_bound(s: Seq<char>)
    ensures
        leading_ws(s) <= s.len(),
        forall|i: int| 0 <= i < leading_ws(s) ==> is_white_space(#[trigger] s[i]),
        leading_ws(s) < s.len() ==> !is_white_space(s[leading_ws(s) as int]),
    decreases s.len(),
{
    if s.len() > 0 && is_white_space(s[0]) {
        lemma_leading_ws_bound(s.drop_first());
        assert forall|i: int| 0 <= i < leading_ws(s) implies is_white_space(#[trigger] s[i]) by {
            if i > 0 {
                assert(s[i] == s.drop_first()[i - 1]);
            }
        }
    }
}

pub proof fn lemma_trailing_ws_bound(s: Seq<char>)
    ensures
        trailing_ws(s) <= s.len(),
        forall|i: int| s.len() - trailing_ws(s) <= i < s.len() ==> is_white_space(#[trigger] s[i]),
        trailing_ws(s) < s.len() ==> !is_white_space(s[s.len() - trailing_ws(s) - 1]),
    decreases s.len(),
{
    if s.len() > 0 && is_white_space(s.last()) {
        lemma_trailing_ws_bound(s.drop_last());
        assert forall|i: int| s.len() - trailing_ws(s) <= i < s.len() implies is_white_space(
            #[trigger] s[i],
        ) by {
            if i < s.len() - 1 {
                assert(s[i] == s.drop_last()[i]);
            }
        }
    }
}

/// Position of the first character of `v` that is not white space (or `v.len()`).
pub fn leading_ws_count(v: &Vec<char>) -> (n: usize)
    ensures
        n == leading_ws(v@),
{
    let mut i: usize = 0;
    assert(v@.skip(0) == v@);
    while i < v.len() && is_whitespace(v[i])
        invariant
            i <= v.len(),
            leading_ws(v@) == i + leading_ws(v@.skip(i as int)),
        decreases v.len() - i,
    {
        assert(v@.skip(i as int).drop_first() == v@.skip(i + 1));
        i = i + 1;
    }
    i
}

/// Number of white-space characters at the end of `v`.
pub fn trailing_ws_count(v: &Vec<char>) -> (n: usize)
    ensures
        n == trailing_ws(v@),
{
    let mut k: usize = 0;
    assert(v@.take(v.len() as int) == v@);
    while k < v.len() && is_whitespace(v[v.len() - 1 - k])
        invariant
            k <= v.len(),
            trailing_ws(v@) == k + trailing_ws(v@.take(v.len() - k)),
        decreases v.len() - k,
    {
        assert(v@.take(v.len() - k).drop_last() == v@.take(v.len() - (k + 1)));
        k = k + 1;
    }
    k
}

/// `s` trimmed of white space at both ends.
pub fn trimmed(s: &str) -> (t: String)
    ensures
        t@ == trim(s@),
{
    let v = chars_of(s);
    let a = leading_ws_count(&v);
    proof {
        lemma_leading_ws_bound(v@);
    }
    let mut w: Vec<char> = Vec::new();
    let mut i: usize = a;
    while i < v.len()
        invariant
            a <= i <= v.len(),
            w@ == v@.subrange(a as int, i as int),
        decreases v.len() - i,
    {
        w.push(v[i]);
        assert(v@.subrange(a as int, i + 1) == v@.subrange(a as int, i as int).push(v@[i as int]));
        i = i + 1;
    }
    assert(w@ == trim_start(v@));
    let b = trailing_ws_count(&w);
    proof {
        lemma_trailing_ws_bound(w@);
    }
    string_of_range(&w, 0, w.len() - b)
}

} // verus!

verus! {

/// `s` with each occurrence of `pat` replaced by `rep`, occurrences taken from the left
/// without overlap (`str::replace`); `pat` is not empty.
pub open spec fn replace_all(s: Seq<char>, pat: Seq<char>, rep: Seq<char>) -> Seq<char>
    recommends
        pat.len() > 0,
    decreases s.len(),
{
    if pat.len() == 0 || s.len() < pat.len() {
        s
    } else if s.take(pat.len() as int) == pat {
        rep + replace_all(s.skip(pat.len() as int), pat, rep)
    } else {
        seq![s[0]] + replace_all(s.drop_first(), pat, rep)
    }
}

/// Whether `v[i..]` starts with `pat`.
pub fn starts_with_at(v: &Vec<char>, i: usize, pat: &Vec<char>) -> (b: bool)
    requires
        i <= v.len(),
    ensures
        b == (pat@.len() <= v@.len() - i && v@.skip(i as int).take(pat@.len() as int) == pat@),
{
    if pat.len() > v.len() - i {
        return false;
    }
    let mut k: usize = 0;
    while k < pat.len()
        invariant
            k <= pat.len(),
            pat.len() <= v.len() - i,
            forall|j: int| 0 <= j < k ==> v@[i + j] == pat@[j],
        decreases pat.len() - k,
    {
        if v[i + k] != pat[k] {
            assert(v@.skip(i as int).take(pat@.len() as int)[k as int] != pat@[k as int]);
            return false;
        }
        k = k + 1;
    }
    assert(v@.skip(i as int).take(pat@.len() as int) =~= pat@);
    true
}

/// `s` with every occurrence of `pat` replaced by `rep`.
pub fn replace_chars(s: &Vec<char>, pat: &Vec<char>, rep: &str) -> (t: String)
    requires
        pat@.len() > 0,
    ensures
        t@ == replace_all(s@, pat@, rep@),
{
    let mut out = String::new();
    let mut i: usize = 0;
    assert(s@.skip(0) == s@);
    while i < s.len()
        invariant
            i <= s.len(),
            pat@.len() > 0,
            replace_all(s@, pat@, rep@) == out@ + replace_all(s@.skip(i as int), pat@, rep@),
        decreases s.len() - i,
    {
        let ghost rest = s@.skip(i as int);
        if starts_with_at(s, i, pat) {
            let ghost before = out@;
            push_str(&mut out, rep);
            assert(rest.skip(pat@.len() as int) == s@.skip(i + pat@.len()));
            assert(before + (rep@ + replace_all(s@.skip(i + pat@.len()), pat@, rep@)) == out@
                + replace_all(s@.skip(i + pat@.len()), pat@, rep@));
            i = i + pat.len();
        } else {
            let ghost before = out@;
            push_char(&mut out, s[i]);
            assert(rest.drop_first() == s@.skip(i + 1));
            assert(rest[0] == s@[i as int]);
            assert(before + (seq![s@[i as int]] + replace_all(s@.skip(i + 1), pat@, rep@)) == out@
                + replace_all(s@.skip(i + 1), pat@, rep@));
            i = i + 1;
        }
    }
    assert(s@.skip(i as int).len() == 0);
    assert(out@ + s@.skip(i as int) == out@);
    out
}

} // verus!

verus! {

/// What `char::is_alphanumeric` answers for `c` (Unicode `Alphabetic` or `Numeric`).
pub uninterp spec fn unicode_alphanumeric(c: char) -> bool;

/// What `char::to_lowercase` yields for `c`, collected into a string.
pub uninterp spec fn unicode_lowercase(c: char) -> Seq<char>;

/// `char::is_alphanumeric`; the result is named `unicode_alphanumeric`. Among ASCII characters
/// it holds exactly for `a-z`, `A-Z` and `0-9`, as std documents.
#[verifier::external_body]
pub(crate) fn is_alphanumeric(c: char) -> (b: bool)
    ensures
        b == unicode_alphanumeric(c),
        ('a' <= c <= 'z' || 'A' <= c <= 'Z' || '0' <= c <= '9') ==> b,
        c < '\u{80}' && !('a' <= c <= 'z' || 'A' <= c <= 'Z' || '0' <= c <= '9') ==> !b,
{
    c.is_alphanumeric()
}

/// `char::to_lowercase`, collected into a `String`; the result is named `unicode_lowercase`.
/// An ASCII capital gives its small letter, and a small letter or a digit gives itself, as std
/// documents.
#[verifier::external_body]
pub(crate) fn to_lowercase(c: char) -> (s: String)
    ensures
        s@ == unicode_lowercase(c),
        'A' <= c <= 'Z' ==> s@ == seq![((c as u32) + 32) as char],
        ('a' <= c <= 'z' || '0' <= c <= '9') ==> s@ == seq![c],
{
    c.to_lowercase().to_string()
}

/// One step of turning text into an anchor: what `c` adds to the anchor, and whether the
/// anchor now ends in a separator hyphen.
pub open spec fn slug_step(c: char, after_hyphen: bool) -> (Seq<char>, bool) {
    if unicode_alphanumeric(c) {
        (unicode_lowercase(c), false)
    } else if is_white_space(c) || c == '-' {
        if after_hyphen {
            (Seq::empty(), true)
        } else {
            (seq!['-'], true)
        }
    } else {
        (Seq::empty(), after_hyphen)
    }
}

/// The anchor text of `s` read from the left in the state `after_hyphen`.
pub open spec fn slug_from(s: Seq<char>, after_hyphen: bool) -> Seq<char>
    decreases s.len(),
{
    if s.len() == 0 {
        Seq::empty()
    } else {
        let (out, next) = slug_step(s[0], after_hyphen);
        out + slug_from(s.drop_first(), next)
    }
}

/// The anchor text of `s`: alphanumeric characters lowercased, each run of white space and
/// hyphens that does not follow another such run turned into one `-`, everything else dropped.
pub open spec fn slug(s: Seq<char>) -> Seq<char> {
    slug_from(s, false)
}

/// The anchor text of `s`, as `slug` states it.
pub fn slugify(s: &str) -> (r: String)
    ensures
        r@ == slug(s@),
{
    let v = chars_of(s);
    let mut out = String::new();
    let mut after_hyphen = false;
    let mut i: usize = 0;
    assert(v@.skip(0) == v@);
    proof {
        reveal_strlit("-");
    }
    while i < v.len()
        invariant
            i <= v.len(),
            "-"@ == seq!['-'],
            slug(v@) == out@ + slug_from(v@.skip(i as int), after_hyphen),
        decreases v.len() - i,
    {
        let c = v[i];
        let ghost before = out@;
        let ghost rest = v@.skip(i as int);
        assert(rest[0] == c);
        assert(rest.drop_first() == v@.skip(i + 1));
        if is_alphanumeric(c) {
            let l = to_lowercase(c);
            push_str(&mut out, l.as_str());
            after_hyphen = false;
        } else if is_whitespace(c) || c == '-' {
            if !after_hyphen {
                push_str(&mut out, "-");
            }
            after_hyphen = true;
        }
        i = i + 1;
    }
    out
}

} // verus!

verus! {

/// The first position `k >= from` at which `pat` occurs in `s` (`str::find` on `s[from..]`).
pub open spec fn first_match_from(s: Seq<char>, pat: Seq<char>, from: int) -> Option<int>
    decreases s.len() + 1 - from,
{
    if from < 0 || from + pat.len() > s.len() {
        None
    } else if s.subrange(from, from + pat.len()) == pat {
        Some(from)
    } else {
        first_match_from(s, pat, from + 1)
    }
}

/// The number of copies of `c` at the start of `s`.
pub open spec fn leading_count(s: Seq<char>, c: char) -> nat
    decreases s.len(),
{
    if s.len() > 0 && s[0] == c {
        1 + leading_count(s.drop_first(), c)
    } else {
        0
    }
}

/// `s` without the copies of `c` at its start (`str::trim_start_matches` with a `char`).
pub open spec fn trim_start_char(s: Seq<char>, c: char) -> Seq<char> {
    s.skip(leading_count(s, c) as int)
}

pub proof fn lemma_leading_count_bound(s: Seq<char>, c: char)
    ensures
        leading_count(s, c) <= s.len(),
    decreases s.len(),
{
    if s.len() > 0 && s[0] == c {
        lemma_leading_count_bound(s.drop_first(), c);
    }
}

/// `first_match_from`, computed.
pub fn find_from(v: &Vec<char>, pat: &Vec<char>, from: usize) -> (r: Option<usize>)
    requires
        from <= v.len(),
        pat@.len() > 0,
    ensures
        r matches Some(k) ==> first_match_from(v@, pat@, from as int) == Some(k as int) && from
            <= k && k + pat@.len() <= v@.len(),
        r is None ==> first_match_from(v@, pat@, from as int) is None,
{
    let mut k: usize = from;
    while pat.len() <= v.len() - k
        invariant
            from <= k <= v.len(),
            pat@.len() > 0,
            first_match_from(v@, pat@, from as int) == first_match_from(v@, pat@, k as int),
        decreases v.len() + 1 - k,
    {
        assert(v@.skip(k as int).take(pat@.len() as int) == v@.subrange(k as int, k + pat@.len()));
        if starts_with_at(v, k, pat) {
            return Some(k);
        }
        k = k + 1;
    }
    None
}

/// `leading_count`, computed from position `from`.
pub fn count_leading_from(v: &Vec<char>, from: usize, c: char) -> (n: usize)
    requires
        from <= v.len(),
    ensures
        n == leading_count(v@.skip(from as int), c),
        from + n <= v.len(),
{
    let mut i: usize = from;
    while i < v.len() && v[i] == c
        invariant
            from <= i <= v.len(),
            leading_count(v@.skip(from as int), c) == (i - from) + leading_count(
                v@.skip(i as int),
                c,
            ),
        decreases v.len() - i,
    {
        assert(v@.skip(i as int).drop_first() == v@.skip(i + 1));
        i = i + 1;
    }
    i - from
}

} // verus!

verus! {

/// The position of the first `\n` in `s`, or `s.len()` if it holds none.
pub open spec fn newline_at(s: Seq<char>) -> nat
    decreases s.len(),
{
    if s.len() == 0 || s[0] == '\n' {
        0
    } else {
        1 + newline_at(s.drop_first())
    }
}

pub proof fn lemma_newline_at_is(s: Seq<char>, j: int)
    requires
        0 <= j <= s.len(),
        forall|i: int| 0 <= i < j ==> #[trigger] s[i] != '\n',
        j < s.len() ==> s[j] == '\n',
    ensures
        newline_at(s) == j,
    decreases s.len(),
{
    if j > 0 {
        assert(s[0] != '\n');
        assert forall|i: int| 0 <= i < j - 1 implies #[trigger] s.drop_first()[i] != '\n' by {
            assert(s.drop_first()[i] == s[i + 1]);
        }
        lemma_newline_at_is(s.drop_first(), j - 1);
    }
}

/// `s` without one `\r` at its end.
pub open spec fn strip_cr(s: Seq<char>) -> Seq<char> {
    if s.len() > 0 && s.last() == '\r' {
        s.drop_last()
    } else {
        s
    }
}

/// The lines of `s` (`str::lines`): split at each `\n`, a `\r` right before a `\n` dropped
/// with it, and no empty line after a final `\n`.
pub open spec fn lines_of(s: Seq<char>) -> Seq<Seq<char>>
    decreases s.len(),
{
    if s.len() == 0 {
        Seq::empty()
    } else {
        let k = newline_at(s);
        if k >= s.len() {
            seq![s]
        } else {
            seq![strip_cr(s.take(k as int))] + lines_of(s.skip(k + 1 as int))
        }
    }
}

/// The lines of `s`, as `lines_of` states them.
pub fn split_lines(s: &str) -> (r: Vec<String>)
    ensures
        r@.map_values(|l: String| l@) == lines_of(s@),
{
    let v = chars_of(s);
    let n = v.len();
    let mut out: Vec<String> = Vec::new();
    let mut start: usize = 0;
    let mut j: usize = 0;
    assert(v@.skip(0) == v@);
    while j < n
        invariant
            n == v.len(),
            start <= j <= n,
            forall|i: int| start <= i < j ==> #[trigger] v@[i] != '\n',
            lines_of(v@) == out@.map_values(|l: String| l@) + lines_of(v@.skip(start as int)),
        decreases n - j,
    {
        if v[j] == '\n' {
            let ghost rest = v@.skip(start as int);
            proof {
                lemma_newline_at_is(rest, j - start);
                assert(rest.take(j - start) == v@.subrange(start as int, j as int));
                assert(rest.skip(j - start + 1) == v@.skip(j + 1));
            }
            let end = if j > start && v[j - 1] == '\r' {
                j - 1
            } else {
                j
            };
            let line = string_of_range(&v, start, end);
            proof {
                let t = v@.subrange(start as int, j as int);
                if j > start && v@[j - 1] == '\r' {
                    assert(strip_cr(t) == v@.subrange(start as int, end as int));
                } else {
                    assert(strip_cr(t) == t);
                }
            }
            let ghost before = out@.map_values(|l: String| l@);
            out.push(line);
            assert(out@.map_values(|l: String| l@) == before.push(line@));
            start = j + 1;
        }
        j = j + 1;
    }
    if start < n {
        let ghost rest = v@.skip(start as int);
        proof {
            lemma_newline_at_is(rest, n - start);
            assert(v@.subrange(start as int, n as int) == rest);
        }
        let line = string_of_range(&v, start, n);
        let ghost before = out@.map_values(|l: String| l@);
        out.push(line);
        assert(out@.map_values(|l: String| l@) == before.push(line@));
    } else {
        assert(v@.skip(start as int).len() == 0);
    }
    assert(out@.map_values(|l: String| l@) + Seq::<Seq<char>>::empty() == out@.map_values(
        |l: String| l@,
    ));
    out
}

} // verus!

verus! {

/// The number of copies of `c` at the end of `s`.
pub open spec fn trailing_count(s: Seq<char>, c: char) -> nat
    decreases s.len(),
{
    if s.len() > 0 && s.last() == c {
        1 + trailing_count(s.drop_last(), c)
    } else {
        0
    }
}

/// `s` without the copies of `c` at its end (`str::trim_end_matches` with a `char`).
pub open spec fn trim_end_char(s: Seq<char>, c: char) -> Seq<char> {
    s.take(s.len() - trailing_count(s, c))
}

/// `s` without the copies of `c` at either end (`str::trim_matches` with a `char`).
pub open spec fn trim_char(s: Seq<char>, c: char) -> Seq<char> {
    trim_end_char(trim_start_char(s, c), c)
}

pub proof fn lemma_trailing_count_bound(s: Seq<char>, c: char)
    ensures
        trailing_count(s, c) <= s.len(),
    decreases s.len(),
{
    if s.len() > 0 && s.last() == c {
        lemma_trailing_count_bound(s.drop_last(), c);
    }
}

/// `trim_end_char`, computed.
pub fn trim_end_matches_char(s: &str, c: char) -> (r: String)
    ensures
        r@ == trim_end_char(s@, c),
{
    let v = chars_of(s);
    let mut n: usize = v.len();
    assert(v@.take(n as int) == v@);
    while n > 0 && v[n - 1] == c
        invariant
            n <= v.len(),
            trailing_count(v@, c) == (v.len() - n) + trailing_count(v@.take(n as int), c),
        decreases n,
    {
        assert(v@.take(n as int).drop_last() == v@.take(n - 1));
        n = n - 1;
    }
    string_of_range(&v, 0, n)
}

/// `trim_char`, computed.
pub fn trim_matches_char(s: &str, c: char) -> (r: String)
    ensures
        r@ == trim_char(s@, c),
{
    let v = chars_of(s);
    let k = count_leading_from(&v, 0, c);
    assert(v@.skip(0) == v@);
    let front = string_of_range(&v, k, v.len());
    trim_end_matches_char(front.as_str(), c)
}

} // verus!

verus! {

pub proof fn lemma_trim_start_prepend(s: Seq<char>, c: char)
    ensures
        trim_start_char(seq![c] + s, c) == trim_start_char(s, c),
{
    let t = seq![c] + s;
    assert(t.drop_first() == s);
    lemma_leading_count_bound(s, c);
    assert(t.skip(1 + leading_count(s, c) as int) == s.skip(leading_count(s, c) as int));
}

pub proof fn lemma_trim_end_append(s: Seq<char>, c: char)
    ensures
        trim_end_char(s.push(c), c) == trim_end_char(s, c),
{
    assert(s.push(c).drop_last() == s);
    lemma_trailing_count_bound(s, c);
    assert(s.push(c).take(s.len() - trailing_count(s, c)) == s.take(
        s.len() - trailing_count(s, c),
    ));
}

pub proof fn lemma_trim_start_append(s: Seq<char>, c: char)
    ensures
        trim_start_char(s.push(c), c) == if leading_count(s, c) == s.len() {
            Seq::<char>::empty()
        } else {
            trim_start_char(s, c).push(c)
        },
    decreases s.len(),
{
    let t = s.push(c);
    lemma_leading_count_bound(s, c);
    if s.len() == 0 {
        assert(t.len() == 1 && t[0] == c);
        assert(t.drop_first() == Seq::<char>::empty());
        assert(leading_count(Seq::<char>::empty(), c) == 0);
        assert(leading_count(t, c) == 1);
        assert(t.skip(1) == Seq::<char>::empty());
        assert(trim_start_char(t, c) == Seq::<char>::empty());
    } else if s[0] == c {
        let d = s.drop_first();
        assert(t[0] == c);
        assert(t.drop_first() == d.push(c));
        assert(leading_count(t, c) == 1 + leading_count(d.push(c), c));
        assert(leading_count(s, c) == 1 + leading_count(d, c));
        lemma_trim_start_append(d, c);
        lemma_leading_count_bound(d, c);
        lemma_leading_count_bound(d.push(c), c);
        assert(t.skip(1 + leading_count(d.push(c), c) as int) == d.push(c).skip(
            leading_count(d.push(c), c) as int,
        ));
        assert(s.skip(1 + leading_count(d, c) as int) == d.skip(leading_count(d, c) as int));
        assert(trim_start_char(t, c) == trim_start_char(d.push(c), c));
        assert(trim_start_char(s, c) == trim_start_char(d, c));
        assert((leading_count(s, c) == s.len()) == (leading_count(d, c) == d.len()));
    } else {
        assert(t[0] == s[0]);
        assert(leading_count(t, c) == 0);
        assert(leading_count(s, c) == 0);
        assert(t.skip(0) == t);
        assert(s.skip(0) == s);
        assert(trim_start_char(t, c) == trim_start_char(s, c).push(c));
    }
}

/// Trimming a character from both ends does not see one more copy of it at each end.
pub proof fn lemma_trim_char_wrapped(s: Seq<char>, c: char)
    ensures
        trim_char(seq![c] + s + seq![c], c) == trim_char(s, c),
{
    assert(seq![c] + s + seq![c] == seq![c] + s.push(c));
    lemma_trim_start_prepend(s.push(c), c);
    lemma_trim_start_append(s, c);
    lemma_leading_count_bound(s, c);
    if leading_count(s, c) == s.len() {
        assert(trim_start_char(s, c) == Seq::<char>::empty());
    } else {
        lemma_trim_end_append(trim_start_char(s, c), c);
    }
}

} // verus!
