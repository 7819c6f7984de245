//! RSS 2.0 and Atom feed generation: news entries, articles and the feed documents.
use vstd::prelude::*;
use crate::date::{
    chrono_iso8601_noon, chrono_parsed_date, chrono_rfc2822_noon, date_before, date_from_str,
    format_iso8601_noon, format_rfc2822_noon, today_utc, valid_ymd, Date,
};
use crate::md::ContentMeta;
use crate::text::{
    chars_of, lines_of, split_lines, trim, trimmed, count_leading_from, find_from, first_match_from, leading_count, leading_ws,
    leading_ws_count, lemma_leading_ws_bound, push_char, push_str, replace_all, replace_chars,
    slug, slugify, trim_start, trim_start_char,
};

verus! {

broadcast use vstd::string::group_string_axioms;

// ---------------------------------------------------------------------------------------------
// XML escaping
// ---------------------------------------------------------------------------------------------

/// What one character becomes in XML text outside a CDATA section.
pub open spec fn xml_escaped_char(c: char) -> Seq<char> {
    if c == '&' {
        seq!['&', 'a', 'm', 'p', ';']
    } else if c == '<' {
        seq!['&', 'l', 't', ';']
    } else if c == '>' {
        seq!['&', 'g', 't', ';']
    } else if c == '"' {
        seq!['&', 'q', 'u', 'o', 't', ';']
    } else if c == '\'' {
        seq!['&', 'a', 'p', 'o', 's', ';']
    } else {
        seq![c]
    }
}

/// `s` escaped for XML text: each character replaced by `xml_escaped_char` of it.
pub open spec fn xml_escaped(s: Seq<char>) -> Seq<char>
    decreases s.len(),
{
    if s.len() == 0 {
        Seq::empty()
    } else {
        xml_escaped_char(s[0]) + xml_escaped(s.drop_first())
    }
}

/// Decoding of the five predefined XML entities, read from the left.
pub open spec fn xml_unescaped(e: Seq<char>) -> Seq<char>
    decreases e.len(),
{
    if e.len() == 0 {
        Seq::empty()
    } else if e.len() >= 5 && e.take(5) == seq!['&', 'a', 'm', 'p', ';'] {
        seq!['&'] + xml_unescaped(e.skip(5))
    } else if e.len() >= 4 && e.take(4) == seq!['&', 'l', 't', ';'] {
        seq!['<'] + xml_unescaped(e.skip(4))
    } else if e.len() >= 4 && e.take(4) == seq!['&', 'g', 't', ';'] {
        seq!['>'] + xml_unescaped(e.skip(4))
    } else if e.len() >= 6 && e.take(6) == seq!['&', 'q', 'u', 'o', 't', ';'] {
        seq!['"'] + xml_unescaped(e.skip(6))
    } else if e.len() >= 6 && e.take(6) == seq!['&', 'a', 'p', 'o', 's', ';'] {
        seq!['\''] + xml_unescaped(e.skip(6))
    } else {
        seq![e[0]] + xml_unescaped(e.drop_first())
    }
}

proof fn lemma_xml_escaped_push(s: Seq<char>, c: char)
    ensures
        xml_escaped(s.push(c)) == xml_escaped(s) + xml_escaped_char(c),
    decreases s.len(),
{
    if s.len() == 0 {
        assert(s.push(c).drop_first() == Seq::<char>::empty());
        assert(xml_escaped(Seq::<char>::empty()) == Seq::<char>::empty());
    } else {
        lemma_xml_escaped_push(s.drop_first(), c);
        assert(s.push(c).drop_first() == s.drop_first().push(c));
        assert(s.push(c)[0] == s[0]);
    }
}

/// Escape text for use in XML (outside of CDATA sections).
pub fn xml_escape(s: &str) -> (r: String)
    ensures
        r@ == xml_escaped(s@),
{
    let v = chars_of(s);
    let mut out = String::new();
    let mut i: usize = 0;
    proof {
        reveal_strlit("&amp;");
        reveal_strlit("&lt;");
        reveal_strlit("&gt;");
        reveal_strlit("&quot;");
        reveal_strlit("&apos;");
    }
    while i < v.len()
        invariant
            i <= v.len(),
            out@ == xml_escaped(v@.take(i as int)),
            "&amp;"@ == seq!['&', 'a', 'm', 'p', ';'],
            "&lt;"@ == seq!['&', 'l', 't', ';'],
            "&gt;"@ == seq!['&', 'g', 't', ';'],
            "&quot;"@ == seq!['&', 'q', 'u', 'o', 't', ';'],
            "&apos;"@ == seq!['&', 'a', 'p', 'o', 's', ';'],
        decreases v.len() - i,
    {
        let c = v[i];
        if c == '&' {
            push_str(&mut out, "&amp;");
        } else if c == '<' {
            push_str(&mut out, "&lt;");
        } else if c == '>' {
            push_str(&mut out, "&gt;");
        } else if c == '"' {
            push_str(&mut out, "&quot;");
        } else if c == '\'' {
            push_str(&mut out, "&apos;");
        } else {
            push_char(&mut out, c);
        }
        proof {
            lemma_xml_escaped_push(v@.take(i as int), c);
            assert(v@.take(i + 1) == v@.take(i as int).push(c));
        }
        i = i + 1;
    }
    assert(v@.take(v.len() as int) == v@);
    out
}

/// Law: decoding the five XML entities in an escaped text gives the text back.
pub proof fn xml_escape_round_trip(s: Seq<char>)
    ensures
        xml_unescaped(xml_escaped(s)) == s,
    decreases s.len(),
{
    if s.len() > 0 {
        xml_escape_round_trip(s.drop_first());
        let rest = xml_escaped(s.drop_first());
        let e = xml_escaped(s);
        let c = s[0];
        assert(e == xml_escaped_char(c) + rest);
        let n = xml_escaped_char(c).len() as int;
        assert(e.skip(n) == rest);
        assert(e.take(n) == xml_escaped_char(c));
        assert(e[0] == xml_escaped_char(c)[0]);
        if e.len() >= 2 {
            assert(e[1] == xml_escaped_char(c)[1] || n == 1);
        }
        if n > 1 {
            assert(e[1] == xml_escaped_char(c)[1]);
            assert(e[2] == xml_escaped_char(c)[2]);
        }
        if e.len() >= 5 {
            assert(e.take(5)[0] == e[0] && e.take(5)[1] == e[1] && e.take(5)[2] == e[2]);
        }
        if e.len() >= 4 {
            assert(e.take(4)[0] == e[0] && e.take(4)[1] == e[1] && e.take(4)[2] == e[2]);
        }
        if e.len() >= 6 {
            assert(e.take(6)[0] == e[0] && e.take(6)[1] == e[1] && e.take(6)[2] == e[2]);
        }
        assert(s == seq![c] + s.drop_first());
    } else {
        assert(xml_escaped(s) == Seq::<char>::empty());
    }
}

/// Law: escaped text holds none of `<`, `>`, `"` and `'`.
pub proof fn xml_escape_is_safe(s: Seq<char>)
    ensures
        forall|i: int|
            0 <= i < xml_escaped(s).len() ==> {
                let c = #[trigger] xml_escaped(s)[i];
                c != '<' && c != '>' && c != '"' && c != '\''
            },
    decreases s.len(),
{
    if s.len() > 0 {
        xml_escape_is_safe(s.drop_first());
        let head = xml_escaped_char(s[0]);
        let rest = xml_escaped(s.drop_first());
        assert forall|i: int| 0 <= i < xml_escaped(s).len() implies {
            let c = #[trigger] xml_escaped(s)[i];
            c != '<' && c != '>' && c != '"' && c != '\''
        } by {
            if i >= head.len() {
                assert(xml_escaped(s)[i] == rest[i - head.len()]);
            }
        }
    }
}

// ---------------------------------------------------------------------------------------------
// CDATA escaping
// ---------------------------------------------------------------------------------------------

/// `]]>`, which ends a CDATA section.
pub open spec fn cdata_end() -> Seq<char> {
    seq![']', ']', '>']
}

/// `]]]]><![CDATA[>`: ends the section after `]]`, and opens a new one that starts with `>`.
pub open spec fn cdata_split() -> Seq<char> {
    seq![']', ']', ']', ']', '>', '<', '!', '[', 'C', 'D', 'A', 'T', 'A', '[', '>']
}

/// `]]><![CDATA[`: the end of one CDATA section directly followed by the start of the next.
pub open spec fn cdata_restart() -> Seq<char> {
    seq![']', ']', '>', '<', '!', '[', 'C', 'D', 'A', 'T', 'A', '[']
}

/// Escape content for CDATA sections. CDATA cannot contain "]]>".
pub fn cdata_escape(s: &str) -> (r: String)
    ensures
        r@ == replace_all(s@, cdata_end(), cdata_split()),
{
    let v = chars_of(s);
    let pat = chars_of("]]>");
    proof {
        reveal_strlit("]]>");
        reveal_strlit("]]]]><![CDATA[>");
        assert(pat@ == cdata_end());
        assert("]]]]><![CDATA[>"@ == cdata_split());
    }
    replace_chars(&v, &pat, "]]]]><![CDATA[>")
}

proof fn lemma_remove_restart_split(x: Seq<char>)
    ensures
        replace_all(cdata_split() + x, cdata_restart(), Seq::empty()) == cdata_end()
            + replace_all(x, cdata_restart(), Seq::empty()),
{
    let q = cdata_restart();
    let e: Seq<char> = Seq::empty();
    let y = cdata_split() + x;
    assert(y.take(12)[2] != q[2]);
    assert(y.drop_first().take(12)[2] != q[2]);
    assert(y.drop_first().drop_first().take(12) =~= q);
    assert(y.drop_first().drop_first().skip(12) =~= seq!['>'] + x);
    if (seq!['>'] + x).len() >= 12 {
        assert((seq!['>'] + x).take(12)[0] != q[0]);
    }
    assert((seq!['>'] + x).drop_first() == x);
    assert(y.drop_first().drop_first() == y.skip(2));
    assert(replace_all(y, q, e) == seq![']'] + replace_all(y.drop_first(), q, e));
    assert(replace_all(y.drop_first(), q, e) == seq![']'] + replace_all(y.drop_first().drop_first(), q, e));
    assert(replace_all(y.drop_first().drop_first(), q, e) == e + replace_all(seq!['>'] + x, q, e));
    if (seq!['>'] + x).len() >= 12 {
        assert(replace_all(seq!['>'] + x, q, e) == seq!['>'] + replace_all(x, q, e));
    } else {
        assert(replace_all(seq!['>'] + x, q, e) == seq!['>'] + x);
        assert(replace_all(x, q, e) == x);
    }
    assert(seq![']'] + (seq![']'] + (e + (seq!['>'] + replace_all(x, q, e)))) =~= cdata_end()
        + replace_all(x, q, e));
}

/// Law: a CDATA section holding escaped text reads back as that text. An XML reader ends a
/// CDATA section at `]]>`, and where the next one follows at once the two read as one, so
/// the text read is the escaped content with every `]]><![CDATA[` removed.
pub proof fn cdata_escape_round_trip(s: Seq<char>)
    ensures
        replace_all(replace_all(s, cdata_end(), cdata_split()), cdata_restart(), Seq::empty())
            == s,
    decreases s.len(),
{
    let p = cdata_end();
    let r = cdata_split();
    let q = cdata_restart();
    let e: Seq<char> = Seq::empty();
    let out = replace_all(s, p, r);
    if s.len() < 3 {
        assert(out == s);
        assert(replace_all(s, q, e) == s);
    } else if s.take(3) == p {
        cdata_escape_round_trip(s.skip(3));
        lemma_remove_restart_split(replace_all(s.skip(3), p, r));
        assert(s =~= p + s.skip(3));
    } else {
        cdata_escape_round_trip(s.drop_first());
        let y = replace_all(s.drop_first(), p, r);
        assert(out == seq![s[0]] + y);
        // `out` does not start with `]]><![CDATA[`
        if out.len() >= 12 && out.take(12) == q {
            assert(s[0] == ']');
            assert(y[0] == ']' && y[1] == '>') by {
                assert(out.take(12)[1] == q[1]);
                assert(out.take(12)[2] == q[2]);
            }
            let t = s.drop_first();
            if t.len() >= 3 && t.take(3) == p {
                assert(y == r + replace_all(t.skip(3), p, r));
                assert(y[1] == r[1]);
            } else if t.len() < 3 {
                assert(y == t);
                assert(t[0] == ']' && t[1] == '>');
                assert(s.take(3)[1] == ']');
            } else {
                assert(y == seq![t[0]] + replace_all(t.drop_first(), p, r));
                let z = replace_all(t.drop_first(), p, r);
                assert(z[0] == '>');
                let u = t.drop_first();
                if u.len() >= 3 && u.take(3) == p {
                    assert(z == r + replace_all(u.skip(3), p, r));
                    assert(z[0] == r[0]);
                } else if u.len() < 3 {
                    assert(z == u);
                    assert(s.take(3) =~= p);
                } else {
                    assert(z == seq![u[0]] + replace_all(u.drop_first(), p, r));
                    assert(s.take(3) =~= p);
                }
            }
        }
        if out.len() >= 12 {
            assert(replace_all(out, q, e) == seq![out[0]] + replace_all(out.drop_first(), q, e));
            assert(out.drop_first() == y);
        } else {
            assert(replace_all(out, q, e) == out);
            assert(y.len() < 12);
            assert(replace_all(y, q, e) == y);
        }
        assert(s =~= seq![s[0]] + s.drop_first());
    }
}

} // verus!

verus! {

// ---------------------------------------------------------------------------------------------
// Frontmatter
// ---------------------------------------------------------------------------------------------

/// `---`, which opens and closes a YAML frontmatter block.
pub open spec fn dashes() -> Seq<char> {
    seq!['-', '-', '-']
}

/// What is left of `content` once its frontmatter block is taken off: when `content`, after
/// leading white space, starts with `---` and a second `---` follows, the text after that
/// second `---` without the newlines and then the carriage returns at its start; otherwise
/// `content` itself.
pub open spec fn without_frontmatter(content: Seq<char>) -> Seq<char> {
    let t = trim_start(content);
    if t.len() >= 3 && t.take(3) == dashes() {
        match first_match_from(t, dashes(), 3) {
            Some(k) => trim_start_char(trim_start_char(t.skip(k + 3), '\n'), '\r'),
            None => content,
        }
    } else {
        content
    }
}

/// Strip YAML frontmatter from markdown content (the `---` delimited block).
pub fn strip_frontmatter(content: &str) -> (r: &str)
    ensures
        r@ == without_frontmatter(content@),
        r@ == content@.skip(content@.len() - r@.len()),
{
    let v = chars_of(content);
    let n = v.len();
    let lead = leading_ws_count(&v);
    proof {
        lemma_leading_ws_bound(v@);
        reveal_strlit("---");
    }
    let ghost t = v@.skip(lead as int);
    let d = chars_of("---");
    assert(d@ == dashes());
    if !(n - lead >= 3 && v[lead] == '-' && v[lead + 1] == '-' && v[lead + 2] == '-') {
        assert(!(t.len() >= 3 && t.take(3) == dashes())) by {
            if t.len() >= 3 && t.take(3) == dashes() {
                assert(t.take(3)[0] == t[0] && t.take(3)[1] == t[1] && t.take(3)[2] == t[2]);
            }
        }
        assert(content@.skip(0) == content@);
        return content;
    }
    assert(t.take(3) =~= dashes());
    match find_from(&v, &d, lead + 3) {
        None => {
            proof {
                lemma_first_match_shift(v@, lead as int, 3);
            }
            assert(content@.skip(0) == content@);
            content
        },
        Some(k) => {
            proof {
                lemma_first_match_shift(v@, lead as int, 3);
            }
            let a = count_leading_from(&v, k + 3, '\n');
            let b = count_leading_from(&v, k + 3 + a, '\r');
            proof {
                let after = v@.skip(k + 3);
                assert(t.skip(k - lead + 3) =~= after);
                assert(after.skip(a as int) =~= v@.skip(k + 3 + a));
                assert(v@.skip(k + 3 + a).skip(b as int) =~= v@.skip(k + 3 + a + b));
            }
            let r = content.substring_char(k + 3 + a + b, n);
            assert(v@.subrange(k + 3 + a + b, n as int) == v@.skip(k + 3 + a + b));
            r
        },
    }
}

proof fn lemma_first_match_shift(s: Seq<char>, lead: int, k: int)
    requires
        0 <= lead <= s.len(),
        0 <= k,
    ensures
        first_match_from(s.skip(lead), dashes(), k) == match first_match_from(s, dashes(), lead + k) {
            Some(j) => Some(j - lead),
            None => None,
        },
    decreases s.len() + 1 - (lead + k),
{
    let t = s.skip(lead);
    if k + 3 <= t.len() {
        assert(t.subrange(k, k + 3) == s.subrange(lead + k, lead + k + 3));
        lemma_first_match_shift(s, lead, k + 1);
    }
}

} // verus!

verus! {

// ---------------------------------------------------------------------------------------------
// Feed items
// ---------------------------------------------------------------------------------------------

/// A single item in the feed (either a news entry or an article).
#[derive(Debug, Clone)]
pub struct FeedItem {
    pub title: String,
    pub link: String,
    pub date: Date,
    pub content_html: String,
}

/// A date as its year, month and day.
pub open spec fn ymd(d: Date) -> (i32, u32, u32) {
    (d.spec_year(), d.spec_month(), d.spec_day())
}

/// A feed item as its title, link, date and HTML content.
pub type ItemView = (Seq<char>, Seq<char>, (i32, u32, u32), Seq<char>);

impl View for FeedItem {
    type V = ItemView;

    open spec fn view(&self) -> ItemView {
        (self.title@, self.link@, ymd(self.date), self.content_html@)
    }
}

/// The views of a list of feed items.
pub open spec fn items_view(items: Seq<FeedItem>) -> Seq<ItemView> {
    items.map_values(|i: FeedItem| i@)
}

/// The HTML that the `markdown` crate makes of `md` with GitHub-flavoured markdown,
/// frontmatter and raw HTML allowed.
pub uninterp spec fn gfm_html(md: Seq<char>) -> Seq<char>;

/// `markdown::to_html_with_options` with GFM parsing plus frontmatter, and GFM compiling
/// with dangerous HTML allowed; an error (which only MDX can raise) gives the empty string.
/// The result is named `gfm_html`.
#[verifier::external_body]
fn markdown_to_html(md_content: &str) -> (r: String)
    ensures
        r@ == gfm_html(md_content@),
{
    let mut parse = markdown::ParseOptions::gfm();
    parse.constructs.frontmatter = true;
    let compile =
        markdown::CompileOptions { allow_dangerous_html: true, ..markdown::CompileOptions::gfm() };
    let opts = markdown::Options { parse, compile };
    markdown::to_html_with_options(md_content, &opts).unwrap_or_default()
}

/// Generate an anchor id from a heading text, matching the logic in `md`.
pub fn heading_to_anchor(heading_text: &str) -> (r: String)
    ensures
        r@ == slug(heading_text@),
{
    slugify(heading_text)
}

/// The date of a news heading: the trimmed text read in the first of the formats
/// `%a %d %b, %Y`, `%a %d %B, %Y` and `%a %d %B %Y` that reads it.
pub open spec fn news_date(heading: Seq<char>) -> Option<(i32, u32, u32)> {
    let t = trim(heading);
    match chrono_parsed_date(t, "%a %d %b, %Y"@) {
        Some(d) => Some(d),
        None => match chrono_parsed_date(t, "%a %d %B, %Y"@) {
            Some(d) => Some(d),
            None => chrono_parsed_date(t, "%a %d %B %Y"@),
        },
    }
}

/// Parse news date strings like "Wed 11 Feb, 2026" or "Sun 30 Nov, 2025".
pub fn parse_news_date(date_str: &str) -> (r: Option<Date>)
    ensures
        r matches Some(d) ==> news_date(date_str@) == Some(ymd(d)),
        r is None ==> news_date(date_str@) is None,
{
    let t = trimmed(date_str);
    if let Some(d) = date_from_str(t.as_str(), "%a %d %b, %Y") {
        return Some(d);
    }
    if let Some(d) = date_from_str(t.as_str(), "%a %d %B, %Y") {
        return Some(d);
    }
    date_from_str(t.as_str(), "%a %d %B %Y")
}

// ---------------------------------------------------------------------------------------------
// News entries
// ---------------------------------------------------------------------------------------------

/// The heading text of a `## ` line, trimmed.
pub open spec fn news_heading(line: Seq<char>) -> Option<Seq<char>> {
    if line.len() >= 3 && line.take(3) == seq!['#', '#', ' '] {
        Some(trim(line.skip(3)))
    } else {
        None
    }
}

/// Lines joined with `\n` between them.
pub open spec fn joined_lines(ls: Seq<Seq<char>>) -> Seq<char>
    decreases ls.len(),
{
    if ls.len() == 0 {
        Seq::empty()
    } else if ls.len() == 1 {
        ls[0]
    } else {
        joined_lines(ls.drop_last()) + seq!['\n'] + ls.last()
    }
}

/// Whether `s` holds nothing but white space.
pub open spec fn is_blank(s: Seq<char>) -> bool {
    trim(s).len() == 0
}

/// The title of the news item of a heading.
pub open spec fn news_title(heading: Seq<char>) -> Seq<char> {
    "Renderling News - "@ + heading
}

/// The link of the news item of a heading.
pub open spec fn news_link(root_url: Seq<char>, heading: Seq<char>) -> Seq<char> {
    root_url + "/news/index.html#"@ + slug(heading)
}

/// The item of one dated section: none when the heading has no date or the section's
/// markdown renders to blank HTML.
pub open spec fn news_section_item(
    heading: Option<Seq<char>>,
    body: Seq<Seq<char>>,
    root_url: Seq<char>,
) -> Seq<ItemView> {
    match heading {
        None => Seq::empty(),
        Some(h) => match news_date(h) {
            None => Seq::empty(),
            Some(d) => {
                let html = gfm_html(joined_lines(body));
                if is_blank(html) {
                    Seq::empty()
                } else {
                    seq![(news_title(h), news_link(root_url, h), d, html)]
                }
            },
        },
    }
}

/// Reading lines in order: the items of the sections already closed, the heading of the
/// open section (none before the first heading), and the lines of the open section.
pub open spec fn news_scan(lines: Seq<Seq<char>>, root_url: Seq<char>) -> (
    Seq<ItemView>,
    Option<Seq<char>>,
    Seq<Seq<char>>,
)
    decreases lines.len(),
{
    if lines.len() == 0 {
        (Seq::empty(), None, Seq::empty())
    } else {
        let (items, h, body) = news_scan(lines.drop_last(), root_url);
        let l = lines.last();
        match news_heading(l) {
            Some(h2) => (items + news_section_item(h, body, root_url), Some(h2), Seq::empty()),
            None => (items, h, body.push(l)),
        }
    }
}

/// The news items of a news page: one for each `## <date>` section, in order.
pub open spec fn news_entries(content: Seq<char>, root_url: Seq<char>) -> Seq<ItemView> {
    let (items, h, body) = news_scan(lines_of(without_frontmatter(content)), root_url);
    items + news_section_item(h, body, root_url)
}

proof fn lemma_blank(s: Seq<char>)
    ensures
        is_blank(s) <==> leading_ws(s) == s.len(),
{
    lemma_leading_ws_bound(s);
    let t = trim_start(s);
    crate::text::lemma_trailing_ws_bound(t);
    if leading_ws(s) < s.len() {
        assert(t[0] == s[leading_ws(s) as int]);
        if crate::text::trailing_ws(t) == t.len() {
            assert(t.len() - crate::text::trailing_ws(t) <= 0);
        }
    }
}

/// Whether `s` is blank.
fn blank(s: &str) -> (b: bool)
    ensures
        b == is_blank(s@),
{
    let v = chars_of(s);
    proof {
        lemma_blank(s@);
    }
    leading_ws_count(&v) == v.len()
}

/// Adds the item of the open section, if it has one.
fn flush(
    heading: &Option<String>,
    date: &Option<Date>,
    md: &String,
    items: &mut Vec<FeedItem>,
    root_url: &str,
    Ghost(body): Ghost<Seq<Seq<char>>>,
)
    requires
        md@ == joined_lines(body),
        heading is None ==> date is None,
        heading matches Some(h) ==> match date {
            Some(d) => news_date(h@) == Some(ymd(*d)),
            None => news_date(h@) is None,
        },
    ensures
        items_view(final(items)@) == items_view(old(items)@) + news_section_item(
            match heading {
                Some(h) => Some(h@),
                None => None,
            },
            body,
            root_url@,
        ),
{
    let ghost before = items_view(items@);
    if let (Some(h), Some(d)) = (heading, date) {
        let html = markdown_to_html(md.as_str());
        if !blank(html.as_str()) {
            let mut title = String::new();
            push_str(&mut title, "Renderling News - ");
            push_str(&mut title, h.as_str());
            let mut link = String::new();
            push_str(&mut link, root_url);
            push_str(&mut link, "/news/index.html#");
            let anchor = heading_to_anchor(h.as_str());
            push_str(&mut link, anchor.as_str());
            let item = FeedItem { title, link, date: *d, content_html: html };
            items.push(item);
            assert(items_view(items@) == before.push(item@));
            return;
        }
    }
    assert(items_view(items@) == before + Seq::<ItemView>::empty());
}

/// Parse news entries from the news/index.md content.
///
/// Splits on `## <date>` headings. Each date section (with all its ### sub-topics)
/// becomes a single feed item.
pub fn parse_news_entries(content: &str, root_url: &str) -> (r: Vec<FeedItem>)
    ensures
        items_view(r@) == news_entries(content@, root_url@),
{
    let body = strip_frontmatter(content);
    let lines = split_lines(body);
    let ghost ls = lines@.map_values(|l: String| l@);
    let mut items: Vec<FeedItem> = Vec::new();
    let mut heading: Option<String> = None;
    let mut date: Option<Date> = None;
    let mut md = String::new();
    let mut has_body = false;
    let ghost mut open_body: Seq<Seq<char>> = Seq::empty();
    let mut i: usize = 0;
    assert(ls.take(0) == Seq::<Seq<char>>::empty());
    assert(items_view(items@) == Seq::<ItemView>::empty());
    while i < lines.len()
        invariant
            i <= lines.len(),
            ls == lines@.map_values(|l: String| l@),
            ls == lines_of(without_frontmatter(content@)),
            news_scan(ls.take(i as int), root_url@) == (
                items_view(items@),
                match heading {
                    Some(h) => Some(h@),
                    None => None,
                },
                open_body,
            ),
            heading is None ==> date is None,
            heading matches Some(h) ==> match date {
                Some(d) => news_date(h@) == Some(ymd(d)),
                None => news_date(h@) is None,
            },
            md@ == joined_lines(open_body),
            has_body == (open_body.len() > 0),
        decreases lines.len() - i,
    {
        let line = &lines[i];
        assert(ls.take(i + 1).drop_last() == ls.take(i as int));
        assert(ls.take(i + 1).last() == line@);
        let v = chars_of(line.as_str());
        if v.len() >= 3 && v[0] == '#' && v[1] == '#' && v[2] == ' ' {
            assert(line@.take(3) =~= seq!['#', '#', ' ']);
            flush(&heading, &date, &md, &mut items, root_url, Ghost(open_body));
            let rest = crate::text::string_of_range(&v, 3, v.len());
            let h = trimmed(rest.as_str());
            date = parse_news_date(h.as_str());
            assert(rest@ == line@.skip(3));
            heading = Some(h);
            md = String::new();
            has_body = false;
            proof {
                open_body = Seq::empty();
            }
        } else {
            assert(news_heading(line@) is None) by {
                if line@.len() >= 3 && line@.take(3) == seq!['#', '#', ' '] {
                    assert(line@.take(3)[0] == '#' && line@.take(3)[1] == '#' && line@.take(3)[2]
                        == ' ');
                }
            }
            if has_body {
                push_char(&mut md, '\n');
            }
            push_str(&mut md, line.as_str());
            proof {
                if open_body.len() > 0 {
                    assert(open_body.push(line@).drop_last() == open_body);
                }
                open_body = open_body.push(line@);
            }
            has_body = true;
        }
        i = i + 1;
    }
    assert(ls.take(lines.len() as int) == ls);
    flush(&heading, &date, &md, &mut items, root_url, Ghost(open_body));
    items
}

} // verus!

verus! {

// ---------------------------------------------------------------------------------------------
// Feed documents
// ---------------------------------------------------------------------------------------------

/// Calendar order on year-month-day triples.
pub open spec fn ymd_before(a: (i32, u32, u32), b: (i32, u32, u32)) -> bool {
    ||| a.0 < b.0
    ||| (a.0 == b.0 && a.1 < b.1)
    ||| (a.0 == b.0 && a.1 == b.1 && a.2 < b.2)
}

/// The latest date among the items, if there are any (`Iterator::max`).
pub open spec fn latest(items: Seq<ItemView>) -> Option<(i32, u32, u32)>
    decreases items.len(),
{
    if items.len() == 0 {
        None
    } else {
        match latest(items.drop_last()) {
            None => Some(items.last().2),
            Some(m) => if ymd_before(items.last().2, m) {
                Some(m)
            } else {
                Some(items.last().2)
            },
        }
    }
}

/// The latest date of the feed items, if there are any.
pub fn latest_date(items: &[FeedItem]) -> (r: Option<Date>)
    ensures
        match r {
            Some(d) => latest(items_view(items@)) == Some(ymd(d)),
            None => latest(items_view(items@)) is None,
        },
{
    let mut best: Option<Date> = None;
    let mut i: usize = 0;
    while i < items.len()
        invariant
            i <= items.len(),
            match best {
                Some(d) => latest(items_view(items@).take(i as int)) == Some(ymd(d)),
                None => latest(items_view(items@).take(i as int)) is None,
            },
        decreases items.len() - i,
    {
        let d = items[i].date;
        assert(items_view(items@).take(i + 1).drop_last() == items_view(items@).take(i as int));
        assert(items_view(items@).take(i + 1).last() == items@[i as int]@);
        best = match best {
            None => Some(d),
            Some(b) => if d.is_before(&b) {
                Some(b)
            } else {
                Some(d)
            },
        };
        i = i + 1;
    }
    assert(items_view(items@).take(items.len() as int) == items_view(items@));
    best
}

/// One item of the RSS feed.
pub open spec fn rss_item(it: ItemView) -> Seq<char> {
    "    <item>\n"@ + "      <title>"@ + xml_escaped(it.0) + "</title>\n"@ + "      <link>"@
        + xml_escaped(it.1) + "</link>\n"@ + "      <guid>"@ + xml_escaped(it.1) + "</guid>\n"@
        + "      <pubDate>"@ + chrono_rfc2822_noon(it.2.0, it.2.1, it.2.2) + "</pubDate>\n"@
        + "      <description><![CDATA["@ + replace_all(it.3, cdata_end(), cdata_split())
        + "]]></description>\n"@ + "    </item>\n"@
}

/// The items of the RSS feed, in order.
pub open spec fn rss_items(items: Seq<ItemView>) -> Seq<char>
    decreases items.len(),
{
    if items.len() == 0 {
        Seq::empty()
    } else {
        rss_items(items.drop_last()) + rss_item(items.last())
    }
}

/// The head of the RSS feed, up to its first item.
pub open spec fn rss_head(root_url: Seq<char>, last_build: (i32, u32, u32)) -> Seq<char> {
    "<?xml version=\"1.0\" encoding=\"UTF-8\"?>"@ + "\n"@
        + "<rss version=\"2.0\" xmlns:atom=\"http://www.w3.org/2005/Atom\">"@ + "\n"@
        + "  <channel>\n"@ + "    <title>Renderling</title>\n"@ + "    <link>"@ + xml_escaped(
        root_url,
    ) + "</link>\n"@ + "    <description>News and articles from renderling.xyz</description>\n"@
        + "    <language>en</language>\n"@ + "    <lastBuildDate>"@ + chrono_rfc2822_noon(
        last_build.0,
        last_build.1,
        last_build.2,
    ) + "</lastBuildDate>\n"@ + "    <atom:link href=\""@ + xml_escaped(root_url)
        + "/feed.xml\" rel=\"self\" type=\"application/rss+xml\" />\n"@
}

/// The RSS 2.0 feed of the items, built on `last_build`.
pub open spec fn rss_document(
    root_url: Seq<char>,
    items: Seq<ItemView>,
    last_build: (i32, u32, u32),
) -> Seq<char> {
    rss_head(root_url, last_build) + rss_items(items) + "  </channel>\n"@ + "</rss>\n"@
}

fn render_rss_item(item: &FeedItem) -> (r: String)
    ensures
        r@ == rss_item(item@),
{
    let mut xml = String::new();
    push_str(&mut xml, "    <item>\n");
    push_str(&mut xml, "      <title>");
    push_str(&mut xml, xml_escape(item.title.as_str()).as_str());
    push_str(&mut xml, "</title>\n");
    push_str(&mut xml, "      <link>");
    push_str(&mut xml, xml_escape(item.link.as_str()).as_str());
    push_str(&mut xml, "</link>\n");
    push_str(&mut xml, "      <guid>");
    push_str(&mut xml, xml_escape(item.link.as_str()).as_str());
    push_str(&mut xml, "</guid>\n");
    push_str(&mut xml, "      <pubDate>");
    push_str(&mut xml, format_rfc2822_noon(&item.date).as_str());
    push_str(&mut xml, "</pubDate>\n");
    push_str(&mut xml, "      <description><![CDATA[");
    push_str(&mut xml, cdata_escape(item.content_html.as_str()).as_str());
    push_str(&mut xml, "]]></description>\n");
    push_str(&mut xml, "    </item>\n");
    xml
}

/// The RSS 2.0 feed of `items`, with `last_build` as its build date.
pub fn render_rss(root_url: &str, items: &[FeedItem], last_build: &Date) -> (r: String)
    ensures
        r@ == rss_document(root_url@, items_view(items@), ymd(*last_build)),
{
    let mut xml = String::new();
    push_str(&mut xml, "<?xml version=\"1.0\" encoding=\"UTF-8\"?>");
    push_str(&mut xml, "\n");
    push_str(&mut xml, "<rss version=\"2.0\" xmlns:atom=\"http://www.w3.org/2005/Atom\">");
    push_str(&mut xml, "\n");
    push_str(&mut xml, "  <channel>\n");
    push_str(&mut xml, "    <title>Renderling</title>\n");
    push_str(&mut xml, "    <link>");
    push_str(&mut xml, xml_escape(root_url).as_str());
    push_str(&mut xml, "</link>\n");
    push_str(&mut xml, "    <description>News and articles from renderling.xyz</description>\n");
    push_str(&mut xml, "    <language>en</language>\n");
    push_str(&mut xml, "    <lastBuildDate>");
    push_str(&mut xml, format_rfc2822_noon(last_build).as_str());
    push_str(&mut xml, "</lastBuildDate>\n");
    push_str(&mut xml, "    <atom:link href=\"");
    push_str(&mut xml, xml_escape(root_url).as_str());
    push_str(&mut xml, "/feed.xml\" rel=\"self\" type=\"application/rss+xml\" />\n");
    let ghost head = xml@;
    assert(head == rss_head(root_url@, ymd(*last_build)));
    let mut i: usize = 0;
    while i < items.len()
        invariant
            i <= items.len(),
            xml@ == head + rss_items(items_view(items@).take(i as int)),
        decreases items.len() - i,
    {
        let part = render_rss_item(&items[i]);
        assert(items_view(items@).take(i + 1).drop_last() == items_view(items@).take(i as int));
        assert(items_view(items@).take(i + 1).last() == items@[i as int]@);
        push_str(&mut xml, part.as_str());
        i = i + 1;
    }
    assert(items_view(items@).take(items.len() as int) == items_view(items@));
    push_str(&mut xml, "  </channel>\n");
    push_str(&mut xml, "</rss>\n");
    xml
}

/// Generate an RSS 2.0 feed XML string. Its build date is the latest item date, or today
/// (in UTC) when there are no items.
pub fn generate_rss(root_url: &str, items: &[FeedItem]) -> (r: String)
    ensures
        latest(items_view(items@)) matches Some(d) ==> r@ == rss_document(
            root_url@,
            items_view(items@),
            d,
        ),
        latest(items_view(items@)) is None ==> exists|d: (i32, u32, u32)|
            valid_ymd(d.0 as int, d.1 as int, d.2 as int) && r@ == rss_document(
                root_url@,
                items_view(items@),
                d,
            ),
{
    let last_build = match latest_date(items) {
        Some(d) => d,
        None => today_utc(),
    };
    proof {
        use_type_invariant(&last_build);
    }
    render_rss(root_url, items, &last_build)
}

/// One entry of the Atom feed.
pub open spec fn atom_entry(it: ItemView) -> Seq<char> {
    "  <entry>\n"@ + "    <title>"@ + xml_escaped(it.0) + "</title>\n"@ + "    <link href=\""@
        + xml_escaped(it.1) + "\" />\n"@ + "    <id>"@ + xml_escaped(it.1) + "</id>\n"@
        + "    <updated>"@ + chrono_iso8601_noon(it.2.0, it.2.1, it.2.2) + "</updated>\n"@
        + "    <content type=\"html\"><![CDATA["@ + replace_all(it.3, cdata_end(), cdata_split())
        + "]]></content>\n"@ + "  </entry>\n"@
}

/// The entries of the Atom feed, in order.
pub open spec fn atom_entries(items: Seq<ItemView>) -> Seq<char>
    decreases items.len(),
{
    if items.len() == 0 {
        Seq::empty()
    } else {
        atom_entries(items.drop_last()) + atom_entry(items.last())
    }
}

/// The head of the Atom feed, up to its first entry.
pub open spec fn atom_head(root_url: Seq<char>, updated: (i32, u32, u32)) -> Seq<char> {
    "<?xml version=\"1.0\" encoding=\"UTF-8\"?>"@ + "\n"@
        + "<feed xmlns=\"http://www.w3.org/2005/Atom\">"@ + "\n"@ + "  <title>Renderling</title>\n"@
        + "  <link href=\""@ + xml_escaped(root_url) + "\" rel=\"alternate\" />\n"@
        + "  <link href=\""@ + xml_escaped(root_url)
        + "/atom.xml\" rel=\"self\" type=\"application/atom+xml\" />\n"@ + "  <id>"@
        + xml_escaped(root_url) + "</id>\n"@ + "  <updated>"@ + chrono_iso8601_noon(
        updated.0,
        updated.1,
        updated.2,
    ) + "</updated>\n"@ + "  <author>\n"@ + "    <name>Schell Scivally</name>\n"@
        + "  </author>\n"@ + "  <subtitle>News and articles from renderling.xyz</subtitle>\n"@
}

/// The Atom feed of the items, updated on `updated`.
pub open spec fn atom_document(
    root_url: Seq<char>,
    items: Seq<ItemView>,
    updated: (i32, u32, u32),
) -> Seq<char> {
    atom_head(root_url, updated) + atom_entries(items) + "</feed>\n"@
}

fn render_atom_entry(item: &FeedItem) -> (r: String)
    ensures
        r@ == atom_entry(item@),
{
    let mut xml = String::new();
    push_str(&mut xml, "  <entry>\n");
    push_str(&mut xml, "    <title>");
    push_str(&mut xml, xml_escape(item.title.as_str()).as_str());
    push_str(&mut xml, "</title>\n");
    push_str(&mut xml, "    <link href=\"");
    push_str(&mut xml, xml_escape(item.link.as_str()).as_str());
    push_str(&mut xml, "\" />\n");
    push_str(&mut xml, "    <id>");
    push_str(&mut xml, xml_escape(item.link.as_str()).as_str());
    push_str(&mut xml, "</id>\n");
    push_str(&mut xml, "    <updated>");
    push_str(&mut xml, format_iso8601_noon(&item.date).as_str());
    push_str(&mut xml, "</updated>\n");
    push_str(&mut xml, "    <content type=\"html\"><![CDATA[");
    push_str(&mut xml, cdata_escape(item.content_html.as_str()).as_str());
    push_str(&mut xml, "]]></content>\n");
    push_str(&mut xml, "  </entry>\n");
    xml
}

/// The Atom feed of `items`, with `updated` as its update date.
pub fn render_atom(root_url: &str, items: &[FeedItem], updated: &Date) -> (r: String)
    ensures
        r@ == atom_document(root_url@, items_view(items@), ymd(*updated)),
{
    let mut xml = String::new();
    push_str(&mut xml, "<?xml version=\"1.0\" encoding=\"UTF-8\"?>");
    push_str(&mut xml, "\n");
    push_str(&mut xml, "<feed xmlns=\"http://www.w3.org/2005/Atom\">");
    push_str(&mut xml, "\n");
    push_str(&mut xml, "  <title>Renderling</title>\n");
    push_str(&mut xml, "  <link href=\"");
    push_str(&mut xml, xml_escape(root_url).as_str());
    push_str(&mut xml, "\" rel=\"alternate\" />\n");
    push_str(&mut xml, "  <link href=\"");
    push_str(&mut xml, xml_escape(root_url).as_str());
    push_str(&mut xml, "/atom.xml\" rel=\"self\" type=\"application/atom+xml\" />\n");
    push_str(&mut xml, "  <id>");
    push_str(&mut xml, xml_escape(root_url).as_str());
    push_str(&mut xml, "</id>\n");
    push_str(&mut xml, "  <updated>");
    push_str(&mut xml, format_iso8601_noon(updated).as_str());
    push_str(&mut xml, "</updated>\n");
    push_str(&mut xml, "  <author>\n");
    push_str(&mut xml, "    <name>Schell Scivally</name>\n");
    push_str(&mut xml, "  </author>\n");
    push_str(&mut xml, "  <subtitle>News and articles from renderling.xyz</subtitle>\n");
    let ghost head = xml@;
    assert(head == atom_head(root_url@, ymd(*updated)));
    let mut i: usize = 0;
    while i < items.len()
        invariant
            i <= items.len(),
            xml@ == head + atom_entries(items_view(items@).take(i as int)),
        decreases items.len() - i,
    {
        let part = render_atom_entry(&items[i]);
        assert(items_view(items@).take(i + 1).drop_last() == items_view(items@).take(i as int));
        assert(items_view(items@).take(i + 1).last() == items@[i as int]@);
        push_str(&mut xml, part.as_str());
        i = i + 1;
    }
    assert(items_view(items@).take(items.len() as int) == items_view(items@));
    push_str(&mut xml, "</feed>\n");
    xml
}

/// Generate an Atom feed XML string. It is updated on the latest item date, or today (in UTC)
/// when there are no items.
pub fn generate_atom(root_url: &str, items: &[FeedItem]) -> (r: String)
    ensures
        latest(items_view(items@)) matches Some(d) ==> r@ == atom_document(
            root_url@,
            items_view(items@),
            d,
        ),
        latest(items_view(items@)) is None ==> exists|d: (i32, u32, u32)|
            valid_ymd(d.0 as int, d.1 as int, d.2 as int) && r@ == atom_document(
                root_url@,
                items_view(items@),
                d,
            ),
{
    let updated = match latest_date(items) {
        Some(d) => d,
        None => today_utc(),
    };
    proof {
        use_type_invariant(&updated);
    }
    render_atom(root_url, items, &updated)
}

} // verus!

verus! {

// ---------------------------------------------------------------------------------------------
// Articles
// ---------------------------------------------------------------------------------------------

/// The position of the last `c` in `s`.
pub open spec fn last_index_of(s: Seq<char>, c: char) -> Option<int>
    decreases s.len(),
{
    if s.len() == 0 {
        None
    } else if s.last() == c {
        Some(s.len() - 1)
    } else {
        last_index_of(s.drop_last(), c)
    }
}

/// The extension of a file name (`Path::extension`): what follows its last `.`, unless the
/// name has no `.`, its only `.` starts it, or it is `..`.
pub open spec fn file_extension(name: Seq<char>) -> Option<Seq<char>> {
    if name == seq!['.', '.'] {
        None
    } else {
        match last_index_of(name, '.') {
            Some(k) => if k == 0 {
                None
            } else {
                Some(name.skip(k + 1))
            },
            None => None,
        }
    }
}

/// The stem of a file name (`Path::file_stem`): what comes before its last `.`, or the whole
/// name where `file_extension` finds no extension.
pub open spec fn file_stem(name: Seq<char>) -> Seq<char> {
    if name == seq!['.', '.'] {
        name
    } else {
        match last_index_of(name, '.') {
            Some(k) => if k == 0 {
                name
            } else {
                name.take(k)
            },
            None => name,
        }
    }
}

/// The position of the last `.` in `v`, as `last_index_of` states it.
fn last_dot(v: &Vec<char>) -> (r: Option<usize>)
    ensures
        match r {
            Some(k) => last_index_of(v@, '.') == Some(k as int) && k < v@.len(),
            None => last_index_of(v@, '.') is None,
        },
{
    let mut n = v.len();
    assert(v@.take(n as int) == v@);
    while n > 0
        invariant
            n <= v.len(),
            last_index_of(v@, '.') == last_index_of(v@.take(n as int), '.'),
        decreases n,
    {
        if v[n - 1] == '.' {
            return Some(n - 1);
        }
        assert(v@.take(n as int).drop_last() == v@.take(n - 1));
        n = n - 1;
    }
    None
}

/// Whether two strings hold the same text.
fn same_text(a: &str, b: &str) -> (r: bool)
    ensures
        r == (a@ == b@),
{
    a.to_owned() == b.to_owned()
}

/// Whether the file `file_name` in the articles directory is an article of the feeds: a
/// `.md` file other than `index.md` and `adages.md`.
pub open spec fn is_feed_article(file_name: Seq<char>) -> bool {
    &&& file_extension(file_name) == Some(seq!['m', 'd'])
    &&& file_name != "index.md"@
    &&& file_name != "adages.md"@
}

/// Whether the file `file_name` in the articles directory is an article of the feeds.
pub fn is_article_file(file_name: &str) -> (r: bool)
    ensures
        r == is_feed_article(file_name@),
{
    let v = chars_of(file_name);
    let two_dots = v.len() == 2 && v[0] == '.' && v[1] == '.';
    proof {
        if v@ == seq!['.', '.'] {
            assert(v@.len() == 2 && v@[0] == '.' && v@[1] == '.');
        }
        if two_dots {
            assert(v@ =~= seq!['.', '.']);
        }
    }
    let ext_md = if two_dots {
        false
    } else {
        match last_dot(&v) {
            Some(k) => {
                if k == 0 {
                    false
                } else {
                    let b = v.len() - k == 3 && v[k + 1] == 'm' && v[k + 2] == 'd';
                    proof {
                        if b {
                            assert(v@.skip(k + 1) =~= seq!['m', 'd']);
                        }
                        assert(v@.skip(k + 1).len() == v@.len() - k - 1);
                        if v@.skip(k + 1) == seq!['m', 'd'] {
                            assert(seq!['m', 'd'].len() == 2);
                            assert(v@.skip(k + 1)[0] == v@[k + 1]);
                            assert(v@.skip(k + 1)[1] == v@[k + 2]);
                        }
                    }
                    b
                }
            },
            None => false,
        }
    };
    ext_md && !same_text(file_name, "index.md") && !same_text(file_name, "adages.md")
}

/// The stem of a file name, as `file_stem` states it.
pub fn stem_of(file_name: &str) -> (r: String)
    ensures
        r@ == file_stem(file_name@),
{
    let v = chars_of(file_name);
    let two_dots = v.len() == 2 && v[0] == '.' && v[1] == '.';
    proof {
        if v@ == seq!['.', '.'] {
            assert(v@.len() == 2 && v@[0] == '.' && v@[1] == '.');
        }
        if two_dots {
            assert(v@ =~= seq!['.', '.']);
        }
    }
    if two_dots {
        return file_name.to_owned();
    }
    match last_dot(&v) {
        Some(k) => if k == 0 {
            file_name.to_owned()
        } else {
            crate::text::string_of_range(&v, 0, k)
        },
        None => file_name.to_owned(),
    }
}

/// `s` without the copies of `.md` at its end (`str::trim_end_matches(".md")`).
pub open spec fn without_md_suffixes(s: Seq<char>) -> Seq<char>
    decreases s.len(),
{
    if s.len() >= 3 && s.skip(s.len() - 3) == seq!['.', 'm', 'd'] {
        without_md_suffixes(s.take(s.len() - 3))
    } else {
        s
    }
}

/// The title of an article: the frontmatter's, or else the file name without its `.md`
/// suffixes and with `_` read as a space.
pub open spec fn article_title(
    file_name: Seq<char>,
    meta: Option<(Seq<char>, Option<Seq<char>>, bool)>,
) -> Seq<char> {
    match meta {
        Some(m) => m.0,
        None => replace_all(without_md_suffixes(file_name), seq!['_'], seq![' ']),
    }
}

/// The feed item of an article, if it has one: none when its frontmatter excludes it from
/// the feeds, or it has no date that reads as `%Y-%m-%d`.
pub open spec fn article_entry(
    root_url: Seq<char>,
    file_name: Seq<char>,
    content: Seq<char>,
    meta: Option<(Seq<char>, Option<Seq<char>>, bool)>,
) -> Option<ItemView> {
    match meta {
        None => None,
        Some(m) => if m.2 {
            None
        } else {
            match m.1 {
                None => None,
                Some(d) => match chrono_parsed_date(d, "%Y-%m-%d"@) {
                    None => None,
                    Some(date) => Some(
                        (
                            article_title(file_name, meta),
                            root_url + "/articles/"@ + file_stem(file_name) + ".html"@,
                            date,
                            gfm_html(without_frontmatter(content)),
                        ),
                    ),
                },
            }
        },
    }
}

/// The view of an optional frontmatter.
pub open spec fn meta_view(meta: Option<ContentMeta>) -> Option<
    (Seq<char>, Option<Seq<char>>, bool),
> {
    match meta {
        Some(m) => Some(m@),
        None => None,
    }
}

/// The title of the article in the file `file_name` with the frontmatter `meta`.
pub fn title_of_article(file_name: &str, meta: &Option<ContentMeta>) -> (r: String)
    ensures
        r@ == article_title(file_name@, meta_view(*meta)),
{
    match meta {
        Some(m) => m.title.clone(),
        None => {
            let v = chars_of(file_name);
            let mut n = v.len();
            assert(v@.take(n as int) == v@);
            while n >= 3 && v[n - 3] == '.' && v[n - 2] == 'm' && v[n - 1] == 'd'
                invariant
                    n <= v.len(),
                    without_md_suffixes(v@) == without_md_suffixes(v@.take(n as int)),
                decreases n,
            {
                let ghost t = v@.take(n as int);
                assert(t.skip(t.len() - 3) =~= seq!['.', 'm', 'd']);
                assert(t.take(t.len() - 3) == v@.take(n - 3));
                n = n - 3;
            }
            proof {
                let t = v@.take(n as int);
                if t.len() >= 3 && t.skip(t.len() - 3) == seq!['.', 'm', 'd'] {
                    assert(t.skip(t.len() - 3)[0] == v@[n - 3]);
                    assert(t.skip(t.len() - 3)[1] == v@[n - 2]);
                    assert(t.skip(t.len() - 3)[2] == v@[n - 1]);
                }
            }
            let mut w: Vec<char> = Vec::new();
            let mut i: usize = 0;
            while i < n
                invariant
                    n <= v.len(),
                    i <= n,
                    w@ == v@.take(i as int),
                decreases n - i,
            {
                w.push(v[i]);
                assert(v@.take(i + 1) == v@.take(i as int).push(v@[i as int]));
                i = i + 1;
            }
            let us = chars_of("_");
            proof {
                reveal_strlit("_");
                reveal_strlit(" ");
            }
            assert(us@ == seq!['_']);
            assert(" "@ == seq![' ']);
            replace_chars(&w, &us, " ")
        },
    }
}

/// The feed item of one article, from its file name, its content and its frontmatter (if
/// its frontmatter reads as one).
pub fn article_item(
    root_url: &str,
    file_name: &str,
    content: &str,
    meta: &Option<ContentMeta>,
) -> (r: Option<FeedItem>)
    ensures
        match r {
            Some(item) => article_entry(root_url@, file_name@, content@, meta_view(*meta))
                == Some(item@),
            None => article_entry(root_url@, file_name@, content@, meta_view(*meta)) is None,
        },
{
    let title = title_of_article(file_name, meta);
    let m = match meta {
        Some(m) => m,
        None => {
            return None;
        },
    };
    if m.exclude_from_rss {
        return None;
    }
    let date = match &m.date {
        Some(d) => date_from_str(d.as_str(), "%Y-%m-%d"),
        None => {
            return None;
        },
    };
    let date = match date {
        Some(d) => d,
        None => {
            return None;
        },
    };
    let stem = stem_of(file_name);
    let mut link = String::new();
    push_str(&mut link, root_url);
    push_str(&mut link, "/articles/");
    push_str(&mut link, stem.as_str());
    push_str(&mut link, ".html");
    let body = strip_frontmatter(content);
    let html = markdown_to_html(body);
    Some(FeedItem { title, link, date, content_html: html })
}

} // verus!

verus! {

// ---------------------------------------------------------------------------------------------
// Newest first
// ---------------------------------------------------------------------------------------------

/// Where an item dated `d` goes among items that are newest first: before the first item
/// that is older than it, so after every item of its own date.
pub open spec fn insert_pos(s: Seq<ItemView>, d: (i32, u32, u32)) -> nat
    decreases s.len(),
{
    if s.len() == 0 || ymd_before(s[0].2, d) {
        0
    } else {
        1 + insert_pos(s.drop_first(), d)
    }
}

/// The items newest first; items of the same date keep their order (a stable sort by date,
/// newest first).
pub open spec fn newest_first_of(items: Seq<ItemView>) -> Seq<ItemView>
    decreases items.len(),
{
    if items.len() == 0 {
        Seq::empty()
    } else {
        let s = newest_first_of(items.drop_last());
        s.insert(insert_pos(s, items.last().2) as int, items.last())
    }
}

/// Whether no item comes after an item that is newer than it.
pub open spec fn is_newest_first(s: Seq<ItemView>) -> bool {
    forall|i: int, j: int| 0 <= i < j < s.len() ==> !ymd_before(#[trigger] s[i].2, #[trigger] s[j].2)
}

proof fn lemma_insert_pos(s: Seq<ItemView>, d: (i32, u32, u32))
    ensures
        insert_pos(s, d) <= s.len(),
        forall|k: int| 0 <= k < insert_pos(s, d) ==> !ymd_before(#[trigger] s[k].2, d),
        insert_pos(s, d) < s.len() ==> ymd_before(s[insert_pos(s, d) as int].2, d),
    decreases s.len(),
{
    if s.len() > 0 && !ymd_before(s[0].2, d) {
        lemma_insert_pos(s.drop_first(), d);
        assert forall|k: int| 0 <= k < insert_pos(s, d) implies !ymd_before(#[trigger] s[k].2, d) by {
            if k > 0 {
                assert(s[k] == s.drop_first()[k - 1]);
            }
        }
    }
}

/// Putting the items newest first gives the same items, newest first.
pub proof fn newest_first_sorts(items: Seq<ItemView>)
    ensures
        is_newest_first(newest_first_of(items)),
        newest_first_of(items).to_multiset() == items.to_multiset(),
        newest_first_of(items).len() == items.len(),
    decreases items.len(),
{
    broadcast use vstd::seq_lib::group_to_multiset_ensures;

    if items.len() > 0 {
        let rest = items.drop_last();
        let x = items.last();
        newest_first_sorts(rest);
        let s = newest_first_of(rest);
        let p = insert_pos(s, x.2) as int;
        lemma_insert_pos(s, x.2);
        let t = s.insert(p, x);
        assert(items == rest.push(x));
        assert forall|i: int, j: int| 0 <= i < j < t.len() implies !ymd_before(
            #[trigger] t[i].2,
            #[trigger] t[j].2,
        ) by {
            if j < p {
                assert(t[i] == s[i] && t[j] == s[j]);
            } else if j == p {
                assert(t[i] == s[i]);
            } else if i < p {
                assert(t[i] == s[i] && t[j] == s[j - 1]);
            } else if i == p {
                assert(t[j] == s[j - 1]);
                assert(ymd_before(s[p].2, x.2));
                assert(!ymd_before(s[p].2, s[j - 1].2));
            } else {
                assert(t[i] == s[i - 1] && t[j] == s[j - 1]);
            }
        }
    }
}

/// The items, newest first (a stable sort by date, newest first).
pub fn newest_first(items: Vec<FeedItem>) -> (r: Vec<FeedItem>)
    ensures
        items_view(r@) == newest_first_of(items_view(items@)),
{
    let ghost all = items_view(items@);
    let mut rest = items;
    let mut out: Vec<FeedItem> = Vec::new();
    let ghost mut i: int = 0;
    assert(all.take(0) == Seq::<ItemView>::empty());
    assert(items_view(out@) == Seq::<ItemView>::empty());
    while rest.len() > 0
        invariant
            0 <= i <= all.len(),
            items_view(rest@) == all.skip(i),
            items_view(out@) == newest_first_of(all.take(i)),
        decreases rest.len(),
    {
        let ghost before = rest@;
        assert(items_view(before).len() == before.len());
        assert(i < all.len());
        assert(all.skip(i)[0] == all[i]);
        assert(items_view(before)[0] == before[0]@);
        let item = rest.remove(0);
        assert(item@ == all[i]);
        assert forall|k: int| 0 <= k < rest@.len() implies #[trigger] items_view(rest@)[k] == all.skip(
            i + 1,
        )[k] by {
            assert(rest@[k] == before[k + 1]);
            assert(items_view(before)[k + 1] == all.skip(i)[k + 1]);
        }
        assert(items_view(rest@) =~= all.skip(i + 1));
        let ghost s = items_view(out@);
        let mut j: usize = 0;
        assert(s.skip(0) == s);
        while j < out.len() && !out[j].date.is_before(&item.date)
            invariant
                j <= out.len(),
                s == items_view(out@),
                insert_pos(s, item@.2) == j + insert_pos(s.skip(j as int), item@.2),
            decreases out.len() - j,
        {
            assert(s.skip(j as int)[0] == s[j as int]);
            assert(s.skip(j as int).drop_first() == s.skip(j + 1));
            j = j + 1;
        }
        if j < out.len() {
            assert(s.skip(j as int)[0] == s[j as int]);
        }
        let ghost v = item@;
        out.insert(j, item);
        assert(items_view(out@) =~= s.insert(j as int, v));
        assert(all.take(i + 1).drop_last() == all.take(i));
        assert(all.take(i + 1).last() == all[i]);
        proof {
            i = i + 1;
        }
    }
    assert(all.skip(i).len() == 0);
    assert(all.take(i) == all);
    out
}

} // verus!

verus! {

/// Law: the date the feeds are built on when there are items (`latest`) is the date of one of
/// the items, and no item is newer.
pub proof fn latest_is_newest(items: Seq<ItemView>)
    ensures
        latest(items) is None <==> items.len() == 0,
        latest(items) matches Some(m) ==> (exists|i: int|
            0 <= i < items.len() && #[trigger] items[i].2 == m),
        latest(items) matches Some(m) ==> forall|i: int|
            0 <= i < items.len() ==> !ymd_before(m, #[trigger] items[i].2),
    decreases items.len(),
{
    if items.len() > 0 {
        let rest = items.drop_last();
        latest_is_newest(rest);
        let last = items.len() - 1;
        assert(items[last] == items.last());
        assert forall|i: int| 0 <= i < rest.len() implies #[trigger] items[i] == rest[i] by {}
        match latest(rest) {
            None => {
                assert forall|i: int| 0 <= i < items.len() implies !ymd_before(
                    items.last().2,
                    #[trigger] items[i].2,
                ) by {
                    assert(i == last);
                }
            },
            Some(m) => {
                let j = choose|j: int| 0 <= j < rest.len() && #[trigger] rest[j].2 == m;
                assert(items[j].2 == m);
            },
        }
    }
}

/// Law: newest first, the first feed item carries the date the feeds are built on.
pub proof fn newest_first_leads_with_latest(items: Seq<ItemView>)
    requires
        items.len() > 0,
    ensures
        latest(items) == Some(newest_first_of(items)[0].2),
{
    broadcast use vstd::seq_lib::group_to_multiset_ensures;

    let s = newest_first_of(items);
    newest_first_sorts(items);
    latest_is_newest(items);
    let m = latest(items)->0;
    let i = choose|i: int| 0 <= i < items.len() && #[trigger] items[i].2 == m;
    assert(items.contains(items[i]));
    assert(s.to_multiset().count(items[i]) > 0);
    assert(s.contains(items[i]));
    let j = choose|j: int| 0 <= j < s.len() && s[j] == items[i];
    assert(items.to_multiset().count(s[0]) > 0);
    assert(items.contains(s[0]));
    let k = choose|k: int| 0 <= k < items.len() && items[k] == s[0];
    assert(!ymd_before(m, items[k].2));
    if j > 0 {
        assert(!ymd_before(s[0].2, s[j].2));
    }
}

} // verus!

verus! {

// ---------------------------------------------------------------------------------------------
// News sections
// ---------------------------------------------------------------------------------------------

/// The positions of the `## ` heading lines, in order.
pub open spec fn heading_lines(lines: Seq<Seq<char>>) -> Seq<int>
    decreases lines.len(),
{
    if lines.len() == 0 {
        Seq::empty()
    } else if news_heading(lines.last()) is Some {
        heading_lines(lines.drop_last()).push(lines.len() - 1)
    } else {
        heading_lines(lines.drop_last())
    }
}

/// The lines of section `k`: those after its heading, up to the next heading or the end.
pub open spec fn section_body(lines: Seq<Seq<char>>, hs: Seq<int>, k: int) -> Seq<Seq<char>> {
    let end = if k + 1 < hs.len() {
        hs[k + 1]
    } else {
        lines.len() as int
    };
    lines.subrange(hs[k] + 1, end)
}

/// The items of the first `n` sections, one after another.
pub open spec fn section_items(lines: Seq<Seq<char>>, hs: Seq<int>, n: int, root_url: Seq<char>) -> Seq<
    ItemView,
>
    decreases n,
{
    if n <= 0 {
        Seq::empty()
    } else {
        section_items(lines, hs, n - 1, root_url) + news_section_item(
            news_heading(lines[hs[n - 1]]),
            section_body(lines, hs, n - 1),
            root_url,
        )
    }
}

proof fn lemma_heading_lines(lines: Seq<Seq<char>>)
    ensures
        forall|k: int| 0 <= k < heading_lines(lines).len() ==> 0 <= #[trigger] heading_lines(lines)[k] < lines.len(),
        forall|j: int, k: int| 0 <= j < k < heading_lines(lines).len() ==> #[trigger] heading_lines(lines)[j] < #[trigger] heading_lines(lines)[k],
        forall|k: int| 0 <= k < heading_lines(lines).len() ==> news_heading(lines[#[trigger] heading_lines(lines)[k]]) is Some,
    decreases lines.len(),
{
    if lines.len() > 0 {
        let d = lines.drop_last();
        lemma_heading_lines(d);
        assert forall|k: int| 0 <= k < heading_lines(d).len() implies lines[#[trigger] heading_lines(d)[k]] == d[heading_lines(d)[k]] by {}
    }
}

proof fn lemma_section_items_frame(lines: Seq<Seq<char>>, l: Seq<char>, hs: Seq<int>, n: int, root_url: Seq<char>)
    requires
        0 <= n < hs.len(),
        forall|k: int| 0 <= k < hs.len() ==> 0 <= #[trigger] hs[k] < lines.len(),
        forall|j: int, k: int| 0 <= j < k < hs.len() ==> #[trigger] hs[j] < #[trigger] hs[k],
    ensures
        section_items(lines.push(l), hs, n, root_url) == section_items(lines, hs, n, root_url),
    decreases n,
{
    if n > 0 {
        lemma_section_items_frame(lines, l, hs, n - 1, root_url);
        let k = n - 1;
        assert(lines.push(l)[hs[k]] == lines[hs[k]]);
        assert(hs[k] < hs[k + 1]);
        assert(lines.push(l).subrange(hs[k] + 1, hs[k + 1]) == lines.subrange(hs[k] + 1, hs[k + 1]));
    }
}

/// What scanning the lines leaves: before any heading, no items, no open heading and all the
/// lines; after one, the items of every section but the last, its heading and its lines.
proof fn lemma_news_scan_sections(lines: Seq<Seq<char>>, root_url: Seq<char>)
    ensures
        ({
            let (items, h, body) = news_scan(lines, root_url);
            let hs = heading_lines(lines);
            if hs.len() == 0 {
                items == Seq::<ItemView>::empty() && h is None && body == lines
            } else {
                &&& items == section_items(lines, hs, hs.len() - 1, root_url)
                &&& h == news_heading(lines[hs.last()])
                &&& body == lines.subrange(hs.last() + 1, lines.len() as int)
            }
        }),
    decreases lines.len(),
{
    if lines.len() > 0 {
        let d = lines.drop_last();
        let l = lines.last();
        lemma_news_scan_sections(d, root_url);
        lemma_heading_lines(d);
        lemma_heading_lines(lines);
        assert(d.push(l) == lines);
        let hs = heading_lines(d);
        let (items, h, body) = news_scan(d, root_url);
        if news_heading(l) is Some {
            let hs2 = hs.push(lines.len() - 1);
            assert(heading_lines(lines) == hs2);
            if hs.len() == 0 {
                assert(items + news_section_item(h, body, root_url) == Seq::<ItemView>::empty());
                assert(section_items(lines, hs2, 0, root_url) == Seq::<ItemView>::empty());
            } else {
                let n = hs.len() as int;
                lemma_section_items_frame(d, l, hs, n - 1, root_url);
                assert forall|k: int| 0 <= k < n - 1 implies section_items(lines, hs2, k, root_url)
                    == section_items(lines, hs, k, root_url) by {
                    lemma_section_items_eq(lines, hs, hs2, k, root_url);
                }
                lemma_section_items_eq(lines, hs, hs2, n - 1, root_url);
                assert(lines[hs[n - 1]] == d[hs[n - 1]]);
                assert(hs2[n - 1] == hs[n - 1]);
                assert(hs2[n] == d.len());
                assert(section_body(lines, hs2, n - 1) == lines.subrange(hs[n - 1] + 1, d.len() as int));
                assert(lines.subrange(hs[n - 1] + 1, d.len() as int) == d.subrange(hs[n - 1] + 1, d.len() as int));
            }
            assert(lines.subrange(lines.len() as int, lines.len() as int) == Seq::<Seq<char>>::empty());
            assert(hs2.last() == lines.len() - 1);
        } else {
            assert(heading_lines(lines) == hs);
            if hs.len() > 0 {
                let n = hs.len() as int;
                if n - 1 > 0 {
                    lemma_section_items_frame(d, l, hs, n - 1, root_url);
                }
                assert(lines[hs.last()] == d[hs.last()]);
                assert(lines.subrange(hs.last() + 1, lines.len() as int) == d.subrange(
                    hs.last() + 1,
                    d.len() as int,
                ).push(l));
            }
        }
    }
}

/// Sections before the last of a longer list of headings read the same.
proof fn lemma_section_items_eq(lines: Seq<Seq<char>>, hs: Seq<int>, hs2: Seq<int>, n: int, root_url: Seq<char>)
    requires
        0 <= n < hs.len(),
        hs.len() < hs2.len(),
        forall|k: int| 0 <= k < hs.len() ==> #[trigger] hs2[k] == hs[k],
    ensures
        section_items(lines, hs2, n, root_url) == section_items(lines, hs, n, root_url),
    decreases n,
{
    if n > 0 {
        lemma_section_items_eq(lines, hs, hs2, n - 1, root_url);
        assert(hs2[n - 1] == hs[n - 1] && hs2[n] == hs[n]);
    }
}

/// Law: the news items of a news page are, in order, the items of its `## ` sections: for
/// the `k`-th heading line, with heading text `h` and the lines after it up to the next
/// heading line (or the end) as its body, one item when `h` reads as a date and the body's
/// markdown renders to HTML that is not blank, and none otherwise. Lines before the first
/// heading make no item.
pub proof fn news_entries_by_section(content: Seq<char>, root_url: Seq<char>)
    ensures
        ({
            let lines = lines_of(without_frontmatter(content));
            let hs = heading_lines(lines);
            news_entries(content, root_url) == section_items(lines, hs, hs.len() as int, root_url)
        }),
{
    let lines = lines_of(without_frontmatter(content));
    let hs = heading_lines(lines);
    lemma_news_scan_sections(lines, root_url);
    let (items, h, body) = news_scan(lines, root_url);
    if hs.len() == 0 {
        assert(items + news_section_item(h, body, root_url) == Seq::<ItemView>::empty());
    } else {
        let n = hs.len() as int;
        assert(section_body(lines, hs, n - 1) == lines.subrange(hs.last() + 1, lines.len() as int));
    }
}

} // verus!

verus! {

// ---------------------------------------------------------------------------------------------
// Laws on the shape of the feed documents and of news sections
// ---------------------------------------------------------------------------------------------

/// The lines after the first, each with a line break in front.
pub open spec fn breaks_before(ls: Seq<Seq<char>>) -> Seq<Seq<char>> {
    ls.map_values(|l: Seq<char>| seq!['\n'] + l)
}

proof fn lemma_joined_lines_alt(ls: Seq<Seq<char>>)
    requires
        ls.len() > 0,
    ensures
        joined_lines(ls) == ls[0] + breaks_before(ls.drop_first()).flatten_alt(),
    decreases ls.len(),
{
    if ls.len() == 1 {
        assert(breaks_before(ls.drop_first()) =~= Seq::<Seq<char>>::empty());
        assert(ls[0] + Seq::<char>::empty() == ls[0]);
    } else {
        let d = ls.drop_last();
        lemma_joined_lines_alt(d);
        assert(d[0] == ls[0]);
        assert(breaks_before(ls.drop_first()).drop_last() =~= breaks_before(d.drop_first()));
        assert(breaks_before(ls.drop_first()).last() == seq!['\n'] + ls.last());
        assert(joined_lines(ls) == joined_lines(d) + seq!['\n'] + ls.last());
        assert(ls[0] + breaks_before(d.drop_first()).flatten_alt() + seq!['\n'] + ls.last() =~= ls[0]
            + (breaks_before(d.drop_first()).flatten_alt() + (seq!['\n'] + ls.last())));
    }
}

/// Law: the markdown of a news section is its lines with one line break between each two in
/// a row: the first line, then every further line with `\n` in front of it (so its length
/// is the lines' lengths plus one less than their number), and nothing for no lines.
pub proof fn news_section_markdown(h: Seq<char>, body: Seq<Seq<char>>, root_url: Seq<char>)
    ensures
        news_section_item(Some(h), body, root_url).len() <= 1,
        forall|i: int|
            0 <= i < news_section_item(Some(h), body, root_url).len() ==> #[trigger] news_section_item(
                Some(h),
                body,
                root_url,
            )[i].3 == gfm_html(
                if body.len() == 0 {
                    Seq::<char>::empty()
                } else {
                    body[0] + breaks_before(body.drop_first()).flatten()
                },
            ),
        body.len() > 0 ==> joined_lines(body).len() == breaks_before(body).flatten().len()
            - 1,
{
    if body.len() > 0 {
        lemma_joined_lines_alt(body);
        breaks_before(body.drop_first()).lemma_flatten_and_flatten_alt_are_equivalent();
        let bb = breaks_before(body);
        assert(bb[0] == seq!['\n'] + body[0]);
        assert(bb.drop_first() =~= breaks_before(body.drop_first()));
        assert(bb.flatten() == bb.first() + bb.drop_first().flatten());
    }
}

proof fn lemma_rss_items_flatten(items: Seq<ItemView>)
    ensures
        rss_items(items) == items.map_values(|it: ItemView| rss_item(it)).flatten_alt(),
    decreases items.len(),
{
    if items.len() > 0 {
        lemma_rss_items_flatten(items.drop_last());
        assert(items.map_values(|it: ItemView| rss_item(it)).drop_last() =~= items.drop_last().map_values(
            |it: ItemView| rss_item(it),
        ));
    }
}

proof fn lemma_atom_entries_flatten(items: Seq<ItemView>)
    ensures
        atom_entries(items) == items.map_values(|it: ItemView| atom_entry(it)).flatten_alt(),
    decreases items.len(),
{
    if items.len() > 0 {
        lemma_atom_entries_flatten(items.drop_last());
        assert(items.map_values(|it: ItemView| atom_entry(it)).drop_last() =~= items.drop_last().map_values(
            |it: ItemView| atom_entry(it),
        ));
    }
}

/// Law: the RSS feed lists the items in the order given: its items part is the first item's
/// block, then the second's, and so on, and putting two lists of items one after the other
/// puts their blocks one after the other.
pub proof fn rss_items_in_order(items: Seq<ItemView>, more: Seq<ItemView>)
    ensures
        rss_items(items) == items.map_values(|it: ItemView| rss_item(it)).flatten(),
        rss_items(items + more) == rss_items(items) + rss_items(more),
        items.len() > 0 ==> rss_items(items) == rss_item(items[0]) + rss_items(items.drop_first()),
{
    lemma_rss_items_flatten(items);
    items.map_values(|it: ItemView| rss_item(it)).lemma_flatten_and_flatten_alt_are_equivalent();
    lemma_rss_items_flatten(more);
    lemma_rss_items_flatten(items + more);
    let f = |it: ItemView| rss_item(it);
    assert((items + more).map_values(f) =~= items.map_values(f) + more.map_values(f));
    vstd::seq_lib::lemma_flatten_concat(items.map_values(f), more.map_values(f));
    more.map_values(f).lemma_flatten_and_flatten_alt_are_equivalent();
    (items + more).map_values(f).lemma_flatten_and_flatten_alt_are_equivalent();
    if items.len() > 0 {
        lemma_rss_items_flatten(items.drop_first());
        items.drop_first().map_values(f).lemma_flatten_and_flatten_alt_are_equivalent();
        assert(items.map_values(f).drop_first() =~= items.drop_first().map_values(f));
    }
}

/// Law: the Atom feed lists the items in the order given: its entries part is the first
/// item's entry, then the second's, and so on, and putting two lists of items one after the
/// other puts their entries one after the other.
pub proof fn atom_entries_in_order(items: Seq<ItemView>, more: Seq<ItemView>)
    ensures
        atom_entries(items) == items.map_values(|it: ItemView| atom_entry(it)).flatten(),
        atom_entries(items + more) == atom_entries(items) + atom_entries(more),
        items.len() > 0 ==> atom_entries(items) == atom_entry(items[0]) + atom_entries(
            items.drop_first(),
        ),
{
    lemma_atom_entries_flatten(items);
    items.map_values(|it: ItemView| atom_entry(it)).lemma_flatten_and_flatten_alt_are_equivalent();
    lemma_atom_entries_flatten(more);
    lemma_atom_entries_flatten(items + more);
    let f = |it: ItemView| atom_entry(it);
    assert((items + more).map_values(f) =~= items.map_values(f) + more.map_values(f));
    vstd::seq_lib::lemma_flatten_concat(items.map_values(f), more.map_values(f));
    more.map_values(f).lemma_flatten_and_flatten_alt_are_equivalent();
    (items + more).map_values(f).lemma_flatten_and_flatten_alt_are_equivalent();
    if items.len() > 0 {
        lemma_atom_entries_flatten(items.drop_first());
        items.drop_first().map_values(f).lemma_flatten_and_flatten_alt_are_equivalent();
        assert(items.map_values(f).drop_first() =~= items.drop_first().map_values(f));
    }
}

} // verus!
