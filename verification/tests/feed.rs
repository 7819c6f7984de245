use rxyz::date::Date;
use rxyz::feed::{
    article_item, cdata_escape, generate_atom, generate_rss, heading_to_anchor, is_article_file,
    latest_date, newest_first, parse_news_date, parse_news_entries, render_atom, render_rss, stem_of,
    strip_frontmatter, title_of_article, xml_escape, FeedItem,
};
use rxyz::md::ContentMeta;

fn ymd(y: i32, m: u32, d: u32) -> Date {
    Date::from_ymd_opt(y, m, d).unwrap()
}

#[test]
fn test_parse_news_date() {
    assert_eq!(parse_news_date("Wed 11 Feb, 2026"), Some(ymd(2026, 2, 11)));
    assert_eq!(parse_news_date("Sun 30 Nov, 2025"), Some(ymd(2025, 11, 30)));
    assert_eq!(parse_news_date("Wed 24 September, 2025"), Some(ymd(2025, 9, 24)));
    assert_eq!(parse_news_date("Sun 21 September, 2025"), Some(ymd(2025, 9, 21)));
}

#[test]
fn test_heading_to_anchor() {
    assert_eq!(heading_to_anchor("Wed 11 Feb, 2026"), "wed-11-feb-2026");
    assert_eq!(heading_to_anchor("Sun 21 September, 2025"), "sun-21-september-2025");
}

#[test]
fn test_strip_frontmatter() {
    let content = "---\ntitle: test\n---\n\nHello world";
    assert_eq!(strip_frontmatter(content), "Hello world");
}

#[test]
fn test_parse_news_entries() {
    let content = r#"---
title: devlog
---
_The latest happenings_

## Wed 11 Feb, 2026

### Big News

Some content here.

## Sun 30 Nov, 2025

More content.
"#;
    let items = parse_news_entries(content, "https://renderling.xyz");
    assert_eq!(items.len(), 2);
    assert_eq!(items[0].title, "Renderling News - Wed 11 Feb, 2026");
    assert_eq!(items[0].link, "https://renderling.xyz/news/index.html#wed-11-feb-2026");
    assert_eq!(items[0].date, ymd(2026, 2, 11));
    assert!(items[0].content_html.contains("Big News"));
    assert_eq!(items[1].title, "Renderling News - Sun 30 Nov, 2025");
}

#[test]
fn test_xml_escape() {
    assert_eq!(xml_escape("a < b & c"), "a &lt; b &amp; c");
}

#[test]
fn test_cdata_escape() {
    assert_eq!(cdata_escape("foo]]>bar"), "foo]]]]><![CDATA[>bar");
}

fn test_item() -> Vec<FeedItem> {
    vec![FeedItem {
        title: "Test Item".to_string(),
        link: "https://example.com/test".to_string(),
        date: ymd(2025, 1, 1),
        content_html: "<p>Hello</p>".to_string(),
    }]
}

#[test]
fn test_generate_rss() {
    let items = test_item();
    let rss = generate_rss("https://example.com", &items);
    assert!(rss.contains("<title>Renderling</title>"));
    assert!(rss.contains("<title>Test Item</title>"));
    assert!(rss.contains("<![CDATA[<p>Hello</p>]]>"));
    assert!(rss.contains("rss version=\"2.0\""));
}

#[test]
fn test_generate_atom() {
    let items = test_item();
    let atom = generate_atom("https://example.com", &items);
    assert!(atom.contains("<title>Renderling</title>"));
    assert!(atom.contains("<title>Test Item</title>"));
    assert!(atom.contains("xmlns=\"http://www.w3.org/2005/Atom\""));
    assert!(atom.contains("Schell Scivally"));
}

// ---- further cases ----

#[test]
fn xml_escape_all_five_entities() {
    assert_eq!(xml_escape("<a href=\"x\">it's & more</a>"),
        "&lt;a href=&quot;x&quot;&gt;it&apos;s &amp; more&lt;/a&gt;");
    assert_eq!(xml_escape(""), "");
    assert_eq!(xml_escape("&amp;"), "&amp;amp;");
}

#[test]
fn xml_escape_round_trip_example() {
    // the law xml_escape_round_trip, on a concrete value
    let s = "5 > 3 && \"q\" < 'r'";
    let e = xml_escape(s);
    let back = e
        .replace("&lt;", "<")
        .replace("&gt;", ">")
        .replace("&quot;", "\"")
        .replace("&apos;", "'")
        .replace("&amp;", "&");
    assert_eq!(back, s);
    assert!(!e.contains('<') && !e.contains('>') && !e.contains('"') && !e.contains('\''));
}

#[test]
fn cdata_escape_round_trip_example() {
    // the law cdata_escape_round_trip, on concrete values
    for s in ["]]>", "]]]>", "a]]>b]]>c", "]]", "]]><![CDATA[", "plain"] {
        let e = cdata_escape(s);
        assert_eq!(e.replace("]]><![CDATA[", ""), s);
    }
    assert_eq!(cdata_escape("]]]>"), "]]]]]><![CDATA[>");
}

#[test]
fn anchor_collapses_separators_and_drops_punctuation() {
    assert_eq!(heading_to_anchor("  Hello,  World -- Again! "), "-hello-world-again-");
    assert_eq!(heading_to_anchor("ÄBC déf"), "äbc-déf");
    assert_eq!(heading_to_anchor(""), "");
}

#[test]
fn strip_frontmatter_cases() {
    assert_eq!(strip_frontmatter("no frontmatter"), "no frontmatter");
    assert_eq!(strip_frontmatter("---\nunclosed"), "---\nunclosed");
    assert_eq!(strip_frontmatter("  \n---\na: b\n---\r\n\n\rbody"), "\n\n\rbody");
    assert_eq!(strip_frontmatter("---\na: b\n---\n\n\r\rbody"), "body");
    assert_eq!(strip_frontmatter("---\n---\n\n\nx"), "x");
}

#[test]
fn parse_news_date_rejects_other_text() {
    assert_eq!(parse_news_date("Preamble"), None);
    assert_eq!(parse_news_date("  Wed 24 September 2025  "), Some(ymd(2025, 9, 24)));
    // the week day must match the date
    assert_eq!(parse_news_date("Thu 11 Feb, 2026"), None);
}

#[test]
fn news_entries_skip_undated_and_empty_sections() {
    let content = "intro\n## Not a date\n\nbody\n## Wed 11 Feb, 2026\n\n## Sun 30 Nov, 2025\r\ntext\r\n";
    let items = parse_news_entries(content, "http://r");
    assert_eq!(items.len(), 1);
    assert_eq!(items[0].title, "Renderling News - Sun 30 Nov, 2025");
    assert_eq!(items[0].link, "http://r/news/index.html#sun-30-nov-2025");
    assert_eq!(items[0].date, ymd(2025, 11, 30));
    assert!(items[0].content_html.contains("text"));
}

#[test]
fn dates_check_the_calendar() {
    assert!(Date::from_ymd_opt(2024, 2, 29).is_some());
    assert!(Date::from_ymd_opt(2025, 2, 29).is_none());
    assert!(Date::from_ymd_opt(1900, 2, 29).is_none());
    assert!(Date::from_ymd_opt(2000, 2, 29).is_some());
    assert!(Date::from_ymd_opt(2025, 4, 31).is_none());
    assert!(Date::from_ymd_opt(2025, 13, 1).is_none());
    assert!(Date::from_ymd_opt(2025, 0, 1).is_none());
    assert!(Date::from_ymd_opt(262143, 1, 1).is_none());
    assert!(Date::from_ymd_opt(-262143, 1, 1).is_some());
    for (y, m, d) in [(2024, 2, 29), (2025, 2, 29), (-262144, 1, 1), (262142, 12, 31), (2025, 6, 31)] {
        assert_eq!(
            Date::from_ymd_opt(y, m, d).is_some(),
            chrono::NaiveDate::from_ymd_opt(y, m, d).is_some()
        );
    }
    assert!(ymd(2025, 1, 1).is_before(&ymd(2025, 1, 2)));
    assert!(!ymd(2025, 2, 1).is_before(&ymd(2025, 1, 2)));
}

fn item(title: &str, date: Date) -> FeedItem {
    FeedItem {
        title: title.to_string(),
        link: format!("https://x/{title}"),
        date,
        content_html: "<p>x</p>".to_string(),
    }
}

#[test]
fn latest_date_is_the_maximum() {
    let items = vec![item("a", ymd(2024, 5, 1)), item("b", ymd(2025, 1, 1)), item("c", ymd(2024, 12, 31))];
    assert_eq!(latest_date(&items), Some(ymd(2025, 1, 1)));
    assert_eq!(latest_date(&[]), None);
}

#[test]
fn rss_exact_document() {
    let items = vec![item("A & B", ymd(2025, 1, 1))];
    let rss = render_rss("https://e.com", &items, &ymd(2026, 2, 11));
    let expected = "<?xml version=\"1.0\" encoding=\"UTF-8\"?>\n\
<rss version=\"2.0\" xmlns:atom=\"http://www.w3.org/2005/Atom\">\n  <channel>\n    <title>Renderling</title>\n    <link>https://e.com</link>\n    <description>News and articles from renderling.xyz</description>\n    <language>en</language>\n    <lastBuildDate>Wed, 11 Feb 2026 12:00:00 +0000</lastBuildDate>\n    <atom:link href=\"https://e.com/feed.xml\" rel=\"self\" type=\"application/rss+xml\" />\n    <item>\n      <title>A &amp; B</title>\n      <link>https://x/A &amp; B</link>\n      <guid>https://x/A &amp; B</guid>\n      <pubDate>Wed, 01 Jan 2025 12:00:00 +0000</pubDate>\n      <description><![CDATA[<p>x</p>]]></description>\n    </item>\n  </channel>\n</rss>\n";
    assert_eq!(rss, expected);
    // the build date of generate_rss is the latest item date
    assert_eq!(generate_rss("https://e.com", &items), render_rss("https://e.com", &items, &ymd(2025, 1, 1)));
}

#[test]
fn atom_exact_document() {
    let items = vec![item("t", ymd(2025, 11, 30))];
    let atom = render_atom("u", &items, &ymd(2025, 11, 30));
    let expected = "<?xml version=\"1.0\" encoding=\"UTF-8\"?>\n<feed xmlns=\"http://www.w3.org/2005/Atom\">\n  <title>Renderling</title>\n  <link href=\"u\" rel=\"alternate\" />\n  <link href=\"u/atom.xml\" rel=\"self\" type=\"application/atom+xml\" />\n  <id>u</id>\n  <updated>2025-11-30T12:00:00Z</updated>\n  <author>\n    <name>Schell Scivally</name>\n  </author>\n  <subtitle>News and articles from renderling.xyz</subtitle>\n  <entry>\n    <title>t</title>\n    <link href=\"https://x/t\" />\n    <id>https://x/t</id>\n    <updated>2025-11-30T12:00:00Z</updated>\n    <content type=\"html\"><![CDATA[<p>x</p>]]></content>\n  </entry>\n</feed>\n";
    assert_eq!(atom, expected);
    assert_eq!(generate_atom("u", &items), atom);
}

#[test]
fn rss_dates_name_the_week_day() {
    // the week days that the date module's `weekday` states
    for (y, m, d, day) in [(1970, 1, 1, "Thu"), (2000, 2, 29, "Tue"), (1, 1, 1, "Mon"), (1600, 3, 1, "Wed"), (2025, 11, 30, "Sun")] {
        let rss = render_rss("r", &[], &ymd(y, m, d));
        assert!(rss.contains(&format!("<lastBuildDate>{day}, ")), "{y}-{m}-{d}");
    }
}

#[test]
fn empty_feeds_use_a_build_date() {
    let rss = generate_rss("r", &[]);
    assert!(rss.contains("<lastBuildDate>"));
    assert!(rss.ends_with("  </channel>\n</rss>\n"));
    let atom = generate_atom("r", &[]);
    assert!(atom.ends_with("</subtitle>\n</feed>\n"));
}

#[test]
fn article_files() {
    assert!(is_article_file("hello_world.md"));
    assert!(!is_article_file("index.md"));
    assert!(!is_article_file("adages.md"));
    assert!(!is_article_file("notes.txt"));
    assert!(!is_article_file(".md"));
    assert!(!is_article_file("md"));
    assert!(is_article_file(".hidden.md"));
    assert_eq!(stem_of("a.b.md"), "a.b");
    assert_eq!(stem_of(".md"), ".md");
    assert_eq!(stem_of(".."), "..");
    assert_eq!(stem_of("plain"), "plain");
}

fn meta(title: &str, date: Option<&str>, exclude: bool) -> Option<ContentMeta> {
    Some(ContentMeta { title: title.to_string(), date: date.map(|d| d.to_string()), exclude_from_rss: exclude })
}

#[test]
fn article_items() {
    let content = "---\ntitle: Hi\ndate: 2025-03-04\n---\n\n# Hello\n";
    let it = article_item("https://r", "my_post.md", content, &meta("Hi", Some("2025-03-04"), false)).unwrap();
    assert_eq!(it.title, "Hi");
    assert_eq!(it.link, "https://r/articles/my_post.html");
    assert_eq!(it.date, ymd(2025, 3, 4));
    assert!(it.content_html.contains("<h1>Hello</h1>"));
    assert!(!it.content_html.contains("title: Hi"));
    assert!(article_item("https://r", "my_post.md", content, &meta("Hi", Some("2025-03-04"), true)).is_none());
    assert!(article_item("https://r", "my_post.md", content, &meta("Hi", None, false)).is_none());
    assert!(article_item("https://r", "my_post.md", content, &meta("Hi", Some("March 4"), false)).is_none());
    assert!(article_item("https://r", "my_post.md", content, &None).is_none());
    assert_eq!(title_of_article("my_first_post.md.md", &None), "my first post");
    assert_eq!(title_of_article("x.md", &meta("T", None, false)), "T");
}

#[test]
fn newest_first_is_a_stable_sort() {
    let items = vec![
        item("a", ymd(2025, 1, 1)),
        item("b", ymd(2025, 3, 1)),
        item("c", ymd(2025, 1, 1)),
        item("d", ymd(2026, 1, 1)),
    ];
    let titles: Vec<String> = newest_first(items).into_iter().map(|i| i.title).collect();
    assert_eq!(titles, vec!["d", "b", "a", "c"]);
    assert!(newest_first(vec![]).is_empty());
}

#[test]
fn newest_first_leads_with_the_build_date() {
    let items = vec![
        item("a", ymd(2024, 5, 1)),
        item("b", ymd(2025, 1, 1)),
        item("c", ymd(2024, 12, 31)),
    ];
    let latest = latest_date(&items);
    let sorted = newest_first(items);
    assert_eq!(latest, Some(sorted[0].date));
}
