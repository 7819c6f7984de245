use rxyz::html::{render_html, Node};
use rxyz::md::InterpolatedMarkdown;
use rxyz::site::prefix_doctype;
use rxyz::{Site, SiteError};

const CSS: &str = "body { background: url(#URL_ROOT#/img/bg.png); }\na { color: red; }";

fn site(root: &str) -> Site {
    match Site::new(root, CSS.to_string()) {
        Ok(s) => s,
        Err(_) => panic!("not a uri: {root}"),
    }
}

#[test]
fn site_rejects_a_root_that_is_no_uri() {
    assert!(matches!(Site::new("http://exa mple.com", String::new()), Err(SiteError::InvalidUri { .. })));
    assert!(Site::new("", String::new()).is_err());
}

#[test]
fn css_puts_in_the_root_without_trailing_slash() {
    let s = site("https://renderling.xyz");
    assert_eq!(
        s.css(),
        "body { background: url(https://renderling.xyz/img/bg.png); }\na { color: red; }"
    );
    let s = site("http://127.0.0.1:4000/site/");
    assert!(s.css().starts_with("body { background: url(http://127.0.0.1:4000/site/img/bg.png)"));
}

#[test]
fn site_paths_under_a_root_with_empty_path() {
    let s = site("https://renderling.xyz");
    assert_eq!(s.site_path("/").ok(), Some("https://renderling.xyz/".to_string()));
    assert_eq!(
        s.site_path("articles/index.html").ok(),
        Some("https://renderling.xyz/articles/index.html".to_string())
    );
    assert_eq!(
        s.site_path("/img/logo.png/").ok(),
        Some("https://renderling.xyz/img/logo.png".to_string())
    );
}

#[test]
fn site_paths_under_a_root_with_a_path() {
    let s = site("http://127.0.0.1:4000/site");
    assert_eq!(s.site_path("a").ok(), Some("http://127.0.0.1:4000/site/a".to_string()));
    let s = site("http://127.0.0.1:4000/site/");
    assert_eq!(s.site_path("//a//").ok(), Some("http://127.0.0.1:4000/site/a".to_string()));
    let s = site("/docs");
    assert_eq!(s.site_path("x").ok(), Some("/docs/x".to_string()));
}

#[test]
fn site_path_that_is_no_uri() {
    let s = site("https://renderling.xyz");
    assert!(matches!(s.site_path("a b"), Err(SiteError::Http { .. })));
}

fn nav_html() -> String {
    [
        "<nav><h1><a href=\"https://renderling.xyz/\" class=\"logo-link\">",
        "<img src=\"https://renderling.xyz/img/logo.png\">renderling</img></a></h1>",
        "<div class=\"nav-middle\"></div><div class=\"nav-right\"><div class=\"nav-top\"></div>",
        "<ul class=\"nav-links\">",
        "<li><a href=\"https://renderling.xyz/articles/index.html\">articles</a></li>",
        "<li><a href=\"https://renderling.xyz/devlog/index.html\">devlog</a></li>",
        "<li><a href=\"https://github.com/schell/renderling\">github</a></li>",
        "<li><iframe src=\"https://github.com/sponsors/schell/button\" title=\"Sponsor schell\" ",
        "height=\"32\" width=\"114\" style=\"border: 0; border-radius: 6px;\"></iframe></li>",
        "</ul></div></nav>",
    ]
    .concat()
}

#[test]
fn navigation_bar() {
    let s = site("https://renderling.xyz");
    let nav = s.nav().ok().expect("links are uris");
    assert_eq!(render_html(&nav), nav_html());
}

fn page_html(title: &str, main_class: &str, content: &str) -> String {
    [
        "<!doctype html><html lang=\"en\"><head><meta charset=\"UTF-8\" />",
        "<link rel=\"icon\" href=\"https://renderling.xyz/favicon.ico\" />",
        "<title>",
        title,
        "</title><style>",
        "body { background: url(https://renderling.xyz/img/bg.png); }\na { color: red; }",
        "</style></head><body>",
        &nav_html(),
        "<main class=\"",
        main_class,
        "\">",
        content,
        "</main><footer><p>",
        "This project is authored and maintained by Schell Scivally. ",
        "Please consider supporting this project by sponsoring it on GitHub \u{1f64f}</p>",
        "<iframe src=\"https://github.com/sponsors/schell/card\" ",
        "title=\"Sponsor schell, author of Renderling\" height=\"225\" width=\"600\" ",
        "style=\"border: 0;\"></iframe></footer></body></html>",
    ]
    .concat()
}

#[test]
fn markdown_page_with_and_without_title() {
    let s = site("https://renderling.xyz");
    let p = rxyz::html::plain("p", vec![Node::Text("Hi".to_string())]);
    let imd = InterpolatedMarkdown::new(vec![p]);
    let html = s.render_markdown_page(imd, "article").ok().expect("renders");
    assert_eq!(html, page_html("Untitled", "article", "<p>Hi</p>"));

    let mut imd = InterpolatedMarkdown::new(vec![Node::Text("plain".to_string())]);
    imd.title = Some("News".to_string());
    let html = s.render_markdown_page(imd, "").ok().expect("renders");
    assert_eq!(html, page_html("News", "", "plain"));
}

#[test]
fn page_and_render_page() {
    let s = site("https://renderling.xyz");
    let page = s.page("T", vec![], "c").ok().expect("renders");
    assert_eq!(s.render_page(&page), page_html("T", "c", ""));
}

#[test]
fn doctype_prefix() {
    assert_eq!(prefix_doctype("<p></p>".to_string()), "<!doctype html><p></p>");
    assert_eq!(prefix_doctype(String::new()), "<!doctype html>");
}
