//! The site: absolute links under the site's root URL, the stylesheet, and the page template
//! that rendered content is put into.
use vstd::prelude::*;
use crate::html::{
    attrs1, attrs2, element, element_view, html_views, nodes1, nodes2, nodes3, nodes4,
    pairs_view, plain, push_attr, render_html, rendered, text, HtmlView, Node,
};
use crate::md::{opt_view, InterpolatedMarkdown};
use crate::text::{
    chars_of, lemma_trim_char_wrapped, push_str, replace_all, replace_chars, trim_char, trim_end_char,
    trim_end_matches_char, trim_matches_char,
};

verus! {

// ---------------------------------------------------------------------------------------------
// Errors
// ---------------------------------------------------------------------------------------------

#[verifier::external_type_specification]
#[verifier::external_body]
pub struct ExMarkdownMessage(markdown::message::Message);

#[verifier::external_type_specification]
#[verifier::external_body]
pub struct ExHtmlParserError(html_parser::Error);

#[verifier::external_type_specification]
#[verifier::external_body]
pub struct ExYamlError(serde_yaml::Error);

#[verifier::external_type_specification]
#[verifier::external_body]
pub struct ExInvalidUri(http::uri::InvalidUri);

#[verifier::external_type_specification]
#[verifier::external_body]
pub struct ExHttpError(http::Error);

/// What can go wrong while rendering the site.
pub enum SiteError {
    /// The markdown parser refused the content.
    Md { message: markdown::message::Message },
    /// The HTML parser refused raw HTML in the content.
    Html { source: html_parser::Error },
    /// The frontmatter is not the YAML of a `ContentMeta`.
    Yaml { source: serde_yaml::Error },
    /// The site's root URL is not a URI.
    InvalidUri { source: http::uri::InvalidUri },
    /// A link under the site's root is not a URI.
    Http { source: http::Error },
    /// The content cannot be rendered.
    Render,
}

// ---------------------------------------------------------------------------------------------
// URIs
// ---------------------------------------------------------------------------------------------

/// A URI as plain values: how it prints, its scheme, its authority and its path.
pub struct UriParts {
    pub text: String,
    pub scheme: Option<String>,
    pub authority: Option<String>,
    pub path: String,
}

/// A URI's text, scheme, authority and path.
pub type UriView = (Seq<char>, Option<Seq<char>>, Option<Seq<char>>, Seq<char>);

impl View for UriParts {
    type V = UriView;

    open spec fn view(&self) -> UriView {
        (self.text@, opt_view(self.scheme), opt_view(self.authority), self.path@)
    }
}

/// How the `http` crate reads `text` as a URI: how the URI prints, its scheme, its authority
/// and its path; `None` where `text` is no URI.
pub uninterp spec fn http_uri(text: Seq<char>) -> Option<UriView>;

/// `http::Uri::try_from(text)`, read back through `Display`, `scheme_str`, `authority` and
/// `path`. The result is named `http_uri`; `Err` exactly where the name is `None`.
#[verifier::external_body]
fn parse_uri(text: &str) -> (r: Result<UriParts, http::uri::InvalidUri>)
    ensures
        r matches Ok(p) ==> http_uri(text@) == Some(p@),
        r is Err ==> http_uri(text@) is None,
{
    let u = http::Uri::try_from(text)?;
    Ok(UriParts {
        text: format!("{}", u),
        scheme: u.scheme_str().map(String::from),
        authority: u.authority().map(http::uri::Authority::as_str).map(String::from),
        path: u.path().to_string(),
    })
}

/// An optional string slice as an optional sequence.
pub open spec fn opt_str(o: Option<&str>) -> Option<Seq<char>> {
    match o {
        Some(s) => Some(s@),
        None => None,
    }
}

/// How the `http` crate prints the URI that its `uri::Builder` builds from this scheme (if
/// any), this authority (if any) and this path and query; `None` where it builds none.
pub uninterp spec fn http_built_uri(
    scheme: Option<Seq<char>>,
    authority: Option<Seq<char>>,
    path_and_query: Seq<char>,
) -> Option<Seq<char>>;

/// `http::uri::Builder::new()`, `scheme`, `authority`, `path_and_query` and `build`, printed
/// through `Display`. The result is named `http_built_uri`; `Err` exactly where the name is
/// `None`.
#[verifier::external_body]
fn build_uri_with_authority(scheme: &str, authority: &str, path_and_query: &str) -> (r: Result<
    String,
    http::Error,
>)
    ensures
        r matches Ok(s) ==> http_built_uri(Some(scheme@), Some(authority@), path_and_query@)
            == Some(s@),
        r is Err ==> http_built_uri(Some(scheme@), Some(authority@), path_and_query@) is None,
{
    let b = http::uri::Builder::new().scheme(scheme).authority(authority);
    b.path_and_query(path_and_query).build().map(|u| format!("{}", u))
}

/// `http::uri::Builder::new()`, `scheme`, `path_and_query` and `build` (no authority),
/// printed through `Display`. The result is named `http_built_uri`; `Err` exactly where the
/// name is `None`.
#[verifier::external_body]
fn build_uri_with_scheme(scheme: &str, path_and_query: &str) -> (r: Result<String, http::Error>)
    ensures
        r matches Ok(s) ==> http_built_uri(Some(scheme@), None, path_and_query@) == Some(s@),
        r is Err ==> http_built_uri(Some(scheme@), None, path_and_query@) is None,
{
    let b = http::uri::Builder::new().scheme(scheme);
    b.path_and_query(path_and_query).build().map(|u| format!("{}", u))
}

/// `http::uri::Builder::new()`, `authority`, `path_and_query` and `build` (no scheme),
/// printed through `Display`. The result is named `http_built_uri`; `Err` exactly where the
/// name is `None`.
#[verifier::external_body]
fn build_uri_with_host(authority: &str, path_and_query: &str) -> (r: Result<String, http::Error>)
    ensures
        r matches Ok(s) ==> http_built_uri(None, Some(authority@), path_and_query@) == Some(s@),
        r is Err ==> http_built_uri(None, Some(authority@), path_and_query@) is None,
{
    let b = http::uri::Builder::new().authority(authority);
    b.path_and_query(path_and_query).build().map(|u| format!("{}", u))
}

/// `http::uri::Builder::new()`, `path_and_query` and `build` (no scheme, no authority),
/// printed through `Display`. The result is named `http_built_uri`; `Err` exactly where the
/// name is `None`.
#[verifier::external_body]
fn build_uri_path_only(path_and_query: &str) -> (r: Result<String, http::Error>)
    ensures
        r matches Ok(s) ==> http_built_uri(None, None, path_and_query@) == Some(s@),
        r is Err ==> http_built_uri(None, None, path_and_query@) is None,
{
    http::uri::Builder::new().path_and_query(path_and_query).build().map(|u| format!("{}", u))
}

/// The builder of the root URI (its scheme and authority, where it has them) with the path
/// and query `path_and_query`, built and printed.
fn build_uri(scheme: Option<&str>, authority: Option<&str>, path_and_query: &str) -> (r: Result<
    String,
    http::Error,
>)
    ensures
        r matches Ok(s) ==> http_built_uri(opt_str(scheme), opt_str(authority), path_and_query@)
            == Some(s@),
        r is Err ==> http_built_uri(opt_str(scheme), opt_str(authority), path_and_query@) is None,
{
    match (scheme, authority) {
        (Some(s), Some(a)) => build_uri_with_authority(s, a, path_and_query),
        (Some(s), None) => build_uri_with_scheme(s, path_and_query),
        (None, Some(a)) => build_uri_with_host(a, path_and_query),
        (None, None) => build_uri_path_only(path_and_query),
    }
}

/// `None` as `None`, and a string as its slice.
fn as_opt_str(o: &Option<String>) -> (r: Option<&str>)
    ensures
        opt_str(r) == opt_view(*o),
{
    match o {
        Some(s) => Some(s.as_str()),
        None => None,
    }
}

/// What joins the root's path to a link: nothing where the path ends with `/`, else `/`.
pub open spec fn path_separator(root_path: Seq<char>) -> Seq<char> {
    if root_path.len() > 0 && root_path.last() == '/' {
        Seq::empty()
    } else {
        seq!['/']
    }
}

/// The absolute link of `path` under the root: the root's scheme and authority, and as path
/// the root's path, the separator and `path` without its slashes at either end.
pub open spec fn site_path_of(root: UriView, path: Seq<char>) -> Option<Seq<char>> {
    http_built_uri(root.1, root.2, root.3 + path_separator(root.3) + trim_char(path, '/'))
}

// ---------------------------------------------------------------------------------------------
// The site
// ---------------------------------------------------------------------------------------------

/// The marker in the stylesheet that stands for the site's root URL.
pub open spec fn root_marker() -> Seq<char> {
    seq!['#', 'U', 'R', 'L', '_', 'R', 'O', 'O', 'T', '#']
}

/// The stylesheet with each root marker replaced by the root's text without its trailing
/// slashes.
pub open spec fn css_of(stylesheet: Seq<char>, root: UriView) -> Seq<char> {
    replace_all(stylesheet, root_marker(), trim_end_char(root.0, '/'))
}

/// The renderer of the site's pages, for one root URL and one stylesheet.
pub struct Site {
    url_root: UriParts,
    stylesheet: String,
}

impl Site {
    /// The root URL, as `http` reads it.
    pub closed spec fn root(&self) -> UriView {
        self.url_root@
    }

    /// The stylesheet, with its root markers.
    pub closed spec fn style_source(&self) -> Seq<char> {
        self.stylesheet@
    }

    /// Create a new site object that will do the rendering, for the root URL `url_root` and
    /// the stylesheet `stylesheet`.
    pub fn new(url_root: &str, stylesheet: String) -> (r: Result<Site, SiteError>)
        ensures
            r is Ok <==> http_uri(url_root@) is Some,
            r matches Ok(s) ==> Some(s.root()) == http_uri(url_root@) && s.style_source()
                == stylesheet@,
            r matches Err(e) ==> e is InvalidUri,
    {
        match parse_uri(url_root) {
            Ok(p) => Ok(Site { url_root: p, stylesheet }),
            Err(e) => Err(SiteError::InvalidUri { source: e }),
        }
    }

    /// The stylesheet, with the root URL in place of each root marker.
    pub fn css(&self) -> (r: String)
        ensures
            r@ == css_of(self.style_source(), self.root()),
    {
        let root = trim_end_matches_char(self.url_root.text.as_str(), '/');
        let sheet = chars_of(self.stylesheet.as_str());
        let marker = chars_of("#URL_ROOT#");
        proof {
            reveal_strlit("#URL_ROOT#");
        }
        assert(marker@ == root_marker());
        replace_chars(&sheet, &marker, root.as_str())
    }

    /// Convert a link relative to the site root to an absolute link.
    pub fn site_path(&self, path: &str) -> (r: Result<String, SiteError>)
        ensures
            r is Ok <==> site_path_of(self.root(), path@) is Some,
            r matches Ok(s) ==> site_path_of(self.root(), path@) == Some(s@),
            r matches Err(e) ==> e is Http,
    {
        let ghost rp = self.url_root.path@;
        let root_path = chars_of(self.url_root.path.as_str());
        let mut full = String::new();
        push_str(&mut full, self.url_root.path.as_str());
        assert(full@ == Seq::<char>::empty() + rp);
        assert(Seq::<char>::empty() + rp =~= rp);
        if !(root_path.len() > 0 && root_path[root_path.len() - 1] == '/') {
            push_str(&mut full, "/");
            proof {
                reveal_strlit("/");
            }
            assert(full@ == rp + path_separator(rp));
        } else {
            assert(rp + path_separator(rp) =~= rp);
        }
        let trimmed = trim_matches_char(path, '/');
        push_str(&mut full, trimmed.as_str());
        assert(full@ == rp + path_separator(rp) + trim_char(path@, '/'));
        let scheme = as_opt_str(&self.url_root.scheme);
        let authority = as_opt_str(&self.url_root.authority);
        match build_uri(scheme, authority, full.as_str()) {
            Ok(s) => Ok(s),
            Err(e) => Err(SiteError::Http { source: e }),
        }
    }
}

// ---------------------------------------------------------------------------------------------
// Page templates
// ---------------------------------------------------------------------------------------------

/// A link with this target and this label.
pub open spec fn link_view(href: Seq<char>, label: Seq<char>) -> HtmlView {
    element_view("a"@, seq![("href"@, href)], seq![HtmlView::Text(label)])
}

/// An embedded frame with no content.
pub open spec fn iframe_view(
    src: Seq<char>,
    title: Seq<char>,
    height: Seq<char>,
    width: Seq<char>,
    style: Seq<char>,
) -> HtmlView {
    element_view(
        "iframe"@,
        seq![("src"@, src), ("title"@, title), ("height"@, height), ("width"@, width), ("style"@, style)],
        seq![],
    )
}

/// The GitHub sponsor button in the navigation bar.
pub open spec fn sponsor_button_view() -> HtmlView {
    iframe_view(
        "https://github.com/sponsors/schell/button"@,
        "Sponsor schell"@,
        "32"@,
        "114"@,
        "border: 0; border-radius: 6px;"@,
    )
}

/// The GitHub sponsor card in the footer.
pub open spec fn sponsor_card_view() -> HtmlView {
    iframe_view(
        "https://github.com/sponsors/schell/card"@,
        "Sponsor schell, author of Renderling"@,
        "225"@,
        "600"@,
        "border: 0;"@,
    )
}

/// The navigation bar, with these links to the home page, the logo, the articles and the
/// devlog.
pub open spec fn nav_view(
    home: Seq<char>,
    logo: Seq<char>,
    articles: Seq<char>,
    devlog: Seq<char>,
) -> HtmlView {
    element_view(
        "nav"@,
        seq![],
        seq![
            element_view(
                "h1"@,
                seq![],
                seq![
                    element_view(
                        "a"@,
                        seq![("href"@, home), ("class"@, "logo-link"@)],
                        seq![
                            element_view(
                                "img"@,
                                seq![("src"@, logo)],
                                seq![HtmlView::Text("renderling"@)],
                            ),
                        ],
                    ),
                ],
            ),
            element_view("div"@, seq![("class"@, "nav-middle"@)], seq![]),
            element_view(
                "div"@,
                seq![("class"@, "nav-right"@)],
                seq![
                    element_view("div"@, seq![("class"@, "nav-top"@)], seq![]),
                    element_view(
                        "ul"@,
                        seq![("class"@, "nav-links"@)],
                        seq![
                            element_view("li"@, seq![], seq![link_view(articles, "articles"@)]),
                            element_view("li"@, seq![], seq![link_view(devlog, "devlog"@)]),
                            element_view(
                                "li"@,
                                seq![],
                                seq![link_view("https://github.com/schell/renderling"@, "github"@)],
                            ),
                            element_view("li"@, seq![], seq![sponsor_button_view()]),
                        ],
                    ),
                ],
            ),
        ],
    )
}

/// The absolute links of the navigation bar under the root: home, logo, articles and devlog;
/// `None` where one of them is no URI.
pub open spec fn nav_links_of(root: UriView) -> Option<(Seq<char>, Seq<char>, Seq<char>, Seq<char>)> {
    match (
        site_path_of(root, "/"@),
        site_path_of(root, "/img/logo.png"@),
        site_path_of(root, "articles/index.html"@),
        site_path_of(root, "devlog/index.html"@),
    ) {
        (Some(h), Some(l), Some(a), Some(d)) => Some((h, l, a, d)),
        _ => None,
    }
}

/// The whole page: its head with the icon link, the title and the stylesheet, and its body
/// with the navigation bar, the content in a `main` of the given classes, and the footer.
pub open spec fn page_view(
    title: Seq<char>,
    css: Seq<char>,
    content: Seq<HtmlView>,
    main_classes: Seq<char>,
    icon: Seq<char>,
    nav: HtmlView,
) -> HtmlView {
    element_view(
        "html"@,
        seq![("lang"@, "en"@)],
        seq![
            element_view(
                "head"@,
                seq![],
                seq![
                    element_view("meta"@, seq![("charset"@, "UTF-8"@)], seq![]),
                    element_view("link"@, seq![("rel"@, "icon"@), ("href"@, icon)], seq![]),
                    element_view("title"@, seq![], seq![HtmlView::Text(title)]),
                    element_view("style"@, seq![], seq![HtmlView::Text(css)]),
                ],
            ),
            element_view(
                "body"@,
                seq![],
                seq![
                    nav,
                    element_view("main"@, seq![("class"@, main_classes)], content),
                    element_view(
                        "footer"@,
                        seq![],
                        seq![
                            element_view(
                                "p"@,
                                seq![],
                                seq![
                                    HtmlView::Text(
                                        "This project is authored and maintained by Schell Scivally."@,
                                    ),
                                    HtmlView::Text(" "@),
                                    HtmlView::Text(
                                        "Please consider supporting this project by sponsoring it on GitHub \u{1f64f}"@,
                                    ),
                                ],
                            ),
                            sponsor_card_view(),
                        ],
                    ),
                ],
            ),
        ],
    )
}

/// The page of the site with this title, content and main classes; `None` where one of its
/// links under the root is no URI.
pub open spec fn page_of(
    root: UriView,
    stylesheet: Seq<char>,
    title: Seq<char>,
    content: Seq<HtmlView>,
    main_classes: Seq<char>,
) -> Option<HtmlView> {
    match (site_path_of(root, "favicon.ico"@), nav_links_of(root)) {
        (Some(icon), Some(l)) => Some(
            page_view(
                title,
                css_of(stylesheet, root),
                content,
                main_classes,
                icon,
                nav_view(l.0, l.1, l.2, l.3),
            ),
        ),
        _ => None,
    }
}

/// A link with this target and this label.
fn link(href: &str, label: &str) -> (r: Node)
    ensures
        r@ == link_view(href@, label@),
{
    element("a", attrs1("href", href), nodes1(text(label)))
}

/// An embedded frame with no content.
fn iframe(src: &str, title: &str, height: &str, width: &str, style: &str) -> (r: Node)
    ensures
        r@ == iframe_view(src@, title@, height@, width@, style@),
{
    let mut attributes = attrs2("src", src, "title", title);
    push_attr(&mut attributes, "height", height);
    push_attr(&mut attributes, "width", width);
    push_attr(&mut attributes, "style", style);
    assert(pairs_view(attributes@) =~= seq![
        ("src"@, src@),
        ("title"@, title@),
        ("height"@, height@),
        ("width"@, width@),
        ("style"@, style@),
    ]);
    element("iframe", attributes, Vec::new())
}

/// The HTML text with the doctype in front.
pub fn prefix_doctype(html: String) -> (r: String)
    ensures
        r@ == "<!doctype html>"@ + html@,
{
    let mut r = String::new();
    push_str(&mut r, "<!doctype html>");
    push_str(&mut r, html.as_str());
    assert(Seq::<char>::empty() + "<!doctype html>"@ =~= "<!doctype html>"@);
    r
}

impl Site {
    /// The navigation bar.
    pub fn nav(&self) -> (r: Result<Node, SiteError>)
        ensures
            r is Ok <==> nav_links_of(self.root()) is Some,
            r matches Ok(n) ==> nav_links_of(self.root()) matches Some(l) && n@ == nav_view(
                l.0,
                l.1,
                l.2,
                l.3,
            ),
            r matches Err(e) ==> e is Http,
    {
        let home = self.site_path("/")?;
        let logo = self.site_path("/img/logo.png")?;
        let articles = self.site_path("articles/index.html")?;
        let devlog = self.site_path("devlog/index.html")?;
        let img = element("img", attrs1("src", logo.as_str()), nodes1(text("renderling")));
        let logo_link = element(
            "a",
            attrs2("href", home.as_str(), "class", "logo-link"),
            nodes1(img),
        );
        let h1 = plain("h1", nodes1(logo_link));
        let middle = element("div", attrs1("class", "nav-middle"), Vec::new());
        let sponsor = iframe(
            "https://github.com/sponsors/schell/button",
            "Sponsor schell",
            "32",
            "114",
            "border: 0; border-radius: 6px;",
        );
        let links = nodes4(
            plain("li", nodes1(link(articles.as_str(), "articles"))),
            plain("li", nodes1(link(devlog.as_str(), "devlog"))),
            plain("li", nodes1(link("https://github.com/schell/renderling", "github"))),
            plain("li", nodes1(sponsor)),
        );
        let ul = element("ul", attrs1("class", "nav-links"), links);
        let top = element("div", attrs1("class", "nav-top"), Vec::new());
        let right = element("div", attrs1("class", "nav-right"), nodes2(top, ul));
        Ok(plain("nav", nodes3(h1, middle, right)))
    }

    /// The page with this title, this content and these classes on its `main`.
    pub fn page(&self, title: &str, content: Vec<Node>, main_classes: &str) -> (r: Result<
        Node,
        SiteError,
    >)
        ensures
            r is Ok <==> page_of(
                self.root(),
                self.style_source(),
                title@,
                html_views(content@),
                main_classes@,
            ) is Some,
            r matches Ok(n) ==> page_of(
                self.root(),
                self.style_source(),
                title@,
                html_views(content@),
                main_classes@,
            ) == Some(n@),
            r matches Err(e) ==> e is Http,
    {
        let icon = self.site_path("favicon.ico")?;
        let head = plain(
            "head",
            nodes4(
                element("meta", attrs1("charset", "UTF-8"), Vec::new()),
                element("link", attrs2("rel", "icon", "href", icon.as_str()), Vec::new()),
                plain("title", nodes1(text(title))),
                plain("style", nodes1(text(self.css().as_str()))),
            ),
        );
        let nav = self.nav()?;
        let main = element("main", attrs1("class", main_classes), content);
        let words = nodes3(
            text("This project is authored and maintained by Schell Scivally."),
            text(" "),
            text("Please consider supporting this project by sponsoring it on GitHub \u{1f64f}"),
        );
        let card = iframe(
            "https://github.com/sponsors/schell/card",
            "Sponsor schell, author of Renderling",
            "225",
            "600",
            "border: 0;",
        );
        let footer = plain("footer", nodes2(plain("p", words), card));
        let body = plain("body", nodes3(nav, main, footer));
        Ok(element("html", attrs1("lang", "en"), nodes2(head, body)))
    }

    /// The HTML text of a page, after the doctype.
    pub fn render_page(&self, page: &Node) -> (r: String)
        ensures
            r@ == "<!doctype html>"@ + rendered(page@),
    {
        prefix_doctype(render_html(page))
    }

    /// The whole HTML text of the page of an interpolated markdown document: its title (or
    /// "Untitled") and its view, in a `main` with the classes `extra_classes`.
    pub fn render_markdown_page(&self, imd: InterpolatedMarkdown, extra_classes: &str) -> (r:
        Result<String, SiteError>)
        ensures
            r is Ok <==> page_of(
                self.root(),
                self.style_source(),
                title_or_untitled(opt_view(imd.title)),
                html_views(imd.view@),
                extra_classes@,
            ) is Some,
            r matches Ok(s) ==> page_of(
                self.root(),
                self.style_source(),
                title_or_untitled(opt_view(imd.title)),
                html_views(imd.view@),
                extra_classes@,
            ) matches Some(p) && s@ == "<!doctype html>"@ + rendered(p),
            r matches Err(e) ==> e is Http,
    {
        let title = match imd.title {
            Some(t) => t,
            None => "Untitled".to_string(),
        };
        let page = self.page(title.as_str(), imd.view, extra_classes)?;
        Ok(self.render_page(&page))
    }
}

/// The title of a document, or "Untitled" where it has none.
pub open spec fn title_or_untitled(title: Option<Seq<char>>) -> Seq<char> {
    match title {
        Some(t) => t,
        None => "Untitled"@,
    }
}

} // verus!

verus! {

/// A link under the site's root does not depend on a slash added at either end of the
/// relative path.
pub proof fn site_path_ignores_outer_slashes(root: UriView, path: Seq<char>)
    ensures
        site_path_of(root, seq!['/'] + path + seq!['/']) == site_path_of(root, path),
{
    lemma_trim_char_wrapped(path, '/');
}

} // verus!
