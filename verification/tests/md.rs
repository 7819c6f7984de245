use rxyz::html::{render_html, Node};
use rxyz::md::{
    as_link_text, get_frontmatter, interpolate_markdown, make_html_view, parse_html_fragment,
    AstRenderer, ContentMeta,
    Definition, InterpolatedMarkdown, MdKind, MdNode, RawHtml,
};

fn node(kind: MdKind, children: Vec<MdNode>) -> MdNode {
    MdNode { kind, children }
}

fn txt(s: &str) -> MdNode {
    node(MdKind::Text { value: s.to_string() }, vec![])
}

fn render_all(nodes: &[Node]) -> String {
    nodes.iter().map(render_html).collect::<Vec<_>>().concat()
}

fn render_doc(root: MdNode) -> String {
    let mut r = AstRenderer::new(vec![]);
    let view = r.try_make_md_view(&root).expect("renderable");
    render_all(&view)
}

fn root(children: Vec<MdNode>) -> MdNode {
    node(MdKind::Root, children)
}

fn para(children: Vec<MdNode>) -> MdNode {
    node(MdKind::Paragraph, children)
}

#[test]
fn paragraph_with_emphasis_and_strong() {
    let doc = root(vec![para(vec![
        txt("Hello "),
        node(MdKind::Emphasis, vec![txt("big")]),
        txt(" "),
        node(MdKind::Strong, vec![txt("world")]),
    ])]);
    assert_eq!(render_doc(doc), "<p>Hello <em>big</em> <strong>world</strong></p>");
}

#[test]
fn headings_get_anchors_up_to_level_three() {
    let doc = root(vec![
        node(MdKind::Heading { depth: 2 }, vec![txt("Hello, World!")]),
        node(MdKind::Heading { depth: 4 }, vec![txt("Small")]),
    ]);
    assert_eq!(
        render_doc(doc),
        "<h2 id=\"hello-world\">Hello, World!<a class=\"heading-link\" href=\"#hello-world\">\u{1f517}</a></h2><h4>Small</h4>"
    );
}

#[test]
fn heading_id_is_the_news_anchor() {
    let heading = "Wed 11 Feb, 2026";
    let doc = root(vec![node(MdKind::Heading { depth: 2 }, vec![txt(heading)])]);
    let html = render_doc(doc);
    let anchor = rxyz::feed::heading_to_anchor(heading);
    assert!(html.starts_with(&format!("<h2 id=\"{anchor}\">")));
}

#[test]
fn links_images_and_inline_nodes() {
    let doc = root(vec![para(vec![
        node(MdKind::Link { url: "https://x.y".to_string(), title: None }, vec![txt("x")]),
        node(
            MdKind::Image { alt: "logo".to_string(), url: "/l.png".to_string(), title: None },
            vec![],
        ),
        node(MdKind::InlineCode { value: "a < b".to_string() }, vec![]),
        node(MdKind::Break, vec![]),
        node(MdKind::Delete, vec![txt("old")]),
    ])]);
    assert_eq!(
        render_doc(doc),
        "<p><a href=\"https://x.y\" title=\"\">x</a><img alt=\"logo\" src=\"/l.png\" title=\"\" /><code>a < b</code><br /><del>old</del></p>"
    );
}

#[test]
fn blockquote_and_thematic_break() {
    let doc = root(vec![
        node(MdKind::Blockquote, vec![para(vec![txt("q")])]),
        node(MdKind::ThematicBreak, vec![]),
    ]);
    assert_eq!(render_doc(doc), "<blockquote><p>q</p></blockquote><br />");
}

fn link_ref(id: &str, label: &str) -> MdNode {
    node(MdKind::LinkReference { identifier: id.to_string() }, vec![txt(label)])
}

fn def(id: &str, url: &str, title: Option<&str>) -> MdNode {
    node(
        MdKind::Definition {
            identifier: id.to_string(),
            url: url.to_string(),
            title: title.map(str::to_string),
        },
        vec![],
    )
}

#[test]
fn link_reference_before_its_definition() {
    let doc = root(vec![para(vec![link_ref("r", "ref")]), def("r", "https://r.s", Some("T"))]);
    assert_eq!(render_doc(doc), "<p><a href=\"https://r.s\" title=\"T\">ref</a></p>");
}

#[test]
fn link_reference_without_definition() {
    let doc = root(vec![para(vec![link_ref("nowhere", "lost")])]);
    assert_eq!(render_doc(doc), "<p><a href=\"\" title=\"\">lost</a></p>");
}

#[test]
fn link_reference_takes_the_definition_in_force() {
    let doc = root(vec![
        def("r", "https://one", None),
        para(vec![link_ref("r", "a")]),
        def("r", "https://two", None),
        para(vec![link_ref("r", "b")]),
    ]);
    assert_eq!(
        render_doc(doc),
        "<p><a href=\"https://one\" title=\"\">a</a></p><p><a href=\"https://two\" title=\"\">b</a></p>"
    );
}

#[test]
fn waiting_reference_gets_the_first_later_definition() {
    let doc = root(vec![
        para(vec![link_ref("r", "a")]),
        def("r", "https://one", None),
        def("r", "https://two", None),
    ]);
    assert_eq!(render_doc(doc), "<p><a href=\"https://one\" title=\"\">a</a></p>");
}

#[test]
fn tables_have_a_head_row() {
    let cell = |s: &str| node(MdKind::TableCell, vec![txt(s)]);
    let doc = root(vec![node(
        MdKind::Table,
        vec![
            node(MdKind::TableRow, vec![cell("a"), cell("b")]),
            node(MdKind::TableRow, vec![cell("1"), cell("2")]),
        ],
    )]);
    assert_eq!(
        render_doc(doc),
        "<table><thead><th>a</th><th>b</th></thead><tbody><tr><td>1</td><td>2</td></tr></tbody></table>"
    );
}

#[test]
fn lists_and_task_items() {
    let doc = root(vec![
        node(
            MdKind::List { ordered: true, start: Some(3) },
            vec![
                node(MdKind::ListItem { checked: None }, vec![para(vec![txt("one")])]),
                node(MdKind::ListItem { checked: Some(true) }, vec![txt("done")]),
            ],
        ),
        node(
            MdKind::List { ordered: false, start: None },
            vec![node(MdKind::ListItem { checked: Some(false) }, vec![txt("todo")])],
        ),
        node(MdKind::List { ordered: true, start: None }, vec![]),
    ]);
    assert_eq!(
        render_doc(doc),
        "<ol start=\"3\"><li class=\"\"><p>one</p></li><li class=\"todo-checked\">done</li></ol><ul><li class=\"todo-unchecked\">todo</li></ul><ol start=\"1\"></ol>"
    );
}

#[test]
fn code_without_language() {
    let doc = root(vec![node(
        MdKind::Code { value: "let x = 1;".to_string(), lang: None },
        vec![],
    )]);
    assert_eq!(render_doc(doc), "<code class=\"\"><pre>let x = 1;</pre></code>");
}

const THEME: &str = r#"<?xml version="1.0" encoding="UTF-8"?>
<!DOCTYPE plist PUBLIC "-//Apple//DTD PLIST 1.0//EN" "http://www.apple.com/DTDs/PropertyList-1.0.dtd">
<plist version="1.0">
<dict>
  <key>name</key>
  <string>Plain</string>
  <key>settings</key>
  <array>
    <dict>
      <key>settings</key>
      <dict>
        <key>background</key>
        <string>#000000</string>
        <key>foreground</key>
        <string>#FFFFFF</string>
      </dict>
    </dict>
  </array>
</dict>
</plist>
"#;

fn strip_tags(s: &str) -> String {
    let mut out = String::new();
    let mut in_tag = false;
    for c in s.chars() {
        match c {
            '<' => in_tag = true,
            '>' => in_tag = false,
            c if !in_tag => out.push(c),
            _ => {}
        }
    }
    out
}

#[test]
fn code_with_language_is_highlighted() {
    let code = "fn main() {}\n";
    let doc = root(vec![node(
        MdKind::Code { value: code.to_string(), lang: Some("Rust".to_string()) },
        vec![],
    )]);
    let mut r = AstRenderer::new(THEME.as_bytes().to_vec());
    let view = r.try_make_md_view(&doc).expect("highlights");
    let html = render_all(&view);
    assert!(html.starts_with(
        "<div class=\"code-wrapper\"><pre class=\"code-snippet\"><span style=\"color: #ffffff; background: #000000;\">"
    ));
    assert!(html.ends_with("</span></pre></div>"));
    assert_eq!(strip_tags(&html), code);
}

#[test]
fn code_with_a_theme_that_does_not_load_is_not_rendered() {
    let doc = root(vec![node(
        MdKind::Code { value: "x".to_string(), lang: Some("rust".to_string()) },
        vec![],
    )]);
    let mut r = AstRenderer::new(b"not a theme".to_vec());
    assert!(!r.check_renderable(&doc));
    assert!(r.try_make_md_view(&doc).is_none());
}

#[test]
fn unsupported_nodes_are_not_rendered() {
    let mut r = AstRenderer::new(vec![]);
    for kind in [
        MdKind::FootnoteDefinition,
        MdKind::Unsupported,
        MdKind::Yaml { value: "a: b".to_string() },
        MdKind::MdxTextExpression { value: "x".to_string() },
        MdKind::Table,
    ] {
        let doc = root(vec![node(kind, vec![])]);
        assert!(!r.check_renderable(&doc));
        assert!(r.try_make_md_view(&doc).is_none());
    }
    let heading_with_root = root(vec![node(MdKind::Heading { depth: 1 }, vec![root(vec![])])]);
    assert!(!r.check_renderable(&heading_with_root));
}

#[test]
fn raw_html_attributes_are_sorted() {
    let raw = RawHtml::Element {
        name: "div".to_string(),
        id: Some("x".to_string()),
        attributes: vec![
            ("data-z".to_string(), Some("1".to_string())),
            ("hidden".to_string(), None),
        ],
        classes: vec!["a".to_string(), "b".to_string()],
        children: vec![RawHtml::Text("hi".to_string()), RawHtml::Comment],
    };
    let view = make_html_view(&raw).expect("an element");
    assert_eq!(
        render_html(&view),
        "<div class=\"a b\" data-z=\"1\" hidden=\"\" id=\"x\">hi</div>"
    );
    assert!(make_html_view(&RawHtml::Comment).is_none());
    let t = make_html_view(&RawHtml::Text("plain".to_string())).expect("text");
    assert_eq!(render_html(&t), "plain");
}

#[test]
fn raw_html_inside_markdown() {
    let doc = root(vec![node(MdKind::Html { value: "<b>bold</b>".to_string() }, vec![])]);
    assert_eq!(render_doc(doc), "<b>bold</b>");
    let doc = root(vec![node(
        MdKind::Html {
            value: "<div id=\"x\" class=\"a b\" data-z=\"1\" hidden>hi<!-- c --></div>".to_string(),
        },
        vec![],
    )]);
    assert_eq!(render_doc(doc), "<div class=\"a b\" data-z=\"1\" hidden=\"\" id=\"x\">hi</div>");
}

#[test]
fn raw_html_is_parsed_into_trees() {
    let nodes = parse_html_fragment("<ul><li>a</li><li>b<i>c</i></li></ul>text").expect("parses");
    assert_eq!(nodes.len(), 2);
    let html: String = nodes.iter().filter_map(make_html_view).map(|n| render_html(&n)).collect();
    assert_eq!(html, "<ul><li>a</li><li>b<i>c</i></li></ul>text");
    let r = AstRenderer::new(vec![]);
    for value in ["<", "<p>unclosed", "</b>", ""] {
        let doc = root(vec![node(MdKind::Html { value: value.to_string() }, vec![])]);
        assert_eq!(r.check_renderable(&doc), parse_html_fragment(value).is_some());
    }
}

#[test]
fn frontmatter_is_taken_out() {
    let mut doc = root(vec![
        node(MdKind::Yaml { value: "title: x".to_string() }, vec![]),
        para(vec![txt("body")]),
    ]);
    assert_eq!(get_frontmatter(&mut doc), Some("title: x".to_string()));
    assert_eq!(doc.children.len(), 1);
    assert!(matches!(doc.children[0].kind, MdKind::Paragraph));
    assert_eq!(get_frontmatter(&mut doc), None);
    let mut yaml = node(MdKind::Yaml { value: "a: 1".to_string() }, vec![]);
    assert_eq!(get_frontmatter(&mut yaml), Some("a: 1".to_string()));
}

#[test]
fn link_texts_of_nodes() {
    let h = node(
        MdKind::Heading { depth: 1 },
        vec![txt("Hello World"), node(MdKind::Emphasis, vec![txt("Again")])],
    );
    assert_eq!(as_link_text(&h), "hello-worldagain");
    let l = node(
        MdKind::Link { url: "u".to_string(), title: Some("The Title".to_string()) },
        vec![txt("ignored")],
    );
    assert_eq!(as_link_text(&l), "the-title");
    let c = node(MdKind::Code { value: "a  b--c".to_string(), lang: None }, vec![]);
    assert_eq!(as_link_text(&c), "a-b-c");
    assert_eq!(as_link_text(&para(vec![txt("not read")])), "");
}

#[test]
fn reference_slots_count_up() {
    let mut r = AstRenderer::new(vec![]);
    assert_eq!(r.insert_proxy("a"), 0);
    assert_eq!(r.insert_proxy("b"), 1);
    r.insert_def(Definition { identifier: "a".to_string(), url: "u".to_string(), title: None });
    assert_eq!(r.insert_proxy("a"), 2);
}

#[test]
fn make_md_view_on_a_renderable_tree() {
    let mut r = AstRenderer::new(vec![]);
    let doc = root(vec![para(vec![txt("x")])]);
    let view = r.make_md_view(&doc);
    assert_eq!(render_all(&view), "<p>x</p>");
}

#[test]
fn interpolated_markdown_takes_the_title() {
    let doc = root(vec![para(vec![txt("Hi")])]);
    let meta = ContentMeta { title: "A Title".to_string(), date: None, exclude_from_rss: false };
    let imd = interpolate_markdown(&doc, Some(meta), vec![]).expect("renderable");
    assert_eq!(imd.title, Some("A Title".to_string()));
    assert_eq!(render_all(&imd.view), "<p>Hi</p>");
    let imd = interpolate_markdown(&doc, None, vec![]).expect("renderable");
    assert_eq!(imd.title, None);
    let bad = root(vec![node(MdKind::Unsupported, vec![])]);
    assert!(interpolate_markdown(&bad, None, vec![]).is_none());
    let empty = InterpolatedMarkdown::new(vec![]);
    assert!(empty.title.is_none() && empty.view.is_empty());
}

#[test]
fn html_styles_and_void_elements() {
    let span = Node::Element {
        name: "span".to_string(),
        attributes: vec![],
        styles: vec![("color".to_string(), "red".to_string())],
        children: vec![Node::Text("x".to_string())],
    };
    assert_eq!(render_html(&span), "<span style=\"color: red;\">x</span>");
    let br = rxyz::html::plain("br", vec![]);
    assert_eq!(render_html(&br), "<br />");
    let div = rxyz::html::plain("div", vec![]);
    assert_eq!(render_html(&div), "<div></div>");
}

fn highlighted(lang: &str) -> String {
    let doc = root(vec![node(
        MdKind::Code { value: "fn main() { let x = 1; }\n".to_string(), lang: Some(lang.to_string()) },
        vec![],
    )]);
    let mut r = AstRenderer::new(THEME.as_bytes().to_vec());
    render_all(&r.try_make_md_view(&doc).expect("highlights"))
}

#[test]
fn code_language_is_found_by_its_lowercased_name() {
    let rust = highlighted("rust");
    let unknown = highlighted("no-such-language");
    assert!(rust.matches("<span").count() > unknown.matches("<span").count());
    assert_eq!(strip_tags(&rust), strip_tags(&unknown));
}

#[test]
fn later_definitions_reach_earlier_documents() {
    let mut r = AstRenderer::new(vec![]);
    let first = root(vec![para(vec![link_ref("x", "see")])]);
    let second = root(vec![def("x", "https://x.y", Some("X"))]);
    let start = r.slot_count();
    let early = r.make_md_view(&first);
    assert_eq!(render_all(&early), "<p><a href=\"\" title=\"\">see</a></p>");
    r.make_md_view(&second);
    let again = r.resolved_view(&first, start);
    assert_eq!(render_all(&again), "<p><a href=\"https://x.y\" title=\"X\">see</a></p>");
}

#[test]
fn frontmatter_law_on_a_document() {
    let mut doc = root(vec![
        para(vec![txt("before")]),
        node(MdKind::Yaml { value: "title: t".to_string() }, vec![]),
        para(vec![txt("after")]),
    ]);
    assert_eq!(get_frontmatter(&mut doc), Some("title: t".to_string()));
    let mut r = AstRenderer::new(vec![]);
    assert_eq!(r.try_make_md_view(&doc).map(|v| render_all(&v)), Some("<p>before</p><p>after</p>".to_string()));
    assert_eq!(get_frontmatter(&mut doc), None);
    assert_eq!(doc.children.len(), 2);
}
