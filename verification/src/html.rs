//! HTML views: the element trees that pages are made of.
use vstd::prelude::*;

verus! {

/// An HTML node as a mathematical value.
pub ghost enum HtmlView {
    Text(Seq<char>),
    Element {
        name: Seq<char>,
        attributes: Seq<(Seq<char>, Seq<char>)>,
        styles: Seq<(Seq<char>, Seq<char>)>,
        children: Seq<HtmlView>,
    },
}

/// An HTML node: text, or an element (its tag, its attributes and style properties in the
/// order they were set, and its children).
pub enum Node {
    Text(String),
    Element {
        name: String,
        attributes: Vec<(String, String)>,
        styles: Vec<(String, String)>,
        children: Vec<Node>,
    },
}

/// A list of string pairs as pairs of sequences.
pub open spec fn pairs_view(ps: Seq<(String, String)>) -> Seq<(Seq<char>, Seq<char>)> {
    ps.map_values(|p: (String, String)| (p.0@, p.1@))
}

/// The mathematical value of an HTML node.
pub open spec fn html_view(n: Node) -> HtmlView
    decreases n,
{
    match n {
        Node::Text(t) => HtmlView::Text(t@),
        Node::Element { name, attributes, styles, children } => HtmlView::Element {
            name: name@,
            attributes: pairs_view(attributes@),
            styles: pairs_view(styles@),
            children: html_views(children@),
        },
    }
}

/// The mathematical values of HTML nodes.
pub open spec fn html_views(ns: Seq<Node>) -> Seq<HtmlView>
    decreases ns,
{
    if ns.len() == 0 {
        Seq::empty()
    } else {
        html_views(ns.drop_last()).push(html_view(ns.last()))
    }
}

impl View for Node {
    type V = HtmlView;

    open spec fn view(&self) -> HtmlView {
        html_view(*self)
    }
}

} // verus!

verus! {

pub proof fn lemma_html_views_push(ns: Seq<Node>, n: Node)
    ensures
        html_views(ns.push(n)) == html_views(ns).push(html_view(n)),
{
    assert(ns.push(n).drop_last() == ns);
}

pub proof fn lemma_html_views_concat(a: Seq<Node>, b: Seq<Node>)
    ensures
        html_views(a + b) == html_views(a) + html_views(b),
    decreases b.len(),
{
    if b.len() == 0 {
        assert(a + b == a);
        assert(html_views(b) == Seq::<HtmlView>::empty());
        assert(html_views(a) + html_views(b) == html_views(a));
    } else {
        lemma_html_views_concat(a, b.drop_last());
        assert((a + b).drop_last() == a + b.drop_last());
        assert((a + b).last() == b.last());
        assert(html_views(a) + html_views(b.drop_last()).push(html_view(b.last())) == (
        html_views(a) + html_views(b.drop_last())).push(html_view(b.last())));
    }
}

pub proof fn lemma_html_views_len(ns: Seq<Node>)
    ensures
        html_views(ns).len() == ns.len(),
    decreases ns.len(),
{
    if ns.len() > 0 {
        lemma_html_views_len(ns.drop_last());
    }
}

/// Appends the nodes of `more` to `out`.
pub fn append_nodes(out: &mut Vec<Node>, more: Vec<Node>)
    ensures
        html_views(final(out)@) == html_views(old(out)@) + html_views(more@),
{
    let ghost o = out@;
    let ghost m = more@;
    let mut more = more;
    out.append(&mut more);
    assert(out@ == o + m);
    proof {
        lemma_html_views_concat(o, m);
    }
}

/// An element view with the given tag, attributes and children, and no style.
pub open spec fn element_view(
    name: Seq<char>,
    attributes: Seq<(Seq<char>, Seq<char>)>,
    children: Seq<HtmlView>,
) -> HtmlView {
    HtmlView::Element { name, attributes, styles: Seq::empty(), children }
}

/// An element with the given tag, attributes and children, and no style.
pub fn element(name: &str, attributes: Vec<(String, String)>, children: Vec<Node>) -> (r:
    Node)
    ensures
        r@ == element_view(name@, pairs_view(attributes@), html_views(children@)),
{
    let styles: Vec<(String, String)> = Vec::new();
    assert(pairs_view(styles@) == Seq::<(Seq<char>, Seq<char>)>::empty());
    Node::Element { name: name.to_owned(), attributes, styles, children }
}

/// An element with the given tag and children, and no attribute or style.
pub fn plain(name: &str, children: Vec<Node>) -> (r: Node)
    ensures
        r@ == element_view(name@, Seq::empty(), html_views(children@)),
{
    let attributes: Vec<(String, String)> = Vec::new();
    assert(pairs_view(attributes@) =~= Seq::<(Seq<char>, Seq<char>)>::empty());
    element(name, attributes, children)
}

/// A text node.
pub fn text(t: &str) -> (r: Node)
    ensures
        r@ == HtmlView::Text(t@),
{
    Node::Text(t.to_owned())
}

/// One attribute.
pub fn attr(key: &str, value: &str) -> (r: (String, String))
    ensures
        r.0@ == key@,
        r.1@ == value@,
{
    (key.to_owned(), value.to_owned())
}

} // verus!

verus! {

// ---------------------------------------------------------------------------------------------
// Rendering to HTML text
// ---------------------------------------------------------------------------------------------

/// What mogwai's server-side renderer (`SsrElement::html_string`) prints for an element with
/// this tag, these attributes and style properties (set in order), and either no child or
/// one text child holding `inner`.
pub uninterp spec fn ssr_element_html(
    name: Seq<char>,
    attributes: Seq<(Seq<char>, Seq<char>)>,
    styles: Seq<(Seq<char>, Seq<char>)>,
    inner: Option<Seq<char>>,
) -> Seq<char>;

/// mogwai's `SsrElement::new(name)`, `set_property` for each attribute and `set_style` for
/// each style property in order, and `html_string`, with no child. The result is named
/// `ssr_element_html` with no inner text.
#[verifier::external_body]
fn empty_element_html(
    name: &str,
    attributes: &Vec<(String, String)>,
    styles: &Vec<(String, String)>,
) -> (r: String)
    ensures
        r@ == ssr_element_html(name@, pairs_view(attributes@), pairs_view(styles@), None),
{
    let e = <mogwai::ssr::SsrElement as mogwai::view::ViewElement>::new(name);
    for (k, v) in attributes.iter() {
        mogwai::view::ViewProperties::set_property(&e, k, v);
    }
    for (k, v) in styles.iter() {
        mogwai::view::ViewProperties::set_style(&e, k, v);
    }
    e.html_string()
}

/// mogwai's `SsrElement::new(name)`, `set_property` for each attribute and `set_style` for
/// each style property in order, `append_child` of `SsrText::new(inner)`, and `html_string`.
/// The result is named `ssr_element_html` with the inner text.
#[verifier::external_body]
fn text_element_html(
    name: &str,
    attributes: &Vec<(String, String)>,
    styles: &Vec<(String, String)>,
    inner: &str,
) -> (r: String)
    ensures
        r@ == ssr_element_html(name@, pairs_view(attributes@), pairs_view(styles@), Some(inner@)),
{
    let e = <mogwai::ssr::SsrElement as mogwai::view::ViewElement>::new(name);
    for (k, v) in attributes.iter() {
        mogwai::view::ViewProperties::set_property(&e, k, v);
    }
    for (k, v) in styles.iter() {
        mogwai::view::ViewProperties::set_style(&e, k, v);
    }
    let text = <mogwai::ssr::SsrText as mogwai::view::ViewText>::new(inner);
    mogwai::view::ViewParent::append_child(&e, text);
    e.html_string()
}

/// The HTML text of a view: text as it is (the server-side renderer does not escape it), and
/// an element printed by `ssr_element_html` around the HTML text of its children.
pub open spec fn rendered(v: HtmlView) -> Seq<char>
    decreases v,
{
    match v {
        HtmlView::Text(t) => t,
        HtmlView::Element { name, attributes, styles, children } => ssr_element_html(
            name,
            attributes,
            styles,
            if children.len() == 0 {
                None
            } else {
                Some(rendered_all(children))
            },
        ),
    }
}

/// The HTML texts of the views, one after another.
pub open spec fn rendered_all(vs: Seq<HtmlView>) -> Seq<char>
    decreases vs,
{
    if vs.len() == 0 {
        Seq::empty()
    } else {
        rendered_all(vs.drop_last()) + rendered(vs.last())
    }
}

/// The HTML text of a node.
pub fn render_html(node: &Node) -> (r: String)
    ensures
        r@ == rendered(node@),
    decreases node,
{
    match node {
        Node::Text(t) => t.clone(),
        Node::Element { name, attributes, styles, children } => {
            let ghost cs = children@;
            let mut inner = String::new();
            let mut i: usize = 0;
            while i < children.len()
                invariant
                    i <= children.len(),
                    cs == children@,
                    *node is Element,
                    *children == node->children,
                    inner@ == rendered_all(html_views(cs.take(i as int))),
                decreases children.len() - i,
            {
                assert(cs.take(i + 1).drop_last() == cs.take(i as int));
                assert(cs.take(i + 1).last() == cs[i as int]);
                proof {
                    lemma_html_views_push(cs.take(i as int), cs[i as int]);
                    assert(cs.take(i as int).push(cs[i as int]) == cs.take(i + 1));
                    let hv = html_views(cs.take(i as int));
                    assert(hv.push(html_view(cs[i as int])).drop_last() == hv);
                    vstd::std_specs::vec::axiom_vec_index_decreases(*children, i as int);
                }
                let part = render_html(&children[i]);
                crate::text::push_str(&mut inner, part.as_str());
                i = i + 1;
            }
            assert(cs.take(cs.len() as int) == cs);
            proof {
                lemma_html_views_len(cs);
            }
            if children.len() == 0 {
                empty_element_html(name.as_str(), attributes, styles)
            } else {
                text_element_html(name.as_str(), attributes, styles, inner.as_str())
            }
        },
    }
}

} // verus!

verus! {

// ---------------------------------------------------------------------------------------------
// Building small trees
// ---------------------------------------------------------------------------------------------

/// Appends one node to a list of nodes.
pub fn push_node(v: &mut Vec<Node>, n: Node)
    ensures
        html_views(final(v)@) == html_views(old(v)@).push(n@),
{
    let ghost before = v@;
    v.push(n);
    proof {
        lemma_html_views_push(before, n);
    }
}

/// Appends one attribute to a list of attributes.
pub fn push_attr(v: &mut Vec<(String, String)>, key: &str, value: &str)
    ensures
        pairs_view(final(v)@) == pairs_view(old(v)@).push((key@, value@)),
{
    v.push(attr(key, value));
    assert(pairs_view(v@) =~= pairs_view(old(v)@).push((key@, value@)));
}

/// One attribute as a list.
pub fn attrs1(k1: &str, v1: &str) -> (r: Vec<(String, String)>)
    ensures
        pairs_view(r@) == seq![(k1@, v1@)],
{
    let mut r: Vec<(String, String)> = Vec::new();
    push_attr(&mut r, k1, v1);
    assert(pairs_view(Seq::<(String, String)>::empty()) =~= Seq::<(Seq<char>, Seq<char>)>::empty());
    r
}

/// Two attributes as a list.
pub fn attrs2(k1: &str, v1: &str, k2: &str, v2: &str) -> (r: Vec<(String, String)>)
    ensures
        pairs_view(r@) == seq![(k1@, v1@), (k2@, v2@)],
{
    let mut r = attrs1(k1, v1);
    push_attr(&mut r, k2, v2);
    assert(pairs_view(r@) =~= seq![(k1@, v1@), (k2@, v2@)]);
    r
}

/// One node as a list.
pub fn nodes1(a: Node) -> (r: Vec<Node>)
    ensures
        html_views(r@) == seq![a@],
{
    let mut r: Vec<Node> = Vec::new();
    push_node(&mut r, a);
    r
}

/// Two nodes as a list.
pub fn nodes2(a: Node, b: Node) -> (r: Vec<Node>)
    ensures
        html_views(r@) == seq![a@, b@],
{
    let ghost (va, vb) = (a@, b@);
    let mut r = nodes1(a);
    push_node(&mut r, b);
    assert(html_views(r@) =~= seq![va, vb]);
    r
}

/// Three nodes as a list.
pub fn nodes3(a: Node, b: Node, c: Node) -> (r: Vec<Node>)
    ensures
        html_views(r@) == seq![a@, b@, c@],
{
    let ghost (va, vb, vc) = (a@, b@, c@);
    let mut r = nodes2(a, b);
    push_node(&mut r, c);
    assert(html_views(r@) =~= seq![va, vb, vc]);
    r
}

/// Four nodes as a list.
pub fn nodes4(a: Node, b: Node, c: Node, d: Node) -> (r: Vec<Node>)
    ensures
        html_views(r@) == seq![a@, b@, c@, d@],
{
    let ghost (va, vb, vc, vd) = (a@, b@, c@, d@);
    let mut r = nodes3(a, b, c);
    push_node(&mut r, d);
    assert(html_views(r@) =~= seq![va, vb, vc, vd]);
    r
}

} // verus!
