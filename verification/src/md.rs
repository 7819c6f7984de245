//! Markdown documents: their syntax tree, frontmatter, heading anchors and the HTML view
//! made of them.
use vstd::prelude::*;
use crate::html::{
    append_nodes, attr, element, plain, element_view, html_view, html_views, lemma_html_views_concat,
    lemma_html_views_push, pairs_view, text, Node, HtmlView,
};
use crate::text::{chars_of, push_char, push_str, slug, slugify};

verus! {

/// The frontmatter of a content page.
#[derive(Debug, Clone)]
pub struct ContentMeta {
    pub title: String,
    pub date: Option<String>,
    /// Whether the article should be excluded from RSS feeds
    pub exclude_from_rss: bool,
}

/// An optional string as an optional sequence of characters.
pub open spec fn opt_view(s: Option<String>) -> Option<Seq<char>> {
    match s {
        Some(t) => Some(t@),
        None => None,
    }
}

impl View for ContentMeta {
    type V = (Seq<char>, Option<Seq<char>>, bool);

    open spec fn view(&self) -> Self::V {
        (self.title@, opt_view(self.date), self.exclude_from_rss)
    }
}

} // verus!

verus! {

// ---------------------------------------------------------------------------------------------
// The markdown syntax tree
// ---------------------------------------------------------------------------------------------

/// A parsed HTML node (of raw HTML inside markdown): text, an element (its tag, its `id`,
/// its other attributes each with an optional value, its classes and its children), or a
/// comment.
pub enum RawHtml {
    Text(String),
    Element {
        name: String,
        id: Option<String>,
        attributes: Vec<(String, Option<String>)>,
        classes: Vec<String>,
        children: Vec<RawHtml>,
    },
    Comment,
}

/// What a markdown node is, apart from its children.
pub enum MdKind {
    Root,
    Blockquote,
    FootnoteDefinition,
    List { ordered: bool, start: Option<u32> },
    ListItem { checked: Option<bool> },
    Emphasis,
    Strong,
    Delete,
    Heading { depth: u8 },
    Paragraph,
    Table,
    TableRow,
    TableCell,
    Link { url: String, title: Option<String> },
    LinkReference { identifier: String },
    Image { alt: String, url: String, title: Option<String> },
    Definition { identifier: String, url: String, title: Option<String> },
    Text { value: String },
    InlineCode { value: String },
    Code { value: String, lang: Option<String> },
    /// Raw HTML.
    Html { value: String },
    Yaml { value: String },
    MdxTextExpression { value: String },
    Break,
    ThematicBreak,
    /// Footnote references, image references, math, TOML and the other MDX nodes, none of
    /// which the renderer supports.
    Unsupported,
}

/// A markdown syntax tree node.
pub struct MdNode {
    pub kind: MdKind,
    pub children: Vec<MdNode>,
}

/// Whether a node of this kind holds children (`mdast::Node::children_mut` is `Some`).
pub open spec fn has_children(k: MdKind) -> bool {
    match k {
        MdKind::Root | MdKind::Blockquote | MdKind::FootnoteDefinition | MdKind::List { .. }
        | MdKind::ListItem { .. } | MdKind::Delete | MdKind::Emphasis | MdKind::Link { .. }
        | MdKind::LinkReference { .. } | MdKind::Strong | MdKind::Heading { .. } | MdKind::Table
        | MdKind::TableRow | MdKind::TableCell | MdKind::Paragraph | MdKind::Unsupported => true,
        _ => false,
    }
}

fn kind_has_children(k: &MdKind) -> (b: bool)
    ensures
        b == has_children(*k),
{
    match k {
        MdKind::Root | MdKind::Blockquote | MdKind::FootnoteDefinition | MdKind::List { .. }
        | MdKind::ListItem { .. } | MdKind::Delete | MdKind::Emphasis | MdKind::Link { .. }
        | MdKind::LinkReference { .. } | MdKind::Strong | MdKind::Heading { .. } | MdKind::Table
        | MdKind::TableRow | MdKind::TableCell | MdKind::Paragraph | MdKind::Unsupported => true,
        _ => false,
    }
}

// ---------------------------------------------------------------------------------------------
// Frontmatter
// ---------------------------------------------------------------------------------------------

/// The YAML frontmatter found in a node: the node's own value if it is YAML, else the last
/// frontmatter found among its children.
pub open spec fn frontmatter_of(n: MdNode) -> Option<Seq<char>>
    decreases n,
{
    match n.kind {
        MdKind::Yaml { value } => Some(value@),
        _ => if has_children(n.kind) {
            frontmatter_in(n.children@)
        } else {
            None
        },
    }
}

/// The last frontmatter found among the nodes.
pub open spec fn frontmatter_in(cs: Seq<MdNode>) -> Option<Seq<char>>
    decreases cs,
{
    if cs.len() == 0 {
        None
    } else {
        match frontmatter_of(cs.last()) {
            Some(v) => Some(v),
            None => frontmatter_in(cs.drop_last()),
        }
    }
}

/// Whether a node holds no frontmatter.
pub open spec fn no_frontmatter(c: MdNode) -> bool {
    frontmatter_of(c) is None
}

/// The frontmatter found in `n`, as `frontmatter_of` states it.
fn find_frontmatter(n: &MdNode) -> (r: Option<String>)
    ensures
        opt_view(r) == frontmatter_of(*n),
    decreases n,
{
    if let MdKind::Yaml { value } = &n.kind {
        return Some(value.clone());
    }
    if !kind_has_children(&n.kind) {
        return None;
    }
    let ghost cs = n.children@;
    let mut found: Option<String> = None;
    let mut i: usize = 0;
    while i < n.children.len()
        invariant
            i <= n.children.len(),
            cs == n.children@,
            has_children(n.kind),
            !(n.kind is Yaml),
            opt_view(found) == frontmatter_in(cs.take(i as int)),
        decreases n.children.len() - i,
    {
        assert(cs.take(i + 1).drop_last() == cs.take(i as int));
        assert(cs.take(i + 1).last() == cs[i as int]);
        proof {
            vstd::std_specs::vec::axiom_vec_index_decreases(n.children, i as int);
        }
        if let Some(v) = find_frontmatter(&n.children[i]) {
            found = Some(v);
        }
        i = i + 1;
    }
    assert(cs.take(cs.len() as int) == cs);
    found
}

proof fn lemma_filter_push(s: Seq<MdNode>, c: MdNode)
    ensures
        s.push(c).filter(|x: MdNode| no_frontmatter(x)) == if no_frontmatter(c) {
            s.filter(|x: MdNode| no_frontmatter(x)).push(c)
        } else {
            s.filter(|x: MdNode| no_frontmatter(x))
        },
{
    reveal_with_fuel(Seq::filter, 1);
    assert(s.push(c).drop_last() == s);
}

/// Takes the frontmatter out of `node`: returns the YAML value found (the node's own, or the
/// last one found among its children), and removes from `node` each child that held one.
pub fn get_frontmatter(node: &mut MdNode) -> (r: Option<String>)
    ensures
        opt_view(r) == frontmatter_of(*old(node)),
        final(node).kind == old(node).kind,
        has_children(old(node).kind) && !(old(node).kind is Yaml) ==> final(node).children@
            == old(node).children@.filter(|c: MdNode| no_frontmatter(c)),
        !has_children(old(node).kind) || old(node).kind is Yaml ==> *final(node) == *old(node),
{
    if let MdKind::Yaml { value } = &node.kind {
        return Some(value.clone());
    }
    if !kind_has_children(&node.kind) {
        return None;
    }
    let mut children: Vec<MdNode> = Vec::new();
    std::mem::swap(&mut children, &mut node.children);
    let ghost cs = children@;
    let mut kept: Vec<MdNode> = Vec::new();
    let mut found: Option<String> = None;
    for c in it: children
        invariant
            it.seq() == cs,
            kept@ == cs.take(it.index() as int).filter(|c: MdNode| no_frontmatter(c)),
            opt_view(found) == frontmatter_in(cs.take(it.index() as int)),
    {
        let ghost i = it.index();
        assert(cs.take(i + 1).drop_last() == cs.take(i as int));
        assert(cs.take(i + 1).last() == c);
        proof {
            lemma_filter_push(cs.take(i as int), c);
            assert(cs.take(i + 1) == cs.take(i as int).push(c));
        }
        match find_frontmatter(&c) {
            Some(v) => {
                found = Some(v);
            },
            None => {
                kept.push(c);
            },
        }
    }
    assert(cs.take(cs.len() as int) == cs);
    node.children = kept;
    found
}

} // verus!

verus! {

// ---------------------------------------------------------------------------------------------
// Heading anchors
// ---------------------------------------------------------------------------------------------

/// The text a node gives its anchor by itself.
pub open spec fn own_link_text(k: MdKind) -> Seq<char> {
    match k {
        MdKind::MdxTextExpression { value } => value@,
        MdKind::Link { title: Some(t), .. } => t@,
        MdKind::Text { value } => value@,
        MdKind::Code { value, .. } => value@,
        _ => Seq::empty(),
    }
}

/// Whether the anchor text of a node takes in its children's.
pub open spec fn link_text_recurses(k: MdKind) -> bool {
    match k {
        MdKind::Blockquote | MdKind::FootnoteDefinition | MdKind::List { .. } | MdKind::Emphasis
        | MdKind::Strong | MdKind::Heading { .. } | MdKind::Table => true,
        _ => false,
    }
}

/// The anchor text of a node: its own text followed by its children's anchor texts,
/// turned into an anchor by `slug`.
pub open spec fn link_text(n: MdNode) -> Seq<char>
    decreases n,
{
    slug(
        own_link_text(n.kind) + if link_text_recurses(n.kind) {
            link_texts(n.children@)
        } else {
            Seq::empty()
        },
    )
}

/// The anchor texts of the nodes, one after another.
pub open spec fn link_texts(cs: Seq<MdNode>) -> Seq<char>
    decreases cs,
{
    if cs.len() == 0 {
        Seq::empty()
    } else {
        link_texts(cs.drop_last()) + link_text(cs.last())
    }
}

/// Whether `as_link_text` is defined on a node: it is not the root, nor is any node whose
/// anchor text it reads.
pub open spec fn link_text_defined(n: MdNode) -> bool
    decreases n,
{
    &&& !(n.kind is Root)
    &&& link_text_recurses(n.kind) ==> link_texts_defined(n.children@)
}

/// Whether `as_link_text` is defined on each of the nodes.
pub open spec fn link_texts_defined(cs: Seq<MdNode>) -> bool
    decreases cs,
{
    cs.len() == 0 || (link_texts_defined(cs.drop_last()) && link_text_defined(cs.last()))
}

proof fn lemma_link_texts_defined(cs: Seq<MdNode>, i: int)
    requires
        link_texts_defined(cs),
        0 <= i < cs.len(),
    ensures
        link_text_defined(cs[i]),
    decreases cs.len(),
{
    if i < cs.len() - 1 {
        lemma_link_texts_defined(cs.drop_last(), i);
        assert(cs.drop_last()[i] == cs[i]);
    }
}

/// Converts a markdown node into a heading link.
pub fn as_link_text(node: &MdNode) -> (r: String)
    requires
        link_text_defined(*node),
    ensures
        r@ == link_text(*node),
    decreases node,
{
    let mut s = String::new();
    match &node.kind {
        MdKind::MdxTextExpression { value } => push_str(&mut s, value.as_str()),
        MdKind::Link { title: Some(t), .. } => push_str(&mut s, t.as_str()),
        MdKind::Text { value } => push_str(&mut s, value.as_str()),
        MdKind::Code { value, .. } => push_str(&mut s, value.as_str()),
        _ => {},
    }
    let recurses = match &node.kind {
        MdKind::Blockquote | MdKind::FootnoteDefinition | MdKind::List { .. } | MdKind::Emphasis
        | MdKind::Strong | MdKind::Heading { .. } | MdKind::Table => true,
        _ => false,
    };
    assert(s@ == own_link_text(node.kind));
    if recurses {
        let ghost cs = node.children@;
        let ghost own = s@;
        let mut i: usize = 0;
        while i < node.children.len()
            invariant
                i <= node.children.len(),
                cs == node.children@,
                link_texts_defined(cs),
                s@ == own + link_texts(cs.take(i as int)),
            decreases node.children.len() - i,
        {
            assert(cs.take(i + 1).drop_last() == cs.take(i as int));
            assert(cs.take(i + 1).last() == cs[i as int]);
            proof {
                vstd::std_specs::vec::axiom_vec_index_decreases(node.children, i as int);
                lemma_link_texts_defined(cs, i as int);
            }
            let t = as_link_text(&node.children[i]);
            push_str(&mut s, t.as_str());
            i = i + 1;
        }
        assert(cs.take(cs.len() as int) == cs);
    }
    slugify(s.as_str())
}

/// Law: the anchor that the feeds give a news heading (`feed::heading_to_anchor`, which is
/// `slug` of the heading's text) is the id that a rendered page gives a heading whose only
/// content is that text.
pub proof fn news_anchor_matches_heading_id(
    heading: MdNode,
    text: Seq<char>,
    res: Seq<Option<DefView>>,
    k: int,
    cs: CodeStyle,
)
    requires
        heading.kind is Heading,
        heading.children@.len() == 1,
        heading.children@[0].kind matches MdKind::Text { value } && value@ == text,
    ensures
        md_view(heading, res, k, cs) == seq![
            heading_view(
                heading.kind->depth,
                slug(text),
                md_views(heading.children@, res, k, cs),
            ),
        ],
{
    let cs0 = heading.children@;
    assert(cs0.drop_last() == Seq::<MdNode>::empty());
    assert(link_texts(Seq::<MdNode>::empty()) == Seq::<char>::empty());
    assert(text + Seq::<char>::empty() == text);
    assert(Seq::<char>::empty() + slug(text) == slug(text));
    assert(cs0.last() == cs0[0]);
    assert(!link_text_recurses(cs0[0].kind));
    assert(own_link_text(cs0[0].kind) == text);
    assert(link_text(cs0[0]) == slug(text));
    assert(link_texts(cs0) == slug(text));
}

} // verus!

verus! {

// ---------------------------------------------------------------------------------------------
// Raw HTML
// ---------------------------------------------------------------------------------------------

/// The order of `String` keys: lexicographic on characters (which is the order of their
/// UTF-8 bytes).
pub open spec fn text_lt(a: Seq<char>, b: Seq<char>) -> bool
    decreases a.len(),
{
    if a.len() == 0 {
        b.len() > 0
    } else if b.len() == 0 {
        false
    } else if a[0] != b[0] {
        a[0] < b[0]
    } else {
        text_lt(a.drop_first(), b.drop_first())
    }
}

/// Whether `a` comes before `b` in the order of strings.
pub fn text_less(a: &str, b: &str) -> (r: bool)
    ensures
        r == text_lt(a@, b@),
{
    let x = chars_of(a);
    let y = chars_of(b);
    let mut i: usize = 0;
    assert(x@.skip(0) == x@ && y@.skip(0) == y@);
    while i < x.len() && i < y.len() && x[i] == y[i]
        invariant
            i <= x.len(),
            i <= y.len(),
            text_lt(x@, y@) == text_lt(x@.skip(i as int), y@.skip(i as int)),
        decreases x.len() - i,
    {
        assert(x@.skip(i as int).drop_first() == x@.skip(i + 1));
        assert(y@.skip(i as int).drop_first() == y@.skip(i + 1));
        i = i + 1;
    }
    if i == x.len() {
        i < y.len()
    } else if i == y.len() {
        false
    } else {
        x[i] < y[i]
    }
}

/// A key-ordered list of attributes with `(k, v)` put in: in place of the entry for `k`, if
/// there is one, else before the first larger key (`BTreeMap::insert`).
pub open spec fn insert_sorted(
    l: Seq<(Seq<char>, Seq<char>)>,
    k: Seq<char>,
    v: Seq<char>,
) -> Seq<(Seq<char>, Seq<char>)>
    decreases l.len(),
{
    if l.len() == 0 {
        seq![(k, v)]
    } else if l[0].0 == k {
        seq![(k, v)] + l.drop_first()
    } else if text_lt(k, l[0].0) {
        seq![(k, v)] + l
    } else {
        seq![l[0]] + insert_sorted(l.drop_first(), k, v)
    }
}

/// Puts `(k, v)` into the key-ordered list `l`.
fn insert_attribute(l: &mut Vec<(String, String)>, k: String, v: String)
    ensures
        pairs_view(final(l)@) == insert_sorted(pairs_view(old(l)@), k@, v@),
{
    let ghost l0 = pairs_view(l@);
    let mut i: usize = 0;
    assert(l0.skip(0) == l0);
    assert(l0.take(0) + insert_sorted(l0.skip(0), k@, v@) == insert_sorted(l0, k@, v@));
    while i < l.len()
        invariant
            i <= l.len(),
            l0 == pairs_view(l@),
            l0 == pairs_view(old(l)@),
            insert_sorted(l0, k@, v@) == l0.take(i as int) + insert_sorted(
                l0.skip(i as int),
                k@,
                v@,
            ),
        decreases l.len() - i,
    {
        let ghost rest = l0.skip(i as int);
        assert(rest[0] == l0[i as int]);
        assert(rest.drop_first() == l0.skip(i + 1));
        if same(&l[i].0, &k) {
            assert(insert_sorted(rest, k@, v@) == seq![(k@, v@)] + rest.drop_first());
            l.set(i, (k, v));
            assert(pairs_view(l@) =~= l0.take(i as int) + (seq![(k@, v@)] + rest.drop_first()));
            return;
        }
        if text_less(k.as_str(), l[i].0.as_str()) {
            assert(insert_sorted(rest, k@, v@) == seq![(k@, v@)] + rest);
            l.insert(i, (k, v));
            assert(pairs_view(l@) =~= l0.take(i as int) + (seq![(k@, v@)] + rest));
            return;
        }
        assert(l0.take(i + 1) == l0.take(i as int) + seq![l0[i as int]]);
        i = i + 1;
    }
    assert(l0.skip(i as int).len() == 0);
    l.push((k, v));
    assert(pairs_view(l@) =~= l0.take(i as int) + seq![(k@, v@)]);
}

/// Whether two strings are equal.
fn same(a: &String, b: &String) -> (r: bool)
    ensures
        r == (a@ == b@),
{
    *a == *b
}

/// Strings joined with a space between them.
pub open spec fn joined_with_space(ss: Seq<Seq<char>>) -> Seq<char>
    decreases ss.len(),
{
    if ss.len() == 0 {
        Seq::empty()
    } else if ss.len() == 1 {
        ss[0]
    } else {
        joined_with_space(ss.drop_last()) + seq![' '] + ss.last()
    }
}

/// A parsed HTML node as a value: its text, an element (its tag, its `id`, its other
/// attributes by name with their optional values, its classes and its children), or a
/// comment.
pub ghost enum RawHtmlView {
    Text(Seq<char>),
    Element {
        name: Seq<char>,
        id: Option<Seq<char>>,
        attributes: Map<Seq<char>, Option<Seq<char>>>,
        classes: Seq<Seq<char>>,
        children: Seq<RawHtmlView>,
    },
    Comment,
}

/// Attribute pairs as sequences.
pub open spec fn attr_pairs_view(ps: Seq<(String, Option<String>)>) -> Seq<
    (Seq<char>, Option<Seq<char>>),
> {
    ps.map_values(|p: (String, Option<String>)| (p.0@, opt_view(p.1)))
}

/// Attribute pairs as a map from name to optional value; where a name occurs twice, the
/// later pair counts.
pub open spec fn attribute_map(ps: Seq<(Seq<char>, Option<Seq<char>>)>) -> Map<
    Seq<char>,
    Option<Seq<char>>,
>
    decreases ps.len(),
{
    if ps.len() == 0 {
        Map::empty()
    } else {
        attribute_map(ps.drop_last()).insert(ps.last().0, ps.last().1)
    }
}

/// Strings as sequences.
pub open spec fn strings_view(ss: Seq<String>) -> Seq<Seq<char>> {
    ss.map_values(|c: String| c@)
}

/// The value of a raw node.
pub open spec fn raw_view(n: RawHtml) -> RawHtmlView
    decreases n,
{
    match n {
        RawHtml::Text(t) => RawHtmlView::Text(t@),
        RawHtml::Comment => RawHtmlView::Comment,
        RawHtml::Element { name, id, attributes, classes, children } => RawHtmlView::Element {
            name: name@,
            id: opt_view(id),
            attributes: attribute_map(attr_pairs_view(attributes@)),
            classes: strings_view(classes@),
            children: raw_views(children@),
        },
    }
}

/// The values of raw nodes.
pub open spec fn raw_views(ns: Seq<RawHtml>) -> Seq<RawHtmlView>
    decreases ns,
{
    if ns.len() == 0 {
        Seq::empty()
    } else {
        raw_views(ns.drop_last()).push(raw_view(ns.last()))
    }
}

/// A map of optional values with each missing value made the empty string.
pub open spec fn values_or_empty(m: Map<Seq<char>, Option<Seq<char>>>) -> Map<Seq<char>, Seq<char>> {
    Map::new(|k: Seq<char>| m.dom().contains(k), |k: Seq<char>| or_empty(m[k]))
}

/// The attributes that the view of a raw element gets: its own (a missing value is the
/// empty string), its `id`, and its classes joined as `class`.
pub open spec fn attribute_values(
    id: Option<Seq<char>>,
    attributes: Map<Seq<char>, Option<Seq<char>>>,
    classes: Seq<Seq<char>>,
) -> Map<Seq<char>, Seq<char>> {
    let base = values_or_empty(attributes);
    let with_id = match id {
        Some(i) => base.insert("id"@, i),
        None => base,
    };
    if classes.len() > 0 {
        with_id.insert("class"@, joined_with_space(classes))
    } else {
        with_id
    }
}

/// The view of a parsed HTML node: text stays text, a comment gives nothing, and an element
/// keeps its tag and gets its attributes ordered by key (`attribute_values` walked as a
/// `BTreeMap`) and the views of its children.
pub open spec fn raw_html_view(n: RawHtmlView) -> Option<HtmlView>
    decreases n,
{
    match n {
        RawHtmlView::Text(t) => Some(HtmlView::Text(t)),
        RawHtmlView::Comment => None,
        RawHtmlView::Element { name, id, attributes, classes, children } => Some(
            element_view(
                name,
                sorted_entries(attribute_values(id, attributes, classes)),
                raw_html_views(children),
            ),
        ),
    }
}

/// The views of parsed HTML nodes, comments left out.
pub open spec fn raw_html_views(ns: Seq<RawHtmlView>) -> Seq<HtmlView>
    decreases ns,
{
    if ns.len() == 0 {
        Seq::empty()
    } else {
        match raw_html_view(ns.last()) {
            Some(v) => raw_html_views(ns.drop_last()).push(v),
            None => raw_html_views(ns.drop_last()),
        }
    }
}

fn join_classes(classes: &Vec<String>) -> (r: String)
    ensures
        r@ == joined_with_space(classes@.map_values(|c: String| c@)),
{
    let ghost cs = classes@.map_values(|c: String| c@);
    let mut s = String::new();
    let mut i: usize = 0;
    while i < classes.len()
        invariant
            i <= classes.len(),
            cs == classes@.map_values(|c: String| c@),
            s@ == joined_with_space(cs.take(i as int)),
        decreases classes.len() - i,
    {
        assert(cs.take(i + 1).drop_last() == cs.take(i as int));
        assert(cs.take(i + 1).last() == classes@[i as int]@);
        if i > 0 {
            push_char(&mut s, ' ');
        }
        push_str(&mut s, classes[i].as_str());
        i = i + 1;
    }
    assert(cs.take(cs.len() as int) == cs);
    s
}

/// Makes the view of a parsed HTML node: text stays text, comments are dropped, and an
/// element keeps its tag, its attributes ordered by key (with its `id`, and its classes as
/// one `class`), and the views of its children.
pub fn make_html_view(node: &RawHtml) -> (r: Option<Node>)
    ensures
        match r {
            Some(h) => raw_html_view(raw_view(*node)) == Some(h@),
            None => raw_html_view(raw_view(*node)) is None,
        },
    decreases node,
{
    match node {
        RawHtml::Text(s) => Some(text(s.as_str())),
        RawHtml::Comment => None,
        RawHtml::Element { name, id, attributes: attrs, classes, children: kids } => {
            let ghost cs = kids@;
            let mut children: Vec<Node> = Vec::new();
            let mut i: usize = 0;
            while i < kids.len()
                invariant
                    i <= kids.len(),
                    cs == kids@,
                    *node is Element,
                    *kids == node->children,
                    html_views(children@) == raw_html_views(raw_views(cs.take(i as int))),
                decreases kids.len() - i,
            {
                assert(cs.take(i + 1).drop_last() == cs.take(i as int));
                assert(cs.take(i + 1).last() == cs[i as int]);
                let ghost rv = raw_views(cs.take(i as int));
                assert(raw_views(cs.take(i + 1)) == rv.push(raw_view(cs[i as int])));
                assert(rv.push(raw_view(cs[i as int])).drop_last() == rv);
                proof {
                    vstd::std_specs::vec::axiom_vec_index_decreases(*kids, i as int);
                }
                if let Some(child) = make_html_view(&kids[i]) {
                    proof {
                        lemma_html_views_push(children@, child);
                    }
                    children.push(child);
                }
                i = i + 1;
            }
            assert(cs.take(cs.len() as int) == cs);
            let ghost ap = attr_pairs_view(attrs@);
            let mut attributes: Vec<(String, String)> = Vec::new();
            let mut j: usize = 0;
            assert(values_or_empty(attribute_map(ap.take(0))) =~= entries(pairs_view(attributes@)));
            while j < attrs.len()
                invariant
                    j <= attrs.len(),
                    ap == attr_pairs_view(attrs@),
                    key_sorted(pairs_view(attributes@)),
                    entries(pairs_view(attributes@)) == values_or_empty(
                        attribute_map(ap.take(j as int)),
                    ),
                decreases attrs.len() - j,
            {
                assert(ap.take(j + 1).drop_last() == ap.take(j as int));
                assert(ap.take(j + 1).last() == ap[j as int]);
                let k = attrs[j].0.clone();
                let v = match &attrs[j].1 {
                    Some(v) => v.clone(),
                    None => String::new(),
                };
                assert(v@ == or_empty(ap[j as int].1));
                proof {
                    lemma_insert_sorted(pairs_view(attributes@), k@, v@);
                }
                insert_attribute(&mut attributes, k, v);
                assert(entries(pairs_view(attributes@)) =~= values_or_empty(
                    attribute_map(ap.take(j + 1)),
                ));
                j = j + 1;
            }
            assert(ap.take(ap.len() as int) == ap);
            let ghost base = values_or_empty(attribute_map(ap));
            let ghost with_id = match opt_view(*id) {
                Some(i) => base.insert("id"@, i),
                None => base,
            };
            if let Some(id) = id {
                proof {
                    lemma_insert_sorted(pairs_view(attributes@), "id"@, id@);
                }
                insert_attribute(&mut attributes, "id".to_owned(), id.clone());
            }
            assert(entries(pairs_view(attributes@)) == with_id);
            if classes.len() > 0 {
                let joined = join_classes(&classes);
                proof {
                    lemma_insert_sorted(pairs_view(attributes@), "class"@, joined@);
                }
                insert_attribute(&mut attributes, "class".to_owned(), joined);
            }
            assert(entries(pairs_view(attributes@)) == attribute_values(
                opt_view(*id),
                attribute_map(ap),
                strings_view(classes@),
            ));
            proof {
                lemma_sorted_entries_of(pairs_view(attributes@));
            }
            Some(element(name.as_str(), attributes, children))
        },
    }
}

} // verus!

verus! {

// ---------------------------------------------------------------------------------------------
// Link definitions and references
// ---------------------------------------------------------------------------------------------

/// A link definition (`[identifier]: url "title"`).
pub struct Definition {
    pub identifier: String,
    pub url: String,
    pub title: Option<String>,
}

/// A link definition as its identifier, URL and optional title.
pub type DefView = (Seq<char>, Seq<char>, Option<Seq<char>>);

impl View for Definition {
    type V = DefView;

    open spec fn view(&self) -> DefView {
        (self.identifier@, self.url@, opt_view(self.title))
    }
}

impl Definition {
    /// A copy of this definition.
    pub fn copy(&self) -> (r: Definition)
        ensures
            r@ == self@,
    {
        Definition {
            identifier: self.identifier.clone(),
            url: self.url.clone(),
            title: match &self.title {
                Some(t) => Some(t.clone()),
                None => None,
            },
        }
    }
}

/// What happens to link state while a document is read: a definition is met, or a link
/// reference with this identifier is met.
pub ghost enum LinkEvent {
    Def(DefView),
    Ref(Seq<char>),
}

/// The link state of a renderer: the definitions met (the last one for an identifier is the
/// one that counts), the references still waiting for a definition (identifier and slot),
/// and the definition that each reference slot holds.
pub ghost struct LinkState {
    pub defs: Seq<DefView>,
    pub pending: Seq<(Seq<char>, nat)>,
    pub resolved: Seq<Option<DefView>>,
}

/// The last definition of `id` among `defs`.
pub open spec fn last_def(defs: Seq<DefView>, id: Seq<char>) -> Option<DefView>
    decreases defs.len(),
{
    if defs.len() == 0 {
        None
    } else if defs.last().0 == id {
        Some(defs.last())
    } else {
        last_def(defs.drop_last(), id)
    }
}

/// Whether `slot` waits for a definition of `id`.
pub open spec fn waits_for(pending: Seq<(Seq<char>, nat)>, id: Seq<char>, slot: nat) -> bool {
    pending.contains((id, slot))
}

/// The waiting references, without those that wait for `id`.
pub open spec fn without_id(pending: Seq<(Seq<char>, nat)>, id: Seq<char>) -> Seq<
    (Seq<char>, nat),
>
    decreases pending.len(),
{
    if pending.len() == 0 {
        Seq::empty()
    } else if pending.last().0 == id {
        without_id(pending.drop_last(), id)
    } else {
        without_id(pending.drop_last(), id).push(pending.last())
    }
}

/// Meeting a definition: each reference waiting for its identifier gets it and stops
/// waiting, and it becomes the definition of its identifier.
pub open spec fn def_step(st: LinkState, d: DefView) -> LinkState {
    LinkState {
        defs: st.defs.push(d),
        pending: without_id(st.pending, d.0),
        resolved: Seq::new(
            st.resolved.len(),
            |s: int|
                if waits_for(st.pending, d.0, s as nat) {
                    Some(d)
                } else {
                    st.resolved[s]
                },
        ),
    }
}

/// Meeting a reference: it takes the next slot, which gets the current definition of its
/// identifier, or else waits for one.
pub open spec fn ref_step(st: LinkState, id: Seq<char>) -> LinkState {
    match last_def(st.defs, id) {
        Some(d) => LinkState {
            defs: st.defs,
            pending: st.pending,
            resolved: st.resolved.push(Some(d)),
        },
        None => LinkState {
            defs: st.defs,
            pending: st.pending.push((id, st.resolved.len())),
            resolved: st.resolved.push(None),
        },
    }
}

/// The link state after meeting the events in order.
pub open spec fn run_events(st: LinkState, evs: Seq<LinkEvent>) -> LinkState
    decreases evs.len(),
{
    if evs.len() == 0 {
        st
    } else {
        let st2 = run_events(st, evs.drop_last());
        match evs.last() {
            LinkEvent::Def(d) => def_step(st2, d),
            LinkEvent::Ref(id) => ref_step(st2, id),
        }
    }
}

/// The link state of a fresh renderer.
pub open spec fn empty_links() -> LinkState {
    LinkState { defs: Seq::empty(), pending: Seq::empty(), resolved: Seq::empty() }
}

/// The positions of the references among the events.
pub open spec fn ref_positions(evs: Seq<LinkEvent>) -> Seq<int>
    decreases evs.len(),
{
    if evs.len() == 0 {
        Seq::empty()
    } else {
        match evs.last() {
            LinkEvent::Ref(_) => ref_positions(evs.drop_last()).push(evs.len() - 1),
            LinkEvent::Def(_) => ref_positions(evs.drop_last()),
        }
    }
}

/// The last definition of `id` among the first `e` events.
pub open spec fn def_before(evs: Seq<LinkEvent>, e: int, id: Seq<char>) -> Option<DefView>
    decreases e,
{
    if e <= 0 {
        None
    } else {
        match evs[e - 1] {
            LinkEvent::Def(d) => if d.0 == id {
                Some(d)
            } else {
                def_before(evs, e - 1, id)
            },
            _ => def_before(evs, e - 1, id),
        }
    }
}

/// The first definition of `id` among the events from position `e` on.
pub open spec fn def_after(evs: Seq<LinkEvent>, e: int, id: Seq<char>) -> Option<DefView>
    decreases evs.len() - e,
{
    if e < 0 || e >= evs.len() {
        None
    } else {
        match evs[e] {
            LinkEvent::Def(d) => if d.0 == id {
                Some(d)
            } else {
                def_after(evs, e + 1, id)
            },
            _ => def_after(evs, e + 1, id),
        }
    }
}

/// The definition that the reference at position `e` ends up with: the last definition of
/// its identifier before it, or else the first one after it.
pub open spec fn resolution(evs: Seq<LinkEvent>, e: int) -> Option<DefView> {
    match evs[e] {
        LinkEvent::Ref(id) => match def_before(evs, e, id) {
            Some(d) => Some(d),
            None => def_after(evs, e + 1, id),
        },
        _ => None,
    }
}

} // verus!

verus! {

proof fn lemma_contains_push<A>(s: Seq<A>, a: A, x: A)
    ensures
        s.push(a).contains(x) <==> (s.contains(x) || x == a),
{
    if s.contains(x) {
        let i = choose|i: int| 0 <= i < s.len() && s[i] == x;
        assert(s.push(a)[i] == x);
    }
    if x == a {
        assert(s.push(a)[s.len() as int] == a);
    }
    if s.push(a).contains(x) {
        let i = choose|i: int| 0 <= i < s.push(a).len() && s.push(a)[i] == x;
        if i < s.len() {
            assert(s[i] == x);
        }
    }
}

proof fn lemma_without_id(pending: Seq<(Seq<char>, nat)>, id: Seq<char>, x: (Seq<char>, nat))
    ensures
        without_id(pending, id).contains(x) <==> (pending.contains(x) && x.0 != id),
    decreases pending.len(),
{
    if pending.len() > 0 {
        lemma_without_id(pending.drop_last(), id, x);
        lemma_contains_push(pending.drop_last(), pending.last(), x);
        assert(pending.drop_last().push(pending.last()) == pending);
        if pending.last().0 != id {
            lemma_contains_push(without_id(pending.drop_last(), id), pending.last(), x);
        }
    }
}

proof fn lemma_def_before_prefix(evs: Seq<LinkEvent>, ev: LinkEvent, e: int, id: Seq<char>)
    requires
        e <= evs.len(),
    ensures
        def_before(evs.push(ev), e, id) == def_before(evs, e, id),
    decreases e,
{
    if e > 0 {
        lemma_def_before_prefix(evs, ev, e - 1, id);
        assert(evs.push(ev)[e - 1] == evs[e - 1]);
    }
}

proof fn lemma_def_after_push(evs: Seq<LinkEvent>, ev: LinkEvent, j: int, id: Seq<char>)
    requires
        0 <= j <= evs.len(),
    ensures
        def_after(evs.push(ev), j, id) == match def_after(evs, j, id) {
            Some(d) => Some(d),
            None => match ev {
                LinkEvent::Def(d) => if d.0 == id {
                    Some(d)
                } else {
                    None
                },
                _ => None,
            },
        },
    decreases evs.len() - j,
{
    if j < evs.len() {
        lemma_def_after_push(evs, ev, j + 1, id);
        assert(evs.push(ev)[j] == evs[j]);
    } else {
        assert(evs.push(ev)[j] == ev);
        assert(def_after(evs.push(ev), j + 1, id) is None);
        assert(def_after(evs, j, id) is None);
    }
}

/// The reference at a position: its identifier.
pub open spec fn ref_id(ev: LinkEvent) -> Seq<char> {
    match ev {
        LinkEvent::Ref(id) => id,
        LinkEvent::Def(d) => d.0,
    }
}

/// What the link state after `evs` is known to be.
pub open spec fn links_after(evs: Seq<LinkEvent>) -> bool {
    let st = run_events(empty_links(), evs);
    let r = ref_positions(evs);
    &&& st.resolved.len() == r.len()
    &&& forall|id: Seq<char>| #[trigger] last_def(st.defs, id) == def_before(evs, evs.len() as int, id)
    &&& forall|k: int|
        0 <= k < r.len() ==> {
            &&& 0 <= #[trigger] r[k] < evs.len()
            &&& evs[r[k]] is Ref
            &&& st.resolved[k] == resolution(evs, r[k])
        }
    &&& forall|id: Seq<char>, k: nat|
        #[trigger] waits_for(st.pending, id, k) <==> (k < r.len() && id == ref_id(evs[r[k as int]])
            && def_before(evs, r[k as int], id) is None && def_after(evs, r[k as int] + 1, id)
            is None)
}

proof fn lemma_links_after(evs: Seq<LinkEvent>)
    ensures
        links_after(evs),
    decreases evs.len(),
{
    if evs.len() == 0 {
        return;
    }
    let p = evs.drop_last();
    let ev = evs.last();
    lemma_links_after(p);
    assert(p.push(ev) == evs);
    let st = run_events(empty_links(), p);
    let r = ref_positions(p);
    let st2 = run_events(empty_links(), evs);
    let r2 = ref_positions(evs);
    assert forall|e: int, id: Seq<char>| 0 <= e <= p.len() implies #[trigger] def_before(evs, e, id)
        == def_before(p, e, id) by {
        lemma_def_before_prefix(p, ev, e, id);
    }
    assert forall|j: int, id: Seq<char>| 0 <= j <= p.len() implies #[trigger] def_after(evs, j, id)
        == match def_after(p, j, id) {
        Some(d) => Some(d),
        None => match ev {
            LinkEvent::Def(d) => if d.0 == id {
                Some(d)
            } else {
                None
            },
            _ => None,
        },
    } by {
        lemma_def_after_push(p, ev, j, id);
    }
    match ev {
        LinkEvent::Def(d) => {
            assert(st2 == def_step(st, d));
            assert(r2 == r);
            assert forall|id: Seq<char>| #[trigger] last_def(st2.defs, id) == def_before(
                evs,
                evs.len() as int,
                id,
            ) by {
                assert(st2.defs == st.defs.push(d));
                assert(st2.defs.drop_last() == st.defs);
                assert(st2.defs.last() == d);
                assert(evs[p.len() as int] == ev);
                lemma_def_before_prefix(p, ev, p.len() as int, id);
                assert(def_before(evs, evs.len() as int, id) == if d.0 == id {
                    Some(d)
                } else {
                    def_before(evs, p.len() as int, id)
                });
                assert(last_def(st.defs, id) == def_before(p, p.len() as int, id));
            }
            assert forall|k: int| 0 <= k < r2.len() implies {
                &&& 0 <= #[trigger] r2[k] < evs.len()
                &&& evs[r2[k]] is Ref
                &&& st2.resolved[k] == resolution(evs, r2[k])
            } by {
                let e = r[k];
                assert(evs[e] == p[e]);
                let id = ref_id(p[e]);
                assert(waits_for(st.pending, id, k as nat) == (def_before(p, e, id) is None
                    && def_after(p, e + 1, id) is None));
                if waits_for(st.pending, d.0, k as nat) {
                    assert(d.0 == id);
                }
            }
            assert forall|id: Seq<char>, k: nat| #[trigger] waits_for(st2.pending, id, k) <==> (k
                < r2.len() && id == ref_id(evs[r2[k as int]]) && def_before(evs, r2[k as int], id)
                is None && def_after(evs, r2[k as int] + 1, id) is None) by {
                lemma_without_id(st.pending, d.0, (id, k));
                assert(waits_for(st.pending, id, k) <==> (k < r.len() && id == ref_id(
                    p[r[k as int]],
                ) && def_before(p, r[k as int], id) is None && def_after(p, r[k as int] + 1, id)
                    is None));
                if k < r.len() {
                    assert(evs[r[k as int]] == p[r[k as int]]);
                }
            }
        },
        LinkEvent::Ref(id0) => {
            assert(st2 == ref_step(st, id0));
            assert(r2 == r.push(p.len() as int));
            assert forall|id: Seq<char>| #[trigger] last_def(st2.defs, id) == def_before(
                evs,
                evs.len() as int,
                id,
            ) by {
                assert(evs[p.len() as int] == ev);
                lemma_def_before_prefix(p, ev, p.len() as int, id);
            }
            assert forall|k: int| 0 <= k < r2.len() implies {
                &&& 0 <= #[trigger] r2[k] < evs.len()
                &&& evs[r2[k]] is Ref
                &&& st2.resolved[k] == resolution(evs, r2[k])
            } by {
                if k < r.len() {
                    assert(r2[k] == r[k]);
                    assert(evs[r[k]] == p[r[k]]);
                } else {
                    assert(r2[k] == p.len());
                    assert(evs[p.len() as int] == ev);
                    assert(def_before(evs, p.len() as int, id0) == last_def(st.defs, id0));
                }
            }
            assert forall|id: Seq<char>, k: nat| #[trigger] waits_for(st2.pending, id, k) <==> (k
                < r2.len() && id == ref_id(evs[r2[k as int]]) && def_before(evs, r2[k as int], id)
                is None && def_after(evs, r2[k as int] + 1, id) is None) by {
                assert(waits_for(st.pending, id, k) <==> (k < r.len() && id == ref_id(
                    p[r[k as int]],
                ) && def_before(p, r[k as int], id) is None && def_after(p, r[k as int] + 1, id)
                    is None));
                if last_def(st.defs, id0) is None {
                    lemma_contains_push(st.pending, (id0, st.resolved.len()), (id, k));
                }
                if k < r.len() {
                    assert(r2[k as int] == r[k as int]);
                    assert(evs[r[k as int]] == p[r[k as int]]);
                } else if k == r.len() {
                    assert(evs[p.len() as int] == ev);
                    assert(def_before(evs, p.len() as int, id0) == last_def(st.defs, id0));
                }
            }
        },
    }
}

/// Law: reading a document, each link reference ends up with the last definition of its
/// identifier before it, or, if there is none, the first one after it; a reference with no
/// definition of its identifier anywhere gets none.
pub proof fn link_references_resolve(evs: Seq<LinkEvent>)
    ensures
        run_events(empty_links(), evs).resolved.len() == ref_positions(evs).len(),
        forall|k: int|
            0 <= k < ref_positions(evs).len() ==> run_events(empty_links(), evs).resolved[k]
                == resolution(evs, #[trigger] ref_positions(evs)[k]),
{
    lemma_links_after(evs);
}

/// Law: the link state of a renderer that reads one document after another (`make_md_view`
/// on each) is that of one document holding all their links in turn; so the slot of every
/// reference, in whichever document, holds the last definition of its identifier before it,
/// or else the first one after it, also where that definition comes in a later document.
/// `resolved_view` shows every reference of the first document with what its slot holds
/// then.
pub proof fn links_resolve_across_documents(first: Seq<LinkEvent>, second: Seq<LinkEvent>)
    ensures
        run_events(run_events(empty_links(), first), second) == run_events(
            empty_links(),
            first + second,
        ),
        forall|k: int|
            0 <= k < ref_positions(first + second).len() ==> run_events(
                run_events(empty_links(), first),
                second,
            ).resolved[k] == resolution(first + second, #[trigger] ref_positions(first + second)[k]),
{
    lemma_run_events_concat(empty_links(), first, second);
    link_references_resolve(first + second);
}

} // verus!

verus! {

// ---------------------------------------------------------------------------------------------
// Code highlighting and number formatting
// ---------------------------------------------------------------------------------------------

/// A highlighted piece of code: foreground and background colours, and the text.
pub type Span = ((u8, u8, u8), (u8, u8, u8), Seq<char>);

/// What syntect's `HighlightLines` gives, line after line, for `code` in the syntax at
/// position `syntax` of its default set, with the theme read from `theme` (a `.tmTheme`
/// file); none where the theme does not load, the position is past the end, or a line fails.
pub uninterp spec fn syntect_spans(theme: Seq<u8>, syntax: nat, code: Seq<char>) -> Option<
    Seq<Span>,
>;

/// What `str::to_lowercase` gives for `s`.
pub uninterp spec fn unicode_str_lowercase(s: Seq<char>) -> Seq<char>;

/// `str::to_lowercase`; the result is named `unicode_str_lowercase`.
#[verifier::external_body]
fn str_to_lowercase(s: &str) -> (r: String)
    ensures
        r@ == unicode_str_lowercase(s@),
{
    s.to_lowercase()
}

/// The name of the syntax at position `i` of syntect's default set
/// (`SyntaxSet::load_defaults_newlines`, which syntect bundles), `None` past its end.
pub uninterp spec fn syntect_syntax_name(i: nat) -> Option<Seq<char>>;

/// Whether `names` are the names of syntect's default syntaxes, in order.
pub open spec fn are_default_syntax_names(names: Seq<Seq<char>>) -> bool {
    &&& forall|i: int| 0 <= i < names.len() ==> syntect_syntax_name(i as nat) == Some(#[trigger] names[i])
    &&& syntect_syntax_name(names.len()) is None
}

/// The names of syntect's default syntaxes, in order.
pub open spec fn default_syntax_names_spec() -> Seq<Seq<char>> {
    choose|names: Seq<Seq<char>>| are_default_syntax_names(names)
}

/// The code style of a renderer with the theme `theme` and syntect's default syntaxes.
pub open spec fn default_code_style(theme: Seq<u8>) -> CodeStyle {
    CodeStyle { theme, names: default_syntax_names_spec() }
}

/// Only one list of names is the list of the default syntaxes' names.
pub proof fn lemma_default_syntax_names(names: Seq<Seq<char>>)
    requires
        are_default_syntax_names(names),
    ensures
        default_syntax_names_spec() == names,
{
    let other = default_syntax_names_spec();
    assert(are_default_syntax_names(other));
    if other.len() < names.len() {
        assert(syntect_syntax_name(other.len()) == Some(names[other.len() as int]));
    } else if names.len() < other.len() {
        assert(syntect_syntax_name(names.len()) == Some(other[names.len() as int]));
    }
    assert forall|i: int| 0 <= i < names.len() implies other[i] == names[i] by {
        assert(syntect_syntax_name(i as nat) == Some(names[i]));
        assert(syntect_syntax_name(i as nat) == Some(other[i]));
    }
    assert(other =~= names);
}

/// The names of the syntaxes of syntect's default set (`SyntaxSet::load_defaults_newlines`),
/// in order, named position by position by `syntect_syntax_name`; the set that syntect
/// bundles is not empty.
#[verifier::external_body]
fn default_syntax_names() -> (r: Vec<String>)
    ensures
        r@.len() > 0,
        forall|i: int| 0 <= i < r@.len() ==> syntect_syntax_name(i as nat) == Some(#[trigger] r@[i]@),
        syntect_syntax_name(r@.len()) is None,
{
    let ss = syntect::parsing::SyntaxSet::load_defaults_newlines();
    ss.syntaxes().iter().map(|s| s.name.clone()).collect()
}

/// syntect's `ThemeSet::load_from_reader` on `theme`, `HighlightLines::new` on the syntax at
/// `syntax` in the default set, and `highlight_line` on each line of `code`
/// (`LinesWithEndings`), the pieces taken apart into colours and text. The result is named
/// `syntect_spans`.
#[verifier::external_body]
fn highlight_code(theme: &[u8], syntax: usize, code: &str) -> (r: Option<
    Vec<((u8, u8, u8), (u8, u8, u8), String)>,
>)
    ensures
        match r {
            Some(v) => syntect_spans(theme@, syntax as nat, code@) == Some(spans_view(v@)),
            None => syntect_spans(theme@, syntax as nat, code@) is None,
        },
{
    let ss = syntect::parsing::SyntaxSet::load_defaults_newlines();
    let theme = syntect::highlighting::ThemeSet::load_from_reader(&mut std::io::Cursor::new(theme)).ok()?;
    let mut h = syntect::easy::HighlightLines::new(ss.syntaxes().get(syntax)?, &theme);
    let mut out = Vec::new();
    for line in syntect::util::LinesWithEndings::from(code) {
        for (st, t) in h.highlight_line(line, &ss).ok()? {
            let (f, b) = (st.foreground, st.background);
            out.push(((f.r, f.g, f.b), (b.r, b.g, b.b), t.to_string()));
        }
    }
    Some(out)
}

/// Highlighted pieces as colours and character sequences.
pub open spec fn spans_view(v: Seq<((u8, u8, u8), (u8, u8, u8), String)>) -> Seq<Span> {
    v.map_values(|p: ((u8, u8, u8), (u8, u8, u8), String)| (p.0, p.1, p.2@))
}

/// The position of the first syntax from position `i` on whose lowercased name is `lang`,
/// or 0 if none is.
pub open spec fn syntax_index_from(names: Seq<Seq<char>>, lang: Seq<char>, i: int) -> nat
    decreases names.len() - i,
{
    if i < 0 || i >= names.len() {
        0
    } else if unicode_str_lowercase(names[i]) == lang {
        i as nat
    } else {
        syntax_index_from(names, lang, i + 1)
    }
}

/// The position of the first syntax whose lowercased name is `lang`, or 0 if none is.
pub open spec fn syntax_index(names: Seq<Seq<char>>, lang: Seq<char>) -> nat {
    syntax_index_from(names, lang, 0)
}

/// The lowercase hexadecimal digit of `n` (0 to 15).
pub open spec fn hex_digit(n: int) -> char {
    if n < 10 {
        ((n + 48) as u8) as char
    } else {
        ((n + 87) as u8) as char
    }
}

/// A colour as `#rrggbb` in lowercase hexadecimal (`format!("#{:02x}{:02x}{:02x}", ..)`).
pub open spec fn hex_color(c: (u8, u8, u8)) -> Seq<char> {
    seq![
        '#',
        hex_digit((c.0 / 16) as int),
        hex_digit((c.0 % 16) as int),
        hex_digit((c.1 / 16) as int),
        hex_digit((c.1 % 16) as int),
        hex_digit((c.2 / 16) as int),
        hex_digit((c.2 % 16) as int),
    ]
}

fn hex_char(n: u8) -> (c: char)
    requires
        n < 16,
    ensures
        c == hex_digit(n as int),
{
    if n < 10 {
        (n + 48) as char
    } else {
        (n + 87) as char
    }
}

/// A colour as `#rrggbb`.
fn color_text(c: (u8, u8, u8)) -> (r: String)
    ensures
        r@ == hex_color(c),
{
    let mut s = String::new();
    push_char(&mut s, '#');
    push_char(&mut s, hex_char(c.0 / 16));
    push_char(&mut s, hex_char(c.0 % 16));
    push_char(&mut s, hex_char(c.1 / 16));
    push_char(&mut s, hex_char(c.1 % 16));
    push_char(&mut s, hex_char(c.2 / 16));
    push_char(&mut s, hex_char(c.2 % 16));
    assert(s@ =~= hex_color(c));
    s
}

/// `n` in decimal (`u32::to_string`).
pub open spec fn decimal(n: nat) -> Seq<char>
    decreases n,
{
    if n < 10 {
        seq![((n + 48) as u8) as char]
    } else {
        decimal(n / 10).push(((n % 10 + 48) as u8) as char)
    }
}

/// `n` in decimal.
fn decimal_text(n: u32) -> (r: String)
    ensures
        r@ == decimal(n as nat),
    decreases n,
{
    if n < 10 {
        let mut s = String::new();
        push_char(&mut s, ((n as u8) + 48) as char);
        s
    } else {
        let mut s = decimal_text(n / 10);
        push_char(&mut s, (((n % 10) as u8) + 48) as char);
        s
    }
}

} // verus!

verus! {

// ---------------------------------------------------------------------------------------------
// The view of a markdown tree
// ---------------------------------------------------------------------------------------------

/// The link events of a node, in the order the renderer meets them: those of its children,
/// then its own (a definition, or a reference after its children).
pub open spec fn md_events(n: MdNode) -> Seq<LinkEvent>
    decreases n,
{
    let inner = if has_children(n.kind) {
        md_events_list(n.children@)
    } else {
        Seq::empty()
    };
    match n.kind {
        MdKind::Definition { identifier, url, title } => seq![
            LinkEvent::Def((identifier@, url@, opt_view(title))),
        ],
        MdKind::LinkReference { identifier } => inner.push(LinkEvent::Ref(identifier@)),
        _ => inner,
    }
}

/// The link events of the nodes, one after another.
pub open spec fn md_events_list(cs: Seq<MdNode>) -> Seq<LinkEvent>
    decreases cs,
{
    if cs.len() == 0 {
        Seq::empty()
    } else {
        md_events_list(cs.drop_last()) + md_events(cs.last())
    }
}

/// The number of references among the events.
pub open spec fn ref_count(evs: Seq<LinkEvent>) -> nat {
    ref_positions(evs).len()
}

/// An optional text, or the empty text (`unwrap_or_default`).
pub open spec fn or_empty(s: Option<Seq<char>>) -> Seq<char> {
    match s {
        Some(t) => t,
        None => Seq::empty(),
    }
}

/// The class of a list item: whether its task box is checked.
pub open spec fn checked_class(checked: Option<bool>) -> Seq<char> {
    match checked {
        Some(true) => "todo-checked"@,
        Some(false) => "todo-unchecked"@,
        None => Seq::empty(),
    }
}

/// The link after a heading of levels 1 to 3, to the heading itself.
pub open spec fn section_link_view(id: Seq<char>) -> HtmlView {
    element_view(
        "a"@,
        seq![("class"@, "heading-link"@), ("href"@, "#"@ + id)],
        seq![HtmlView::Text("\u{1f517}"@)],
    )
}

/// The view of a heading of level `depth` with anchor `id` and content `cv`.
pub open spec fn heading_view(depth: u8, id: Seq<char>, cv: Seq<HtmlView>) -> HtmlView {
    if depth == 1 {
        element_view("h1"@, seq![("id"@, id)], cv.push(section_link_view(id)))
    } else if depth == 2 {
        element_view("h2"@, seq![("id"@, id)], cv.push(section_link_view(id)))
    } else if depth == 3 {
        element_view("h3"@, seq![("id"@, id)], cv.push(section_link_view(id)))
    } else if depth == 4 {
        element_view("h4"@, Seq::empty(), cv)
    } else if depth == 5 {
        element_view("h5"@, Seq::empty(), cv)
    } else {
        element_view("h6"@, Seq::empty(), cv)
    }
}

/// One highlighted piece of code: a `span` coloured as the theme says.
pub open spec fn span_view(sp: Span) -> HtmlView {
    HtmlView::Element {
        name: "span"@,
        attributes: Seq::empty(),
        styles: seq![("color"@, hex_color(sp.0)), ("background"@, hex_color(sp.1))],
        children: seq![HtmlView::Text(sp.2)],
    }
}

/// The spans of highlighted code.
pub open spec fn span_views(sps: Seq<Span>) -> Seq<HtmlView>
    decreases sps.len(),
{
    if sps.len() == 0 {
        Seq::empty()
    } else {
        span_views(sps.drop_last()).push(span_view(sps.last()))
    }
}

/// A highlighted code block.
pub open spec fn code_block_view(sps: Seq<Span>) -> HtmlView {
    element_view(
        "div"@,
        seq![("class"@, "code-wrapper"@)],
        seq![element_view("pre"@, seq![("class"@, "code-snippet"@)], span_views(sps))],
    )
}

/// What a renderer needs beyond the tree: the theme for code and the names of the syntaxes.
pub ghost struct CodeStyle {
    pub theme: Seq<u8>,
    pub names: Seq<Seq<char>>,
}

/// Whether the renderer renders `n` without failing: no node of a kind it does not support
/// (footnotes, MDX, math, TOML, YAML), raw HTML that parsed, tables with a head row,
/// headings whose anchors are defined, and code with a language that highlights.
pub open spec fn renderable(n: MdNode, cs: CodeStyle) -> bool
    decreases n,
{
    match n.kind {
        MdKind::Root | MdKind::Blockquote | MdKind::List { .. } | MdKind::Delete
        | MdKind::Emphasis | MdKind::Strong | MdKind::Paragraph | MdKind::TableRow
        | MdKind::TableCell | MdKind::ListItem { .. } | MdKind::Link { .. }
        | MdKind::LinkReference { .. } => all_renderable(n.children@, cs),
        MdKind::Heading { .. } => all_renderable(n.children@, cs) && link_texts_defined(
            n.children@,
        ),
        MdKind::Table => n.children@.len() > 0 && all_renderable(n.children@, cs),
        MdKind::Code { value, lang: Some(l) } => syntect_spans(
            cs.theme,
            syntax_index(cs.names, l@),
            value@,
        ) is Some,
        MdKind::Html { value } => html_fragment(value@) is Some,
        MdKind::Break | MdKind::ThematicBreak | MdKind::InlineCode { .. } | MdKind::Image { .. }
        | MdKind::Text { .. } | MdKind::Definition { .. } | MdKind::Code { lang: None, .. } => true,
        MdKind::FootnoteDefinition | MdKind::Yaml { .. } | MdKind::MdxTextExpression { .. }
        | MdKind::Unsupported => false,
    }
}

/// Whether the renderer renders each of the nodes without failing.
pub open spec fn all_renderable(ns: Seq<MdNode>, cs: CodeStyle) -> bool
    decreases ns,
{
    ns.len() == 0 || (all_renderable(ns.drop_last(), cs) && renderable(ns.last(), cs))
}

/// The view of a markdown node, given the definition held by each reference slot (`res`),
/// the number of references met before it (`k`) and the code style.
pub open spec fn md_view(n: MdNode, res: Seq<Option<DefView>>, k: int, cs: CodeStyle) -> Seq<
    HtmlView,
>
    decreases n,
{
    let cv = md_views(n.children@, res, k, cs);
    match n.kind {
        MdKind::Root => cv,
        MdKind::Blockquote => seq![element_view("blockquote"@, Seq::empty(), cv)],
        MdKind::List { ordered, start } => if ordered {
            seq![
                element_view(
                    "ol"@,
                    seq![
                        (
                            "start"@,
                            match start {
                                Some(s) => decimal(s as nat),
                                None => "1"@,
                            },
                        ),
                    ],
                    cv,
                ),
            ]
        } else {
            seq![element_view("ul"@, Seq::empty(), cv)]
        },
        MdKind::Break | MdKind::ThematicBreak => seq![
            element_view("br"@, Seq::empty(), Seq::empty()),
        ],
        MdKind::InlineCode { value } => seq![
            element_view("code"@, Seq::empty(), seq![HtmlView::Text(value@)]),
        ],
        MdKind::Delete => seq![element_view("del"@, Seq::empty(), cv)],
        MdKind::Emphasis => seq![element_view("em"@, Seq::empty(), cv)],
        MdKind::Strong => seq![element_view("strong"@, Seq::empty(), cv)],
        MdKind::Paragraph => seq![element_view("p"@, Seq::empty(), cv)],
        MdKind::TableRow => seq![element_view("tr"@, Seq::empty(), cv)],
        MdKind::TableCell => seq![element_view("td"@, Seq::empty(), cv)],
        MdKind::Html { value } => match html_fragment(value@) {
            Some(f) => raw_html_views(f),
            None => Seq::empty(),
        },
        MdKind::Image { alt, url, title } => seq![
            element_view(
                "img"@,
                seq![("alt"@, alt@), ("src"@, url@), ("title"@, or_empty(opt_view(title)))],
                Seq::empty(),
            ),
        ],
        MdKind::Link { url, title } => seq![
            element_view(
                "a"@,
                seq![("href"@, url@), ("title"@, or_empty(opt_view(title)))],
                cv,
            ),
        ],
        MdKind::LinkReference { .. } => {
            let d = res[k + ref_count(md_events_list(n.children@))];
            seq![
                element_view(
                    "a"@,
                    seq![
                        (
                            "href"@,
                            match d {
                                Some(d) => d.1,
                                None => Seq::empty(),
                            },
                        ),
                        (
                            "title"@,
                            match d {
                                Some(d) => or_empty(d.2),
                                None => Seq::empty(),
                            },
                        ),
                    ],
                    cv,
                ),
            ]
        },
        MdKind::Text { value } => seq![HtmlView::Text(value@)],
        MdKind::Code { value, lang: Some(l) } => match syntect_spans(
            cs.theme,
            syntax_index(cs.names, l@),
            value@,
        ) {
            Some(sps) => seq![code_block_view(sps)],
            None => Seq::empty(),
        },
        MdKind::Code { value, lang: None } => seq![
            element_view(
                "code"@,
                seq![("class"@, Seq::empty())],
                seq![element_view("pre"@, Seq::empty(), seq![HtmlView::Text(value@)])],
            ),
        ],
        MdKind::Heading { depth } => seq![heading_view(depth, link_texts(n.children@), cv)],
        MdKind::Table => if n.children@.len() > 0 {
            let head = n.children@[0];
            let rest = n.children@.drop_first();
            let head_view = if head.kind is TableRow {
                seq![element_view("thead"@, Seq::empty(), head_cells(head.children@, res, k, cs))]
            } else {
                md_view(head, res, k, cs)
            };
            let k2 = k + ref_count(md_events(head));
            seq![
                element_view(
                    "table"@,
                    Seq::empty(),
                    head_view.push(
                        element_view("tbody"@, Seq::empty(), md_views(rest, res, k2, cs)),
                    ),
                ),
            ]
        } else {
            Seq::empty()
        },
        MdKind::ListItem { checked } => seq![
            element_view("li"@, seq![("class"@, checked_class(checked))], cv),
        ],
        _ => Seq::empty(),
    }
}

/// The views of the nodes, one after another, the first one with `k` references before it.
pub open spec fn md_views(ns: Seq<MdNode>, res: Seq<Option<DefView>>, k: int, cs: CodeStyle) -> Seq<
    HtmlView,
>
    decreases ns,
{
    if ns.len() == 0 {
        Seq::empty()
    } else {
        md_views(ns.drop_last(), res, k, cs) + md_view(
            ns.last(),
            res,
            k + ref_count(md_events_list(ns.drop_last())),
            cs,
        )
    }
}

/// The views of the cells of a table's head row: a cell becomes a `th`.
pub open spec fn head_cells(ns: Seq<MdNode>, res: Seq<Option<DefView>>, k: int, cs: CodeStyle) -> Seq<
    HtmlView,
>
    decreases ns,
{
    if ns.len() == 0 {
        Seq::empty()
    } else {
        let c = ns.last();
        let kc = k + ref_count(md_events_list(ns.drop_last()));
        head_cells(ns.drop_last(), res, k, cs) + if c.kind is TableCell {
            seq![element_view("th"@, Seq::empty(), md_views(c.children@, res, kc, cs))]
        } else {
            md_view(c, res, kc, cs)
        }
    }
}

} // verus!

verus! {

proof fn lemma_run_events_concat(st: LinkState, a: Seq<LinkEvent>, b: Seq<LinkEvent>)
    ensures
        run_events(st, a + b) == run_events(run_events(st, a), b),
    decreases b.len(),
{
    if b.len() == 0 {
        assert(a + b == a);
    } else {
        lemma_run_events_concat(st, a, b.drop_last());
        assert((a + b).drop_last() == a + b.drop_last());
        assert((a + b).last() == b.last());
    }
}

proof fn lemma_ref_count_concat(a: Seq<LinkEvent>, b: Seq<LinkEvent>)
    ensures
        ref_count(a + b) == ref_count(a) + ref_count(b),
    decreases b.len(),
{
    if b.len() == 0 {
        assert(a + b == a);
    } else {
        lemma_ref_count_concat(a, b.drop_last());
        assert((a + b).drop_last() == a + b.drop_last());
        assert((a + b).last() == b.last());
    }
}

proof fn lemma_resolved_len(st: LinkState, evs: Seq<LinkEvent>)
    ensures
        run_events(st, evs).resolved.len() == st.resolved.len() + ref_count(evs),
    decreases evs.len(),
{
    if evs.len() > 0 {
        lemma_resolved_len(st, evs.drop_last());
    }
}

proof fn lemma_events_list_front(cs: Seq<MdNode>)
    requires
        cs.len() > 0,
    ensures
        md_events_list(cs) == md_events(cs[0]) + md_events_list(cs.drop_first()),
    decreases cs.len(),
{
    if cs.len() == 1 {
        assert(cs.drop_last() == Seq::<MdNode>::empty());
        assert(cs.drop_first() == Seq::<MdNode>::empty());
        assert(md_events_list(Seq::<MdNode>::empty()) == Seq::<LinkEvent>::empty());
        assert(md_events(cs[0]) + Seq::<LinkEvent>::empty() == md_events(cs[0]));
        assert(Seq::<LinkEvent>::empty() + md_events(cs[0]) == md_events(cs[0]));
    } else {
        lemma_events_list_front(cs.drop_last());
        assert(cs.drop_last().drop_first() == cs.drop_first().drop_last());
        assert(cs.drop_first().last() == cs.last());
        assert(cs.drop_last()[0] == cs[0]);
    }
}

proof fn lemma_all_renderable(ns: Seq<MdNode>, cs: CodeStyle, i: int)
    requires
        all_renderable(ns, cs),
        0 <= i < ns.len(),
    ensures
        renderable(ns[i], cs),
    decreases ns.len(),
{
    if i < ns.len() - 1 {
        lemma_all_renderable(ns.drop_last(), cs, i);
        assert(ns.drop_last()[i] == ns[i]);
    }
}

proof fn lemma_all_renderable_skip(ns: Seq<MdNode>, cs: CodeStyle, from: int)
    requires
        all_renderable(ns, cs),
        0 <= from <= ns.len(),
    ensures
        all_renderable(ns.skip(from), cs),
    decreases ns.len() - from,
{
    lemma_all_renderable_range(ns, cs, from, ns.len() as int);
    assert(ns.subrange(from, ns.len() as int) == ns.skip(from));
}

proof fn lemma_all_renderable_range(ns: Seq<MdNode>, cs: CodeStyle, from: int, to: int)
    requires
        all_renderable(ns, cs),
        0 <= from <= to <= ns.len(),
    ensures
        all_renderable(ns.subrange(from, to), cs),
    decreases to - from,
{
    if to > from {
        lemma_all_renderable_range(ns, cs, from, to - 1);
        lemma_all_renderable(ns, cs, to - 1);
        assert(ns.subrange(from, to).drop_last() == ns.subrange(from, to - 1));
    }
}

/// A link definition as an optional view.
pub open spec fn opt_def(o: Option<Definition>) -> Option<DefView> {
    match o {
        Some(d) => Some(d@),
        None => None,
    }
}

/// Renders markdown trees into HTML views: keeps the link definitions met so far, the link
/// references still waiting for one, the definition that each reference slot holds, and the
/// theme and syntaxes for code.
pub struct AstRenderer {
    link_defs: Vec<Definition>,
    link_refs: Vec<(String, usize)>,
    resolved: Vec<Option<Definition>>,
    theme: Vec<u8>,
    syntax_names: Vec<String>,
}

impl AstRenderer {
    /// The link state.
    pub closed spec fn links(&self) -> LinkState {
        LinkState {
            defs: self.link_defs@.map_values(|d: Definition| d@),
            pending: self.link_refs@.map_values(|p: (String, usize)| (p.0@, p.1 as nat)),
            resolved: self.resolved@.map_values(|o: Option<Definition>| opt_def(o)),
        }
    }

    /// The code style.
    pub closed spec fn code_style(&self) -> CodeStyle {
        CodeStyle {
            theme: self.theme@,
            names: self.syntax_names@.map_values(|n: String| n@),
        }
    }

    /// Every waiting reference has a slot.
    pub closed spec fn wf(&self) -> bool {
        forall|i: int|
            0 <= i < self.link_refs@.len() ==> #[trigger] self.link_refs@[i].1 < self.resolved@.len()
    }

    /// A renderer that has met no links, highlighting code with the `.tmTheme` theme
    /// `theme` and syntect's default syntaxes.
    pub fn new(theme: Vec<u8>) -> (r: AstRenderer)
        ensures
            r.wf(),
            r.links() == empty_links(),
            r.code_style() == default_code_style(theme@),
    {
        let names = default_syntax_names();
        let ghost nv = names@.map_values(|n: String| n@);
        assert(are_default_syntax_names(nv)) by {
            assert forall|i: int| 0 <= i < nv.len() implies syntect_syntax_name(i as nat) == Some(
                #[trigger] nv[i],
            ) by {
                assert(nv[i] == names@[i]@);
            }
        }
        proof {
            lemma_default_syntax_names(nv);
        }
        let r = AstRenderer {
            link_defs: Vec::new(),
            link_refs: Vec::new(),
            resolved: Vec::new(),
            theme,
            syntax_names: names,
        };
        assert(r.links().defs =~= Seq::<DefView>::empty());
        assert(r.links().pending =~= Seq::<(Seq<char>, nat)>::empty());
        assert(r.links().resolved =~= Seq::<Option<DefView>>::empty());
        r
    }

    /// Meets a link reference with identifier `key`: it takes the next slot (which is
    /// returned), holding the current definition of `key` if there is one, or else waiting
    /// for one.
    pub fn insert_proxy(&mut self, key: &str) -> (slot: usize)
        requires
            old(self).wf(),
        ensures
            final(self).wf(),
            final(self).links() == ref_step(old(self).links(), key@),
            final(self).code_style() == old(self).code_style(),
            slot == old(self).links().resolved.len(),
    {
        let ghost st = self.links();
        let slot = self.resolved.len();
        let mut n = self.link_defs.len();
        assert(st.defs.take(n as int) == st.defs);
        while n > 0
            invariant
                n <= self.link_defs.len(),
                st == self.links(),
                *self == *old(self),
                old(self).wf(),
                slot == old(self).resolved@.len(),
                last_def(st.defs, key@) == last_def(st.defs.take(n as int), key@),
            decreases n,
        {
            assert(st.defs.take(n as int).drop_last() == st.defs.take(n - 1));
            assert(st.defs.take(n as int).last() == self.link_defs@[n - 1]@);
            if same_str(self.link_defs[n - 1].identifier.as_str(), key) {
                let d = self.link_defs[n - 1].copy();
                self.resolved.push(Some(d));
                assert(self.links().resolved =~= st.resolved.push(Some(d@)));
                assert(self.links().pending == st.pending);
                assert(self.links().defs == st.defs);
                return slot;
            }
            n = n - 1;
        }
        self.resolved.push(None);
        self.link_refs.push((key.to_owned(), slot));
        assert(self.links().resolved =~= st.resolved.push(None));
        assert(self.links().pending =~= st.pending.push((key@, slot as nat)));
        assert(self.links().defs == st.defs);
        slot
    }

    /// Meets a link definition: each reference waiting for its identifier gets it and stops
    /// waiting, and it becomes the definition of its identifier.
    pub fn insert_def(&mut self, def: Definition)
        requires
            old(self).wf(),
        ensures
            final(self).wf(),
            final(self).links() == def_step(old(self).links(), def@),
            final(self).code_style() == old(self).code_style(),
    {
        let ghost st = self.links();
        let ghost d = def@;
        let mut kept: Vec<(String, usize)> = Vec::new();
        let mut i: usize = 0;
        assert(st.pending.take(0) =~= Seq::<(Seq<char>, nat)>::empty());
        assert(self.links().resolved =~= Seq::new(
            st.resolved.len(),
            |s: int|
                if waits_for(st.pending.take(0), d.0, s as nat) {
                    Some(d)
                } else {
                    st.resolved[s]
                },
        ));
        while i < self.link_refs.len()
            invariant
                i <= self.link_refs.len(),
                self.link_refs@.map_values(|p: (String, usize)| (p.0@, p.1 as nat)) == st.pending,
                self.link_defs@.map_values(|d: Definition| d@) == st.defs,
                self.resolved@.len() == st.resolved.len(),
                old(self).wf(),
                self.link_refs == old(self).link_refs,
                self.theme == old(self).theme,
                self.syntax_names == old(self).syntax_names,
                st == old(self).links(),
                d == def@,
                forall|j: int| 0 <= j < kept@.len() ==> #[trigger] kept@[j].1 < self.resolved@.len(),
                kept@.map_values(|p: (String, usize)| (p.0@, p.1 as nat)) == without_id(
                    st.pending.take(i as int),
                    d.0,
                ),
                self.resolved@.map_values(|o: Option<Definition>| opt_def(o)) == Seq::new(
                    st.resolved.len(),
                    |s: int|
                        if waits_for(st.pending.take(i as int), d.0, s as nat) {
                            Some(d)
                        } else {
                            st.resolved[s]
                        },
                ),
            decreases self.link_refs.len() - i,
        {
            let ghost pi = st.pending[i as int];
            assert(st.pending.take(i + 1) == st.pending.take(i as int).push(pi));
            assert(st.pending.take(i + 1).drop_last() == st.pending.take(i as int));
            assert forall|id: Seq<char>, s: nat| #[trigger] waits_for(st.pending.take(i + 1), id, s)
                == (waits_for(st.pending.take(i as int), id, s) || (id, s) == pi) by {
                lemma_contains_push(st.pending.take(i as int), pi, (id, s));
            }
            let ghost kv = kept@.map_values(|p: (String, usize)| (p.0@, p.1 as nat));
            if same_str(self.link_refs[i].0.as_str(), def.identifier.as_str()) {
                let slot = self.link_refs[i].1;
                assert(old(self).link_refs@[i as int].1 < old(self).resolved@.len());
                assert(pi == (d.0, slot as nat));
                let ghost before = self.resolved@;
                let c = def.copy();
                self.resolved.set(slot, Some(c));
                assert forall|s: int| 0 <= s < st.resolved.len() implies #[trigger] opt_def(
                    self.resolved@[s],
                ) == if waits_for(st.pending.take(i + 1), d.0, s as nat) {
                    Some(d)
                } else {
                    st.resolved[s]
                } by {
                    if s != slot {
                        assert(self.resolved@[s] == before[s]);
                        assert(before.map_values(|o: Option<Definition>| opt_def(o))[s] == opt_def(
                            before[s],
                        ));
                        assert(opt_def(before[s]) == if waits_for(
                            st.pending.take(i as int),
                            d.0,
                            s as nat,
                        ) {
                            Some(d)
                        } else {
                            st.resolved[s]
                        });
                    }
                }
                assert(self.resolved@.map_values(|o: Option<Definition>| opt_def(o)) =~= Seq::new(
                    st.resolved.len(),
                    |s: int|
                        if waits_for(st.pending.take(i + 1), d.0, s as nat) {
                            Some(d)
                        } else {
                            st.resolved[s]
                        },
                ));
            } else {
                let e = (self.link_refs[i].0.clone(), self.link_refs[i].1);
                assert(old(self).link_refs@[i as int].1 < old(self).resolved@.len());
                kept.push(e);
                assert(kept@.map_values(|p: (String, usize)| (p.0@, p.1 as nat)) =~= kv.push(pi));
                assert(self.resolved@.map_values(|o: Option<Definition>| opt_def(o)) =~= Seq::new(
                    st.resolved.len(),
                    |s: int|
                        if waits_for(st.pending.take(i + 1), d.0, s as nat) {
                            Some(d)
                        } else {
                            st.resolved[s]
                        },
                ));
            }
            i = i + 1;
        }
        assert(st.pending.take(i as int) == st.pending);
        self.link_refs = kept;
        self.link_defs.push(def);
        assert(self.links().defs =~= st.defs.push(d));
        assert(self.links().pending == without_id(st.pending, d.0));
        assert(self.links().resolved == def_step(st, d).resolved);
    }
}

/// Whether two string slices hold the same text.
fn same_str(a: &str, b: &str) -> (r: bool)
    ensures
        r == (a@ == b@),
{
    a.to_owned() == b.to_owned()
}

} // verus!

verus! {

impl AstRenderer {
    /// Meets the link definitions and references of `node`, in order.
    fn collect_links(&mut self, node: &MdNode)
        requires
            old(self).wf(),
        ensures
            final(self).wf(),
            final(self).links() == run_events(old(self).links(), md_events(*node)),
            final(self).code_style() == old(self).code_style(),
        decreases node,
    {
        let ghost st0 = self.links();
        let ghost cs = node.children@;
        let has = kind_has_children(&node.kind);
        if has {
            let mut i: usize = 0;
            assert(cs.take(0) == Seq::<MdNode>::empty());
            while i < node.children.len()
                invariant
                    i <= node.children.len(),
                    cs == node.children@,
                    self.wf(),
                    self.links() == run_events(st0, md_events_list(cs.take(i as int))),
                    self.code_style() == old(self).code_style(),
                decreases node.children.len() - i,
            {
                assert(cs.take(i + 1).drop_last() == cs.take(i as int));
                assert(cs.take(i + 1).last() == cs[i as int]);
                proof {
                    vstd::std_specs::vec::axiom_vec_index_decreases(node.children, i as int);
                    lemma_run_events_concat(
                        st0,
                        md_events_list(cs.take(i as int)),
                        md_events(cs[i as int]),
                    );
                }
                self.collect_links(&node.children[i]);
                i = i + 1;
            }
            assert(cs.take(cs.len() as int) == cs);
        }
        let ghost inner = if has_children(node.kind) {
            md_events_list(cs)
        } else {
            Seq::empty()
        };
        assert(self.links() == run_events(st0, inner));
        match &node.kind {
            MdKind::Definition { identifier, url, title } => {
                let d = Definition {
                    identifier: identifier.clone(),
                    url: url.clone(),
                    title: match title {
                        Some(t) => Some(t.clone()),
                        None => None,
                    },
                };
                let ghost e = seq![LinkEvent::Def(d@)];
                assert(e.drop_last() == Seq::<LinkEvent>::empty());
                self.insert_def(d);
            },
            MdKind::LinkReference { identifier } => {
                let _ = self.insert_proxy(identifier.as_str());
                assert(inner.push(LinkEvent::Ref(identifier@)).drop_last() == inner);
            },
            _ => {},
        }
    }

    /// The view of the nodes `ns[from..]`, with `k` references met before them.
    fn view_from(&self, ns: &Vec<MdNode>, from: usize, k: &mut usize) -> (r: Vec<Node>)
        requires
            self.wf(),
            from <= ns.len(),
            all_renderable(ns@.skip(from as int), self.code_style()),
            *old(k) + ref_count(md_events_list(ns@.skip(from as int))) <= self.links().resolved.len(),
        ensures
            html_views(r@) == md_views(
                ns@.skip(from as int),
                self.links().resolved,
                *old(k) as int,
                self.code_style(),
            ),
            *final(k) == *old(k) + ref_count(md_events_list(ns@.skip(from as int))),
        decreases ns@.skip(from as int), 0nat,
    {
        let ghost xs = ns@.skip(from as int);
        let ghost k0 = *k as int;
        let mut out: Vec<Node> = Vec::new();
        let mut i: usize = from;
        assert(xs.take(0) == Seq::<MdNode>::empty());
        while i < ns.len()
            invariant
                from <= i <= ns.len(),
                xs == ns@.skip(from as int),
                self.wf(),
                all_renderable(xs, self.code_style()),
                k0 + ref_count(md_events_list(xs)) <= self.links().resolved.len(),
                *k == k0 + ref_count(md_events_list(xs.take(i - from))),
                html_views(out@) == md_views(
                    xs.take(i - from),
                    self.links().resolved,
                    k0,
                    self.code_style(),
                ),
            decreases ns.len() - i,
        {
            let ghost j = i - from;
            assert(xs.take(j + 1).drop_last() == xs.take(j));
            assert(xs.take(j + 1).last() == ns@[i as int]);
            assert(xs[j] == ns@[i as int]);
            proof {
                lemma_all_renderable(xs, self.code_style(), j);
                lemma_ref_count_concat(md_events_list(xs.take(j)), md_events(xs[j]));
                lemma_ref_count_concat(md_events_list(xs.take(j + 1)), md_events_list(xs.skip(j + 1)));
                lemma_events_list_split(xs, j + 1);
                vstd::std_specs::vec::axiom_vec_index_decreases(*ns, i as int);
                assert(decreases_to!(ns@.skip(from as int) => ns@[i as int]));
            }
            let v = self.view_node(&ns[i], k);
            append_nodes(&mut out, v);
            i = i + 1;
        }
        assert(xs.take(ns.len() - from) == xs);
        out
    }

    /// The view of `node`, with `k` references met before it.
    fn view_node(&self, node: &MdNode, k: &mut usize) -> (r: Vec<Node>)
        requires
            self.wf(),
            renderable(*node, self.code_style()),
            *old(k) + ref_count(md_events(*node)) <= self.links().resolved.len(),
        ensures
            html_views(r@) == md_view(*node, self.links().resolved, *old(k) as int, self.code_style()),
            *final(k) == *old(k) + ref_count(md_events(*node)),
        decreases *node, 1nat,
    {
        let ghost cs = node.children@;
        let ghost res = self.links().resolved;
        let ghost style = self.code_style();
        let ghost k0 = *k as int;
        proof {
            assert(cs.skip(0) == cs);
            assert(decreases_to!(*node => node.children));
            lemma_node_refs(*node);
        }
        match &node.kind {
            MdKind::Root => {
                self.view_from(&node.children, 0, k)
            },
            MdKind::Blockquote => {
                let cv = self.view_from(&node.children, 0, k);
                one(plain("blockquote", cv))
            },
            MdKind::List { ordered, start } => {
                let cv = self.view_from(&node.children, 0, k);
                if *ordered {
                    let start_text = match start {
                        Some(n) => decimal_text(*n),
                        None => "1".to_owned(),
                    };
                    let attrs = vec![("start".to_owned(), start_text)];
                    assert(pairs_view(attrs@) =~= seq![
                        (
                            "start"@,
                            match *start {
                                Some(s) => decimal(s as nat),
                                None => "1"@,
                            },
                        ),
                    ]);
                    one(element("ol", attrs, cv))
                } else {
                    one(plain("ul", cv))
                }
            },
            MdKind::Break | MdKind::ThematicBreak => {
                one(plain("br", Vec::new()))
            },
            MdKind::InlineCode { value } => {
                one(plain("code", one(text(value.as_str()))))
            },
            MdKind::Delete => {
                let cv = self.view_from(&node.children, 0, k);
                one(plain("del", cv))
            },
            MdKind::Emphasis => {
                let cv = self.view_from(&node.children, 0, k);
                one(plain("em", cv))
            },
            MdKind::Strong => {
                let cv = self.view_from(&node.children, 0, k);
                one(plain("strong", cv))
            },
            MdKind::Paragraph => {
                let cv = self.view_from(&node.children, 0, k);
                one(plain("p", cv))
            },
            MdKind::TableRow => {
                let cv = self.view_from(&node.children, 0, k);
                one(plain("tr", cv))
            },
            MdKind::TableCell => {
                let cv = self.view_from(&node.children, 0, k);
                one(plain("td", cv))
            },
            MdKind::Html { value } => match parse_html_fragment(value.as_str()) {
                Some(f) => raw_fragment_view(&f),
                None => Vec::new(),
            },
            MdKind::Image { alt, url, title } => {
                let attrs = vec![
                    attr("alt", alt.as_str()),
                    attr("src", url.as_str()),
                    attr("title", title_or_empty(title).as_str()),
                ];
                assert(pairs_view(attrs@) =~= seq![
                    ("alt"@, alt@),
                    ("src"@, url@),
                    ("title"@, or_empty(opt_view(*title))),
                ]);
                one(element("img", attrs, Vec::new()))
            },
            MdKind::Link { url, title } => {
                let cv = self.view_from(&node.children, 0, k);
                let attrs = vec![attr("href", url.as_str()), attr("title", title_or_empty(title).as_str())];
                assert(pairs_view(attrs@) =~= seq![
                    ("href"@, url@),
                    ("title"@, or_empty(opt_view(*title))),
                ]);
                one(element("a", attrs, cv))
            },
            MdKind::LinkReference { identifier } => {
                proof {
                    let inner = md_events_list(cs);
                    assert(md_events(*node) == inner.push(LinkEvent::Ref(identifier@)));
                    assert(inner.push(LinkEvent::Ref(identifier@)).drop_last() == inner);
                }
                let cv = self.view_from(&node.children, 0, k);
                assert(ref_count(md_events(*node)) == ref_count(md_events_list(cs)) + 1);
                let slot = *k;
                let n_slots = self.resolved.len();
                assert(slot < n_slots);
                assert(res[slot as int] == opt_def(self.resolved@[slot as int]));
                let ghost dv = res[slot as int];
                let mut href = String::new();
                let mut title = String::new();
                if let Some(d) = &self.resolved[slot] {
                    href = d.url.clone();
                    title = title_or_empty(&d.title);
                    assert(dv == Some(d@));
                }
                assert(href@ == match dv {
                    Some(d) => d.1,
                    None => Seq::<char>::empty(),
                });
                assert(title@ == match dv {
                    Some(d) => or_empty(d.2),
                    None => Seq::<char>::empty(),
                });
                assert(slot == k0 + ref_count(md_events_list(cs)));
                *k = slot + 1;
                let attrs = vec![attr("href", href.as_str()), attr("title", title.as_str())];
                assert(pairs_view(attrs@) =~= seq![("href"@, href@), ("title"@, title@)]);
                let ghost cvv = html_views(cv@);
                assert(cvv == md_views(cs, res, k0, style));
                let one_link = element("a", attrs, cv);
                assert(one_link@ == element_view("a"@, seq![("href"@, href@), ("title"@, title@)], cvv));
                assert(res[k0 + ref_count(md_events_list(node.children@))] == dv);
                assert(node.kind is LinkReference);
                assert(md_views(node.children@, res, k0, style) == cvv);
                let ghost hv = match dv {
                    Some(d) => d.1,
                    None => Seq::<char>::empty(),
                };
                let ghost tv = match dv {
                    Some(d) => or_empty(d.2),
                    None => Seq::<char>::empty(),
                };
                assert(md_view(*node, res, k0, style).len() == 1);
                assert(md_view(*node, res, k0, style)[0] is Element);
                assert(md_view(*node, res, k0, style)[0]->children == cvv);
                assert(md_view(*node, res, k0, style)[0]->attributes == seq![("href"@, hv), ("title"@, tv)]);
                assert(md_view(*node, res, k0, style) == seq![element_view("a"@, seq![("href"@, hv), ("title"@, tv)], cvv)]);
                assert(md_view(*node, res, k0, style) == seq![element_view("a"@, seq![("href"@, href@), ("title"@, title@)], cvv)]);
                one(one_link)
            },
            MdKind::Text { value } => one(text(value.as_str())),
            MdKind::Code { value, lang } => match lang {
                Some(l) => {
                    self.code_block(value, l)
                },
                None => {
                    let attrs = vec![("class".to_owned(), String::new())];
                    assert(pairs_view(attrs@) =~= seq![("class"@, Seq::<char>::empty())]);
                    let pre = plain("pre", one(text(value.as_str())));
                    one(element("code", attrs, one(pre)))
                },
            },
            MdKind::Heading { depth } => {
                let cv = self.view_from(&node.children, 0, k);
                let id = heading_id(&node.children);
                one(heading(*depth, id, cv))
            },
            MdKind::Table => {
                proof {
                    lemma_events_list_front(cs);
                    lemma_ref_count_concat(md_events(cs[0]), md_events_list(cs.drop_first()));
                    lemma_all_renderable(cs, style, 0);
                    lemma_all_renderable_skip(cs, style, 1);
                    assert(cs.skip(1) == cs.drop_first());
                    vstd::std_specs::vec::axiom_vec_index_decreases(node.children, 0);
                    assert(decreases_to!(*node => node.children@[0]));
                }
                let head = &node.children[0];
                let mut hv = if let MdKind::TableRow = &head.kind {
                    one(plain("thead", self.head_cells(head, k)))
                } else {
                    self.view_node(head, k)
                };
                let body = self.view_from(&node.children, 1, k);
                let tbody = plain("tbody", body);
                proof {
                    lemma_html_views_push(hv@, tbody);
                }
                hv.push(tbody);
                one(plain("table", hv))
            },
            MdKind::ListItem { checked } => {
                let cv = self.view_from(&node.children, 0, k);
                let class = match checked {
                    Some(true) => "todo-checked".to_owned(),
                    Some(false) => "todo-unchecked".to_owned(),
                    None => String::new(),
                };
                let attrs = vec![("class".to_owned(), class)];
                assert(pairs_view(attrs@) =~= seq![("class"@, checked_class(*checked))]);
                one(element("li", attrs, cv))
            },
            _ => Vec::new(),
        }
    }

    /// The `thead` content of a table's head row: each cell becomes a `th`.
    fn head_cells(&self, row: &MdNode, k: &mut usize) -> (r: Vec<Node>)
        requires
            self.wf(),
            row.kind is TableRow,
            renderable(*row, self.code_style()),
            *old(k) + ref_count(md_events(*row)) <= self.links().resolved.len(),
        ensures
            html_views(r@) == head_cells(
                row.children@,
                self.links().resolved,
                *old(k) as int,
                self.code_style(),
            ),
            *final(k) == *old(k) + ref_count(md_events(*row)),
        decreases *row, 0nat,
    {
        let ghost cs = row.children@;
        let ghost k0 = *k as int;
        let ghost style = self.code_style();
        let mut out: Vec<Node> = Vec::new();
        let mut i: usize = 0;
        assert(cs.take(0) == Seq::<MdNode>::empty());
        while i < row.children.len()
            invariant
                i <= row.children.len(),
                cs == row.children@,
                self.wf(),
                all_renderable(cs, style),
                style == self.code_style(),
                k0 + ref_count(md_events_list(cs)) <= self.links().resolved.len(),
                *k == k0 + ref_count(md_events_list(cs.take(i as int))),
                html_views(out@) == head_cells(cs.take(i as int), self.links().resolved, k0, style),
            decreases row.children.len() - i,
        {
            assert(cs.take(i + 1).drop_last() == cs.take(i as int));
            assert(cs.take(i + 1).last() == cs[i as int]);
            proof {
                lemma_all_renderable(cs, style, i as int);
                lemma_ref_count_concat(md_events_list(cs.take(i as int)), md_events(cs[i as int]));
                lemma_ref_count_concat(
                    md_events_list(cs.take(i + 1)),
                    md_events_list(cs.skip(i + 1)),
                );
                lemma_events_list_split(cs, i + 1);
                vstd::std_specs::vec::axiom_vec_index_decreases(row.children, i as int);
                assert(decreases_to!(*row => row.children@[i as int]));
            }
            let cell = &row.children[i];
            let v = if let MdKind::TableCell = &cell.kind {
                proof {
                    assert(cell.children@.skip(0) == cell.children@);
                    assert(decreases_to!(*cell => cell.children));
                }
                let cv = self.view_from(&cell.children, 0, k);
                one(plain("th", cv))
            } else {
                self.view_node(cell, k)
            };
            append_nodes(&mut out, v);
            i = i + 1;
        }
        assert(cs.take(cs.len() as int) == cs);
        out
    }

    /// The position of the first syntax whose lowercased name is `lang`, or 0.
    fn find_syntax(&self, lang: &String) -> (idx: usize)
        ensures
            idx as nat == syntax_index(self.code_style().names, lang@),
    {
        let ghost names = self.code_style().names;
        let mut i: usize = 0;
        while i < self.syntax_names.len()
            invariant
                i <= self.syntax_names.len(),
                names == self.syntax_names@.map_values(|n: String| n@),
                syntax_index(names, lang@) == syntax_index_from(names, lang@, i as int),
            decreases self.syntax_names.len() - i,
        {
            let lower = str_to_lowercase(self.syntax_names[i].as_str());
            if same(&lower, lang) {
                return i;
            }
            i = i + 1;
        }
        0
    }

    /// A highlighted code block.
    fn code_block(&self, value: &String, lang: &String) -> (r: Vec<Node>)
        requires
            syntect_spans(
                self.code_style().theme,
                syntax_index(self.code_style().names, lang@),
                value@,
            ) is Some,
        ensures
            html_views(r@) == seq![
                code_block_view(
                    syntect_spans(
                        self.code_style().theme,
                        syntax_index(self.code_style().names, lang@),
                        value@,
                    )->0,
                ),
            ],
    {
        let idx = self.find_syntax(lang);
        let spans = match highlight_code(self.theme.as_slice(), idx, value.as_str()) {
            Some(v) => v,
            None => {
                return Vec::new();
            },
        };
        let mut pieces: Vec<Node> = Vec::new();
        let mut j: usize = 0;
        while j < spans.len()
            invariant
                j <= spans.len(),
                html_views(pieces@) == span_views(spans_view(spans@).take(j as int)),
            decreases spans.len() - j,
        {
            assert(spans_view(spans@).take(j + 1).drop_last() == spans_view(spans@).take(j as int));
            let ((fr, fg, fb), (br, bg, bb), t) = &spans[j];
            let styles = vec![
                ("color".to_owned(), color_text((*fr, *fg, *fb))),
                ("background".to_owned(), color_text((*br, *bg, *bb))),
            ];
            let sp = Node::Element {
                name: "span".to_owned(),
                attributes: Vec::new(),
                styles,
                children: one(text(t.as_str())),
            };
            assert(pairs_view(styles@) =~= seq![
                ("color"@, hex_color(spans@[j as int].0)),
                ("background"@, hex_color(spans@[j as int].1)),
            ]);
            assert(pairs_view(Seq::<(String, String)>::empty()) =~= Seq::empty());
            assert(sp@ == span_view(spans_view(spans@)[j as int]));
            proof {
                lemma_html_views_push(pieces@, sp);
            }
            pieces.push(sp);
            j = j + 1;
        }
        assert(spans_view(spans@).take(spans.len() as int) == spans_view(spans@));
        let attrs_pre = vec![attr("class", "code-snippet")];
        assert(pairs_view(attrs_pre@) =~= seq![("class"@, "code-snippet"@)]);
        let pre = element("pre", attrs_pre, pieces);
        let attrs_div = vec![attr("class", "code-wrapper")];
        assert(pairs_view(attrs_div@) =~= seq![("class"@, "code-wrapper"@)]);
        one(element("div", attrs_div, one(pre)))
    }
}

/// A list of one node.
fn one(n: Node) -> (r: Vec<Node>)
    ensures
        html_views(r@) == seq![n@],
{
    let v = vec![n];
    assert(v@.drop_last() == Seq::<Node>::empty());
    assert(html_views(Seq::<Node>::empty()) == Seq::<HtmlView>::empty());
    v
}

/// An optional title, or the empty string.
fn title_or_empty(t: &Option<String>) -> (r: String)
    ensures
        r@ == or_empty(opt_view(*t)),
{
    match t {
        Some(t) => t.clone(),
        None => String::new(),
    }
}

/// The views of raw HTML nodes, comments left out.
fn raw_fragment_view(f: &Vec<RawHtml>) -> (r: Vec<Node>)
    ensures
        html_views(r@) == raw_html_views(raw_views(f@)),
{
    let mut out: Vec<Node> = Vec::new();
    let mut i: usize = 0;
    while i < f.len()
        invariant
            i <= f.len(),
            html_views(out@) == raw_html_views(raw_views(f@.take(i as int))),
        decreases f.len() - i,
    {
        assert(f@.take(i + 1).drop_last() == f@.take(i as int));
        assert(f@.take(i + 1).last() == f@[i as int]);
        let ghost rv = raw_views(f@.take(i as int));
        assert(raw_views(f@.take(i + 1)) == rv.push(raw_view(f@[i as int])));
        assert(rv.push(raw_view(f@[i as int])).drop_last() == rv);
        if let Some(h) = make_html_view(&f[i]) {
            proof {
                lemma_html_views_push(out@, h);
            }
            out.push(h);
        }
        i = i + 1;
    }
    assert(f@.take(f.len() as int) == f@);
    out
}

/// The anchor of a heading: the anchor texts of its children, one after another.
fn heading_id(children: &Vec<MdNode>) -> (r: String)
    requires
        link_texts_defined(children@),
    ensures
        r@ == link_texts(children@),
{
    let mut s = String::new();
    let mut i: usize = 0;
    while i < children.len()
        invariant
            i <= children.len(),
            link_texts_defined(children@),
            s@ == link_texts(children@.take(i as int)),
        decreases children.len() - i,
    {
        assert(children@.take(i + 1).drop_last() == children@.take(i as int));
        assert(children@.take(i + 1).last() == children@[i as int]);
        proof {
            lemma_link_texts_defined(children@, i as int);
        }
        let t = as_link_text(&children[i]);
        push_str(&mut s, t.as_str());
        i = i + 1;
    }
    assert(children@.take(children.len() as int) == children@);
    s
}

/// A heading of level `depth` with anchor `id` and content `cv`.
fn heading(depth: u8, id: String, cv: Vec<Node>) -> (r: Node)
    ensures
        r@ == heading_view(depth, id@, html_views(cv@)),
{
    if depth <= 3 && depth >= 1 {
        let mut href = String::new();
        push_str(&mut href, "#");
        push_str(&mut href, id.as_str());
        let link_attrs = vec![attr("class", "heading-link"), ("href".to_owned(), href)];
        assert(pairs_view(link_attrs@) =~= seq![("class"@, "heading-link"@), ("href"@, "#"@ + id@)]);
        let link = element("a", link_attrs, one(text("\u{1f517}")));
        let mut children = cv;
        proof {
            lemma_html_views_push(children@, link);
        }
        children.push(link);
        let attrs = vec![attr("id", id.as_str())];
        assert(pairs_view(attrs@) =~= seq![("id"@, id@)]);
        if depth == 1 {
            element("h1", attrs, children)
        } else if depth == 2 {
            element("h2", attrs, children)
        } else {
            element("h3", attrs, children)
        }
    } else if depth == 4 {
        plain("h4", cv)
    } else if depth == 5 {
        plain("h5", cv)
    } else {
        plain("h6", cv)
    }
}

} // verus!

verus! {

proof fn lemma_node_refs(n: MdNode)
    ensures
        !has_children(n.kind) ==> ref_count(md_events(n)) == 0,
        has_children(n.kind) && !(n.kind is LinkReference) ==> ref_count(md_events(n)) == ref_count(
            md_events_list(n.children@),
        ),
{
    if !has_children(n.kind) {
        if let MdKind::Definition { identifier, url, title } = n.kind {
            let e = seq![LinkEvent::Def((identifier@, url@, opt_view(title)))];
            assert(e.drop_last() == Seq::<LinkEvent>::empty());
            assert(ref_positions(Seq::<LinkEvent>::empty()) == Seq::<int>::empty());
        }
    }
}

proof fn lemma_events_list_split(cs: Seq<MdNode>, i: int)
    requires
        0 <= i <= cs.len(),
    ensures
        md_events_list(cs) == md_events_list(cs.take(i)) + md_events_list(cs.skip(i)),
    decreases cs.len() - i,
{
    if i == cs.len() {
        assert(cs.take(i) == cs);
        assert(cs.skip(i) == Seq::<MdNode>::empty());
        assert(md_events_list(cs) + Seq::<LinkEvent>::empty() == md_events_list(cs));
    } else {
        lemma_events_list_split(cs, i + 1);
        lemma_events_list_front(cs.skip(i));
        assert(cs.skip(i).drop_first() == cs.skip(i + 1));
        assert(cs.skip(i)[0] == cs[i]);
        assert(cs.take(i + 1).drop_last() == cs.take(i));
        assert(cs.take(i + 1).last() == cs[i]);
    }
}

} // verus!

verus! {

impl AstRenderer {
    /// The number of reference slots taken so far: the first slot of the next document.
    pub fn slot_count(&self) -> (n: usize)
        ensures
            n == self.links().resolved.len(),
    {
        self.resolved.len()
    }

    /// The view of a document read before, made again now: its references take their slots
    /// from `first_slot` on, and each shows the definition its slot holds now, so a reference
    /// that a later document's definition resolved shows that definition.
    pub fn resolved_view(&self, node: &MdNode, first_slot: usize) -> (r: Vec<Node>)
        requires
            self.wf(),
            renderable(*node, self.code_style()),
            first_slot + ref_count(md_events(*node)) <= self.links().resolved.len(),
        ensures
            html_views(r@) == md_view(
                *node,
                self.links().resolved,
                first_slot as int,
                self.code_style(),
            ),
    {
        let mut k = first_slot;
        self.view_node(node, &mut k)
    }

    /// Renders `node` as a whole document: meets all its link definitions and references,
    /// then makes its view, each reference with the definition its slot holds at the end of
    /// this document. The view is a value; `resolved_view` makes it again once later
    /// documents have filled more slots.
    pub fn make_md_view(&mut self, node: &MdNode) -> (r: Vec<Node>)
        requires
            old(self).wf(),
            renderable(*node, old(self).code_style()),
        ensures
            final(self).wf(),
            final(self).code_style() == old(self).code_style(),
            final(self).links() == run_events(old(self).links(), md_events(*node)),
            html_views(r@) == md_view(
                *node,
                final(self).links().resolved,
                old(self).links().resolved.len() as int,
                old(self).code_style(),
            ),
    {
        let ghost st0 = self.links();
        let mut k = self.resolved.len();
        assert(st0.resolved.len() == k);
        self.collect_links(node);
        proof {
            lemma_resolved_len(st0, md_events(*node));
        }
        self.view_node(node, &mut k)
    }

    /// Whether the anchor text of `n` is defined.
    fn link_text_ok(n: &MdNode) -> (r: bool)
        ensures
            r == link_text_defined(*n),
        decreases n,
    {
        if let MdKind::Root = &n.kind {
            return false;
        }
        let recurses = match &n.kind {
            MdKind::Blockquote | MdKind::FootnoteDefinition | MdKind::List { .. }
            | MdKind::Emphasis | MdKind::Strong | MdKind::Heading { .. } | MdKind::Table => true,
            _ => false,
        };
        if !recurses {
            return true;
        }
        Self::link_texts_ok(&n.children)
    }

    /// Whether the anchor texts of the nodes are defined.
    fn link_texts_ok(ns: &Vec<MdNode>) -> (r: bool)
        ensures
            r == link_texts_defined(ns@),
        decreases ns@,
    {
        let mut i: usize = 0;
        assert(ns@.take(0) == Seq::<MdNode>::empty());
        while i < ns.len()
            invariant
                i <= ns.len(),
                link_texts_defined(ns@.take(i as int)),
            decreases ns.len() - i,
        {
            assert(ns@.take(i + 1).drop_last() == ns@.take(i as int));
            assert(ns@.take(i + 1).last() == ns@[i as int]);
            proof {
                vstd::std_specs::vec::axiom_vec_index_decreases(*ns, i as int);
                assert(decreases_to!(ns@ => ns@[i as int]));
            }
            if !Self::link_text_ok(&ns[i]) {
                proof {
                    lemma_link_texts_defined_prefix(ns@, i + 1);
                }
                return false;
            }
            i = i + 1;
        }
        assert(ns@.take(ns.len() as int) == ns@);
        true
    }

    /// Whether this renderer renders `node` without failing.
    pub fn check_renderable(&self, node: &MdNode) -> (r: bool)
        ensures
            r == renderable(*node, self.code_style()),
        decreases node,
    {
        match &node.kind {
            MdKind::Root | MdKind::Blockquote | MdKind::List { .. } | MdKind::Delete
            | MdKind::Emphasis | MdKind::Strong | MdKind::Paragraph | MdKind::TableRow
            | MdKind::TableCell | MdKind::ListItem { .. } | MdKind::Link { .. }
            | MdKind::LinkReference { .. } => {
                proof {
                    assert(decreases_to!(*node => node.children));
                }
                self.check_all(&node.children)
            },
            MdKind::Heading { .. } => {
                proof {
                    assert(decreases_to!(*node => node.children));
                }
                self.check_all(&node.children) && Self::link_texts_ok(&node.children)
            },
            MdKind::Table => {
                proof {
                    assert(decreases_to!(*node => node.children));
                }
                node.children.len() > 0 && self.check_all(&node.children)
            },
            MdKind::Code { value, lang: Some(l) } => {
                let idx = self.find_syntax(l);
                highlight_code(self.theme.as_slice(), idx, value.as_str()).is_some()
            },
            MdKind::Html { value } => parse_html_fragment(value.as_str()).is_some(),
            MdKind::Break | MdKind::ThematicBreak | MdKind::InlineCode { .. } | MdKind::Image { .. }
            | MdKind::Text { .. } | MdKind::Definition { .. } | MdKind::Code { lang: None, .. } => true,
            MdKind::FootnoteDefinition | MdKind::Yaml { .. } | MdKind::MdxTextExpression { .. }
            | MdKind::Unsupported => false,
        }
    }

    /// Whether this renderer renders each of the nodes without failing.
    fn check_all(&self, ns: &Vec<MdNode>) -> (r: bool)
        ensures
            r == all_renderable(ns@, self.code_style()),
        decreases ns@,
    {
        let mut i: usize = 0;
        assert(ns@.take(0) == Seq::<MdNode>::empty());
        while i < ns.len()
            invariant
                i <= ns.len(),
                all_renderable(ns@.take(i as int), self.code_style()),
            decreases ns.len() - i,
        {
            assert(ns@.take(i + 1).drop_last() == ns@.take(i as int));
            assert(ns@.take(i + 1).last() == ns@[i as int]);
            proof {
                vstd::std_specs::vec::axiom_vec_index_decreases(*ns, i as int);
                assert(decreases_to!(ns@ => ns@[i as int]));
            }
            if !self.check_renderable(&ns[i]) {
                proof {
                    lemma_all_renderable_prefix(ns@, self.code_style(), i + 1);
                }
                return false;
            }
            i = i + 1;
        }
        assert(ns@.take(ns.len() as int) == ns@);
        true
    }

    /// Renders `node` as a whole document, as `make_md_view` does, if this renderer renders
    /// it without failing; otherwise changes nothing and gives `None`.
    pub fn try_make_md_view(&mut self, node: &MdNode) -> (r: Option<Vec<Node>>)
        requires
            old(self).wf(),
        ensures
            final(self).wf(),
            final(self).code_style() == old(self).code_style(),
            r is None <==> !renderable(*node, old(self).code_style()),
            r is None ==> final(self).links() == old(self).links(),
            r matches Some(v) ==> final(self).links() == run_events(old(self).links(), md_events(*node))
                && html_views(v@) == md_view(
                *node,
                final(self).links().resolved,
                old(self).links().resolved.len() as int,
                old(self).code_style(),
            ),
    {
        if self.check_renderable(node) {
            Some(self.make_md_view(node))
        } else {
            None
        }
    }
}

proof fn lemma_link_texts_defined_prefix(ns: Seq<MdNode>, n: int)
    requires
        0 <= n <= ns.len(),
        !link_texts_defined(ns.take(n)),
    ensures
        !link_texts_defined(ns),
    decreases ns.len() - n,
{
    if n < ns.len() {
        assert(ns.take(n + 1).drop_last() == ns.take(n));
        lemma_link_texts_defined_prefix(ns, n + 1);
    } else {
        assert(ns.take(n) == ns);
    }
}

proof fn lemma_all_renderable_prefix(ns: Seq<MdNode>, cs: CodeStyle, n: int)
    requires
        0 <= n <= ns.len(),
        !all_renderable(ns.take(n), cs),
    ensures
        !all_renderable(ns, cs),
    decreases ns.len() - n,
{
    if n < ns.len() {
        assert(ns.take(n + 1).drop_last() == ns.take(n));
        lemma_all_renderable_prefix(ns, cs, n + 1);
    } else {
        assert(ns.take(n) == ns);
    }
}

/// A markdown document made into a view, with the title from its frontmatter.
pub struct InterpolatedMarkdown {
    pub title: Option<String>,
    pub view: Vec<Node>,
}

impl InterpolatedMarkdown {
    /// A document with this view and no title.
    pub fn new(view: Vec<Node>) -> (r: InterpolatedMarkdown)
        ensures
            r.title is None,
            r.view@ == view@,
    {
        InterpolatedMarkdown { title: None, view }
    }
}

/// Interpolates a markdown document (the tree the `markdown` crate parses, with its YAML
/// frontmatter already taken out and read into `meta`): its view, made by a fresh renderer
/// with the code theme `theme`, and the title of its frontmatter. Gives `None` where the
/// renderer would fail on the tree (see `renderable`).
pub fn interpolate_markdown(node: &MdNode, meta: Option<ContentMeta>, theme: Vec<u8>) -> (r:
    Option<InterpolatedMarkdown>)
    ensures
        r is None <==> !renderable(*node, default_code_style(theme@)),
        r matches Some(imd) ==> html_views(imd.view@) == md_view(
            *node,
            run_events(empty_links(), md_events(*node)).resolved,
            0,
            default_code_style(theme@),
        ),
        r matches Some(imd) ==> opt_view(imd.title) == match meta {
            Some(m) => Some(m.title@),
            None => None,
        },
{
    let mut renderer = AstRenderer::new(theme);
    let view = renderer.try_make_md_view(node);
    let r = match view {
        Some(v) => {
            let mut md = InterpolatedMarkdown::new(v);
            md.title = match meta {
                Some(m) => Some(m.title),
                None => None,
            };
            Some(md)
        },
        None => None,
    };
    r
}

} // verus!

verus! {

proof fn lemma_filtered_hold_none(cs: Seq<MdNode>)
    ensures
        frontmatter_in(cs.filter(|c: MdNode| no_frontmatter(c))) is None,
    decreases cs.len(),
{
    if cs.len() > 0 {
        let rest = cs.drop_last();
        lemma_filtered_hold_none(rest);
        lemma_filter_push(rest, cs.last());
        assert(rest.push(cs.last()) == cs);
        let f = rest.filter(|c: MdNode| no_frontmatter(c));
        if no_frontmatter(cs.last()) {
            assert(f.push(cs.last()).drop_last() == f);
        }
    }
}

/// Law: once `get_frontmatter` has taken the frontmatter out of a node that is not itself
/// YAML, the node holds none, so a second call finds nothing.
pub proof fn frontmatter_taken_out_once(before: MdNode, after: MdNode)
    requires
        !(before.kind is Yaml),
        after.kind == before.kind,
        has_children(before.kind) ==> after.children@ == before.children@.filter(
            |c: MdNode| no_frontmatter(c),
        ),
        !has_children(before.kind) ==> after == before,
    ensures
        frontmatter_of(after) is None,
{
    if has_children(before.kind) {
        lemma_filtered_hold_none(before.children@);
    }
}

} // verus!

verus! {

// ---------------------------------------------------------------------------------------------
// Attribute lists ordered by key
// ---------------------------------------------------------------------------------------------

/// Whether the keys of `l` go up strictly in the order of strings.
pub open spec fn key_sorted(l: Seq<(Seq<char>, Seq<char>)>) -> bool {
    forall|i: int, j: int| 0 <= i < j < l.len() ==> text_lt(#[trigger] l[i].0, #[trigger] l[j].0)
}

/// The map from each key of `l` to its value (where a key occurs twice, the first pair counts).
pub open spec fn entries(l: Seq<(Seq<char>, Seq<char>)>) -> Map<Seq<char>, Seq<char>>
    decreases l.len(),
{
    if l.len() == 0 {
        Map::empty()
    } else {
        entries(l.drop_first()).insert(l[0].0, l[0].1)
    }
}

/// The entries of a map as a list ordered by key (what `BTreeMap` walks through).
pub open spec fn sorted_entries(m: Map<Seq<char>, Seq<char>>) -> Seq<(Seq<char>, Seq<char>)> {
    choose|l: Seq<(Seq<char>, Seq<char>)>| key_sorted(l) && entries(l) == m
}

proof fn lemma_text_lt_irreflexive(a: Seq<char>)
    ensures
        !text_lt(a, a),
    decreases a.len(),
{
    if a.len() > 0 {
        lemma_text_lt_irreflexive(a.drop_first());
    }
}

proof fn lemma_text_lt_transitive(a: Seq<char>, b: Seq<char>, c: Seq<char>)
    requires
        text_lt(a, b),
        text_lt(b, c),
    ensures
        text_lt(a, c),
    decreases a.len(),
{
    if a.len() > 0 && b.len() > 0 && c.len() > 0 && a[0] == b[0] && b[0] == c[0] {
        lemma_text_lt_transitive(a.drop_first(), b.drop_first(), c.drop_first());
    }
}

proof fn lemma_text_lt_total(a: Seq<char>, b: Seq<char>)
    requires
        a != b,
    ensures
        text_lt(a, b) || text_lt(b, a),
    decreases a.len(),
{
    if a.len() > 0 && b.len() > 0 && a[0] == b[0] {
        assert(a == seq![a[0]] + a.drop_first());
        assert(b == seq![b[0]] + b.drop_first());
        lemma_text_lt_total(a.drop_first(), b.drop_first());
    } else if a.len() == 0 && b.len() == 0 {
        assert(a =~= b);
    }
}

proof fn lemma_entries_keys(l: Seq<(Seq<char>, Seq<char>)>)
    ensures
        forall|i: int| 0 <= i < l.len() ==> entries(l).dom().contains(#[trigger] l[i].0),
        forall|k: Seq<char>|
            #[trigger] entries(l).dom().contains(k) ==> exists|i: int| 0 <= i < l.len() && l[i].0 == k,
    decreases l.len(),
{
    if l.len() > 0 {
        let d = l.drop_first();
        lemma_entries_keys(d);
        assert forall|i: int| 0 <= i < l.len() implies entries(l).dom().contains(#[trigger] l[i].0) by {
            if i > 0 {
                assert(l[i] == d[i - 1]);
            }
        }
        assert forall|k: Seq<char>| #[trigger] entries(l).dom().contains(k) implies exists|i: int|
            0 <= i < l.len() && l[i].0 == k by {
            if k == l[0].0 {
                assert(0 <= 0 < l.len() && l[0].0 == k);
            } else {
                assert(entries(d).dom().contains(k));
                let j = choose|j: int| 0 <= j < d.len() && d[j].0 == k;
                assert(l[j + 1] == d[j]);
                assert(0 <= j + 1 < l.len() && l[j + 1].0 == k);
            }
        }
    }
}

proof fn lemma_key_sorted_drop_first(l: Seq<(Seq<char>, Seq<char>)>)
    requires
        key_sorted(l),
        l.len() > 0,
    ensures
        key_sorted(l.drop_first()),
        !entries(l.drop_first()).dom().contains(l[0].0),
        entries(l.drop_first()) == entries(l).remove(l[0].0),
{
    let d = l.drop_first();
    assert forall|i: int, j: int| 0 <= i < j < d.len() implies text_lt(#[trigger] d[i].0, #[trigger] d[j].0) by {
        assert(d[i] == l[i + 1] && d[j] == l[j + 1]);
    }
    lemma_entries_keys(d);
    if entries(d).dom().contains(l[0].0) {
        let j = choose|j: int| 0 <= j < d.len() && d[j].0 == l[0].0;
        assert(d[j] == l[j + 1]);
        assert(text_lt(l[0].0, l[j + 1].0));
        lemma_text_lt_irreflexive(l[0].0);
    }
    assert(entries(d) =~= entries(l).remove(l[0].0));
}

proof fn lemma_key_sorted_values(l: Seq<(Seq<char>, Seq<char>)>)
    requires
        key_sorted(l),
    ensures
        forall|i: int| 0 <= i < l.len() ==> entries(l)[#[trigger] l[i].0] == l[i].1,
    decreases l.len(),
{
    if l.len() > 0 {
        let d = l.drop_first();
        lemma_key_sorted_drop_first(l);
        lemma_key_sorted_values(d);
        assert forall|i: int| 0 <= i < l.len() implies entries(l)[#[trigger] l[i].0] == l[i].1 by {
            if i > 0 {
                assert(l[i] == d[i - 1]);
                assert(text_lt(l[0].0, l[i].0));
                lemma_text_lt_irreflexive(l[0].0);
            }
        }
    }
}

/// Putting a pair into a key-ordered list keeps it ordered, with the pair's key mapped to the
/// pair's value.
proof fn lemma_insert_sorted(l: Seq<(Seq<char>, Seq<char>)>, k: Seq<char>, v: Seq<char>)
    requires
        key_sorted(l),
    ensures
        key_sorted(insert_sorted(l, k, v)),
        entries(insert_sorted(l, k, v)) == entries(l).insert(k, v),
    decreases l.len(),
{
    let r = insert_sorted(l, k, v);
    if l.len() == 0 {
        assert(r == seq![(k, v)]);
        assert(r.len() == 1 && r[0] == (k, v));
        assert(r.drop_first() =~= Seq::<(Seq<char>, Seq<char>)>::empty());
        assert(entries(Seq::<(Seq<char>, Seq<char>)>::empty()) == Map::<Seq<char>, Seq<char>>::empty());
        assert(entries(l) == Map::<Seq<char>, Seq<char>>::empty());
        assert(entries(r) == entries(r.drop_first()).insert(k, v));
        assert(entries(r) =~= entries(l).insert(k, v));
    } else if l[0].0 == k {
        let d = l.drop_first();
        lemma_key_sorted_drop_first(l);
        assert(r.drop_first() == d);
        assert forall|i: int, j: int| 0 <= i < j < r.len() implies text_lt(
            #[trigger] r[i].0,
            #[trigger] r[j].0,
        ) by {
            assert(r[j] == l[j]);
            if i > 0 {
                assert(r[i] == l[i]);
            }
        }
        assert(entries(r) =~= entries(l).insert(k, v));
    } else if text_lt(k, l[0].0) {
        assert(r.drop_first() == l);
        assert forall|i: int, j: int| 0 <= i < j < r.len() implies text_lt(
            #[trigger] r[i].0,
            #[trigger] r[j].0,
        ) by {
            assert(r[j] == l[j - 1]);
            if i > 0 {
                assert(r[i] == l[i - 1]);
            } else if j - 1 > 0 {
                assert(text_lt(l[0].0, l[j - 1].0));
                lemma_text_lt_transitive(k, l[0].0, l[j - 1].0);
            }
        }
    } else {
        let d = l.drop_first();
        lemma_text_lt_total(k, l[0].0);
        lemma_key_sorted_drop_first(l);
        lemma_insert_sorted(d, k, v);
        let rest = insert_sorted(d, k, v);
        assert(r == seq![l[0]] + rest);
        assert(r.drop_first() == rest);
        lemma_entries_keys(rest);
        lemma_entries_keys(d);
        assert forall|i: int, j: int| 0 <= i < j < r.len() implies text_lt(
            #[trigger] r[i].0,
            #[trigger] r[j].0,
        ) by {
            assert(r[j] == rest[j - 1]);
            if i > 0 {
                assert(r[i] == rest[i - 1]);
            } else {
                assert(entries(rest).dom().contains(rest[j - 1].0));
                if rest[j - 1].0 != k {
                    let m = choose|m: int| 0 <= m < d.len() && d[m].0 == rest[j - 1].0;
                    assert(d[m] == l[m + 1]);
                }
            }
        }
        assert(entries(r) =~= entries(l).insert(k, v));
    }
}

/// Two key-ordered lists with the same entries are the same list.
proof fn lemma_key_sorted_unique(a: Seq<(Seq<char>, Seq<char>)>, b: Seq<(Seq<char>, Seq<char>)>)
    requires
        key_sorted(a),
        key_sorted(b),
        entries(a) == entries(b),
    ensures
        a == b,
    decreases a.len(),
{
    lemma_entries_keys(a);
    lemma_entries_keys(b);
    if a.len() == 0 {
        if b.len() > 0 {
            assert(entries(b).dom().contains(b[0].0));
        }
        assert(a =~= b);
    } else {
        assert(entries(a).dom().contains(a[0].0));
        if b.len() == 0 {
            assert(false);
        }
        let ka = a[0].0;
        let kb = b[0].0;
        let j = choose|j: int| 0 <= j < b.len() && b[j].0 == ka;
        let i = choose|i: int| 0 <= i < a.len() && a[i].0 == kb;
        if ka != kb {
            assert(j > 0 && i > 0);
            assert(text_lt(kb, ka));
            assert(text_lt(ka, kb));
            lemma_text_lt_transitive(ka, kb, ka);
            lemma_text_lt_irreflexive(ka);
        }
        lemma_key_sorted_values(a);
        lemma_key_sorted_values(b);
        assert(a[0].1 == b[0].1);
        lemma_key_sorted_drop_first(a);
        lemma_key_sorted_drop_first(b);
        lemma_key_sorted_unique(a.drop_first(), b.drop_first());
        assert(a == seq![a[0]] + a.drop_first());
        assert(b == seq![b[0]] + b.drop_first());
    }
}

/// A key-ordered list is the ordered list of its own entries.
proof fn lemma_sorted_entries_of(l: Seq<(Seq<char>, Seq<char>)>)
    requires
        key_sorted(l),
    ensures
        sorted_entries(entries(l)) == l,
{
    let c = sorted_entries(entries(l));
    assert(key_sorted(c) && entries(c) == entries(l));
    lemma_key_sorted_unique(c, l);
}

} // verus!

verus! {

// ---------------------------------------------------------------------------------------------
// Parsing raw HTML
// ---------------------------------------------------------------------------------------------

/// One node of parsed HTML, in document order: text, an element with the number of its
/// children (whose nodes follow it), or a comment.
pub enum FlatHtml {
    Text(String),
    Element {
        name: String,
        id: Option<String>,
        attributes: Vec<(String, Option<String>)>,
        classes: Vec<String>,
        children: usize,
    },
    Comment,
}

/// One node of parsed HTML in document order, as a value.
pub ghost enum FlatHtmlView {
    Text(Seq<char>),
    Element {
        name: Seq<char>,
        id: Option<Seq<char>>,
        attributes: Map<Seq<char>, Option<Seq<char>>>,
        classes: Seq<Seq<char>>,
        children: nat,
    },
    Comment,
}

/// The value of a node in document order.
pub open spec fn flat_view(n: FlatHtml) -> FlatHtmlView {
    match n {
        FlatHtml::Text(t) => FlatHtmlView::Text(t@),
        FlatHtml::Comment => FlatHtmlView::Comment,
        FlatHtml::Element { name, id, attributes, classes, children } => FlatHtmlView::Element {
            name: name@,
            id: opt_view(id),
            attributes: attribute_map(attr_pairs_view(attributes@)),
            classes: strings_view(classes@),
            children: children as nat,
        },
    }
}

/// The values of nodes in document order.
pub open spec fn flat_views(ns: Seq<FlatHtml>) -> Seq<FlatHtmlView> {
    ns.map_values(|n: FlatHtml| flat_view(n))
}

/// What `html_parser` parses `value` into: the number of its top-level nodes, and all its
/// nodes in document order (each element before its descendants); `None` where it does not
/// parse.
pub uninterp spec fn html_parsed(value: Seq<char>) -> Option<(nat, Seq<FlatHtmlView>)>;

/// `html_parser::Dom::parse(value)`, its top-level nodes each followed by the nodes that
/// `&Node`'s iterator walks (its descendants, in document order), each taken apart into plain
/// values. The result is named `html_parsed`; `None` exactly where the name is `None`. The
/// iterator walks each element's children in order, each followed by its own descendants,
/// and each element records how many children it has, so the list reads back, through
/// `decode_trees`, as exactly the top-level trees.
#[verifier::external_body]
fn parse_html(value: &str) -> (r: Option<(usize, Vec<FlatHtml>)>)
    ensures
        r matches Some((n, v)) ==> html_parsed(value@) == Some((n as nat, flat_views(v@))),
        r matches Some((n, v)) ==> decode_trees(flat_views(v@), 0, n as nat, v@.len()) matches Some(
            (_t, end),
        ) && end == v@.len(),
        r is None ==> html_parsed(value@) is None,
{
    let dom = html_parser::Dom::parse(value).ok()?;
    let mut out = Vec::new();
    for n in dom.children.iter().flat_map(|top| std::iter::once(top).chain(top)) {
        out.push(match n {
            html_parser::Node::Text(t) => FlatHtml::Text(t.clone()),
            html_parser::Node::Comment(_) => FlatHtml::Comment,
            html_parser::Node::Element(e) => FlatHtml::Element {
                name: e.name.clone(), id: e.id.clone(), classes: e.classes.clone(),
                attributes: e.attributes.clone().into_iter().collect(), children: e.children.len(),
            },
        });
    }
    Some((dom.children.len(), out))
}

/// The `count` trees that start at position `pos` of `flat` (each element followed by its
/// children's trees), and the position after them; `None` where `flat` ends first. `fuel`
/// bounds how many nodes are read along one path.
pub open spec fn decode_trees(flat: Seq<FlatHtmlView>, pos: int, count: nat, fuel: nat) -> Option<
    (Seq<RawHtmlView>, int),
>
    decreases fuel,
{
    if count == 0 {
        Some((Seq::empty(), pos))
    } else if fuel == 0 || pos < 0 || pos >= flat.len() {
        None
    } else {
        let first = match flat[pos] {
            FlatHtmlView::Text(t) => Some((RawHtmlView::Text(t), pos + 1)),
            FlatHtmlView::Comment => Some((RawHtmlView::Comment, pos + 1)),
            FlatHtmlView::Element { name, id, attributes, classes, children } => match decode_trees(
                flat,
                pos + 1,
                children,
                (fuel - 1) as nat,
            ) {
                Some((kids, after)) => Some(
                    (RawHtmlView::Element { name, id, attributes, classes, children: kids }, after),
                ),
                None => None,
            },
        };
        match first {
            None => None,
            Some((node, next)) => match decode_trees(flat, next, (count - 1) as nat, (fuel - 1) as nat) {
                Some((rest, end)) => Some((seq![node] + rest, end)),
                None => None,
            },
        }
    }
}

/// The trees that `html_parser` parses `value` into; `None` where it does not parse.
pub open spec fn html_fragment(value: Seq<char>) -> Option<Seq<RawHtmlView>> {
    match html_parsed(value) {
        Some((n, flat)) => match decode_trees(flat, 0, n, flat.len()) {
            Some((trees, end)) => if end == flat.len() {
                Some(trees)
            } else {
                None
            },
            None => None,
        },
        None => None,
    }
}

pub proof fn lemma_raw_views_concat(a: Seq<RawHtml>, b: Seq<RawHtml>)
    ensures
        raw_views(a + b) == raw_views(a) + raw_views(b),
    decreases b.len(),
{
    if b.len() == 0 {
        assert(a + b == a);
        assert(raw_views(a) + raw_views(b) == raw_views(a));
    } else {
        lemma_raw_views_concat(a, b.drop_last());
        assert((a + b).drop_last() == a + b.drop_last());
        assert((a + b).last() == b.last());
        assert(raw_views(a) + raw_views(b.drop_last()).push(raw_view(b.last())) == (raw_views(a)
            + raw_views(b.drop_last())).push(raw_view(b.last())));
    }
}

/// A copy of an optional string.
fn copy_opt(o: &Option<String>) -> (r: Option<String>)
    ensures
        opt_view(r) == opt_view(*o),
{
    match o {
        Some(s) => Some(s.clone()),
        None => None,
    }
}

/// A copy of a list of strings.
fn copy_strings(v: &Vec<String>) -> (r: Vec<String>)
    ensures
        strings_view(r@) == strings_view(v@),
{
    let mut r: Vec<String> = Vec::new();
    let mut i: usize = 0;
    while i < v.len()
        invariant
            i <= v.len(),
            r@.len() == i,
            strings_view(r@) == strings_view(v@.take(i as int)),
        decreases v.len() - i,
    {
        let c = v[i].clone();
        assert(c@ == v@[i as int]@);
        let ghost before = r@;
        r.push(c);
        assert(r@ == before.push(c));
        assert(v@.take(i + 1) == v@.take(i as int).push(v@[i as int]));
        assert forall|k: int| 0 <= k < i + 1 implies #[trigger] strings_view(r@)[k] == strings_view(
            v@.take(i + 1),
        )[k] by {
            if k < i {
                assert(r@[k] == before[k]);
                assert(strings_view(before)[k] == strings_view(v@.take(i as int))[k]);
            }
        }
        assert(strings_view(r@) =~= strings_view(v@.take(i + 1)));
        i = i + 1;
    }
    assert(v@.take(v.len() as int) == v@);
    r
}

/// A copy of a list of attributes.
fn copy_attrs(v: &Vec<(String, Option<String>)>) -> (r: Vec<(String, Option<String>)>)
    ensures
        attr_pairs_view(r@) == attr_pairs_view(v@),
{
    let mut r: Vec<(String, Option<String>)> = Vec::new();
    let mut i: usize = 0;
    while i < v.len()
        invariant
            i <= v.len(),
            r@.len() == i,
            attr_pairs_view(r@) == attr_pairs_view(v@.take(i as int)),
        decreases v.len() - i,
    {
        let k = v[i].0.clone();
        let o = copy_opt(&v[i].1);
        assert(k@ == v@[i as int].0@);
        let ghost before = r@;
        r.push((k, o));
        assert(r@ == before.push((k, o)));
        assert(v@.take(i + 1) == v@.take(i as int).push(v@[i as int]));
        assert forall|k: int| 0 <= k < i + 1 implies #[trigger] attr_pairs_view(r@)[k]
            == attr_pairs_view(v@.take(i + 1))[k] by {
            if k < i {
                assert(r@[k] == before[k]);
                assert(attr_pairs_view(before)[k] == attr_pairs_view(v@.take(i as int))[k]);
            }
        }
        assert(attr_pairs_view(r@) =~= attr_pairs_view(v@.take(i + 1)));
        i = i + 1;
    }
    assert(v@.take(v.len() as int) == v@);
    r
}

/// `decode_trees`, computed.
fn decode_trees_of(flat: &Vec<FlatHtml>, pos: usize, count: usize, fuel: usize) -> (r: Option<
    (Vec<RawHtml>, usize),
>)
    requires
        pos <= flat.len(),
    ensures
        match decode_trees(flat_views(flat@), pos as int, count as nat, fuel as nat) {
            Some((ts, end)) => r matches Some((v, e)) && raw_views(v@) == ts && e == end && pos
                <= e <= flat.len(),
            None => r is None,
        },
    decreases fuel,
{
    let ghost fv = flat_views(flat@);
    if count == 0 {
        assert(raw_views(Seq::<RawHtml>::empty()) == Seq::<RawHtmlView>::empty());
        return Some((Vec::new(), pos));
    }
    if fuel == 0 || pos >= flat.len() {
        return None;
    }
    assert(fv[pos as int] == flat_view(flat@[pos as int]));
    let (node, next) = match &flat[pos] {
        FlatHtml::Text(t) => (RawHtml::Text(t.clone()), pos + 1),
        FlatHtml::Comment => (RawHtml::Comment, pos + 1),
        FlatHtml::Element { name, id, attributes, classes, children } => {
            match decode_trees_of(flat, pos + 1, *children, fuel - 1) {
                Some((kids, after)) => (
                    RawHtml::Element {
                        name: name.clone(),
                        id: copy_opt(id),
                        attributes: copy_attrs(attributes),
                        classes: copy_strings(classes),
                        children: kids,
                    },
                    after,
                ),
                None => {
                    return None;
                },
            }
        },
    };
    match decode_trees_of(flat, next, count - 1, fuel - 1) {
        Some((rest, end)) => {
            let ghost rv = rest@;
            let mut v: Vec<RawHtml> = Vec::new();
            v.push(node);
            let mut rest = rest;
            v.append(&mut rest);
            proof {
                lemma_raw_views_concat(seq![node], rv);
                assert(raw_views(Seq::<RawHtml>::empty()) == Seq::<RawHtmlView>::empty());
                assert(seq![node].drop_last() == Seq::<RawHtml>::empty());
                assert(seq![node].last() == node);
                assert(raw_views(seq![node]) == seq![raw_view(node)]);
                assert(seq![node].drop_last() == Seq::<RawHtml>::empty());
                assert(v@ == seq![node] + rv);
            }
            Some((v, end))
        },
        None => None,
    }
}

/// The trees that `html_parser` parses `value` into (`html_fragment`); `None` where it does
/// not parse.
pub fn parse_html_fragment(value: &str) -> (r: Option<Vec<RawHtml>>)
    ensures
        html_fragment(value@) is Some <==> html_parsed(value@) is Some,
        match html_fragment(value@) {
            Some(ts) => r matches Some(v) && raw_views(v@) == ts,
            None => r is None,
        },
{
    match parse_html(value) {
        Some((n, flat)) => match decode_trees_of(&flat, 0, n, flat.len()) {
            Some((v, end)) => if end == flat.len() {
                Some(v)
            } else {
                None
            },
            None => None,
        },
        None => None,
    }
}

} // verus!

verus! {

proof fn lemma_filter_keeps_all(cs: Seq<MdNode>)
    requires
        forall|j: int| 0 <= j < cs.len() ==> no_frontmatter(#[trigger] cs[j]),
    ensures
        cs.filter(|c: MdNode| no_frontmatter(c)) == cs,
    decreases cs.len(),
{
    if cs.len() > 0 {
        let d = cs.drop_last();
        assert forall|j: int| 0 <= j < d.len() implies no_frontmatter(#[trigger] d[j]) by {
            assert(d[j] == cs[j]);
        }
        lemma_filter_keeps_all(d);
        lemma_filter_push(d, cs.last());
        assert(d.push(cs.last()) == cs);
    }
}

proof fn lemma_filter_drops_one(cs: Seq<MdNode>, i: int)
    requires
        0 <= i < cs.len(),
        !no_frontmatter(cs[i]),
        forall|j: int| 0 <= j < cs.len() && j != i ==> no_frontmatter(#[trigger] cs[j]),
    ensures
        cs.filter(|c: MdNode| no_frontmatter(c)) == cs.remove(i),
    decreases cs.len(),
{
    let d = cs.drop_last();
    lemma_filter_push(d, cs.last());
    assert(d.push(cs.last()) == cs);
    assert forall|j: int| 0 <= j < d.len() && j != i implies no_frontmatter(#[trigger] d[j]) by {
        assert(d[j] == cs[j]);
    }
    if i == cs.len() - 1 {
        lemma_filter_keeps_all(d);
        assert(cs.remove(i) =~= d);
    } else {
        assert(d[i] == cs[i]);
        lemma_filter_drops_one(d, i);
        assert(no_frontmatter(cs.last()));
        assert(cs.remove(i) =~= d.remove(i).push(cs.last()));
    }
}

proof fn lemma_frontmatter_in_one(cs: Seq<MdNode>, i: int)
    requires
        0 <= i < cs.len(),
        !no_frontmatter(cs[i]),
        forall|j: int| 0 <= j < cs.len() && j != i ==> no_frontmatter(#[trigger] cs[j]),
    ensures
        frontmatter_in(cs) == frontmatter_of(cs[i]),
    decreases cs.len(),
{
    let d = cs.drop_last();
    if i < cs.len() - 1 {
        assert(no_frontmatter(cs[cs.len() - 1]));
        assert forall|j: int| 0 <= j < d.len() && j != i implies no_frontmatter(#[trigger] d[j]) by {
            assert(d[j] == cs[j]);
        }
        assert(d[i] == cs[i]);
        lemma_frontmatter_in_one(d, i);
    } else {
        assert(cs.last() == cs[i]);
    }
}

/// Law: where the children of a document root hold one YAML node and no frontmatter anywhere
/// else, `get_frontmatter` returns that node's value and keeps the other children, in
/// order; after that the root holds no frontmatter, and a second call keeps every child, so
/// it returns `None` and changes nothing.
pub proof fn frontmatter_taken_out(root: MdNode, i: int, after: MdNode)
    requires
        root.kind is Root,
        0 <= i < root.children@.len(),
        root.children@[i].kind is Yaml,
        forall|j: int|
            0 <= j < root.children@.len() && j != i ==> no_frontmatter(#[trigger] root.children@[j]),
        after.kind == root.kind,
        after.children@ == root.children@.filter(|c: MdNode| no_frontmatter(c)),
    ensures
        frontmatter_of(root) == Some(root.children@[i].kind->Yaml_value@),
        after.children@ == root.children@.remove(i),
        frontmatter_of(after) is None,
        after.children@.filter(|c: MdNode| no_frontmatter(c)) == after.children@,
{
    let cs = root.children@;
    lemma_filter_drops_one(cs, i);
    lemma_frontmatter_in_one(cs, i);
    let rest = cs.remove(i);
    assert forall|j: int| 0 <= j < rest.len() implies no_frontmatter(#[trigger] rest[j]) by {
        if j < i {
            assert(rest[j] == cs[j]);
        } else {
            assert(rest[j] == cs[j + 1]);
        }
    }
    lemma_filter_keeps_all(rest);
    frontmatter_taken_out_once(root, after);
}

} // verus!

verus! {

// ---------------------------------------------------------------------------------------------
// Laws on headings, anchors and code colours
// ---------------------------------------------------------------------------------------------

/// Law: a heading of level 1 to 3 renders as one `h1`/`h2`/`h3` element whose only attribute
/// is its anchor as `id`, holding its content followed by a `heading-link` link to `#` and the
/// anchor; a heading of level 4 to 6 renders as `h4`/`h5`/`h6` with no attribute and its
/// content alone. The anchor is the heading's children's anchor texts, one after another.
pub proof fn headings_render_with_anchors(n: MdNode, res: Seq<Option<DefView>>, k: int, cs: CodeStyle)
    requires
        n.kind is Heading,
    ensures
        ({
            let d = n.kind->depth;
            let id = link_texts(n.children@);
            let content = md_views(n.children@, res, k, cs);
            let name = if d == 1 {
                "h1"@
            } else if d == 2 {
                "h2"@
            } else if d == 3 {
                "h3"@
            } else if d == 4 {
                "h4"@
            } else if d == 5 {
                "h5"@
            } else {
                "h6"@
            };
            &&& md_view(n, res, k, cs).len() == 1
            &&& md_view(n, res, k, cs)[0] matches HtmlView::Element {
                name: nm,
                attributes,
                styles,
                children,
            }
            &&& md_view(n, res, k, cs)[0]->Element_name == name
            &&& md_view(n, res, k, cs)[0]->Element_styles == Seq::<(Seq<char>, Seq<char>)>::empty()
            &&& 1 <= d <= 3 ==> {
                &&& md_view(n, res, k, cs)[0]->Element_attributes == seq![("id"@, id)]
                &&& md_view(n, res, k, cs)[0]->Element_children == content.push(
                    HtmlView::Element {
                        name: "a"@,
                        attributes: seq![("class"@, "heading-link"@), ("href"@, "#"@ + id)],
                        styles: Seq::empty(),
                        children: seq![HtmlView::Text("\u{1f517}"@)],
                    },
                )
            }
            &&& !(1 <= d <= 3) ==> {
                &&& md_view(n, res, k, cs)[0]->Element_attributes == Seq::<
                    (Seq<char>, Seq<char>),
                >::empty()
                &&& md_view(n, res, k, cs)[0]->Element_children == content
            }
        }),
{
}

/// Law: the anchor text of a node that wraps other nodes (emphasis, strong text, a heading,
/// a block quote, a list, a table, a footnote definition) is the anchor of its children's
/// anchor texts one after another, so their words are in it; the anchor text of a text node
/// is the anchor of its text.
pub proof fn anchors_take_in_wrapped_text(n: MdNode)
    ensures
        (n.kind is Strong || n.kind is Emphasis || n.kind is Heading || n.kind is Blockquote
            || n.kind is List || n.kind is Table || n.kind is FootnoteDefinition) ==> link_text(n)
            == slug(link_texts(n.children@)),
        n.kind matches MdKind::Text { value } ==> link_text(n) == slug(value@),
{
    assert(Seq::<char>::empty() + link_texts(n.children@) == link_texts(n.children@));
    if let MdKind::Text { value } = n.kind {
        assert(value@ + Seq::<char>::empty() == value@);
    }
}

/// The number that a lowercase hexadecimal digit stands for (-1 for any other character).
pub open spec fn hex_value(ch: char) -> int {
    if '0' <= ch <= '9' {
        ch as int - 48
    } else if 'a' <= ch <= 'f' {
        ch as int - 87
    } else {
        -1
    }
}

proof fn lemma_hex_digit(n: int)
    requires
        0 <= n < 16,
    ensures
        ('0' <= hex_digit(n) <= '9' || 'a' <= hex_digit(n) <= 'f'),
        hex_value(hex_digit(n)) == n,
{
    if n < 10 {
        assert(((n + 48) as u8) as int == n + 48);
        assert((((n + 48) as u8) as char) as int == n + 48);
    } else {
        assert(((n + 87) as u8) as int == n + 87);
        assert((((n + 87) as u8) as char) as int == n + 87);
    }
}

/// Law: the colour text of `(r, g, b)` is `#` and six lowercase hexadecimal digits, which read
/// back in pairs give `r`, then `g`, then `b`; a highlighted piece of code is coloured with
/// its foreground colour, on its background colour.
pub proof fn colors_read_back(c: (u8, u8, u8), sp: Span)
    ensures
        hex_color(c).len() == 7,
        hex_color(c)[0] == '#',
        forall|i: int|
            1 <= i < 7 ==> ('0' <= #[trigger] hex_color(c)[i] <= '9' || 'a' <= hex_color(c)[i] <= 'f'),
        16 * hex_value(hex_color(c)[1]) + hex_value(hex_color(c)[2]) == c.0,
        16 * hex_value(hex_color(c)[3]) + hex_value(hex_color(c)[4]) == c.1,
        16 * hex_value(hex_color(c)[5]) + hex_value(hex_color(c)[6]) == c.2,
        span_view(sp)->Element_styles == seq![
            ("color"@, hex_color(sp.0)),
            ("background"@, hex_color(sp.1)),
        ],
{
    lemma_hex_digit((c.0 / 16) as int);
    lemma_hex_digit((c.0 % 16) as int);
    lemma_hex_digit((c.1 / 16) as int);
    lemma_hex_digit((c.1 % 16) as int);
    lemma_hex_digit((c.2 / 16) as int);
    lemma_hex_digit((c.2 % 16) as int);
}

} // verus!
