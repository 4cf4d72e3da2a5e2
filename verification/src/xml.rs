//! A parsed XML document as plain values.
//!
//! `roxmltree` does the parsing. Its document is an arena of nodes in
//! document order, the root first; here each node becomes an [`XmlNode`]
//! holding what the project parser reads of it: whether it is an element,
//! its local tag name, its attributes, its text and the indices of its
//! children. Everything the parser decides is then stated over that arena.

use vstd::prelude::*;

use roxmltree::{Document, NodeId};

use crate::text::{opt_view, pair_views, str_same};

verus! {

#[verifier::external_type_specification]
#[verifier::external_body]
pub struct ExDocument<'input>(Document<'input>);

/// One node of a document.
#[derive(Debug)]
pub struct XmlNode {
    /// Whether the node is an element (not text, a comment or the root).
    pub element: bool,
    /// The local part of the tag name; empty for nodes that are not elements.
    pub name: String,
    /// Attributes in document order, by local name.
    pub attrs: Vec<(String, String)>,
    /// For an element, the text of its first child when that child is text;
    /// for a text or comment node, its own text.
    pub text: Option<String>,
    /// Indices of the children, in document order.
    pub children: Vec<usize>,
}

pub struct XmlNodeView {
    pub element: bool,
    pub name: Seq<char>,
    pub attrs: Seq<(Seq<char>, Seq<char>)>,
    pub text: Option<Seq<char>>,
    pub children: Seq<usize>,
}

impl View for XmlNode {
    type V = XmlNodeView;

    open spec fn view(&self) -> XmlNodeView {
        XmlNodeView {
            element: self.element,
            name: self.name@,
            attrs: pair_views(self.attrs@),
            text: opt_view(self.text),
            children: self.children@,
        }
    }
}

pub open spec fn node_views(ns: Seq<XmlNode>) -> Seq<XmlNodeView> {
    ns.map_values(|n: XmlNode| n@)
}

/// Every child index names a node of the document.
pub open spec fn outline_ok(ns: Seq<XmlNodeView>) -> bool {
    forall|i: int, k: int|
        0 <= i < ns.len() && 0 <= k < ns[i].children.len() ==> #[trigger] ns[i].children[k] < ns.len()
}

/// Whether `c` is an element of the document.
pub open spec fn is_element(ns: Seq<XmlNodeView>, c: usize) -> bool {
    c < ns.len() && ns[c as int].element
}

/// The first of `kids` that is an element.
pub open spec fn first_element(ns: Seq<XmlNodeView>, kids: Seq<usize>) -> Option<usize>
    decreases kids.len(),
{
    if kids.len() == 0 {
        None
    } else if is_element(ns, kids[0]) {
        Some(kids[0])
    } else {
        first_element(ns, kids.drop_first())
    }
}

pub proof fn lemma_first_element_in_range(ns: Seq<XmlNodeView>, kids: Seq<usize>)
    ensures
        first_element(ns, kids) matches Some(c) ==> is_element(ns, c),
    decreases kids.len(),
{
    if kids.len() > 0 && !is_element(ns, kids[0]) {
        lemma_first_element_in_range(ns, kids.drop_first());
    }
}

/// What `roxmltree` makes of `text`: its nodes in document order, the
/// document root first, or `None` when the text is not well-formed XML.
pub uninterp spec fn xml_outline(text: Seq<char>) -> Option<Seq<XmlNodeView>>;

/// The nodes a parsed document holds, in document order.
pub uninterp spec fn doc_nodes(doc: Document) -> Seq<XmlNodeView>;

/// The message `roxmltree` gives for text that is not well-formed XML: what
/// went wrong and where, a function of the text alone.
pub uninterp spec fn xml_error_of(text: Seq<char>) -> Seq<char>;

/// `roxmltree::Document::parse`, its error turned into its `Display` text.
/// Claimed: it succeeds exactly on the texts `xml_outline` gives nodes for,
/// and the document then holds those nodes; there is at least the root and
/// at most `u32::MAX` nodes (the parser refuses to grow the arena past
/// that), and every child index is a node; a failure's text is
/// `xml_error_of` of the input.
#[verifier::external_body]
fn parse_document(text: &str) -> (r: Result<Document<'_>, String>)
    ensures
        r is Ok <==> xml_outline(text@) is Some,
        r matches Ok(d) ==> xml_outline(text@) == Some(doc_nodes(d)),
        r matches Ok(d) ==> 1 <= doc_nodes(d).len() <= u32::MAX,
        r matches Ok(d) ==> outline_ok(doc_nodes(d)),
        r matches Err(m) ==> m@ == xml_error_of(text@),
{
    match Document::parse(text) {
        Ok(d) => Ok(d),
        Err(e) => Err(e.to_string()),
    }
}

/// How many nodes `doc` holds: `Document::descendants` walks all of them.
#[verifier::external_body]
fn node_count(doc: &Document) -> (r: usize)
    ensures
        r == doc_nodes(*doc).len(),
{
    doc.descendants().count()
}

/// Node `i` of `doc` as plain values, read through `Node::is_element`,
/// `tag_name().name()`, `attributes()` (each `name()` and `value()`),
/// `text()` and `children()` (each `id()`).
#[verifier::external_body]
fn node_at(doc: &Document, i: usize) -> (r: XmlNode)
    requires
        i < doc_nodes(*doc).len() <= u32::MAX,
    ensures
        r@ == doc_nodes(*doc)[i as int],
{
    let n = doc.get_node(NodeId::new(i as u32)).unwrap();
    XmlNode {
        element: n.is_element(),
        name: n.tag_name().name().to_string(),
        attrs: n.attributes().map(|a| (a.name().to_string(), a.value().to_string())).collect(),
        text: n.text().map(|t| t.to_string()),
        children: n.children().map(|c| c.id().get_usize()).collect(),
    }
}

/// `Document::root_element`: the first child of the root (node 0) that is
/// an element, which every parsed document has.
#[verifier::external_body]
fn root_element(doc: &Document) -> (r: usize)
    requires
        1 <= doc_nodes(*doc).len(),
    ensures
        first_element(doc_nodes(*doc), doc_nodes(*doc)[0].children) == Some(r),
{
    doc.root_element().id().get_usize()
}

/// A document read into plain values: its nodes and its root element.
#[derive(Debug)]
pub struct Outline {
    pub nodes: Vec<XmlNode>,
    pub root: usize,
}

/// The root element of `ns`, when it has one.
pub open spec fn outline_root(ns: Seq<XmlNodeView>) -> Option<usize> {
    if ns.len() == 0 {
        None
    } else {
        first_element(ns, ns[0].children)
    }
}

/// Parses `text` as XML. On success the nodes are those `xml_outline`
/// gives and `root` is the root element; on failure the parser's message.
pub fn read_outline(text: &str) -> (r: Result<Outline, String>)
    ensures
        r is Err <==> xml_outline(text@) is None,
        r matches Err(m) ==> m@ == xml_error_of(text@),
        r matches Ok(o) ==> xml_outline(text@) == Some(node_views(o.nodes@)) && outline_root(
            node_views(o.nodes@),
        ) == Some(o.root),
        r matches Ok(o) ==> outline_ok(node_views(o.nodes@)),
{
    let doc = match parse_document(text) {
        Ok(d) => d,
        Err(m) => {
            return Err(m);
        },
    };
    let ghost ns = doc_nodes(doc);
    let n = node_count(&doc);
    let mut nodes: Vec<XmlNode> = Vec::new();
    let mut i: usize = 0;
    while i < n
        invariant
            n == ns.len(),
            ns == doc_nodes(doc),
            1 <= ns.len() <= u32::MAX,
            i <= n,
            node_views(nodes@) == ns.take(i as int),
        decreases n - i,
    {
        let node = node_at(&doc, i);
        let ghost prev = node_views(nodes@);
        nodes.push(node);
        assert(node_views(nodes@) =~= prev.push(ns[i as int]));
        assert(ns.take(i + 1) =~= ns.take(i as int).push(ns[i as int]));
        i = i + 1;
    }
    assert(ns.take(n as int) =~= ns);
    let root = root_element(&doc);
    Ok(Outline { nodes, root })
}

// ---------------------------------------------------------------------------
// Reading attributes, children and properties.

/// The value of the first attribute named `key`, which is what
/// `Node::attribute` looks up for a name without a namespace.
pub open spec fn attr_of(attrs: Seq<(Seq<char>, Seq<char>)>, key: Seq<char>) -> Option<Seq<char>>
    decreases attrs.len(),
{
    if attrs.len() == 0 {
        None
    } else if attrs[0].0 == key {
        Some(attrs[0].1)
    } else {
        attr_of(attrs.drop_first(), key)
    }
}

impl XmlNode {
    /// The value of the first attribute named `key`.
    pub fn attribute(&self, key: &str) -> (r: Option<&str>)
        ensures
            r matches Some(v) ==> attr_of(self@.attrs, key@) == Some(v@),
            r is None ==> attr_of(self@.attrs, key@) is None,
    {
        let ghost a = self@.attrs;
        let mut i: usize = 0;
        assert(a.skip(0) =~= a);
        while i < self.attrs.len()
            invariant
                a == pair_views(self.attrs@),
                i <= self.attrs.len(),
                attr_of(a, key@) == attr_of(a.skip(i as int), key@),
            decreases self.attrs.len() - i,
        {
            assert(a.skip(i as int)[0] == (self.attrs@[i as int].0@, self.attrs@[i as int].1@));
            assert(a.skip(i as int).drop_first() =~= a.skip(i + 1));
            if str_same(self.attrs[i].0.as_str(), key) {
                return Some(self.attrs[i].1.as_str());
            }
            i = i + 1;
        }
        None
    }
}

/// Whether node `c` is an element with tag name `tag`.
pub open spec fn has_tag(ns: Seq<XmlNodeView>, c: usize, tag: Seq<char>) -> bool {
    is_element(ns, c) && ns[c as int].name == tag
}

/// The `tag` elements among `kids`, in order.
pub open spec fn tagged(ns: Seq<XmlNodeView>, kids: Seq<usize>, tag: Seq<char>) -> Seq<usize>
    decreases kids.len(),
{
    if kids.len() == 0 {
        Seq::empty()
    } else if has_tag(ns, kids.last(), tag) {
        tagged(ns, kids.drop_last(), tag).push(kids.last())
    } else {
        tagged(ns, kids.drop_last(), tag)
    }
}

pub proof fn lemma_tagged_in_range(ns: Seq<XmlNodeView>, kids: Seq<usize>, tag: Seq<char>)
    ensures
        forall|k: int| 0 <= k < tagged(ns, kids, tag).len() ==> has_tag(ns, #[trigger] tagged(ns, kids, tag)[k], tag),
    decreases kids.len(),
{
    if kids.len() > 0 {
        lemma_tagged_in_range(ns, kids.drop_last(), tag);
        let prev = tagged(ns, kids.drop_last(), tag);
        assert forall|k: int| 0 <= k < tagged(ns, kids, tag).len() implies has_tag(
            ns,
            #[trigger] tagged(ns, kids, tag)[k],
            tag,
        ) by {
            if k < prev.len() {
                assert(tagged(ns, kids, tag)[k] == prev[k]);
            }
        }
    }
}

/// The `tag` elements of two lists one after the other are those of the
/// first followed by those of the second.
pub proof fn lemma_tagged_append(ns: Seq<XmlNodeView>, a: Seq<usize>, b: Seq<usize>, tag: Seq<char>)
    ensures
        tagged(ns, a + b, tag) == tagged(ns, a, tag) + tagged(ns, b, tag),
    decreases b.len(),
{
    if b.len() == 0 {
        assert(a + b =~= a);
        assert(tagged(ns, a, tag) + tagged(ns, b, tag) =~= tagged(ns, a, tag));
    } else {
        lemma_tagged_append(ns, a, b.drop_last(), tag);
        assert((a + b).drop_last() =~= a + b.drop_last());
        assert((a + b).last() == b.last());
        if has_tag(ns, b.last(), tag) {
            assert(tagged(ns, a, tag) + tagged(ns, b.drop_last(), tag).push(b.last()) =~= (tagged(ns, a, tag)
                + tagged(ns, b.drop_last(), tag)).push(b.last()));
        }
    }
}

/// The children of node `i` with tag `tag`.
pub fn tagged_children(nodes: &Vec<XmlNode>, i: usize, tag: &str) -> (r: Vec<usize>)
    requires
        i < nodes.len(),
    ensures
        r@ == tagged(node_views(nodes@), node_views(nodes@)[i as int].children, tag@),
{
    let ghost ns = node_views(nodes@);
    let kids = &nodes[i].children;
    let ghost ks = kids@;
    assert(ks == ns[i as int].children);
    let mut out: Vec<usize> = Vec::new();
    let mut k: usize = 0;
    assert(ks.take(0) =~= Seq::<usize>::empty());
    while k < kids.len()
        invariant
            ns == node_views(nodes@),
            ks == kids@,
            k <= kids.len(),
            out@ == tagged(ns, ks.take(k as int), tag@),
        decreases kids.len() - k,
    {
        let c = kids[k];
        assert(ks.take(k + 1).drop_last() =~= ks.take(k as int));
        assert(ks.take(k + 1).last() == c);
        if c < nodes.len() && nodes[c].element && str_same(nodes[c].name.as_str(), tag) {
            out.push(c);
        }
        k = k + 1;
    }
    assert(ks.take(kids.len() as int) =~= ks);
    out
}

/// The text of the first `<property name="...">` child among `kids` whose
/// `name` attribute is `name`, or the empty text when that child has none.
pub open spec fn property_in(ns: Seq<XmlNodeView>, kids: Seq<usize>, name: Seq<char>) -> Option<Seq<char>>
    decreases kids.len(),
{
    if kids.len() == 0 {
        None
    } else if has_tag(ns, kids[0], "property"@) && attr_of(ns[kids[0] as int].attrs, "name"@) == Some(name) {
        match ns[kids[0] as int].text {
            Some(t) => Some(t),
            None => Some(Seq::empty()),
        }
    } else {
        property_in(ns, kids.drop_first(), name)
    }
}

/// The MLT property `name` of node `i`: `<property name="name">value</property>`.
pub open spec fn property_of(ns: Seq<XmlNodeView>, i: usize, name: Seq<char>) -> Option<Seq<char>> {
    property_in(ns, ns[i as int].children, name)
}

/// Reads the MLT property `name` of node `i`.
pub fn property(nodes: &Vec<XmlNode>, i: usize, name: &str) -> (r: Option<String>)
    requires
        i < nodes.len(),
    ensures
        opt_view(r) == property_of(node_views(nodes@), i, name@),
{
    let ghost ns = node_views(nodes@);
    let kids = &nodes[i].children;
    let ghost ks = kids@;
    assert(ks == ns[i as int].children);
    let mut k: usize = 0;
    assert(ks.skip(0) =~= ks);
    while k < kids.len()
        invariant
            ns == node_views(nodes@),
            ks == kids@,
            k <= kids.len(),
            property_of(ns, i, name@) == property_in(ns, ks.skip(k as int), name@),
        decreases kids.len() - k,
    {
        let c = kids[k];
        assert(ks.skip(k as int)[0] == c);
        assert(ks.skip(k as int).drop_first() =~= ks.skip(k + 1));
        if c < nodes.len() && nodes[c].element && str_same(nodes[c].name.as_str(), "property") {
            assert(ns[c as int] == nodes@[c as int]@);
            let found = match nodes[c].attribute("name") {
                Some(v) => str_same(v, name),
                None => false,
            };
            if found {
                return match &nodes[c].text {
                    Some(t) => Some(t.clone()),
                    None => Some(String::new()),
                };
            }
        }
        k = k + 1;
    }
    None
}

} // verus!
