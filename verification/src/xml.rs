//! XML documents as a plain list of nodes.

use crate::lists;
use crate::text;
use vstd::prelude::*;

verus! {

/// An attribute of an element.
#[derive(Debug, Clone)]
pub struct XmlAttribute {
    pub namespace: Option<String>,
    pub name: String,
    pub value: String,
}

/// A node of a document. Nodes are listed in document order.
#[derive(Debug, Clone)]
pub struct XmlNode {
    /// Where the parent stands in the list; the document itself has none.
    pub parent: Option<usize>,
    /// The local name of an element; empty for other nodes.
    pub tag: String,
    /// The text of a text node, or that with which an element begins.
    pub text: Option<String>,
    pub attributes: Vec<XmlAttribute>,
}

/// The mathematical content of an [`XmlAttribute`].
pub struct XmlAttributeView {
    pub namespace: Option<Seq<char>>,
    pub name: Seq<char>,
    pub value: Seq<char>,
}

/// The mathematical content of an [`XmlNode`].
pub struct XmlNodeView {
    pub parent: Option<usize>,
    pub tag: Seq<char>,
    pub text: Option<Seq<char>>,
    pub attributes: Seq<XmlAttributeView>,
}

impl DeepView for XmlAttribute {
    type V = XmlAttributeView;

    open spec fn deep_view(&self) -> XmlAttributeView {
        XmlAttributeView {
            namespace: self.namespace.deep_view(),
            name: self.name@,
            value: self.value@,
        }
    }
}

impl DeepView for XmlNode {
    type V = XmlNodeView;

    open spec fn deep_view(&self) -> XmlNodeView {
        XmlNodeView {
            parent: self.parent,
            tag: self.tag@,
            text: self.text.deep_view(),
            attributes: self.attributes.deep_view(),
        }
    }
}

/// Why a text is not an XML document.
#[verifier::external_type_specification]
#[verifier::external_body]
pub struct ExXmlError(roxmltree::Error);

/// The name of what `roxmltree::Document::parse` makes of a text: its nodes in
/// document order, or nothing where the text is not well-formed.
pub uninterp spec fn document(xml: Seq<char>) -> Option<Seq<XmlNodeView>>;

/// How deeply the elements of a text that is parsed may be nested.
pub const MAX_NESTING: usize = 256;

/// Whether `mark` stands at place `i`.
pub open spec fn stands_at(s: Seq<char>, i: int, mark: Seq<char>) -> bool {
    0 <= i && i + mark.len() <= s.len() && s.subrange(i, i + mark.len()) == mark
}

/// The place behind the first `mark` from place `i` on, or the end.
pub open spec fn past_mark(s: Seq<char>, i: int, mark: Seq<char>) -> int
    decreases s.len() - i,
{
    if i >= s.len() {
        s.len() as int
    } else if stands_at(s, i, mark) {
        i + mark.len()
    } else {
        past_mark(s, i + 1, mark)
    }
}

/// The place behind the first `c` from place `i` on, or the end.
pub open spec fn past_char(s: Seq<char>, i: int, c: char) -> int
    decreases s.len() - i,
{
    if i >= s.len() {
        s.len() as int
    } else if s[i] == c {
        i + 1
    } else {
        past_char(s, i + 1, c)
    }
}

/// The place behind the tag that goes on at place `i`: behind its first `>`
/// that is not between quotes, or the end.
pub open spec fn past_tag(s: Seq<char>, i: int) -> int
    decreases s.len() - i,
{
    if i >= s.len() {
        s.len() as int
    } else if s[i] == '>' {
        i + 1
    } else if s[i] == '"' || s[i] == '\'' {
        let q = past_char(s, i + 1, s[i]);
        if i < q <= s.len() {
            past_tag(s, q)
        } else {
            s.len() as int
        }
    } else {
        past_tag(s, i + 1)
    }
}

/// Whether the tag that ends before place `end` is closed at once, as in
/// `<a/>`.
pub open spec fn closes_at_once(s: Seq<char>, end: int) -> bool {
    2 <= end <= s.len() && s[end - 1] == '>' && s[end - 2] == '/'
}

/// The larger of two numbers.
pub open spec fn larger(a: nat, b: nat) -> nat {
    if a >= b {
        a
    } else {
        b
    }
}

/// What stands at place `i` of a text, where `depth` elements are open: the
/// place behind it, how many are open then, and the most that are open on the
/// way. Comments, character data and processing instructions are passed over.
pub open spec fn passed(s: Seq<char>, i: int, depth: nat) -> (int, nat, nat) {
    if s[i] != '<' {
        (i + 1, depth, depth)
    } else if stands_at(s, i, "<!--"@) {
        (past_mark(s, i + 4, "-->"@), depth, depth)
    } else if stands_at(s, i, "<![CDATA["@) {
        (past_mark(s, i + 9, "]]>"@), depth, depth)
    } else if stands_at(s, i, "<?"@) {
        (past_mark(s, i + 2, "?>"@), depth, depth)
    } else if stands_at(s, i, "</"@) {
        (i + 2, if depth > 0 {
            (depth - 1) as nat
        } else {
            0
        }, depth)
    } else {
        let end = past_tag(s, i + 1);
        (end, if closes_at_once(s, end) {
            depth
        } else {
            depth + 1
        }, depth + 1)
    }
}

/// The most elements that are open at once from place `i` of a text on, where
/// `depth` are open before.
pub open spec fn nesting_from(s: Seq<char>, i: int, depth: nat) -> nat
    decreases s.len() - i,
{
    if i < 0 || i >= s.len() {
        depth
    } else {
        let (next, open, most) = passed(s, i, depth);
        if i < next <= s.len() {
            larger(most, nesting_from(s, next, open))
        } else {
            most
        }
    }
}

/// How deeply the elements of a text are nested.
pub open spec fn nesting(s: Seq<char>) -> nat {
    nesting_from(s, 0, 0)
}

fn mark_stands_at(s: &Vec<char>, i: usize, mark: &str) -> (r: bool)
    requires
        i <= s@.len(),
    ensures
        r == stands_at(s@, i as int, mark@),
{
    let m = text::chars_of(mark);
    let n: usize = s.len();
    if m.len() > n - i {
        return false;
    }
    let mut k: usize = 0;
    while k < m.len()
        invariant
            k <= m@.len(),
            n == s@.len(),
            i + m@.len() <= n,
            m@ == mark@,
            s@.subrange(i as int, i + k) == mark@.take(k as int),
        decreases m.len() - k,
    {
        if s[i + k] != m[k] {
            assert(s@.subrange(i as int, i + m@.len())[k as int] != mark@[k as int]);
            return false;
        }
        assert(s@.subrange(i as int, i + k + 1) =~= s@.subrange(i as int, i + k).push(
            s@[i + k],
        ));
        assert(mark@.take(k + 1) =~= mark@.take(k as int).push(mark@[k as int]));
        k += 1;
    }
    assert(mark@.take(k as int) =~= mark@);
    true
}

fn find_past_mark(s: &Vec<char>, from: usize, mark: &str) -> (r: usize)
    requires
        from <= s@.len(),
    ensures
        r == past_mark(s@, from as int, mark@),
        from <= r <= s@.len(),
{
    let mut i: usize = from;
    while i < s.len()
        invariant
            from <= i <= s@.len(),
            past_mark(s@, from as int, mark@) == past_mark(s@, i as int, mark@),
        decreases s.len() - i,
    {
        if mark_stands_at(s, i, mark) {
            return i + text::chars_of(mark).len();
        }
        i += 1;
    }
    i
}

fn find_past_char(s: &Vec<char>, from: usize, c: char) -> (r: usize)
    requires
        from <= s@.len(),
    ensures
        r == past_char(s@, from as int, c),
        from <= r <= s@.len(),
{
    let mut i: usize = from;
    while i < s.len()
        invariant
            from <= i <= s@.len(),
            past_char(s@, from as int, c) == past_char(s@, i as int, c),
        decreases s.len() - i,
    {
        if s[i] == c {
            return i + 1;
        }
        i += 1;
    }
    i
}

fn find_past_tag(s: &Vec<char>, from: usize) -> (r: usize)
    requires
        from <= s@.len(),
    ensures
        r == past_tag(s@, from as int),
        from <= r <= s@.len(),
{
    let mut i: usize = from;
    while i < s.len()
        invariant
            from <= i <= s@.len(),
            past_tag(s@, from as int) == past_tag(s@, i as int),
        decreases s.len() - i,
    {
        if s[i] == '>' {
            return i + 1;
        }
        if s[i] == '"' || s[i] == '\'' {
            i = find_past_char(s, i + 1, s[i]);
        } else {
            i += 1;
        }
    }
    i
}

fn pass_markup(s: &Vec<char>, i: usize, depth: usize) -> (r: (usize, usize, usize))
    requires
        i < s@.len(),
        depth <= i,
    ensures
        passed(s@, i as int, depth as nat) == (r.0 as int, r.1 as nat, r.2 as nat),
        i < r.0 <= s@.len(),
        r.1 <= r.0,
        r.2 <= r.0,
{
    proof {
        reveal_strlit("<!--");
        reveal_strlit("<![CDATA[");
        reveal_strlit("<?");
        reveal_strlit("</");
    }
    let n: usize = s.len();
    assert(i < n);
    if s[i] != '<' {
        (i + 1, depth, depth)
    } else if mark_stands_at(s, i, "<!--") {
        (find_past_mark(s, i + 4, "-->"), depth, depth)
    } else if mark_stands_at(s, i, "<![CDATA[") {
        (find_past_mark(s, i + 9, "]]>"), depth, depth)
    } else if mark_stands_at(s, i, "<?") {
        (find_past_mark(s, i + 2, "?>"), depth, depth)
    } else if mark_stands_at(s, i, "</") {
        (i + 2, if depth > 0 {
            depth - 1
        } else {
            0
        }, depth)
    } else {
        let end: usize = find_past_tag(s, i + 1);
        let empty = end >= 2 && s[end - 1] == '>' && s[end - 2] == '/';
        (end, if empty {
            depth
        } else {
            depth + 1
        }, depth + 1)
    }
}

/// How deeply the elements of a text are nested.
pub fn find_nesting(xml: &str) -> (r: usize)
    ensures
        r == nesting(xml@),
{
    let s = text::chars_of(xml);
    let mut i: usize = 0;
    let mut depth: usize = 0;
    let mut most: usize = 0;
    while i < s.len()
        invariant
            i <= s@.len(),
            s@ == xml@,
            depth <= i,
            depth <= most,
            larger(most as nat, nesting_from(s@, i as int, depth as nat)) == nesting(s@),
        decreases s.len() - i,
    {
        let (next, open, top) = pass_markup(&s, i, depth);
        if top > most {
            most = top;
        }
        if open > most {
            most = open;
        }
        i = next;
        depth = open;
    }
    most
}

/// Wraps `roxmltree::Document::parse`, whose result depends on the text alone,
/// and lists the nodes of the document that it gives: of each the place of its
/// parent, its local tag name, its text and its attributes.
///
/// The parser calls itself for each element inside another one, so a text that
/// is nested too deeply would exhaust the stack. It refuses a document type
/// declaration before it reads any element, so that no entity brings in
/// elements that do not stand in the text.
#[verifier::external_body]
pub(crate) fn parse_document(xml: &str) -> (r: Result<Vec<XmlNode>, roxmltree::Error>)
    requires
        nesting(xml@) <= MAX_NESTING,
    ensures
        match r {
            Ok(nodes) => document(xml@) == Some(nodes.deep_view()),
            Err(_) => document(xml@) is None,
        },
{
    let doc = roxmltree::Document::parse(xml)?;
    Ok(doc.descendants().map(|n| XmlNode {
        parent: n.parent().map(|p| p.id().get_usize()),
        tag: n.tag_name().name().to_string(),
        text: n.text().map(|t| t.to_string()),
        attributes: n.attributes().map(|a| XmlAttribute {
            namespace: a.namespace().map(|s| s.to_string()),
            name: a.name().to_string(),
            value: a.value().to_string(),
        }).collect(),
    }).collect())
}

/// Whether node `i` is an element of this name.
pub open spec fn has_tag(nodes: Seq<XmlNodeView>, i: int, tag: Seq<char>) -> bool {
    nodes[i].tag == tag
}

/// Whether node `j` is a child of node `i`.
pub open spec fn is_child(nodes: Seq<XmlNodeView>, i: int, j: int) -> bool {
    nodes[j].parent matches Some(p) && p == i
}

/// Whether node `j` is node `i` or stands somewhere under it.
pub open spec fn is_under(nodes: Seq<XmlNodeView>, i: int, j: int) -> bool
    decreases j,
{
    i == j || (0 <= j && (nodes[j].parent matches Some(p) && p < j && is_under(nodes, i, p as int)))
}

/// The nearest element of this name among node `j` and the nodes above it, or
/// -1.
pub open spec fn nearest(nodes: Seq<XmlNodeView>, tag: Seq<char>, j: int) -> int
    decreases j,
{
    if j < 0 {
        -1
    } else if has_tag(nodes, j, tag) {
        j
    } else {
        match nodes[j].parent {
            Some(p) => if p < j {
                nearest(nodes, tag, p as int)
            } else {
                -1
            },
            None => -1,
        }
    }
}

/// The places below `n` that meet a condition, in order.
pub open spec fn places(n: int, meets: spec_fn(int) -> bool) -> Seq<usize>
    decreases n,
{
    if n <= 0 {
        Seq::empty()
    } else if meets(n - 1) {
        places(n - 1, meets).push((n - 1) as usize)
    } else {
        places(n - 1, meets)
    }
}

/// The children of node `i` of this name, in order.
pub open spec fn children_named(nodes: Seq<XmlNodeView>, i: int, tag: Seq<char>) -> Seq<usize> {
    places(nodes.len() as int, |j: int| is_child(nodes, i, j) && has_tag(nodes, j, tag))
}

/// Node `i`, if it has this name, and all nodes of this name under it, in
/// order.
pub open spec fn under_named(nodes: Seq<XmlNodeView>, i: int, tag: Seq<char>) -> Seq<usize> {
    places(nodes.len() as int, |j: int| is_under(nodes, i, j) && has_tag(nodes, j, tag))
}

/// All nodes of this name, in order.
pub open spec fn all_named(nodes: Seq<XmlNodeView>, tag: Seq<char>) -> Seq<usize> {
    places(nodes.len() as int, |j: int| has_tag(nodes, j, tag))
}

/// The value of the first attribute of this name and no namespace.
pub open spec fn attribute_in(attributes: Seq<XmlAttributeView>, name: Seq<char>) -> Option<
    Seq<char>,
>
    decreases attributes.len(),
{
    if attributes.len() == 0 {
        None
    } else if attributes[0].namespace is None && attributes[0].name == name {
        Some(attributes[0].value)
    } else {
        attribute_in(attributes.drop_first(), name)
    }
}

/// The value of an attribute of node `i`, or `otherwise`.
pub open spec fn attribute_or(
    nodes: Seq<XmlNodeView>,
    i: int,
    name: Seq<char>,
    otherwise: Seq<char>,
) -> Seq<char> {
    match attribute_in(nodes[i].attributes, name) {
        Some(v) => v,
        None => otherwise,
    }
}

/// The text of node `i` without outer white space; empty where it has none.
pub open spec fn trimmed_text(nodes: Seq<XmlNodeView>, i: int) -> Seq<char> {
    match nodes[i].text {
        Some(t) => text::trimmed(t),
        None => Seq::empty(),
    }
}

pub fn node_has_tag(nodes: &Vec<XmlNode>, i: usize, tag: &str) -> (r: bool)
    requires
        i < nodes@.len(),
    ensures
        r == has_tag(nodes.deep_view(), i as int, tag@),
{
    text::same_text(nodes[i].tag.as_str(), tag)
}

pub fn node_is_child(nodes: &Vec<XmlNode>, i: usize, j: usize) -> (r: bool)
    requires
        j < nodes@.len(),
    ensures
        r == is_child(nodes.deep_view(), i as int, j as int),
{
    match nodes[j].parent {
        Some(p) => p == i,
        None => false,
    }
}

pub fn node_is_under(nodes: &Vec<XmlNode>, i: usize, j: usize) -> (r: bool)
    requires
        j < nodes@.len(),
    ensures
        r == is_under(nodes.deep_view(), i as int, j as int),
{
    let ghost nv = nodes.deep_view();
    let mut k: usize = j;
    loop
        invariant
            k < nodes@.len(),
            nv == nodes.deep_view(),
            is_under(nv, i as int, j as int) == is_under(nv, i as int, k as int),
        decreases k,
    {
        if k == i {
            return true;
        }
        match nodes[k].parent {
            Some(p) => {
                if p >= k {
                    return false;
                }
                k = p;
            },
            None => {
                return false;
            },
        }
    }
}

/// Whether node `i` is the nearest element of this name from node `j` up.
pub fn node_nearest_is(nodes: &Vec<XmlNode>, tag: &str, j: usize, i: usize) -> (r: bool)
    requires
        j < nodes@.len(),
    ensures
        r == (nearest(nodes.deep_view(), tag@, j as int) == i),
{
    let ghost nv = nodes.deep_view();
    let mut k: usize = j;
    loop
        invariant
            k < nodes@.len(),
            nv == nodes.deep_view(),
            nearest(nv, tag@, j as int) == nearest(nv, tag@, k as int),
        decreases k,
    {
        if node_has_tag(nodes, k, tag) {
            return k == i;
        }
        match nodes[k].parent {
            Some(p) => {
                if p >= k {
                    return false;
                }
                k = p;
            },
            None => {
                return false;
            },
        }
    }
}

/// Whether all places are below `n`.
pub open spec fn below(places: Seq<usize>, n: int) -> bool {
    forall|k: int| 0 <= k < places.len() ==> #[trigger] places[k] < n
}

/// The children of node `i` of this name, in order.
pub fn find_children(nodes: &Vec<XmlNode>, i: usize, tag: &str) -> (r: Vec<usize>)
    ensures
        r@ == children_named(nodes.deep_view(), i as int, tag@),
        below(r@, nodes@.len() as int),
{
    let ghost nv = nodes.deep_view();
    let ghost meets = |j: int| is_child(nv, i as int, j) && has_tag(nv, j, tag@);
    let mut out: Vec<usize> = Vec::new();
    let mut j: usize = 0;
    while j < nodes.len()
        invariant
            j <= nodes@.len(),
            nv == nodes.deep_view(),
            meets == (|j: int| is_child(nv, i as int, j) && has_tag(nv, j, tag@)),
            out@ == places(j as int, meets),
            below(out@, j as int),
        decreases nodes.len() - j,
    {
        if node_is_child(nodes, i, j) && node_has_tag(nodes, j, tag) {
            out.push(j);
        }
        j += 1;
    }
    out
}

/// Node `i`, if it has this name, and all nodes of this name under it.
pub fn find_under(nodes: &Vec<XmlNode>, i: usize, tag: &str) -> (r: Vec<usize>)
    ensures
        r@ == under_named(nodes.deep_view(), i as int, tag@),
        below(r@, nodes@.len() as int),
{
    let ghost nv = nodes.deep_view();
    let ghost meets = |j: int| is_under(nv, i as int, j) && has_tag(nv, j, tag@);
    let mut out: Vec<usize> = Vec::new();
    let mut j: usize = 0;
    while j < nodes.len()
        invariant
            j <= nodes@.len(),
            nv == nodes.deep_view(),
            meets == (|j: int| is_under(nv, i as int, j) && has_tag(nv, j, tag@)),
            out@ == places(j as int, meets),
            below(out@, j as int),
        decreases nodes.len() - j,
    {
        if node_has_tag(nodes, j, tag) && node_is_under(nodes, i, j) {
            out.push(j);
        }
        j += 1;
    }
    out
}

/// All nodes of this name, in order.
pub fn find_all(nodes: &Vec<XmlNode>, tag: &str) -> (r: Vec<usize>)
    ensures
        r@ == all_named(nodes.deep_view(), tag@),
        below(r@, nodes@.len() as int),
{
    let ghost nv = nodes.deep_view();
    let ghost meets = |j: int| has_tag(nv, j, tag@);
    let mut out: Vec<usize> = Vec::new();
    let mut j: usize = 0;
    while j < nodes.len()
        invariant
            j <= nodes@.len(),
            nv == nodes.deep_view(),
            meets == (|j: int| has_tag(nv, j, tag@)),
            out@ == places(j as int, meets),
            below(out@, j as int),
        decreases nodes.len() - j,
    {
        if node_has_tag(nodes, j, tag) {
            out.push(j);
        }
        j += 1;
    }
    out
}

/// The value of an attribute of node `i`, or `otherwise`.
pub fn find_attribute(nodes: &Vec<XmlNode>, i: usize, name: &str, otherwise: &str) -> (r: String)
    requires
        i < nodes@.len(),
    ensures
        r@ == attribute_or(nodes.deep_view(), i as int, name@, otherwise@),
{
    let attributes = &nodes[i].attributes;
    let ghost all = attributes.deep_view();
    let mut k: usize = 0;
    assert(all.skip(0) =~= all);
    while k < attributes.len()
        invariant
            k <= attributes@.len(),
            i < nodes@.len(),
            all == attributes.deep_view(),
            all == nodes.deep_view()[i as int].attributes,
            attribute_in(all, name@) == attribute_in(all.skip(k as int), name@),
        decreases attributes.len() - k,
    {
        let a = &attributes[k];
        assert(all.skip(k as int)[0] == a.deep_view());
        assert(all.skip(k as int).drop_first() =~= all.skip(k + 1));
        if a.namespace.is_none() && text::same_text(a.name.as_str(), name) {
            return a.value.clone();
        }
        k += 1;
    }
    assert(all.skip(k as int).len() == 0);
    otherwise.to_owned()
}

/// The text of node `i` without outer white space.
pub fn find_text(nodes: &Vec<XmlNode>, i: usize) -> (r: String)
    requires
        i < nodes@.len(),
    ensures
        r@ == trimmed_text(nodes.deep_view(), i as int),
{
    match &nodes[i].text {
        Some(t) => text::trim(t.as_str()),
        None => String::new(),
    }
}

// ---------------------------------------------------------------------------
// What the searches give
// ---------------------------------------------------------------------------

/// The places that meet a condition are listed once each, in order, and no
/// others.
pub proof fn lemma_places_are_all(n: nat, meets: spec_fn(int) -> bool)
    ensures
        places(n as int, meets) == lists::places(n).filter(meets).map_values(|i: int| i as usize),
    decreases n,
{
    let f = |i: int| i as usize;
    lists::lemma_places_filter_map((n - 1) as nat, meets, f);
    if n > 0 {
        lemma_places_are_all((n - 1) as nat, meets);
    }
}

/// The children of this name are exactly the nodes of this name whose parent is
/// the node, in document order; so are, wherever they stand, all nodes of this
/// name.
pub proof fn lemma_named_nodes_are_all(nodes: Seq<XmlNodeView>, i: usize, tag: Seq<char>)
    ensures
        children_named(nodes, i as int, tag) == lists::places(nodes.len()).filter(
            |j: int| nodes[j].parent == Some(i) && nodes[j].tag == tag,
        ).map_values(|j: int| j as usize),
        all_named(nodes, tag) == lists::places(nodes.len()).filter(
            |j: int| nodes[j].tag == tag,
        ).map_values(|j: int| j as usize),
        under_named(nodes, i as int, tag) == lists::places(nodes.len()).filter(
            |j: int| is_under(nodes, i as int, j) && nodes[j].tag == tag,
        ).map_values(|j: int| j as usize),
{
    let n = nodes.len();
    let p = lists::places(n);
    let a = |j: int| is_child(nodes, i as int, j) && has_tag(nodes, j, tag);
    let b = |j: int| has_tag(nodes, j, tag);
    let c = |j: int| is_under(nodes, i as int, j) && has_tag(nodes, j, tag);
    lemma_places_are_all(n, a);
    lemma_places_are_all(n, b);
    lemma_places_are_all(n, c);
    lists::lemma_filter_alike(p, a, |j: int| nodes[j].parent == Some(i) && nodes[j].tag == tag);
    lists::lemma_filter_alike(p, b, |j: int| nodes[j].tag == tag);
    lists::lemma_filter_alike(
        p,
        c,
        |j: int| is_under(nodes, i as int, j) && nodes[j].tag == tag,
    );
}

/// A node is under itself, and its children and all that is under these are
/// under it too; nothing else is.
pub proof fn lemma_what_is_under(nodes: Seq<XmlNodeView>, i: int, j: int)
    requires
        0 <= i,
        0 <= j < nodes.len(),
        nodes[j].parent is Some ==> nodes[j].parent->0 < j,
    ensures
        is_under(nodes, i, i),
        nodes[j].parent is Some && is_under(nodes, i, nodes[j].parent->0 as int) ==> is_under(
            nodes,
            i,
            j,
        ),
        is_under(nodes, i, j) && i != j ==> nodes[j].parent is Some && is_under(
            nodes,
            i,
            nodes[j].parent->0 as int,
        ),
{
}

/// The nearest element of a name is the node itself where it has that name, and
/// else the nearest from its parent up.
pub proof fn lemma_nearest_is_above(nodes: Seq<XmlNodeView>, tag: Seq<char>, j: int)
    requires
        0 <= j < nodes.len(),
    ensures
        nodes[j].tag == tag ==> nearest(nodes, tag, j) == j,
        nodes[j].tag != tag && nodes[j].parent is None ==> nearest(nodes, tag, j) == -1,
        nodes[j].tag != tag && nodes[j].parent is Some && nodes[j].parent->0 < j ==> nearest(
            nodes,
            tag,
            j,
        ) == nearest(nodes, tag, nodes[j].parent->0 as int),
{
}

/// An attribute is the first of its name without a namespace, and there is none
/// where no attribute is like that.
pub proof fn lemma_attribute_is_the_first(
    attributes: Seq<XmlAttributeView>,
    name: Seq<char>,
    k: int,
)
    requires
        0 <= k <= attributes.len(),
        k < attributes.len() ==> attributes[k].namespace is None && attributes[k].name == name,
        forall|j: int|
            0 <= j < k ==> (#[trigger] attributes[j]).namespace is Some || attributes[j].name
                != name,
    ensures
        k < attributes.len() ==> attribute_in(attributes, name) == Some(attributes[k].value),
        k == attributes.len() ==> attribute_in(attributes, name) is None,
    decreases k,
{
    if k > 0 {
        let t = attributes.drop_first();
        assert(attributes[0].namespace is Some || attributes[0].name != name);
        assert forall|j: int| 0 <= j < k - 1 implies (#[trigger] t[j]).namespace is Some
            || t[j].name != name by {
            assert(t[j] == attributes[j + 1]);
        }
        if k < attributes.len() {
            assert(t[k - 1] == attributes[k]);
        }
        lemma_attribute_is_the_first(t, name, k - 1);
    }
}

} // verus!
