//! XML responses as a flat list of nodes in document order, read with
//! roxmltree, and the queries the response parsers make on it.
use vstd::prelude::*;
use crate::text::{str_eq, trim, trim_str, utf16_count};

verus! {

broadcast use vstd::string::group_string_axioms;

/// An attribute: its local name and its value.
#[derive(Debug, Clone, PartialEq)]
pub struct XmlAttribute {
    pub name: String,
    pub value: String,
}

/// One node of a parsed document.
#[derive(Debug, Clone, PartialEq)]
pub struct XmlNode {
    /// An element (the others are the root, text, comments and processing
    /// instructions).
    pub element: bool,
    /// The element's local name; empty for the other nodes.
    pub name: String,
    pub attributes: Vec<XmlAttribute>,
    /// roxmltree's `Node::text`: an element's text when its first child is
    /// text, a text node's or comment's own text.
    pub text: Option<String>,
    /// The index of the parent node; none for the root.
    pub parent: Option<usize>,
}

/// A node over character sequences.
pub struct NodeModel {
    pub element: bool,
    pub name: Seq<char>,
    pub attributes: Seq<(Seq<char>, Seq<char>)>,
    pub text: Option<Seq<char>>,
    pub parent: Option<int>,
}

impl View for XmlNode {
    type V = NodeModel;

    open spec fn view(&self) -> NodeModel {
        NodeModel {
            element: self.element,
            name: self.name@,
            attributes: self.attributes@.map_values(|a: XmlAttribute| (a.name@, a.value@)),
            text: match self.text {
                Some(t) => Some(t@),
                None => None,
            },
            parent: match self.parent {
                Some(p) => Some(p as int),
                None => None,
            },
        }
    }
}

pub open spec fn nodes_view(v: Seq<XmlNode>) -> Seq<NodeModel> {
    v.map_values(|n: XmlNode| n@)
}

/// The nodes of the document that `xml` holds, in document order (the
/// root first), or the parser's message when `xml` is not well-formed XML.
pub uninterp spec fn xml_tree(xml: Seq<char>) -> Result<Seq<NodeModel>, Seq<char>>;

/// roxmltree `Document::parse`, each node of `Document::descendants` (the
/// root and every node below it, in document order) taken as plain values;
/// a parent is given by its `NodeId`, which is its place in that order. A
/// parse error is given by its `Display` text. The result is a function of
/// the text alone.
#[verifier::external_body]
pub(crate) fn parse_xml(xml: &str) -> (r: Result<Vec<XmlNode>, String>)
    ensures
        match r {
            Ok(v) => xml_tree(xml@) == Ok::<Seq<NodeModel>, Seq<char>>(nodes_view(v@)),
            Err(m) => xml_tree(xml@) == Err::<Seq<NodeModel>, Seq<char>>(m@),
        },
{
    let doc = roxmltree::Document::parse(xml).map_err(|e| e.to_string())?;
    Ok(doc.descendants().map(|n| XmlNode {
        element: n.is_element(),
        name: n.tag_name().name().to_string(),
        attributes: n.attributes().map(|a| XmlAttribute {
            name: a.name().to_string(),
            value: a.value().to_string(),
        }).collect(),
        text: n.text().map(str::to_string),
        parent: n.parent().map(|p| p.id().get_usize()),
    }).collect())
}

// ---------------------------------------------------------------------------
// Queries
// ---------------------------------------------------------------------------

/// roxmltree `Node::has_tag_name` with a plain name: an element with that
/// local name.
pub open spec fn has_tag(n: NodeModel, tag: Seq<char>) -> bool {
    n.element && n.name == tag
}

/// The index of the first attribute named `name`.
pub open spec fn attr_index(attrs: Seq<(Seq<char>, Seq<char>)>, name: Seq<char>) -> Option<int>
    decreases attrs.len(),
{
    if attrs.len() == 0 {
        None
    } else {
        match attr_index(attrs.drop_last(), name) {
            Some(i) => Some(i),
            None => if attrs.last().0 == name {
                Some(attrs.len() - 1)
            } else {
                None
            },
        }
    }
}

/// roxmltree `Node::attribute` with a plain name: the value of the first
/// attribute with that local name.
pub open spec fn attr(n: NodeModel, name: Seq<char>) -> Option<Seq<char>> {
    match attr_index(n.attributes, name) {
        Some(i) => Some(n.attributes[i].1),
        None => None,
    }
}

/// Whether node `j` is node `i` or lies below it, following at most `fuel`
/// parent links.
pub open spec fn within(nodes: Seq<NodeModel>, j: int, i: int, fuel: nat) -> bool
    decreases fuel,
{
    if j == i {
        true
    } else if fuel == 0 {
        false
    } else {
        match nodes[j].parent {
            Some(p) => 0 <= p < nodes.len() && within(nodes, p, i, (fuel - 1) as nat),
            None => false,
        }
    }
}

/// The indices below `end` that satisfy: a child of `i` (`children`) or a
/// node of the subtree of `i` (`!children`), in document order.
pub open spec fn select(nodes: Seq<NodeModel>, i: int, end: int, children: bool) -> Seq<int>
    decreases end,
{
    if end <= 0 {
        Seq::empty()
    } else {
        let j = end - 1;
        let keep = if children {
            nodes[j].parent == Some(i)
        } else {
            within(nodes, j, i, nodes.len())
        };
        select(nodes, i, end - 1, children) + if keep {
            seq![j]
        } else {
            Seq::empty()
        }
    }
}

/// roxmltree `Node::children`: the children of `i`, in order.
pub open spec fn children(nodes: Seq<NodeModel>, i: int) -> Seq<int> {
    select(nodes, i, nodes.len() as int, true)
}

/// roxmltree `Node::descendants`: `i` and the nodes below it, in document
/// order.
pub open spec fn descendants(nodes: Seq<NodeModel>, i: int) -> Seq<int> {
    select(nodes, i, nodes.len() as int, false)
}

/// The first of `ids` whose node has the tag.
pub open spec fn first_tagged(nodes: Seq<NodeModel>, ids: Seq<int>, tag: Seq<char>) -> Option<int>
    decreases ids.len(),
{
    if ids.len() == 0 {
        None
    } else {
        match first_tagged(nodes, ids.drop_last(), tag) {
            Some(k) => Some(k),
            None => if has_tag(nodes[ids.last()], tag) {
                Some(ids.last())
            } else {
                None
            },
        }
    }
}

/// The ones of `ids` whose node has the tag.
pub open spec fn tagged(nodes: Seq<NodeModel>, ids: Seq<int>, tag: Seq<char>) -> Seq<int>
    decreases ids.len(),
{
    if ids.len() == 0 {
        Seq::empty()
    } else {
        tagged(nodes, ids.drop_last(), tag) + if has_tag(nodes[ids.last()], tag) {
            seq![ids.last()]
        } else {
            Seq::empty()
        }
    }
}

/// The first child of `i` with the tag.
pub open spec fn child(nodes: Seq<NodeModel>, i: int, tag: Seq<char>) -> Option<int> {
    first_tagged(nodes, children(nodes, i), tag)
}

/// A node's text, trimmed; empty when it has none.
pub open spec fn text_of(n: NodeModel) -> Seq<char> {
    match n.text {
        Some(t) => trim(t),
        None => Seq::empty(),
    }
}

/// The value of the attribute `name` of `node`.
pub fn attribute<'a>(node: &'a XmlNode, name: &str) -> (r: Option<&'a str>)
    ensures
        match r {
            Some(v) => attr(node@, name@) == Some(v@),
            None => attr(node@, name@) is None,
        },
{
    let ghost attrs = node@.attributes;
    let mut i: usize = 0;
    assert(attrs.take(0) =~= Seq::<(Seq<char>, Seq<char>)>::empty());
    while i < node.attributes.len()
        invariant
            i <= node.attributes@.len(),
            attrs == node@.attributes,
            attr_index(attrs.take(i as int), name@) is None,
        decreases node.attributes.len() - i,
    {
        assert(attrs.take(i + 1).drop_last() =~= attrs.take(i as int));
        if str_eq(node.attributes[i].name.as_str(), name) {
            proof {
                lemma_attr_index_prefix(attrs, i + 1, name@);
            }
            return Some(node.attributes[i].value.as_str());
        }
        i += 1;
    }
    assert(attrs.take(i as int) =~= attrs);
    None
}

pub proof fn lemma_attr_index_prefix(s: Seq<(Seq<char>, Seq<char>)>, k: int, name: Seq<char>)
    requires
        0 <= k <= s.len(),
        attr_index(s.take(k), name) is Some,
    ensures
        attr_index(s, name) == attr_index(s.take(k), name),
        0 <= attr_index(s, name)->0 < k,
    decreases s.len(),
{
    if k == s.len() {
        assert(s.take(k) =~= s);
        lemma_attr_index_range(s, name);
    } else {
        assert(s.drop_last().take(k) =~= s.take(k));
        lemma_attr_index_prefix(s.drop_last(), k, name);
    }
}

pub proof fn lemma_attr_index_range(s: Seq<(Seq<char>, Seq<char>)>, name: Seq<char>)
    ensures
        attr_index(s, name) matches Some(i) ==> 0 <= i < s.len() && s[i].0 == name,
    decreases s.len(),
{
    if s.len() > 0 {
        lemma_attr_index_range(s.drop_last(), name);
    }
}

/// Whether node `j` is `i` or below it.
fn within_exec(nodes: &[XmlNode], j: usize, i: usize) -> (r: bool)
    requires
        j < nodes.len(),
    ensures
        r == within(nodes_view(nodes@), j as int, i as int, nodes@.len() as nat),
{
    let ghost nv = nodes_view(nodes@);
    let mut cur = j;
    let mut fuel = nodes.len();
    while cur != i
        invariant
            cur < nodes.len(),
            fuel <= nodes.len(),
            nv == nodes_view(nodes@),
            within(nv, j as int, i as int, nodes@.len() as nat) == within(nv, cur as int, i as int, fuel as nat),
        decreases fuel,
    {
        if fuel == 0 {
            return false;
        }
        assert(nv[cur as int] == nodes@[cur as int]@);
        match nodes[cur].parent {
            Some(p) => {
                if p >= nodes.len() {
                    return false;
                }
                cur = p;
                fuel = fuel - 1;
            },
            None => {
                return false;
            },
        }
    }
    true
}

/// `children` (`want_children`) or `descendants` of node `i`.
pub fn select_exec(nodes: &[XmlNode], i: usize, want_children: bool) -> (r: Vec<usize>)
    ensures
        r@.map_values(|k: usize| k as int) == select(nodes_view(nodes@), i as int, nodes@.len() as int, want_children),
        forall|k: int| 0 <= k < r@.len() ==> #[trigger] r@[k] < nodes@.len(),
{
    let ghost nv = nodes_view(nodes@);
    let mut out: Vec<usize> = Vec::new();
    let mut j: usize = 0;
    while j < nodes.len()
        invariant
            j <= nodes@.len(),
            nv == nodes_view(nodes@),
            out@.map_values(|k: usize| k as int) == select(nv, i as int, j as int, want_children),
            forall|k: int| 0 <= k < out@.len() ==> #[trigger] out@[k] < nodes@.len(),
        decreases nodes.len() - j,
    {
        assert(nv[j as int] == nodes@[j as int]@);
        let keep = if want_children {
            match nodes[j].parent {
                Some(p) => p == i,
                None => false,
            }
        } else {
            within_exec(nodes, j, i)
        };
        let ghost before = out@;
        if keep {
            out.push(j);
        }
        assert(out@.map_values(|k: usize| k as int) =~= select(nv, i as int, j + 1, want_children)) by {
            assert(before.map_values(|k: usize| k as int) == select(nv, i as int, j as int, want_children));
        }
        j += 1;
    }
    out
}

/// The first of `ids` whose node has the tag.
pub fn first_tagged_exec(nodes: &[XmlNode], ids: &[usize], tag: &str) -> (r: Option<usize>)
    requires
        forall|k: int| 0 <= k < ids@.len() ==> #[trigger] ids@[k] < nodes@.len(),
    ensures
        match r {
            Some(k) => first_tagged(nodes_view(nodes@), ids@.map_values(|x: usize| x as int), tag@) == Some(
                k as int,
            ) && k < nodes@.len(),
            None => first_tagged(nodes_view(nodes@), ids@.map_values(|x: usize| x as int), tag@) is None,
        },
{
    let ghost nv = nodes_view(nodes@);
    let ghost iv = ids@.map_values(|x: usize| x as int);
    let mut k: usize = 0;
    assert(iv.take(0) =~= Seq::<int>::empty());
    while k < ids.len()
        invariant
            k <= ids@.len(),
            nv == nodes_view(nodes@),
            iv == ids@.map_values(|x: usize| x as int),
            forall|q: int| 0 <= q < ids@.len() ==> #[trigger] ids@[q] < nodes@.len(),
            first_tagged(nv, iv.take(k as int), tag@) is None,
        decreases ids.len() - k,
    {
        assert(iv.take(k + 1).drop_last() =~= iv.take(k as int));
        assert(iv.take(k + 1).last() == ids@[k as int] as int);
        let n = &nodes[ids[k]];
        assert(nv[ids@[k as int] as int] == nodes@[ids@[k as int] as int]@);
        if n.element && str_eq(n.name.as_str(), tag) {
            proof {
                lemma_first_tagged_prefix(nv, iv, k + 1, tag@);
            }
            return Some(ids[k]);
        }
        k += 1;
    }
    assert(iv.take(k as int) =~= iv);
    None
}

pub proof fn lemma_first_tagged_prefix(nodes: Seq<NodeModel>, ids: Seq<int>, k: int, tag: Seq<char>)
    requires
        0 <= k <= ids.len(),
        first_tagged(nodes, ids.take(k), tag) is Some,
    ensures
        first_tagged(nodes, ids, tag) == first_tagged(nodes, ids.take(k), tag),
    decreases ids.len(),
{
    if k == ids.len() {
        assert(ids.take(k) =~= ids);
    } else {
        assert(ids.drop_last().take(k) =~= ids.take(k));
        lemma_first_tagged_prefix(nodes, ids.drop_last(), k, tag);
    }
}

/// The ones of `ids` whose node has the tag.
pub fn tagged_exec(nodes: &[XmlNode], ids: &[usize], tag: &str) -> (r: Vec<usize>)
    requires
        forall|k: int| 0 <= k < ids@.len() ==> #[trigger] ids@[k] < nodes@.len(),
    ensures
        r@.map_values(|x: usize| x as int) == tagged(nodes_view(nodes@), ids@.map_values(|x: usize| x as int), tag@),
        forall|k: int| 0 <= k < r@.len() ==> #[trigger] r@[k] < nodes@.len(),
{
    let ghost nv = nodes_view(nodes@);
    let ghost iv = ids@.map_values(|x: usize| x as int);
    let mut out: Vec<usize> = Vec::new();
    let mut k: usize = 0;
    assert(iv.take(0) =~= Seq::<int>::empty());
    while k < ids.len()
        invariant
            k <= ids@.len(),
            nv == nodes_view(nodes@),
            iv == ids@.map_values(|x: usize| x as int),
            forall|q: int| 0 <= q < ids@.len() ==> #[trigger] ids@[q] < nodes@.len(),
            out@.map_values(|x: usize| x as int) == tagged(nv, iv.take(k as int), tag@),
            forall|q: int| 0 <= q < out@.len() ==> #[trigger] out@[q] < nodes@.len(),
        decreases ids.len() - k,
    {
        assert(iv.take(k + 1).drop_last() =~= iv.take(k as int));
        assert(iv.take(k + 1).last() == ids@[k as int] as int);
        let n = &nodes[ids[k]];
        assert(nv[ids@[k as int] as int] == nodes@[ids@[k as int] as int]@);
        let ghost before = out@;
        if n.element && str_eq(n.name.as_str(), tag) {
            out.push(ids[k]);
        }
        assert(out@.map_values(|x: usize| x as int) =~= tagged(nv, iv.take(k + 1), tag@)) by {
            assert(before.map_values(|x: usize| x as int) == tagged(nv, iv.take(k as int), tag@));
        }
        k += 1;
    }
    assert(iv.take(k as int) =~= iv);
    out
}

/// The first child of `i` with the tag.
pub fn child_exec(nodes: &[XmlNode], i: usize, tag: &str) -> (r: Option<usize>)
    ensures
        match r {
            Some(k) => child(nodes_view(nodes@), i as int, tag@) == Some(k as int) && k < nodes@.len(),
            None => child(nodes_view(nodes@), i as int, tag@) is None,
        },
{
    let kids = select_exec(nodes, i, true);
    first_tagged_exec(nodes, kids.as_slice(), tag)
}

/// A node's text, trimmed; empty when it has none.
pub fn text_of_exec(node: &XmlNode) -> (r: String)
    ensures
        r@ == text_of(node@),
{
    match &node.text {
        Some(t) => trim_str(t.as_str()).to_owned(),
        None => String::new(),
    }
}


/// Every node, in document order (roxmltree `Document::descendants`).
pub open spec fn all_ids(n: nat) -> Seq<int> {
    Seq::new(n, |i: int| i)
}

/// The indices of all nodes.
pub fn all_node_ids(nodes: &[XmlNode]) -> (r: Vec<usize>)
    ensures
        r@.map_values(|x: usize| x as int) == all_ids(nodes@.len() as nat),
        forall|q: int| 0 <= q < r@.len() ==> #[trigger] r@[q] < nodes@.len(),
{
    let mut all: Vec<usize> = Vec::new();
    let mut j: usize = 0;
    assert(all@.map_values(|x: usize| x as int) =~= all_ids(0));
    while j < nodes.len()
        invariant
            j <= nodes@.len(),
            all@.map_values(|x: usize| x as int) == all_ids(j as nat),
            forall|q: int| 0 <= q < all@.len() ==> #[trigger] all@[q] < nodes@.len(),
        decreases nodes.len() - j,
    {
        let ghost before = all@;
        all.push(j);
        assert(all@.map_values(|x: usize| x as int) =~= all_ids((j + 1) as nat)) by {
            let bm = before.map_values(|x: usize| x as int);
            let am = all@.map_values(|x: usize| x as int);
            assert(bm.len() == before.len());
            assert(all@ == before.push(j));
            assert forall|q: int| 0 <= q < j + 1 implies #[trigger] am[q] == all_ids((j + 1) as nat)[q] by {
                if q < j {
                    assert(all_ids(j as nat)[q] == q);
                    assert(bm[q] == q);
                    assert(all@[q] == before[q]);
                }
            }
        }
        j += 1;
    }
    all
}

} // verus!
