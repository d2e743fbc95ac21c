//! The parsed HTML document, modelled as a flat pre-order list of nodes
//! with parent links, and the verified extraction: find the first table
//! element whose `id` attribute is `prefix-table`, then collect the
//! trimmed text of every anchor element inside its subtree, in document
//! order. Anchors elsewhere in the document are excluded.

use crate::chars::{spec_trim, to_chars, trim_bounds};
use vstd::prelude::*;
use vstd::string::StrSliceExecFns;
use vstd::string::StringExecFns;

verus! {

/// What one node of the parsed HTML tree holds.
pub enum NodeData {
    /// An element, with its tag name and its attributes in document order.
    Element { name: String, attrs: Vec<(String, String)> },
    /// A text node.
    Text { text: String },
    /// A comment or other node without text of its own.
    Other,
}

/// One node of the flat pre-order node list of a parsed document.
pub struct DomNode {
    /// Index of the parent node; roots have none. In a well-formed list
    /// every parent comes before its children.
    pub parent: Option<usize>,
    pub data: NodeData,
}

/// The node list that parsing an HTML document yields; parsing recovers
/// from malformed input, so it is total, and it is a function of the
/// document text alone.
pub uninterp spec fn dom_of(html: Seq<char>) -> Seq<DomNode>;

/// Relies on select's `Document::from(&str)` (html5ever): parsing never
/// fails, builds the node list in pre-order — each parent before its
/// children — and is deterministic in the document text. Each entry is
/// converted field for field: the parent link, the element name with its
/// attributes, or the text.
#[verifier::external_body]
pub fn parse_nodes(html: &str) -> (r: Vec<DomNode>)
    ensures
        r@ == dom_of(html@),
{
    select::document::Document::from(html).nodes.into_iter().map(|raw| DomNode {
        parent: raw.parent,
        data: match raw.data {
            select::node::Data::Element(name, attrs) => NodeData::Element {
                name: name.local.to_string(),
                attrs: attrs.into_iter().map(|(k, v)| (k.local.to_string(), v.to_string())).collect(),
            },
            select::node::Data::Text(t) => NodeData::Text { text: t.to_string() },
            select::node::Data::Comment(_) => NodeData::Other,
        },
    }).collect()
}

// ---------------------------------------------------------------------------
// Specification of the extraction
// ---------------------------------------------------------------------------

/// Value of the first attribute named `key`, in document order.
pub open spec fn spec_attr(attrs: Seq<(String, String)>, key: Seq<char>) -> Option<Seq<char>>
    decreases attrs.len(),
{
    if attrs.len() == 0 {
        None
    } else if attrs[0].0@ == key {
        Some(attrs[0].1@)
    } else {
        spec_attr(attrs.subrange(1, attrs.len() as int), key)
    }
}

/// A `table` element whose `id` attribute equals `prefix-table`.
pub open spec fn spec_is_prefix_table(n: DomNode) -> bool {
    match n.data {
        NodeData::Element { name, attrs } => name@ == "table"@ && spec_attr(attrs@, "id"@)
            == Some("prefix-table"@),
        _ => false,
    }
}

/// An anchor element.
pub open spec fn spec_is_anchor(n: DomNode) -> bool {
    match n.data {
        NodeData::Element { name, .. } => name@ == "a"@,
        _ => false,
    }
}

/// Index of the first prefix table at or after `i`, or `-1`.
pub open spec fn find_table_from(doc: Seq<DomNode>, i: int) -> int
    decreases doc.len() - i,
    when 0 <= i <= doc.len()
{
    if i >= doc.len() {
        -1
    } else if spec_is_prefix_table(doc[i]) {
        i
    } else {
        find_table_from(doc, i + 1)
    }
}

/// Whether node `i` lies in the subtree rooted at `root`: the root
/// itself, or a node whose parent chain reaches it through decreasing
/// indices.
pub open spec fn in_subtree(doc: Seq<DomNode>, i: int, root: int) -> bool
    decreases i,
{
    if i == root {
        true
    } else if 0 <= i < doc.len() {
        match doc[i].parent {
            Some(p) => 0 <= (p as int) < i && in_subtree(doc, p as int, root),
            None => false,
        }
    } else {
        false
    }
}

/// Concatenated text of the text nodes among the first `n` nodes that lie
/// in the subtree of `root` — in document order, nested elements
/// included.
pub open spec fn spec_node_text_upto(doc: Seq<DomNode>, root: int, n: int) -> Seq<char>
    decreases n,
{
    if n <= 0 || n > doc.len() {
        Seq::empty()
    } else {
        spec_node_text_upto(doc, root, n - 1) + (match doc[n - 1].data {
            NodeData::Text { text } => if in_subtree(doc, n - 1, root) {
                text@
            } else {
                Seq::empty()
            },
            _ => Seq::empty(),
        })
    }
}

/// The combined text content of node `root`.
pub open spec fn spec_node_text(doc: Seq<DomNode>, root: int) -> Seq<char> {
    spec_node_text_upto(doc, root, doc.len() as int)
}

/// Trimmed texts of the anchors among the first `n` nodes that lie in the
/// subtree of `root`, in document order.
pub open spec fn spec_anchors_upto(doc: Seq<DomNode>, root: int, n: int) -> Seq<Seq<char>>
    decreases n,
{
    if n <= 0 || n > doc.len() {
        Seq::empty()
    } else {
        spec_anchors_upto(doc, root, n - 1) + (if spec_is_anchor(doc[n - 1]) && in_subtree(
            doc,
            n - 1,
            root,
        ) {
            seq![spec_trim(spec_node_text(doc, n - 1))]
        } else {
            Seq::empty()
        })
    }
}

/// What the extractor yields on a node list: nothing when no prefix
/// table exists, else the trimmed anchor texts of the first one's
/// subtree.
pub open spec fn spec_extract(doc: Seq<DomNode>) -> Seq<Seq<char>> {
    let t = find_table_from(doc, 0);
    if t < 0 {
        Seq::empty()
    } else {
        spec_anchors_upto(doc, t, doc.len() as int)
    }
}

/// A document without a prefix table yields no candidates.
pub proof fn lemma_no_table_empty(doc: Seq<DomNode>)
    requires
        find_table_from(doc, 0) == -1,
    ensures
        spec_extract(doc) == Seq::<Seq<char>>::empty(),
{
}

// ---------------------------------------------------------------------------
// Executable extraction
// ---------------------------------------------------------------------------

/// Looks up the first attribute named `key`.
#[verifier::loop_isolation(false)]
fn attr_lookup<'a>(attrs: &'a Vec<(String, String)>, key: &str) -> (r: Option<&'a String>)
    ensures
        match r {
            Some(v) => spec_attr(attrs@, key@) == Some(v@),
            None => spec_attr(attrs@, key@) is None,
        },
{
    let k = key.to_owned();
    let mut i: usize = 0;
    proof {
        assert(attrs@.subrange(0, attrs@.len() as int) =~= attrs@);
    }
    while i < attrs.len()
        invariant
            i <= attrs@.len(),
            spec_attr(attrs@, key@) == spec_attr(attrs@.subrange(i as int, attrs@.len() as int), key@),
        decreases attrs@.len() - i,
    {
        let ghost pre = attrs@.subrange(i as int, attrs@.len() as int);
        if attrs[i].0 == k {
            proof {
                assert(pre[0] == attrs@[i as int]);
            }
            return Some(&attrs[i].1);
        }
        proof {
            assert(pre[0] == attrs@[i as int]);
            assert(pre.subrange(1, pre.len() as int) =~= attrs@.subrange(
                i as int + 1,
                attrs@.len() as int,
            ));
        }
        i = i + 1;
    }
    proof {
        assert(attrs@.subrange(i as int, attrs@.len() as int).len() == 0);
    }
    None
}

/// Whether the node is the prefix table.
fn is_prefix_table_node(n: &DomNode) -> (r: bool)
    ensures
        r == spec_is_prefix_table(*n),
{
    match &n.data {
        NodeData::Element { name, attrs } => {
            let tbl = String::from_str("table");
            if !(*name == tbl) {
                return false;
            }
            match attr_lookup(attrs, "id") {
                Some(v) => {
                    let want = String::from_str("prefix-table");
                    *v == want
                },
                None => false,
            }
        },
        _ => false,
    }
}

/// Whether the node is an anchor element.
fn is_anchor_node(n: &DomNode) -> (r: bool)
    ensures
        r == spec_is_anchor(*n),
{
    match &n.data {
        NodeData::Element { name, .. } => {
            let a = String::from_str("a");
            *name == a
        },
        _ => false,
    }
}

proof fn lemma_find_table_from(doc: Seq<DomNode>, i: int)
    requires
        0 <= i <= doc.len(),
    ensures
        find_table_from(doc, i) == -1 ==> forall|j: int|
            i <= j < doc.len() ==> !spec_is_prefix_table(#[trigger] doc[j]),
        find_table_from(doc, i) != -1 ==> {
            let f = find_table_from(doc, i);
            &&& i <= f < doc.len()
            &&& spec_is_prefix_table(doc[f])
            &&& forall|j: int| i <= j < f ==> !spec_is_prefix_table(#[trigger] doc[j])
        },
    decreases doc.len() - i,
{
    if i >= doc.len() {
    } else if spec_is_prefix_table(doc[i]) {
    } else {
        lemma_find_table_from(doc, i + 1);
    }
}

/// Finds the first prefix table.
#[verifier::loop_isolation(false)]
fn find_prefix_table(doc: &Vec<DomNode>) -> (r: Option<usize>)
    ensures
        match r {
            Some(t) => t < doc@.len() && find_table_from(doc@, 0) == t as int,
            None => find_table_from(doc@, 0) == -1,
        },
{
    let mut i: usize = 0;
    while i < doc.len()
        invariant
            i <= doc@.len(),
            forall|j: int| 0 <= j < i ==> !spec_is_prefix_table(#[trigger] doc@[j]),
        decreases doc@.len() - i,
    {
        if is_prefix_table_node(&doc[i]) {
            proof {
                lemma_find_table_from(doc@, 0);
                let f = find_table_from(doc@, 0);
                if f == -1 {
                    assert(!spec_is_prefix_table(doc@[i as int]));
                } else {
                    if f < i {
                        assert(!spec_is_prefix_table(doc@[f]));
                    }
                    if f > i {
                        assert(!spec_is_prefix_table(doc@[i as int]));
                    }
                }
            }
            return Some(i);
        }
        i = i + 1;
    }
    proof {
        lemma_find_table_from(doc@, 0);
        let f = find_table_from(doc@, 0);
        if f != -1 {
            assert(!spec_is_prefix_table(doc@[f]));
        }
    }
    None
}

/// Whether node `i` lies in the subtree of `root`, following parent
/// links.
#[verifier::loop_isolation(false)]
fn node_in_subtree(doc: &Vec<DomNode>, i: usize, root: usize) -> (r: bool)
    requires
        i < doc@.len(),
    ensures
        r == in_subtree(doc@, i as int, root as int),
{
    let mut cur: usize = i;
    while cur != root
        invariant
            cur < doc@.len(),
            in_subtree(doc@, cur as int, root as int) == in_subtree(doc@, i as int, root as int),
        decreases cur,
    {
        match doc[cur].parent {
            Some(p) => {
                if p < cur {
                    cur = p;
                } else {
                    return false;
                }
            },
            None => {
                return false;
            },
        }
    }
    true
}

/// The combined text content of node `root`: its text-node descendants,
/// concatenated in document order.
#[verifier::loop_isolation(false)]
fn node_text(doc: &Vec<DomNode>, root: usize) -> (r: String)
    requires
        root < doc@.len(),
    ensures
        r@ == spec_node_text(doc@, root as int),
{
    let mut out = String::new();
    let mut j: usize = 0;
    while j < doc.len()
        invariant
            j <= doc@.len(),
            out@ == spec_node_text_upto(doc@, root as int, j as int),
        decreases doc@.len() - j,
    {
        match &doc[j].data {
            NodeData::Text { text } => {
                if node_in_subtree(doc, j, root) {
                    out.append(text.as_str());
                } else {
                    proof {
                        assert(out@ + Seq::<char>::empty() =~= out@);
                    }
                }
            },
            _ => {
                proof {
                    assert(out@ + Seq::<char>::empty() =~= out@);
                }
            },
        }
        j = j + 1;
    }
    out
}

/// Trims a string, returning a fresh owned copy.
pub fn trim_str(s: &str) -> (r: String)
    ensures
        r@ == spec_trim(s@),
{
    let v = to_chars(s);
    let (lo, hi) = trim_bounds(&v);
    s.substring_char(lo, hi).to_owned()
}

/// Runs the extraction on a parsed node list: the trimmed text of every
/// anchor inside the subtree of the first prefix table, in document
/// order; nothing when the table is absent.
#[verifier::loop_isolation(false)]
pub fn extract_candidates(doc: &Vec<DomNode>) -> (r: Vec<String>)
    ensures
        r.deep_view() == spec_extract(doc@),
{
    let t = match find_prefix_table(doc) {
        Some(t) => t,
        None => {
            let r: Vec<String> = Vec::new();
            proof {
                assert(r.deep_view() =~= spec_extract(doc@));
            }
            return r;
        },
    };
    let mut out: Vec<String> = Vec::new();
    let mut j: usize = 0;
    while j < doc.len()
        invariant
            j <= doc@.len(),
            t < doc@.len(),
            find_table_from(doc@, 0) == t as int,
            out.deep_view() == spec_anchors_upto(doc@, t as int, j as int),
        decreases doc@.len() - j,
    {
        let anchor = is_anchor_node(&doc[j]);
        if anchor && node_in_subtree(doc, j, t) {
            let text = node_text(doc, j);
            let trimmed = trim_str(text.as_str());
            let ghost before = out.deep_view();
            out.push(trimmed);
            proof {
                assert(out.deep_view() =~= before.push(spec_trim(spec_node_text(
                    doc@,
                    j as int,
                ))));
                assert(out.deep_view() =~= spec_anchors_upto(doc@, t as int, j + 1));
            }
        } else {
            proof {
                assert(spec_anchors_upto(doc@, t as int, j + 1) =~= spec_anchors_upto(
                    doc@,
                    t as int,
                    j as int,
                ));
            }
        }
        j = j + 1;
    }
    out
}

} // verus!
