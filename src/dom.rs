//! The document model that the gradient passes work on.
//!
//! Nodes live in an arena and are addressed by their index, which never
//! changes; the arena order is the document order. A node that is merged away
//! is not removed from the arena but marked as detached. Links between nodes
//! are attribute values holding the index of the node they point at.

use vstd::prelude::*;

verus! {

/// Element kinds that the passes tell apart.
#[derive(Clone, Copy, Debug, PartialEq, Eq, Structural)]
pub enum ElementKind {
    LinearGradient,
    RadialGradient,
    Stop,
    Other,
}

/// Attribute kinds that the passes tell apart; `Other` carries an opaque tag
/// for every remaining kind.
#[derive(Clone, Copy, Debug, PartialEq, Eq, Structural)]
pub enum AttrKind {
    X1,
    Y1,
    X2,
    Y2,
    Cx,
    Cy,
    Fx,
    Fy,
    R,
    GradientUnits,
    SpreadMethod,
    GradientTransform,
    XlinkHref,
    Fill,
    Stroke,
    Other(u32),
}

/// Unit of a length value.
#[derive(Clone, Copy, Debug, PartialEq, Eq, Structural)]
pub enum LengthUnit {
    Plain,
    Percent,
    Other,
}

/// The affine map `(x, y) -> (a*x + c*y + e, b*x + d*y + f)`, each entry in
/// fixed-point thousandths.
#[derive(Clone, Copy, Debug, PartialEq, Eq, Structural)]
pub struct Transform {
    pub a: i32,
    pub b: i32,
    pub c: i32,
    pub d: i32,
    pub e: i32,
    pub f: i32,
}

/// A typed attribute value. Numbers are fixed-point thousandths.
#[derive(Clone, Copy, Debug, PartialEq, Eq, Structural)]
pub enum AttrValue {
    Number(i32),
    Length { num: i32, unit: LengthUnit },
    Transform(Transform),
    /// A reference to the node with this index.
    Link(usize),
    /// An opaque value of some other type (a keyword, a color, ...).
    Other(u32),
}

/// An attribute: its kind, its value, and whether it is explicit (`true`) or
/// equal to the format's default and may be omitted (`false`).
#[derive(Clone, Copy, Debug, PartialEq, Eq, Structural)]
pub struct Attribute {
    pub kind: AttrKind,
    pub value: AttrValue,
    pub visible: bool,
}

/// One element of the document.
#[derive(Debug)]
pub struct Node {
    pub kind: ElementKind,
    /// Attributes, at most one of each kind.
    pub attrs: Vec<Attribute>,
    /// Indices of the node's stop children, in order.
    pub stops: Vec<usize>,
    /// `false` once the node has been removed from the tree.
    pub attached: bool,
}

/// What a node is, as the contracts see it.
pub struct NodeModel {
    pub kind: ElementKind,
    pub attrs: Seq<Attribute>,
    pub stops: Seq<usize>,
    pub attached: bool,
}

impl View for Node {
    type V = NodeModel;

    open spec fn view(&self) -> NodeModel {
        NodeModel {
            kind: self.kind,
            attrs: self.attrs@,
            stops: self.stops@,
            attached: self.attached,
        }
    }
}

/// A document: the arena of its nodes, in document order.
#[derive(Debug)]
pub struct Document {
    pub nodes: Vec<Node>,
}

impl View for Document {
    type V = Seq<NodeModel>;

    open spec fn view(&self) -> Seq<NodeModel> {
        self.nodes@.map_values(|n: Node| n@)
    }
}

pub open spec fn is_gradient(k: ElementKind) -> bool {
    k == ElementKind::LinearGradient || k == ElementKind::RadialGradient
}

/// No two attributes share a kind.
pub open spec fn unique_kinds(attrs: Seq<Attribute>) -> bool {
    forall|i: int, j: int|
        0 <= i < attrs.len() && 0 <= j < attrs.len() && attrs[i].kind == attrs[j].kind ==> i == j
}

pub open spec fn has_attr(attrs: Seq<Attribute>, k: AttrKind) -> bool {
    exists|i: int| 0 <= i < attrs.len() && attrs[i].kind == k
}

/// The attribute of kind `k`, if there is one.
pub open spec fn lookup(attrs: Seq<Attribute>, k: AttrKind) -> Option<Attribute> {
    if has_attr(attrs, k) {
        Some(attrs[choose|i: int| 0 <= i < attrs.len() && attrs[i].kind == k])
    } else {
        None
    }
}

/// The attributes without the one of kind `k`.
pub open spec fn without(attrs: Seq<Attribute>, k: AttrKind) -> Seq<Attribute> {
    if has_attr(attrs, k) {
        attrs.remove(choose|i: int| 0 <= i < attrs.len() && attrs[i].kind == k)
    } else {
        attrs
    }
}

/// The target of the node's `XlinkHref` attribute, where it holds a link.
pub open spec fn href_target(n: NodeModel) -> Option<usize> {
    match lookup(n.attrs, AttrKind::XlinkHref) {
        Some(a) => match a.value {
            AttrValue::Link(t) => Some(t),
            _ => None,
        },
        None => None,
    }
}

/// A well-formed document: attribute kinds are unique within each node,
/// every link and every stop index is in the arena, and stop children are
/// stop nodes.
pub open spec fn wf(d: Seq<NodeModel>) -> bool {
    &&& forall|i: int| 0 <= i < d.len() ==> unique_kinds(#[trigger] d[i].attrs)
    &&& forall|i: int, j: int|
        0 <= i < d.len() && 0 <= j < d[i].attrs.len() ==> (#[trigger] d[i].attrs[j].value matches AttrValue::Link(t) ==> t < d.len())
    &&& forall|i: int, j: int|
        0 <= i < d.len() && 0 <= j < d[i].stops.len() ==> #[trigger] d[i].stops[j] < d.len()
            && d[d[i].stops[j] as int].kind == ElementKind::Stop
}

/// How many attributes in `attrs` link to `t`.
pub open spec fn links_in(attrs: Seq<Attribute>, t: usize) -> nat
    decreases attrs.len(),
{
    if attrs.len() == 0 {
        0
    } else {
        links_in(attrs.drop_last(), t) + if attrs.last().value == AttrValue::Link(t) {
            1nat
        } else {
            0nat
        }
    }
}

/// How many link attributes of attached nodes among the first `n` point at `t`.
pub open spec fn uses_upto(d: Seq<NodeModel>, t: usize, n: int) -> nat
    decreases n,
{
    if n <= 0 {
        0
    } else {
        uses_upto(d, t, n - 1) + if d[n - 1].attached {
            links_in(d[n - 1].attrs, t)
        } else {
            0nat
        }
    }
}

/// How many link attributes in the whole document point at node `t`.
pub open spec fn uses_count(d: Seq<NodeModel>, t: usize) -> nat {
    uses_upto(d, t, d.len() as int)
}

/// Some attached gradient holds an attribute that links to node `t`.
pub open spec fn linked_by_gradient(d: Seq<NodeModel>, t: usize) -> bool {
    exists|j: int, k: int|
        0 <= j < d.len() && d[j].attached && is_gradient(d[j].kind) && 0 <= k < d[j].attrs.len()
            && #[trigger] d[j].attrs[k].value == AttrValue::Link(t)
}

/// The index of the attribute of kind `k`, if there is one.
pub fn find_attr(attrs: &Vec<Attribute>, k: AttrKind) -> (r: Option<usize>)
    requires
        unique_kinds(attrs@),
    ensures
        r matches Some(i) ==> i < attrs@.len() && attrs@[i as int].kind == k && lookup(attrs@, k)
            == Some(attrs@[i as int]) && without(attrs@, k) == attrs@.remove(i as int),
        r is None <==> !has_attr(attrs@, k),
        r is None ==> lookup(attrs@, k) is None && without(attrs@, k) == attrs@,
{
    let mut i: usize = 0;
    while i < attrs.len()
        invariant
            i <= attrs@.len(),
            unique_kinds(attrs@),
            forall|j: int| 0 <= j < i ==> attrs@[j].kind != k,
        decreases attrs@.len() - i,
    {
        if attrs[i].kind == k {
            proof {
                assert(has_attr(attrs@, k));
                let c = choose|j: int| 0 <= j < attrs@.len() && attrs@[j].kind == k;
                assert(attrs@[c].kind == attrs@[i as int].kind);
                assert(c == i as int);
            }
            return Some(i);
        }
        i += 1;
    }
    None
}

/// Whether the node at `t` is the target of exactly one link attribute.
pub fn is_used_once(doc: &Document, t: usize) -> (r: bool)
    ensures
        r == (uses_count(doc@, t) == 1),
{
    let mut count: usize = 0;
    let mut i: usize = 0;
    while i < doc.nodes.len()
        invariant
            i <= doc@.len(),
            doc@.len() == doc.nodes@.len(),
            count == if uses_upto(doc@, t, i as int) < 2 {
                uses_upto(doc@, t, i as int)
            } else {
                2
            },
        decreases doc@.len() - i,
    {
        let node = &doc.nodes[i];
        assert(doc@[i as int] == node@);
        if node.attached {
            let mut j: usize = 0;
            while j < node.attrs.len()
                invariant
                    j <= node.attrs@.len(),
                    count == if uses_upto(doc@, t, i as int) + links_in(node.attrs@.take(j as int), t)
                        < 2 {
                        uses_upto(doc@, t, i as int) + links_in(node.attrs@.take(j as int), t)
                    } else {
                        2
                    },
                decreases node.attrs@.len() - j,
            {
                assert(node.attrs@.take(j + 1).drop_last() =~= node.attrs@.take(j as int));
                if node.attrs[j].value == AttrValue::Link(t) && count < 2 {
                    count += 1;
                }
                j += 1;
            }
            assert(node.attrs@.take(j as int) =~= node.attrs@);
        }
        i += 1;
    }
    count == 1
}

/// Whether some attached gradient links to node `t`.
pub fn is_linked_by_gradient(doc: &Document, t: usize) -> (r: bool)
    ensures
        r == linked_by_gradient(doc@, t),
{
    let mut i: usize = 0;
    while i < doc.nodes.len()
        invariant
            i <= doc@.len(),
            doc@.len() == doc.nodes@.len(),
            forall|j: int, k: int|
                0 <= j < i && doc@[j].attached && is_gradient(doc@[j].kind) && 0 <= k
                    < doc@[j].attrs.len() ==> doc@[j].attrs[k].value != AttrValue::Link(t),
        decreases doc@.len() - i,
    {
        let node = &doc.nodes[i];
        assert(doc@[i as int] == node@);
        if node.attached && (node.kind == ElementKind::LinearGradient || node.kind
            == ElementKind::RadialGradient) {
            let mut k: usize = 0;
            while k < node.attrs.len()
                invariant
                    k <= node.attrs@.len(),
                    i < doc@.len(),
                    doc@[i as int] == node@,
                    node.attached,
                    is_gradient(node.kind),
                    forall|m: int| 0 <= m < k ==> node.attrs@[m].value != AttrValue::Link(t),
                decreases node.attrs@.len() - k,
            {
                if node.attrs[k].value == AttrValue::Link(t) {
                    assert(doc@[i as int].attrs[k as int].value == AttrValue::Link(t));
                    return true;
                }
                k += 1;
            }
        }
        i += 1;
    }
    false
}

/// Whether no two attributes share a kind.
fn kinds_unique(attrs: &Vec<Attribute>) -> (r: bool)
    ensures
        r == unique_kinds(attrs@),
{
    let mut i: usize = 0;
    while i < attrs.len()
        invariant
            i <= attrs@.len(),
            forall|a: int, b: int|
                0 <= a < i && 0 <= b < attrs@.len() && attrs@[a].kind == attrs@[b].kind ==> a == b,
        decreases attrs@.len() - i,
    {
        let mut j: usize = 0;
        while j < attrs.len()
            invariant
                i < attrs@.len(),
                j <= attrs@.len(),
                forall|a: int, b: int|
                    0 <= a < i && 0 <= b < attrs@.len() && attrs@[a].kind == attrs@[b].kind ==> a
                        == b,
                forall|b: int| 0 <= b < j && attrs@[i as int].kind == attrs@[b].kind ==> i == b,
            decreases attrs@.len() - j,
        {
            if j != i && attrs[i].kind == attrs[j].kind {
                return false;
            }
            j += 1;
        }
        i += 1;
    }
    true
}

/// Whether the document is well formed, as the passes require.
pub fn is_well_formed(doc: &Document) -> (r: bool)
    ensures
        r == wf(doc@),
{
    let n = doc.nodes.len();
    let mut i: usize = 0;
    while i < n
        invariant
            n == doc@.len(),
            i <= n,
            forall|x: int| 0 <= x < i ==> unique_kinds(#[trigger] doc@[x].attrs),
            forall|x: int, j: int|
                0 <= x < i && 0 <= j < doc@[x].attrs.len() ==> (
                #[trigger] doc@[x].attrs[j].value matches AttrValue::Link(t) ==> t < n),
            forall|x: int, j: int|
                0 <= x < i && 0 <= j < doc@[x].stops.len() ==> #[trigger] doc@[x].stops[j] < n
                    && doc@[doc@[x].stops[j] as int].kind == ElementKind::Stop,
        decreases n - i,
    {
        let node = &doc.nodes[i];
        assert(doc@[i as int] == node@);
        if !kinds_unique(&node.attrs) {
            return false;
        }
        let mut j: usize = 0;
        while j < node.attrs.len()
            invariant
                n == doc@.len(),
                i < n,
                doc@[i as int] == node@,
                j <= node.attrs@.len(),
                forall|k: int|
                    0 <= k < j ==> (#[trigger] node.attrs@[k].value matches AttrValue::Link(t) ==> t
                        < n),
            decreases node.attrs@.len() - j,
        {
            if let AttrValue::Link(t) = node.attrs[j].value {
                if t >= n {
                    assert(doc@[i as int].attrs[j as int].value == AttrValue::Link(t));
                    return false;
                }
            }
            j += 1;
        }
        let mut k: usize = 0;
        while k < node.stops.len()
            invariant
                n == doc@.len(),
                i < n,
                doc@[i as int] == node@,
                k <= node.stops@.len(),
                forall|q: int|
                    0 <= q < k ==> #[trigger] node.stops@[q] < n && doc@[node.stops@[q] as int].kind
                        == ElementKind::Stop,
            decreases node.stops@.len() - k,
        {
            let s = node.stops[k];
            if s >= n {
                assert(doc@[i as int].stops[k as int] == s);
                return false;
            }
            assert(doc@[s as int] == doc.nodes@[s as int]@);
            if doc.nodes[s].kind != ElementKind::Stop {
                assert(doc@[i as int].stops[k as int] == s);
                return false;
            }
            k += 1;
        }
        assert forall|j2: int| 0 <= j2 < doc@[i as int].attrs.len() implies (
            #[trigger] doc@[i as int].attrs[j2].value matches AttrValue::Link(t) ==> t < n) by {
            assert(doc@[i as int].attrs[j2] == node.attrs@[j2]);
        }
        assert forall|j2: int| 0 <= j2 < doc@[i as int].stops.len() implies #[trigger] doc@[i as int].stops[j2] < n
            && doc@[doc@[i as int].stops[j2] as int].kind == ElementKind::Stop by {
            assert(doc@[i as int].stops[j2] == node.stops@[j2]);
        }
        i += 1;
    }
    true
}

/// Taking the attribute of one kind away keeps the kinds unique, leaves none
/// of that kind, and shifts each later attribute down by one.
pub proof fn lemma_without(attrs: Seq<Attribute>, k: AttrKind)
    requires
        unique_kinds(attrs),
    ensures
        unique_kinds(without(attrs, k)),
        !has_attr(without(attrs, k), k),
        forall|j: int|
            0 <= j < without(attrs, k).len() ==> #[trigger] without(attrs, k)[j] == attrs[j] || without(
                attrs,
                k,
            )[j] == attrs[j + 1],
        without(attrs, k).len() <= attrs.len(),
{
    if has_attr(attrs, k) {
        let c = choose|i: int| 0 <= i < attrs.len() && attrs[i].kind == k;
        let w = attrs.remove(c);
        assert forall|a: int, b: int|
            0 <= a < w.len() && 0 <= b < w.len() && w[a].kind == w[b].kind implies a == b by {
            let a2 = if a < c {
                a
            } else {
                a + 1
            };
            let b2 = if b < c {
                b
            } else {
                b + 1
            };
            assert(attrs[a2].kind == attrs[b2].kind);
        }
        if has_attr(w, k) {
            let j = choose|i: int| 0 <= i < w.len() && w[i].kind == k;
            let j2 = if j < c {
                j
            } else {
                j + 1
            };
            assert(attrs[j2].kind == attrs[c].kind);
        }
    }
}

} // verus!
