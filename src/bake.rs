//! Gradient transform baking.
//!
//! A gradient whose transform is a positive uniform scale plus a translation
//! gets the transform folded into its coordinates, and loses the transform
//! attribute. Gradients that others inherit from, gradients that inherit a
//! transform, and gradients whose coordinates are not plain numbers are left
//! alone.

use vstd::prelude::*;
use crate::dom::{
    find_attr, has_attr, lemma_without, href_target, is_gradient, is_linked_by_gradient, linked_by_gradient,
    lookup, unique_kinds, without, wf, AttrKind, AttrValue, Attribute, Document, ElementKind,
    LengthUnit, NodeModel, Transform,
};
use crate::fuzzy::UNITS_PER_ONE;

verus! {

/// The transform is a positive uniform scale followed by a translation: no
/// rotation, no skew, the same factor on both axes.
pub open spec fn valid_transform(ts: Transform) -> bool {
    ts.b == 0 && ts.c == 0 && ts.a == ts.d && ts.a > 0
}

/// The value of a plain number or of a length without a unit.
pub open spec fn plain_number(v: AttrValue) -> Option<int> {
    match v {
        AttrValue::Number(n) => Some(n as int),
        AttrValue::Length { num, unit } => if unit == LengthUnit::Plain {
            Some(num as int)
        } else {
            None
        },
        _ => None,
    }
}

/// `v` scaled by the fixed-point factor `s`, rounded half away from zero.
pub open spec fn scaled(v: int, s: int) -> int {
    let p = v * s;
    let u = UNITS_PER_ONE as int;
    if p >= 0 {
        (p + u / 2) / u
    } else {
        -((-p + u / 2) / u)
    }
}

/// Abscissas among a gradient's coordinates.
pub open spec fn is_x_coord(node: ElementKind, k: AttrKind) -> bool {
    if node == ElementKind::LinearGradient {
        k == AttrKind::X1 || k == AttrKind::X2
    } else {
        k == AttrKind::Cx || k == AttrKind::Fx
    }
}

/// Ordinates among a gradient's coordinates.
pub open spec fn is_y_coord(node: ElementKind, k: AttrKind) -> bool {
    if node == ElementKind::LinearGradient {
        k == AttrKind::Y1 || k == AttrKind::Y2
    } else {
        k == AttrKind::Cy || k == AttrKind::Fy
    }
}

pub open spec fn is_radius(node: ElementKind, k: AttrKind) -> bool {
    node != ElementKind::LinearGradient && k == AttrKind::R
}

pub open spec fn is_coord(node: ElementKind, k: AttrKind) -> bool {
    is_x_coord(node, k) || is_y_coord(node, k) || is_radius(node, k)
}

/// The coordinates a gradient of kind `node` needs as plain numbers.
pub open spec fn coord_kinds(node: ElementKind) -> Seq<AttrKind> {
    if node == ElementKind::LinearGradient {
        seq![AttrKind::X1, AttrKind::Y1, AttrKind::X2, AttrKind::Y2]
    } else {
        seq![AttrKind::Cx, AttrKind::Cy, AttrKind::Fx, AttrKind::Fy, AttrKind::R]
    }
}

/// Coordinate `v` of kind `k` once `ts` is folded in: points map through the
/// transform, the radius scales by its factor.
pub open spec fn baked_value(node: ElementKind, k: AttrKind, v: int, ts: Transform) -> int {
    if is_x_coord(node, k) {
        scaled(v, ts.a as int) + ts.e
    } else if is_y_coord(node, k) {
        scaled(v, ts.d as int) + ts.f
    } else if is_radius(node, k) {
        scaled(v, ts.a as int)
    } else {
        v
    }
}

pub open spec fn fits_i32(v: int) -> bool {
    i32::MIN <= v <= i32::MAX
}

/// Every coordinate is present as a plain number whose baked value fits.
pub open spec fn coords_ok(node: ElementKind, attrs: Seq<Attribute>, ts: Transform) -> bool {
    forall|j: int|
        0 <= j < coord_kinds(node).len() ==> {
            let k = #[trigger] coord_kinds(node)[j];
            lookup(attrs, k) matches Some(a) && (plain_number(a.value) matches Some(v) && fits_i32(
                baked_value(node, k, v, ts),
            ))
        }
}

/// The attribute with `ts` folded in, where it is a plain coordinate.
pub open spec fn bake_attr(a: Attribute, node: ElementKind, ts: Transform) -> Attribute {
    if is_coord(node, a.kind) {
        match a.value {
            AttrValue::Number(v) => Attribute {
                kind: a.kind,
                value: AttrValue::Number(baked_value(node, a.kind, v as int, ts) as i32),
                visible: true,
            },
            AttrValue::Length { num, unit } => if unit == LengthUnit::Plain {
                Attribute {
                    kind: a.kind,
                    value: AttrValue::Length {
                        num: baked_value(node, a.kind, num as int, ts) as i32,
                        unit,
                    },
                    visible: true,
                }
            } else {
                a
            },
            _ => a,
        }
    } else {
        a
    }
}

/// The transform attribute's value, where it holds a transform.
pub open spec fn transform_of(n: NodeModel) -> Option<Transform> {
    match lookup(n.attrs, AttrKind::GradientTransform) {
        Some(a) => match a.value {
            AttrValue::Transform(ts) => Some(ts),
            _ => None,
        },
        None => None,
    }
}

/// The gradient links to a node that carries a transform of its own.
pub open spec fn inherits_transform(d: Seq<NodeModel>, n: NodeModel) -> bool {
    href_target(n) matches Some(t) && t < d.len() && has_attr(
        d[t as int].attrs,
        AttrKind::GradientTransform,
    )
}

/// The transform that node `i` may have folded into its coordinates now.
pub open spec fn bake_transform(d: Seq<NodeModel>, i: int) -> Option<Transform> {
    if 0 <= i < d.len() && d[i].attached && is_gradient(d[i].kind) {
        match transform_of(d[i]) {
            Some(ts) => if !linked_by_gradient(d, i as usize) && !inherits_transform(d, d[i])
                && valid_transform(ts) && coords_ok(d[i].kind, d[i].attrs, ts) {
                Some(ts)
            } else {
                None
            },
            None => None,
        }
    } else {
        None
    }
}

/// The node with `ts` folded into its coordinates and no transform left.
pub open spec fn baked_node(n: NodeModel, ts: Transform) -> NodeModel {
    NodeModel {
        kind: n.kind,
        attrs: without(
            n.attrs.map_values(|a: Attribute| bake_attr(a, n.kind, ts)),
            AttrKind::GradientTransform,
        ),
        stops: n.stops,
        attached: n.attached,
    }
}

/// The document after the pass has visited the first `n` nodes.
pub open spec fn bake_upto(d: Seq<NodeModel>, n: int) -> Seq<NodeModel>
    decreases n,
{
    if n <= 0 {
        d
    } else {
        let c = bake_upto(d, n - 1);
        match bake_transform(c, n - 1) {
            Some(ts) => c.update(n - 1, baked_node(c[n - 1], ts)),
            None => c,
        }
    }
}

/// The document after the pass.
pub open spec fn baked(d: Seq<NodeModel>) -> Seq<NodeModel> {
    bake_upto(d, d.len() as int)
}

/// Some attribute links to node `x`.
pub open spec fn holds_link(attrs: Seq<Attribute>, x: usize) -> bool {
    exists|k: int| 0 <= k < attrs.len() && attrs[k].value == AttrValue::Link(x)
}

/// Baking node `i` keeps the document well formed, every node's kind, and
/// every link held by node `i`.
proof fn lemma_bake_node(d: Seq<NodeModel>, i: int, ts: Transform)
    requires
        wf(d),
        bake_transform(d, i) == Some(ts),
    ensures
        wf(d.update(i, baked_node(d[i], ts))),
        forall|x: usize|
            #[trigger] holds_link(d[i].attrs, x) ==> holds_link(baked_node(d[i], ts).attrs, x),
{
    let n = d[i];
    let m = n.attrs.map_values(|a: Attribute| bake_attr(a, n.kind, ts));
    let w = without(m, AttrKind::GradientTransform);
    let e = d.update(i, baked_node(n, ts));
    assert(unique_kinds(n.attrs));
    assert forall|x: int, y: int| 0 <= x < m.len() && 0 <= y < m.len() && m[x].kind == m[y].kind implies x == y by {
        assert(n.attrs[x].kind == n.attrs[y].kind);
    }
    lemma_without(m, AttrKind::GradientTransform);
    let c = choose|c: int| 0 <= c < n.attrs.len() && n.attrs[c].kind == AttrKind::GradientTransform;
    assert(has_attr(m, AttrKind::GradientTransform) && m[c].kind == AttrKind::GradientTransform);
    assert(w == m.remove(c));
    assert(n.attrs[c].value == AttrValue::Transform(ts));
    assert forall|x: int, j: int|
        0 <= x < e.len() && 0 <= j < e[x].attrs.len() implies (
        #[trigger] e[x].attrs[j].value matches AttrValue::Link(q) ==> q < e.len()) by {
        if x == i {
            let j2 = if j < c { j } else { j + 1 };
            assert(w[j] == m[j2]);
            assert(n.attrs[j2].value matches AttrValue::Link(q) ==> m[j2].value == n.attrs[j2].value);
        } else {
            assert(e[x].attrs == d[x].attrs);
        }
    }
    assert forall|x: int| 0 <= x < e.len() implies unique_kinds(#[trigger] e[x].attrs) by {
        if x != i {
            assert(e[x].attrs == d[x].attrs);
        }
    }
    assert forall|x: int, j: int|
        0 <= x < e.len() && 0 <= j < e[x].stops.len() implies #[trigger] e[x].stops[j] < e.len()
        && e[e[x].stops[j] as int].kind == ElementKind::Stop by {
        assert(e[x].stops == d[x].stops);
    }
    assert forall|q: usize| #[trigger] holds_link(n.attrs, q) implies holds_link(w, q) by {
        let k = choose|k: int| 0 <= k < n.attrs.len() && n.attrs[k].value == AttrValue::Link(q);
        assert(m[k].value == AttrValue::Link(q));
        assert(k != c);
        let k2 = if k < c { k } else { k - 1 };
        assert(w[k2] == m[k]);
    }
    assert(baked_node(n, ts).attrs == w);
}

/// Nodes at or after `n` are untouched by the first `n` steps, and each
/// earlier node keeps what its own step made of it.
proof fn lemma_bake_upto(d: Seq<NodeModel>, n: int)
    requires
        wf(d),
        n <= d.len(),
    ensures
        wf(bake_upto(d, n)),
        bake_upto(d, n).len() == d.len(),
        forall|k: int| n <= k < d.len() ==> #[trigger] bake_upto(d, n)[k] == d[k],
        forall|k: int|
            0 <= k < n && k < d.len() ==> #[trigger] bake_upto(d, n)[k] == bake_upto(d, k + 1)[k],
    decreases n,
{
    if n > 0 {
        lemma_bake_upto(d, n - 1);
        let c = bake_upto(d, n - 1);
        if let Some(ts) = bake_transform(c, n - 1) {
            lemma_bake_node(c, n - 1, ts);
        }
    }
}

/// The node that the pass leaves at index `i` is the one its own step made.
proof fn lemma_baked_at(d: Seq<NodeModel>, i: int)
    requires
        wf(d),
        0 <= i < d.len(),
    ensures
        baked(d)[i] == match bake_transform(bake_upto(d, i), i) {
            Some(ts) => baked_node(d[i], ts),
            None => d[i],
        },
{
    lemma_bake_upto(d, d.len() as int);
    lemma_bake_upto(d, i);
    lemma_bake_upto(d, i + 1);
}

/// Links from attached gradients to `x` survive the first `n` steps.
proof fn lemma_links_survive(d: Seq<NodeModel>, n: int, x: usize)
    requires
        wf(d),
        n <= d.len(),
        linked_by_gradient(d, x),
    ensures
        linked_by_gradient(bake_upto(d, n), x),
    decreases n,
{
    if n > 0 {
        lemma_links_survive(d, n - 1, x);
        lemma_bake_upto(d, n - 1);
        let c = bake_upto(d, n - 1);
        if let Some(ts) = bake_transform(c, n - 1) {
            lemma_bake_node(c, n - 1, ts);
            let e = c.update(n - 1, baked_node(c[n - 1], ts));
            let (j, k) = choose|j: int, k: int|
                0 <= j < c.len() && c[j].attached && is_gradient(c[j].kind) && 0 <= k
                    < c[j].attrs.len() && #[trigger] c[j].attrs[k].value == AttrValue::Link(x);
            if j == n - 1 {
                assert(holds_link(c[j].attrs, x));
                assert(holds_link(e[j].attrs, x));
                let k2 = choose|k2: int| 0 <= k2 < e[j].attrs.len() && e[j].attrs[k2].value
                    == AttrValue::Link(x);
                assert(e[j].attrs[k2].value == AttrValue::Link(x));
            } else {
                assert(e[j].attrs[k].value == AttrValue::Link(x));
            }
        }
    }
}

/// A gradient that another gradient links to is never baked, whatever its
/// transform.
pub proof fn lemma_linked_gradient_not_baked(d: Seq<NodeModel>, i: usize)
    requires
        wf(d),
        i < d.len(),
        linked_by_gradient(d, i),
    ensures
        baked(d)[i as int] == d[i as int],
{
    lemma_links_survive(d, i as int, i);
    lemma_bake_upto(d, i as int);
    lemma_baked_at(d, i as int);
}

/// A gradient that links to a node carrying its own transform is never
/// baked.
pub proof fn lemma_inheriting_gradient_not_baked(d: Seq<NodeModel>, i: int)
    requires
        wf(d),
        0 <= i < d.len(),
        inherits_transform(d, d[i]),
    ensures
        baked(d)[i] == d[i],
{
    lemma_bake_upto(d, i);
    lemma_baked_at(d, i);
    let t = href_target(d[i]).unwrap();
    let c = bake_upto(d, i);
    if d[i].attached && is_gradient(d[i].kind) {
        let attrs = d[i].attrs;
        let h = choose|h: int| 0 <= h < attrs.len() && attrs[h].kind == AttrKind::XlinkHref;
        assert(attrs[h].value == AttrValue::Link(t));
        assert(linked_by_gradient(d, t));
        if (t as int) < i {
            lemma_links_survive(d, t as int, t);
            lemma_bake_upto(d, t as int);
            lemma_bake_upto(d, t as int + 1);
            assert(c[t as int] == bake_upto(d, t as int + 1)[t as int]);
            assert(bake_upto(d, t as int)[t as int] == d[t as int]);
        }
        assert(c[t as int] == d[t as int]);
        assert(c[i] == d[i]);
    }
}

/// A transform with a rotation or skew component leaves the gradient and
/// its transform attribute untouched.
pub proof fn lemma_skewed_gradient_not_baked(d: Seq<NodeModel>, i: int, ts: Transform)
    requires
        wf(d),
        0 <= i < d.len(),
        transform_of(d[i]) == Some(ts),
        ts.b != 0 || ts.c != 0,
    ensures
        baked(d)[i] == d[i],
{
    lemma_bake_upto(d, i);
    lemma_baked_at(d, i);
}

/// The coordinates a gradient of kind `node` needs as plain numbers.
fn coordinate_kinds(node: ElementKind) -> (r: Vec<AttrKind>)
    ensures
        r@ == coord_kinds(node),
{
    let r = if node == ElementKind::LinearGradient {
        vec![AttrKind::X1, AttrKind::Y1, AttrKind::X2, AttrKind::Y2]
    } else {
        vec![AttrKind::Cx, AttrKind::Cy, AttrKind::Fx, AttrKind::Fy, AttrKind::R]
    };
    assert(r@ =~= coord_kinds(node));
    r
}

/// `v` scaled by the fixed-point factor `s`, rounded half away from zero.
pub fn scale_value(v: i32, s: i32) -> (r: i64)
    ensures
        r == scaled(v as int, s as int),
        -0x20_0000_0000_0000 <= r <= 0x20_0000_0000_0000,
{
    proof {
        assert(-0x4000_0000_0000_0000 <= (v as int) * (s as int) <= 0x4000_0000_0000_0000) by (nonlinear_arith);
    }
    let p: i64 = v as i64 * s as i64;
    let half: u64 = (UNITS_PER_ONE / 2) as u64;
    let unit: u64 = UNITS_PER_ONE as u64;
    if p >= 0 {
        ((p as u64 + half) / unit) as i64
    } else {
        -((((-p) as u64 + half) / unit) as i64)
    }
}

/// Coordinate `v` of kind `k` once `ts` is folded in.
fn baked_coordinate(node: ElementKind, k: AttrKind, v: i32, ts: Transform) -> (r: i64)
    ensures
        r == baked_value(node, k, v as int, ts),
{
    let linear = node == ElementKind::LinearGradient;
    let is_x = if linear {
        k == AttrKind::X1 || k == AttrKind::X2
    } else {
        k == AttrKind::Cx || k == AttrKind::Fx
    };
    let is_y = if linear {
        k == AttrKind::Y1 || k == AttrKind::Y2
    } else {
        k == AttrKind::Cy || k == AttrKind::Fy
    };
    if is_x {
        scale_value(v, ts.a) + ts.e as i64
    } else if is_y {
        scale_value(v, ts.d) + ts.f as i64
    } else if !linear && k == AttrKind::R {
        scale_value(v, ts.a)
    } else {
        v as i64
    }
}

/// The value of a plain number or of a length without a unit.
fn plain_value(v: AttrValue) -> (r: Option<i32>)
    ensures
        r matches Some(n) ==> plain_number(v) == Some(n as int),
        r is None ==> plain_number(v) is None,
{
    match v {
        AttrValue::Number(n) => Some(n),
        AttrValue::Length { num, unit } => if unit == LengthUnit::Plain {
            Some(num)
        } else {
            None
        },
        _ => None,
    }
}

/// Whether every coordinate is a plain number whose baked value fits.
fn coords_valid(node: ElementKind, attrs: &Vec<Attribute>, ts: Transform) -> (r: bool)
    requires
        unique_kinds(attrs@),
    ensures
        r == coords_ok(node, attrs@, ts),
{
    let kinds = coordinate_kinds(node);
    let mut j: usize = 0;
    while j < kinds.len()
        invariant
            kinds@ == coord_kinds(node),
            j <= kinds@.len(),
            unique_kinds(attrs@),
            forall|q: int|
                0 <= q < j ==> {
                    let k = #[trigger] coord_kinds(node)[q];
                    lookup(attrs@, k) matches Some(a) && (plain_number(a.value) matches Some(v)
                        && fits_i32(baked_value(node, k, v, ts)))
                },
        decreases kinds@.len() - j,
    {
        let k = kinds[j];
        let ok = match find_attr(attrs, k) {
            Some(p) => match plain_value(attrs[p].value) {
                Some(v) => {
                    let b = baked_coordinate(node, k, v, ts);
                    i32::MIN as i64 <= b && b <= i32::MAX as i64
                },
                None => false,
            },
            None => false,
        };
        if !ok {
            return false;
        }
        j += 1;
    }
    true
}

/// The attribute with `ts` folded in, where it is a plain coordinate.
fn bake_attribute(a: Attribute, node: ElementKind, ts: Transform) -> (r: Attribute)
    requires
        is_coord(node, a.kind) && plain_number(a.value) is Some ==> fits_i32(
            baked_value(node, a.kind, plain_number(a.value).unwrap(), ts),
        ),
    ensures
        r == bake_attr(a, node, ts),
{
    let linear = node == ElementKind::LinearGradient;
    let coord = match a.kind {
        AttrKind::X1 | AttrKind::Y1 | AttrKind::X2 | AttrKind::Y2 => linear,
        AttrKind::Cx | AttrKind::Cy | AttrKind::Fx | AttrKind::Fy | AttrKind::R => !linear,
        _ => false,
    };
    if !coord {
        return a;
    }
    match a.value {
        AttrValue::Number(v) => Attribute {
            kind: a.kind,
            value: AttrValue::Number(baked_coordinate(node, a.kind, v, ts) as i32),
            visible: true,
        },
        AttrValue::Length { num, unit } => if unit == LengthUnit::Plain {
            Attribute {
                kind: a.kind,
                value: AttrValue::Length {
                    num: baked_coordinate(node, a.kind, num, ts) as i32,
                    unit,
                },
                visible: true,
            }
        } else {
            a
        },
        _ => a,
    }
}

/// The transform that node `i` may have folded into its coordinates now.
fn bake_transform_of(doc: &Document, i: usize) -> (r: Option<Transform>)
    requires
        wf(doc@),
        i < doc@.len(),
    ensures
        r == bake_transform(doc@, i as int),
{
    let node = &doc.nodes[i];
    assert(doc@[i as int] == node@);
    if !node.attached || !(node.kind == ElementKind::LinearGradient || node.kind
        == ElementKind::RadialGradient) {
        return None;
    }
    let ts = match find_attr(&node.attrs, AttrKind::GradientTransform) {
        Some(p) => match node.attrs[p].value {
            AttrValue::Transform(ts) => ts,
            _ => {
                return None;
            },
        },
        None => {
            return None;
        },
    };
    if is_linked_by_gradient(doc, i) {
        return None;
    }
    if let Some(h) = find_attr(&node.attrs, AttrKind::XlinkHref) {
        if let AttrValue::Link(t) = node.attrs[h].value {
            proof {
                assert(doc@[i as int].attrs[h as int].value == AttrValue::Link(t));
            }
            let target = &doc.nodes[t];
            assert(doc@[t as int] == target@);
            assert(unique_kinds(doc@[t as int].attrs));
            if find_attr(&target.attrs, AttrKind::GradientTransform).is_some() {
                return None;
            }
        }
    }
    if !(ts.b == 0 && ts.c == 0 && ts.a == ts.d && ts.a > 0) {
        return None;
    }
    if !coords_valid(node.kind, &node.attrs, ts) {
        return None;
    }
    Some(ts)
}

/// Folds `ts` into node `i`'s coordinates and drops its transform.
fn bake_node(doc: &mut Document, i: usize, ts: Transform)
    requires
        wf(old(doc)@),
        bake_transform(old(doc)@, i as int) == Some(ts),
    ensures
        final(doc)@ == old(doc)@.update(i as int, baked_node(old(doc)@[i as int], ts)),
{
    let ghost d0 = doc@;
    let ghost n0 = d0[i as int];
    proof {
        assert(doc@[i as int] == doc.nodes@[i as int]@);
    }
    let kind = doc.nodes[i].kind;
    let mut j: usize = 0;
    while j < doc.nodes[i].attrs.len()
        invariant
            i < doc.nodes@.len(),
            doc.nodes@.len() == d0.len(),
            wf(d0),
            kind == n0.kind,
            unique_kinds(n0.attrs),
            coords_ok(kind, n0.attrs, ts),
            doc.nodes@[i as int].attrs@.len() == n0.attrs.len(),
            forall|k: int|
                0 <= k < j ==> doc.nodes@[i as int].attrs@[k] == bake_attr(n0.attrs[k], kind, ts),
            forall|k: int| j <= k < n0.attrs.len() ==> doc.nodes@[i as int].attrs@[k] == n0.attrs[k],
            doc.nodes@[i as int].kind == kind,
            doc.nodes@[i as int].stops@ == n0.stops,
            doc.nodes@[i as int].attached == n0.attached,
            forall|x: int| 0 <= x < d0.len() && x != i ==> #[trigger] doc.nodes@[x]@ == d0[x],
        decreases n0.attrs.len() - j,
    {
        let a = doc.nodes[i].attrs[j];
        proof {
            if is_coord(kind, a.kind) && plain_number(a.value) is Some {
                let q = if kind == ElementKind::LinearGradient {
                    if a.kind == AttrKind::X1 { 0int } else if a.kind == AttrKind::Y1 { 1int } else if a.kind == AttrKind::X2 { 2int } else { 3int }
                } else {
                    if a.kind == AttrKind::Cx { 0int } else if a.kind == AttrKind::Cy { 1int } else if a.kind == AttrKind::Fx { 2int } else if a.kind == AttrKind::Fy { 3int } else { 4int }
                };
                assert(coord_kinds(kind)[q] == a.kind);
                assert(n0.attrs[j as int] == a);
                assert(has_attr(n0.attrs, a.kind));
                let c = choose|c: int| 0 <= c < n0.attrs.len() && n0.attrs[c].kind == a.kind;
                assert(c == j as int);
            }
        }
        let b = bake_attribute(a, kind, ts);
        doc.nodes[i].attrs.set(j, b);
        j += 1;
    }
    let ghost mapped = doc.nodes@[i as int].attrs@;
    proof {
        assert(mapped =~= n0.attrs.map_values(|a: Attribute| bake_attr(a, n0.kind, ts)));
        assert forall|x: int, y: int|
            0 <= x < mapped.len() && 0 <= y < mapped.len() && mapped[x].kind == mapped[y].kind implies x == y by {
            assert(n0.attrs[x].kind == n0.attrs[y].kind);
        }
    }
    let p = find_attr(&doc.nodes[i].attrs, AttrKind::GradientTransform);
    if let Some(p) = p {
        doc.nodes[i].attrs.remove(p);
    }
    proof {
        let e = d0.update(i as int, baked_node(n0, ts));
        assert(doc.nodes@[i as int].attrs@ =~= e[i as int].attrs);
        assert(doc.nodes@[i as int]@ == e[i as int]);
        assert(doc@ =~= e);
    }
}

/// Folds each eligible gradient's transform into its coordinates, visiting
/// the nodes in document order.
pub fn apply_transform_to_gradients(doc: &mut Document)
    requires
        wf(old(doc)@),
    ensures
        final(doc)@ == baked(old(doc)@),
        wf(final(doc)@),
{
    let ghost d0 = doc@;
    let mut i: usize = 0;
    while i < doc.nodes.len()
        invariant
            wf(d0),
            i <= d0.len(),
            doc.nodes@.len() == d0.len(),
            doc@ == bake_upto(d0, i as int),
            wf(doc@),
        decreases d0.len() - i,
    {
        let r = bake_transform_of(doc, i);
        if let Some(ts) = r {
            proof {
                lemma_bake_node(doc@, i as int, ts);
            }
            bake_node(doc, i, ts);
        }
        i += 1;
        proof {
            lemma_bake_upto(d0, i as int);
        }
    }
}

} // verus!
