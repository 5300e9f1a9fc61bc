//! Gradient chain merging.
//!
//! A gradient that links to another gradient used by nobody else, which does
//! not link onwards itself, takes over that gradient's stops (when it has none
//! of its own) and the explicit marks of its relevant attributes, drops the
//! link, and the other gradient is removed. Removals are deferred to the end
//! of each sweep; sweeps repeat until one removes nothing.

use vstd::prelude::*;
use crate::dom::{
    find_attr, is_used_once, lemma_without, links_in, uses_upto, Document,
    has_attr, href_target, is_gradient, lookup, unique_kinds, uses_count, without, wf, AttrKind,
    AttrValue, Attribute, ElementKind, NodeModel,
};

verus! {

/// The attributes whose explicit marks a merge carries over for a gradient
/// of kind `node`.
pub open spec fn is_relevant(node: ElementKind, k: AttrKind) -> bool {
    k == AttrKind::GradientUnits || k == AttrKind::SpreadMethod || k == AttrKind::GradientTransform
        || if node == ElementKind::LinearGradient {
        k == AttrKind::X1 || k == AttrKind::Y1 || k == AttrKind::X2 || k == AttrKind::Y2
    } else {
        k == AttrKind::Cx || k == AttrKind::Cy || k == AttrKind::Fx || k == AttrKind::Fy || k
            == AttrKind::R
    }
}

/// `a` after a merge from a node with attributes `src`: marked explicit when
/// it is relevant and `src`'s attribute of the same kind is explicit.
pub open spec fn exposed(a: Attribute, node: ElementKind, src: Seq<Attribute>) -> Attribute {
    if is_relevant(node, a.kind) && (lookup(src, a.kind) matches Some(b) && b.visible) {
        Attribute { kind: a.kind, value: a.value, visible: true }
    } else {
        a
    }
}

/// The node that gradient `i` would absorb: the target of its link, when
/// that target is used exactly once and links nowhere itself.
pub open spec fn merge_target(d: Seq<NodeModel>, i: int) -> Option<usize> {
    if 0 <= i < d.len() && d[i].attached && is_gradient(d[i].kind) {
        match href_target(d[i]) {
            Some(t) => if t < d.len() && uses_count(d, t) == 1 && !has_attr(
                d[t as int].attrs,
                AttrKind::XlinkHref,
            ) {
                Some(t)
            } else {
                None
            },
            None => None,
        }
    } else {
        None
    }
}

/// The document after gradient `i` absorbs node `t`: `i` takes `t`'s stops
/// when it has none, loses its link, and exposes what `t` had explicit.
pub open spec fn merge_into(d: Seq<NodeModel>, i: int, t: int) -> Seq<NodeModel> {
    let n = d[i];
    let m = d[t];
    let take = n.stops.len() == 0;
    let n2 = NodeModel {
        kind: n.kind,
        attrs: without(n.attrs, AttrKind::XlinkHref).map_values(
            |a: Attribute| exposed(a, n.kind, m.attrs),
        ),
        stops: if take {
            m.stops
        } else {
            n.stops
        },
        attached: n.attached,
    };
    let m2 = NodeModel {
        kind: m.kind,
        attrs: m.attrs,
        stops: if take {
            Seq::empty()
        } else {
            m.stops
        },
        attached: m.attached,
    };
    d.update(i, n2).update(t, m2)
}

/// The document and the nodes recorded for removal after a sweep has visited
/// the first `n` nodes.
pub open spec fn sweep_upto(d: Seq<NodeModel>, n: int) -> (Seq<NodeModel>, Seq<usize>)
    decreases n,
{
    if n <= 0 {
        (d, Seq::empty())
    } else {
        let (c, del) = sweep_upto(d, n - 1);
        match merge_target(c, n - 1) {
            Some(t) => (merge_into(c, n - 1, t as int), del.push(t)),
            None => (c, del),
        }
    }
}

pub open spec fn sweep(d: Seq<NodeModel>) -> (Seq<NodeModel>, Seq<usize>) {
    sweep_upto(d, d.len() as int)
}

/// The node `n`, detached.
pub open spec fn detached_view(n: NodeModel) -> NodeModel {
    NodeModel { kind: n.kind, attrs: n.attrs, stops: n.stops, attached: false }
}

/// The document after node `t` and its remaining stops are detached.
pub open spec fn detach(d: Seq<NodeModel>, t: int) -> Seq<NodeModel> {
    Seq::new(
        d.len(),
        |k: int|
            if k == t || d[t].stops.contains(k as usize) {
                detached_view(d[k])
            } else {
                d[k]
            },
    )
}

/// The document after every node in `del` is detached, in order.
pub open spec fn detach_all(d: Seq<NodeModel>, del: Seq<usize>) -> Seq<NodeModel>
    decreases del.len(),
{
    if del.len() == 0 {
        d
    } else {
        detach(detach_all(d, del.drop_last()), del.last() as int)
    }
}

pub open spec fn holds_href(n: NodeModel) -> bool {
    n.attached && is_gradient(n.kind) && has_attr(n.attrs, AttrKind::XlinkHref)
}

/// How many of the first `n` nodes are attached gradients holding a link.
pub open spec fn href_upto(d: Seq<NodeModel>, n: int) -> nat
    decreases n,
{
    if n <= 0 {
        0
    } else {
        href_upto(d, n - 1) + if holds_href(d[n - 1]) {
            1nat
        } else {
            0nat
        }
    }
}

pub open spec fn href_count(d: Seq<NodeModel>) -> nat {
    href_upto(d, d.len() as int)
}

/// The document once sweeps have been repeated until one removes nothing.
pub open spec fn merged(d: Seq<NodeModel>) -> Seq<NodeModel>
    decreases href_count(d),
    when wf(d)
    via merged_decreases
{
    let (c, del) = sweep(d);
    if del.len() == 0 {
        d
    } else {
        merged(detach_all(c, del))
    }
}

#[via_fn]
proof fn merged_decreases(d: Seq<NodeModel>) {
    lemma_sweep(d, d.len() as int);
    let (c, del) = sweep(d);
    lemma_detach_all(c, del);
}

proof fn lemma_href_update(d: Seq<NodeModel>, i: int, v: NodeModel, n: int)
    requires
        0 <= i < d.len(),
        n <= d.len(),
    ensures
        href_upto(d.update(i, v), n) + (if i < n && holds_href(d[i]) {
            1int
        } else {
            0int
        }) == href_upto(d, n) + (if i < n && holds_href(v) {
            1int
        } else {
            0int
        }),
    decreases n,
{
    if n > 0 {
        lemma_href_update(d, i, v, n - 1);
    }
}

proof fn lemma_href_mono(a: Seq<NodeModel>, b: Seq<NodeModel>, n: int)
    requires
        n <= a.len(),
        a.len() == b.len(),
        forall|k: int| 0 <= k < n && holds_href(b[k]) ==> holds_href(a[k]),
    ensures
        href_upto(b, n) <= href_upto(a, n),
    decreases n,
{
    if n > 0 {
        lemma_href_mono(a, b, n - 1);
    }
}

/// Facts about one merge step: it keeps the document well formed, keeps
/// every node's kind, and takes one link away.
proof fn lemma_merge_step(c: Seq<NodeModel>, i: int, t: usize)
    requires
        wf(c),
        merge_target(c, i) == Some(t),
    ensures
        0 <= t < c.len(),
        i != t as int,
        wf(merge_into(c, i, t as int)),
        merge_into(c, i, t as int).len() == c.len(),
        forall|k: int| 0 <= k < c.len() ==> #[trigger] merge_into(c, i, t as int)[k].kind == c[k].kind,
        href_count(merge_into(c, i, t as int)) + 1 == href_count(c),
{
    let n = c[i];
    let m = c[t as int];
    let e = merge_into(c, i, t as int);
    assert(unique_kinds(n.attrs));
    lemma_without(n.attrs, AttrKind::XlinkHref);
    let w = without(n.attrs, AttrKind::XlinkHref);
    let a2 = w.map_values(|a: Attribute| exposed(a, n.kind, m.attrs));
    assert(has_attr(n.attrs, AttrKind::XlinkHref));
    assert(i != t as int);
    assert(e[i].attrs == a2);
    assert forall|x: int, y: int|
        0 <= x < a2.len() && 0 <= y < a2.len() && a2[x].kind == a2[y].kind implies x == y by {
        assert(w[x].kind == w[y].kind);
    }
    if has_attr(a2, AttrKind::XlinkHref) {
        let j = choose|j: int| 0 <= j < a2.len() && a2[j].kind == AttrKind::XlinkHref;
        assert(w[j].kind == AttrKind::XlinkHref);
    }
    assert forall|x: int| 0 <= x < e.len() implies unique_kinds(#[trigger] e[x].attrs) by {
        if x != i {
            assert(e[x].attrs == c[x].attrs);
        }
    }
    assert forall|x: int, j: int|
        0 <= x < e.len() && 0 <= j < e[x].attrs.len() implies (
        #[trigger] e[x].attrs[j].value matches AttrValue::Link(q) ==> q < e.len()) by {
        if x == i {
            assert(a2[j].value == w[j].value);
            if w[j] == n.attrs[j] {
            } else {
                assert(w[j] == n.attrs[j + 1]);
            }
        } else {
            assert(e[x].attrs == c[x].attrs);
        }
    }
    assert forall|x: int, j: int|
        0 <= x < e.len() && 0 <= j < e[x].stops.len() implies #[trigger] e[x].stops[j] < e.len()
        && e[e[x].stops[j] as int].kind == ElementKind::Stop by {
        if x == i {
            if n.stops.len() == 0 {
                assert(e[x].stops[j] == m.stops[j]);
            } else {
                assert(e[x].stops[j] == n.stops[j]);
            }
        } else if x == t as int {
            assert(e[x].stops[j] == m.stops[j]);
        } else {
            assert(e[x].stops[j] == c[x].stops[j]);
        }
    }
    let c1 = c.update(i, e[i]);
    assert(e == c1.update(t as int, e[t as int]));
    lemma_href_update(c, i, e[i], c.len() as int);
    lemma_href_update(c1, t as int, e[t as int], c.len() as int);
    assert(holds_href(c[i]));
    assert(!holds_href(e[i]));
    assert(e[t as int].attrs == m.attrs);
}

/// Facts about a sweep that has visited the first `n` nodes.
proof fn lemma_sweep(d: Seq<NodeModel>, n: int)
    requires
        wf(d),
        n <= d.len(),
    ensures
        wf(sweep_upto(d, n).0),
        sweep_upto(d, n).0.len() == d.len(),
        forall|k: int| 0 <= k < d.len() ==> #[trigger] sweep_upto(d, n).0[k].kind == d[k].kind,
        href_count(sweep_upto(d, n).0) + sweep_upto(d, n).1.len() == href_count(d),
        forall|k: int|
            0 <= k < sweep_upto(d, n).1.len() ==> #[trigger] sweep_upto(d, n).1[k] < d.len(),
        sweep_upto(d, n).1.len() == 0 ==> sweep_upto(d, n).0 == d,
    decreases n,
{
    if n > 0 {
        lemma_sweep(d, n - 1);
        let (c, del) = sweep_upto(d, n - 1);
        if let Some(t) = merge_target(c, n - 1) {
            lemma_merge_step(c, n - 1, t);
            let e = merge_into(c, n - 1, t as int);
            assert forall|k: int| 0 <= k < d.len() implies #[trigger] e[k].kind == d[k].kind by {
                assert(e[k].kind == c[k].kind);
            }
            assert forall|k: int| 0 <= k < del.push(t).len() implies #[trigger] del.push(t)[k]
                < d.len() by {
                if k < del.len() {
                    assert(del.push(t)[k] == del[k]);
                }
            }
        }
    }
}

proof fn lemma_detach(d: Seq<NodeModel>, t: int)
    requires
        wf(d),
        0 <= t < d.len(),
    ensures
        wf(detach(d, t)),
        detach(d, t).len() == d.len(),
        forall|k: int| 0 <= k < d.len() ==> #[trigger] detach(d, t)[k].kind == d[k].kind,
        href_count(detach(d, t)) <= href_count(d),
{
    let e = detach(d, t);
    assert forall|k: int| 0 <= k < d.len() implies #[trigger] e[k].attrs == d[k].attrs && e[k].stops
        == d[k].stops && e[k].kind == d[k].kind by {}
    lemma_href_mono(d, e, d.len() as int);
}

proof fn lemma_detach_all(d: Seq<NodeModel>, del: Seq<usize>)
    requires
        wf(d),
        forall|k: int| 0 <= k < del.len() ==> #[trigger] del[k] < d.len(),
    ensures
        wf(detach_all(d, del)),
        detach_all(d, del).len() == d.len(),
        forall|k: int| 0 <= k < d.len() ==> #[trigger] detach_all(d, del)[k].kind == d[k].kind,
        href_count(detach_all(d, del)) <= href_count(d),
    decreases del.len(),
{
    if del.len() > 0 {
        let p = del.drop_last();
        assert forall|k: int| 0 <= k < p.len() implies #[trigger] p[k] < d.len() by {
            assert(p[k] == del[k]);
        }
        lemma_detach_all(d, p);
        assert(del.last() == del[del.len() - 1]);
        lemma_detach(detach_all(d, p), del.last() as int);
        let e = detach_all(d, p);
        assert forall|k: int| 0 <= k < d.len() implies #[trigger] detach_all(d, del)[k].kind
            == d[k].kind by {
            assert(detach(e, del.last() as int)[k].kind == e[k].kind);
        }
    }
}

/// Whether a merge into a gradient of kind `node` carries over the explicit
/// mark of an attribute of kind `k`.
pub fn is_relevant_attr(node: ElementKind, k: AttrKind) -> (r: bool)
    ensures
        r == is_relevant(node, k),
{
    match k {
        AttrKind::GradientUnits | AttrKind::SpreadMethod | AttrKind::GradientTransform => true,
        AttrKind::X1 | AttrKind::Y1 | AttrKind::X2 | AttrKind::Y2 => node
            == ElementKind::LinearGradient,
        AttrKind::Cx | AttrKind::Cy | AttrKind::Fx | AttrKind::Fy | AttrKind::R => node
            != ElementKind::LinearGradient,
        _ => false,
    }
}

/// The node that gradient `i` would absorb now, if any.
fn merge_target_of(doc: &Document, i: usize) -> (r: Option<usize>)
    requires
        wf(doc@),
        i < doc@.len(),
    ensures
        r == merge_target(doc@, i as int),
{
    let node = &doc.nodes[i];
    assert(doc@[i as int] == node@);
    if !node.attached || !(node.kind == ElementKind::LinearGradient || node.kind
        == ElementKind::RadialGradient) {
        return None;
    }
    let h = find_attr(&node.attrs, AttrKind::XlinkHref);
    match h {
        Some(j) => match node.attrs[j].value {
            AttrValue::Link(t) => {
                proof {
                    assert(doc@[i as int].attrs[j as int].value == AttrValue::Link(t));
                }
                let target = &doc.nodes[t];
                assert(doc@[t as int] == target@);
                if is_used_once(doc, t) && find_attr(&target.attrs, AttrKind::XlinkHref).is_none() {
                    Some(t)
                } else {
                    None
                }
            },
            _ => None,
        },
        None => None,
    }
}

/// Gradient `i` absorbs node `t`.
fn merge_into_node(doc: &mut Document, i: usize, t: usize)
    requires
        wf(old(doc)@),
        merge_target(old(doc)@, i as int) == Some(t),
    ensures
        final(doc)@ == merge_into(old(doc)@, i as int, t as int),
{
    let ghost d0 = doc@;
    proof {
        lemma_merge_step(d0, i as int, t);
        assert(doc@[i as int] == doc.nodes@[i as int]@);
        assert(doc@[t as int] == doc.nodes@[t as int]@);
    }
    if doc.nodes[i].stops.len() == 0 {
        let mut moved: Vec<usize> = Vec::new();
        std::mem::swap(&mut doc.nodes[t].stops, &mut moved);
        doc.nodes[i].stops = moved;
    }
    let h = find_attr(&doc.nodes[i].attrs, AttrKind::XlinkHref);
    if let Some(j) = h {
        doc.nodes[i].attrs.remove(j);
    }
    let ghost base = doc.nodes@[i as int].attrs@;
    assert(base == without(d0[i as int].attrs, AttrKind::XlinkHref));
    let kind = doc.nodes[i].kind;
    let mut j: usize = 0;
    while j < doc.nodes[i].attrs.len()
        invariant
            i < doc.nodes@.len(),
            t < doc.nodes@.len(),
            i != t,
            doc.nodes@.len() == d0.len(),
            kind == d0[i as int].kind,
            doc.nodes@[t as int].attrs@ == d0[t as int].attrs,
            unique_kinds(d0[t as int].attrs),
            doc.nodes@[i as int].attrs@.len() == base.len(),
            forall|k: int|
                0 <= k < j ==> doc.nodes@[i as int].attrs@[k] == exposed(
                    base[k],
                    kind,
                    d0[t as int].attrs,
                ),
            forall|k: int| j <= k < base.len() ==> doc.nodes@[i as int].attrs@[k] == base[k],
            doc.nodes@[i as int].kind == kind,
            doc.nodes@[i as int].attached == d0[i as int].attached,
            doc.nodes@[i as int].stops@ == merge_into(d0, i as int, t as int)[i as int].stops,
            forall|x: int|
                0 <= x < d0.len() && x != i ==> #[trigger] doc.nodes@[x]@ == merge_into(
                    d0,
                    i as int,
                    t as int,
                )[x],
        decreases base.len() - j,
    {
        let a = doc.nodes[i].attrs[j];
        if is_relevant_attr(kind, a.kind) {
            let p = find_attr(&doc.nodes[t].attrs, a.kind);
            if let Some(p) = p {
                if doc.nodes[t].attrs[p].visible {
                    doc.nodes[i].attrs[j].visible = true;
                }
            }
        }
        j += 1;
    }
    proof {
        let e = merge_into(d0, i as int, t as int);
        assert(doc.nodes@[i as int].attrs@ =~= e[i as int].attrs);
        assert(doc.nodes@[i as int]@ == e[i as int]);
        assert(doc@ =~= e);
    }
}

/// One sweep: every attached gradient, in document order, absorbs its
/// target where it may; the absorbed nodes are recorded in `deleted`.
fn merge_sweep(doc: &mut Document, deleted: &mut Vec<usize>)
    requires
        wf(old(doc)@),
    ensures
        final(doc)@ == sweep(old(doc)@).0,
        final(deleted)@ == old(deleted)@ + sweep(old(doc)@).1,
{
    let ghost d0 = doc@;
    let ghost del0 = deleted@;
    let mut i: usize = 0;
    proof {
        assert(del0 + Seq::<usize>::empty() =~= del0);
    }
    while i < doc.nodes.len()
        invariant
            wf(d0),
            i <= d0.len(),
            doc.nodes@.len() == d0.len(),
            doc@ == sweep_upto(d0, i as int).0,
            deleted@ == del0 + sweep_upto(d0, i as int).1,
        decreases d0.len() - i,
    {
        proof {
            lemma_sweep(d0, i as int);
        }
        let r = merge_target_of(doc, i);
        if let Some(t) = r {
            merge_into_node(doc, i, t);
            deleted.push(t);
            proof {
                assert(deleted@ =~= del0 + sweep_upto(d0, i + 1).1);
            }
        }
        i += 1;
        proof {
            lemma_sweep(d0, i as int);
        }
    }
}

/// Detaches node `t` and its remaining stops.
fn detach_node(doc: &mut Document, t: usize)
    requires
        wf(old(doc)@),
        t < old(doc)@.len(),
    ensures
        final(doc)@ == detach(old(doc)@, t as int),
{
    let ghost d0 = doc@;
    proof {
        assert(doc@[t as int] == doc.nodes@[t as int]@);
    }
    let n = doc.nodes[t].stops.len();
    let total = doc.nodes.len();
    let mut j: usize = 0;
    while j < n
        invariant
            d0.len() == total,
            wf(d0),
            t < d0.len(),
            j <= n,
            n == d0[t as int].stops.len(),
            doc.nodes@.len() == d0.len(),
            forall|k: int|
                0 <= k < d0.len() ==> #[trigger] doc.nodes@[k]@ == if d0[t as int].stops.take(
                    j as int,
                ).contains(k as usize) {
                    detached_view(d0[k])
                } else {
                    d0[k]
                },
        decreases n - j,
    {
        proof {
            assert(doc.nodes@[t as int]@.stops == d0[t as int].stops);
            assert(d0[t as int].stops[j as int] < d0.len());
        }
        let s = doc.nodes[t].stops[j];
        let ghost prev = doc.nodes@;
        doc.nodes[s].attached = false;
        proof {
            let before = d0[t as int].stops.take(j as int);
            let after = d0[t as int].stops.take(j + 1);
            assert(after =~= before.push(s));
            assert forall|u: usize| #[trigger] after.contains(u) == (before.contains(u) || u == s) by {
                if before.contains(u) {
                    let w = choose|w: int| 0 <= w < before.len() && before[w] == u;
                    assert(after[w] == u);
                }
                if u == s {
                    assert(after[j as int] == s);
                }
                if after.contains(u) {
                    let w = choose|w: int| 0 <= w < after.len() && after[w] == u;
                    if w < j {
                        assert(before[w] == u);
                    }
                }
            }
            assert forall|k: int| 0 <= k < d0.len() implies #[trigger] doc.nodes@[k]@ == if after.contains(k as usize) {
                detached_view(d0[k])
            } else {
                d0[k]
            } by {
                assert(after.contains(k as usize) == (before.contains(k as usize) || k as usize == s));
                let pk = prev[k]@;
                assert(pk == if before.contains(k as usize) {
                    detached_view(d0[k])
                } else {
                    d0[k]
                });
                assert(pk.kind == d0[k].kind && pk.attrs == d0[k].attrs && pk.stops == d0[k].stops);
                if k != s as int {
                    assert(doc.nodes@[k] == prev[k]);
                } else {
                    assert(doc.nodes@[k]@ == detached_view(pk));
                }
            }
        }
        j += 1;
    }
    doc.nodes[t].attached = false;
    proof {
        assert(d0[t as int].stops.take(n as int) =~= d0[t as int].stops);
        assert(doc@ =~= detach(d0, t as int));
    }
}

/// Collapses single-use gradient chains: sweeps repeat until one removes
/// nothing, each sweep merging every eligible gradient with its target and
/// detaching the targets afterwards.
pub fn merge_gradients(doc: &mut Document)
    requires
        wf(old(doc)@),
    ensures
        final(doc)@ == merged(old(doc)@),
        wf(final(doc)@),
{
    let ghost d0 = doc@;
    loop
        invariant
            wf(doc@),
            merged(doc@) == merged(d0),
        ensures
            doc@ == merged(d0),
            wf(doc@),
        decreases href_count(doc@),
    {
        proof {
            lemma_sweep(doc@, doc@.len() as int);
        }
        let mut deleted: Vec<usize> = Vec::new();
        merge_sweep(doc, &mut deleted);
        if deleted.len() == 0 {
            break;
        }
        let ghost swept = doc@;
        let mut k: usize = 0;
        while k < deleted.len()
            invariant
                wf(swept),
                forall|m: int| 0 <= m < deleted@.len() ==> #[trigger] deleted@[m] < swept.len(),
                k <= deleted@.len(),
                doc@ == detach_all(swept, deleted@.take(k as int)),
                wf(doc@),
                doc@.len() == swept.len(),
            decreases deleted@.len() - k,
        {
            proof {
                assert(deleted@.take(k + 1).drop_last() =~= deleted@.take(k as int));
                let p = deleted@.take(k as int);
                assert forall|m: int| 0 <= m < p.len() implies #[trigger] p[m] < swept.len() by {
                    assert(p[m] == deleted@[m]);
                }
                lemma_detach_all(swept, p);
                lemma_detach(doc@, deleted@[k as int] as int);
            }
            detach_node(doc, deleted[k]);
            k += 1;
        }
        proof {
            assert(deleted@.take(k as int) =~= deleted@);
            lemma_detach_all(swept, deleted@);
        }
    }
}

/// Merging is idempotent: running the merger on its own result changes
/// nothing.
pub proof fn lemma_merge_gradients_idempotent(d: Seq<NodeModel>)
    requires
        wf(d),
    ensures
        wf(merged(d)),
        merged(merged(d)) == merged(d),
    decreases href_count(d),
{
    lemma_sweep(d, d.len() as int);
    let (c, del) = sweep(d);
    if del.len() > 0 {
        lemma_detach_all(c, del);
        lemma_merge_gradients_idempotent(detach_all(c, del));
    }
}

proof fn lemma_links_in_pos(attrs: Seq<Attribute>, x: usize, k: int)
    requires
        0 <= k < attrs.len(),
        attrs[k].value == AttrValue::Link(x),
    ensures
        links_in(attrs, x) >= 1,
    decreases attrs.len(),
{
    if k < attrs.len() - 1 {
        lemma_links_in_pos(attrs.drop_last(), x, k);
    }
}

proof fn lemma_uses_mono(d: Seq<NodeModel>, x: usize, a: int, b: int)
    requires
        a <= b,
    ensures
        uses_upto(d, x, a) <= uses_upto(d, x, b),
    decreases b - a,
{
    if a < b {
        lemma_uses_mono(d, x, a, b - 1);
    }
}

/// Node `j` is an attached gradient whose link attribute points at `x`.
pub open spec fn links_to(d: Seq<NodeModel>, j: int, x: usize) -> bool {
    0 <= j < d.len() && d[j].attached && is_gradient(d[j].kind) && href_target(d[j]) == Some(x)
}

proof fn lemma_link_counted(d: Seq<NodeModel>, j: int, x: usize)
    requires
        links_to(d, j, x),
    ensures
        links_in(d[j].attrs, x) >= 1,
        has_attr(d[j].attrs, AttrKind::XlinkHref),
{
    let attrs = d[j].attrs;
    let c = choose|i: int| 0 <= i < attrs.len() && attrs[i].kind == AttrKind::XlinkHref;
    lemma_links_in_pos(attrs, x, c);
}

/// Two distinct attached gradients linking to `x` make it used at least twice.
proof fn lemma_used_twice(d: Seq<NodeModel>, x: usize, j1: int, j2: int)
    requires
        links_to(d, j1, x),
        links_to(d, j2, x),
        j1 < j2,
    ensures
        uses_count(d, x) >= 2,
{
    lemma_link_counted(d, j1, x);
    lemma_link_counted(d, j2, x);
    lemma_uses_mono(d, x, j1 + 1, j2);
    lemma_uses_mono(d, x, j2 + 1, d.len() as int);
}

/// `x` is an attached node other than a stop, linked to by the distinct
/// attached gradients `j1` and `j2`.
pub open spec fn shared_target(d: Seq<NodeModel>, x: usize, j1: usize, j2: usize) -> bool {
    &&& x < d.len()
    &&& d[x as int].attached
    &&& d[x as int].kind != ElementKind::Stop
    &&& j1 < j2
    &&& links_to(d, j1 as int, x)
    &&& links_to(d, j2 as int, x)
}

proof fn lemma_sweep_keeps_shared(d: Seq<NodeModel>, n: int, x: usize, j1: usize, j2: usize)
    requires
        wf(d),
        n <= d.len(),
        shared_target(d, x, j1, j2),
    ensures
        shared_target(sweep_upto(d, n).0, x, j1, j2),
        forall|k: int|
            0 <= k < sweep_upto(d, n).1.len() ==> #[trigger] sweep_upto(d, n).1[k] != x
                && sweep_upto(d, n).1[k] != j1 && sweep_upto(d, n).1[k] != j2,
    decreases n,
{
    if n > 0 {
        lemma_sweep_keeps_shared(d, n - 1, x, j1, j2);
        lemma_sweep(d, n - 1);
        let (c, del) = sweep_upto(d, n - 1);
        if let Some(t) = merge_target(c, n - 1) {
            lemma_merge_step(c, n - 1, t);
            lemma_used_twice(c, x, j1 as int, j2 as int);
            lemma_link_counted(c, j1 as int, x);
            lemma_link_counted(c, j2 as int, x);
            let e = merge_into(c, n - 1, t as int);
            assert(n - 1 != j1 as int && n - 1 != j2 as int);
            assert(e[j1 as int] == c[j1 as int]);
            assert(e[j2 as int] == c[j2 as int]);
            assert(e[x as int].attached);
            assert(e[x as int].kind == c[x as int].kind);
            assert forall|k: int| 0 <= k < del.push(t).len() implies #[trigger] del.push(t)[k] != x
                && del.push(t)[k] != j1 && del.push(t)[k] != j2 by {
                if k < del.len() {
                    assert(del.push(t)[k] == del[k]);
                }
            }
        }
    }
}

proof fn lemma_detach_all_keeps_shared(
    d: Seq<NodeModel>,
    del: Seq<usize>,
    x: usize,
    j1: usize,
    j2: usize,
)
    requires
        wf(d),
        shared_target(d, x, j1, j2),
        forall|k: int| 0 <= k < del.len() ==> #[trigger] del[k] < d.len(),
        forall|k: int|
            0 <= k < del.len() ==> #[trigger] del[k] != x && del[k] != j1 && del[k] 
                != j2,
    ensures
        shared_target(detach_all(d, del), x, j1, j2),
    decreases del.len(),
{
    if del.len() > 0 {
        let p = del.drop_last();
        assert forall|k: int| 0 <= k < p.len() implies #[trigger] p[k] < d.len() && p[k] != x
            && p[k] != j1 && p[k] != j2 by {
            assert(p[k] == del[k]);
        }
        lemma_detach_all_keeps_shared(d, p, x, j1, j2);
        lemma_detach_all(d, p);
        let e = detach_all(d, p);
        let t = del.last() as int;
        assert(del.last() == del[del.len() - 1]);
        assert forall|k: usize|
            (k as int) < e.len() && #[trigger] e[t].stops.contains(k) implies e[k as int].kind
            == ElementKind::Stop by {
            let w = choose|w: int| 0 <= w < e[t].stops.len() && e[t].stops[w] == k;
            assert(e[t].stops[w] < e.len());
        }
        let f = detach(e, t);
        assert(f[x as int] == e[x as int]);
        assert(f[j1 as int] == e[j1 as int]);
        assert(f[j2 as int] == e[j2 as int]);
    }
}

/// A node that two distinct attached gradients link to is never removed by
/// the merger, however many sweeps it runs, and both gradients still link
/// to it afterwards.
pub proof fn lemma_shared_target_kept(d: Seq<NodeModel>, x: usize, j1: usize, j2: usize)
    requires
        wf(d),
        shared_target(d, x, j1, j2),
    ensures
        merged(d)[x as int].attached,
        links_to(merged(d), j1 as int, x),
        links_to(merged(d), j2 as int, x),
    decreases href_count(d),
{
    lemma_sweep(d, d.len() as int);
    lemma_sweep_keeps_shared(d, d.len() as int, x, j1, j2);
    let (c, del) = sweep(d);
    if del.len() > 0 {
        lemma_detach_all(c, del);
        lemma_detach_all_keeps_shared(c, del, x, j1, j2);
        lemma_shared_target_kept(detach_all(c, del), x, j1, j2);
    }
}

/// A gradient that already has stops keeps exactly those when it absorbs
/// another node, and the absorbed node's stops are detached with it.
pub proof fn lemma_own_stops_kept(d: Seq<NodeModel>, i: int, t: usize)
    requires
        wf(d),
        merge_target(d, i) == Some(t),
        d[i].stops.len() > 0,
    ensures
        merge_into(d, i, t as int)[i].stops == d[i].stops,
        forall|k: int|
            0 <= k < d[t as int].stops.len() ==> !(#[trigger] detach(
                merge_into(d, i, t as int),
                t as int,
            )[d[t as int].stops[k] as int]).attached,
{
    lemma_merge_step(d, i, t);
    let e = merge_into(d, i, t as int);
    assert(e[t as int].stops == d[t as int].stops);
    assert forall|k: int| 0 <= k < d[t as int].stops.len() implies !(#[trigger] detach(
        e,
        t as int,
    )[d[t as int].stops[k] as int]).attached by {
        let q = d[t as int].stops[k];
        assert(e[t as int].stops[k] == q);
        assert(e[t as int].stops.contains(q));
    }
}

} // verus!
