use svgcleaner::dom::{AttrKind, AttrValue, Attribute, Document, ElementKind, Node};
use svgcleaner::merge::{is_relevant_attr, merge_gradients};

fn attr(kind: AttrKind, v: i32, visible: bool) -> Attribute {
    Attribute { kind, value: AttrValue::Number(v), visible }
}

fn href(t: usize) -> Attribute {
    Attribute { kind: AttrKind::XlinkHref, value: AttrValue::Link(t), visible: true }
}

fn grad(kind: ElementKind, attrs: Vec<Attribute>, stops: Vec<usize>) -> Node {
    Node { kind, attrs, stops, attached: true }
}

fn lin(attrs: Vec<Attribute>, stops: Vec<usize>) -> Node {
    grad(ElementKind::LinearGradient, attrs, stops)
}

fn stop() -> Node {
    Node { kind: ElementKind::Stop, attrs: vec![], stops: vec![], attached: true }
}

fn visible(n: &Node, k: AttrKind) -> Option<bool> {
    n.attrs.iter().find(|a| a.kind == k).map(|a| a.visible)
}

fn has(n: &Node, k: AttrKind) -> bool {
    n.attrs.iter().any(|a| a.kind == k)
}

fn attached(doc: &Document) -> Vec<usize> {
    (0..doc.nodes.len()).filter(|&i| doc.nodes[i].attached).collect()
}

#[test]
fn merge_1() {
    let mut doc = Document { nodes: vec![lin(vec![], vec![]), lin(vec![href(0)], vec![])] };
    merge_gradients(&mut doc);
    assert_eq!(attached(&doc), vec![1]);
    assert!(!has(&doc.nodes[1], AttrKind::XlinkHref));
}

#[test]
fn merge_2() {
    let mut doc = Document {
        nodes: vec![lin(vec![], vec![1, 2]), stop(), stop(), lin(vec![href(0)], vec![])],
    };
    merge_gradients(&mut doc);
    assert_eq!(attached(&doc), vec![1, 2, 3]);
    assert_eq!(doc.nodes[3].stops, vec![1, 2]);
    assert!(doc.nodes[0].stops.is_empty());
}

#[test]
fn merge_3() {
    let mut doc = Document {
        nodes: vec![
            lin(vec![attr(AttrKind::X1, 5000, true), attr(AttrKind::X2, 5000, true)], vec![1, 2]),
            stop(),
            stop(),
            lin(
                vec![attr(AttrKind::X1, 10_000, true), attr(AttrKind::X2, 5000, false), href(0)],
                vec![],
            ),
        ],
    };
    merge_gradients(&mut doc);
    let n = &doc.nodes[3];
    assert_eq!(visible(n, AttrKind::X1), Some(true));
    assert_eq!(visible(n, AttrKind::X2), Some(true));
    assert_eq!(n.stops, vec![1, 2]);
    assert_eq!(attached(&doc), vec![1, 2, 3]);
}

/// The chain A -> B -> C, with A, B and C at the positions `pos` and C's two
/// stops after them; returns the document and the positions of A, B and C.
fn chain_at(pos: [usize; 3]) -> (Document, usize, usize, usize) {
    let (ia, ib, ic) = (pos[0], pos[1], pos[2]);
    let mut a = lin(vec![attr(AttrKind::X1, 10_000, true), attr(AttrKind::X2, 5000, false)], vec![]);
    let mut b = lin(vec![attr(AttrKind::X1, 10_000, false), attr(AttrKind::X2, 5000, false)], vec![]);
    let c = lin(vec![attr(AttrKind::X1, 5000, true), attr(AttrKind::X2, 5000, true)], vec![3, 4]);
    a.attrs.push(href(ib));
    b.attrs.push(href(ic));
    let mut slots: Vec<Option<Node>> = vec![None, None, None];
    slots[ia] = Some(a);
    slots[ib] = Some(b);
    slots[ic] = Some(c);
    let mut nodes: Vec<Node> = slots.into_iter().map(|s| s.unwrap()).collect();
    nodes.push(stop());
    nodes.push(stop());
    (Document { nodes }, ia, ib, ic)
}

fn chain(order_reversed: bool) -> (Document, usize, usize, usize) {
    if order_reversed {
        chain_at([0, 1, 2])
    } else {
        chain_at([2, 1, 0])
    }
}

#[test]
fn chain_collapses_in_every_order() {
    let orders = [[0, 1, 2], [0, 2, 1], [1, 0, 2], [1, 2, 0], [2, 0, 1], [2, 1, 0]];
    for pos in orders {
        let (mut doc, a, b, c) = chain_at(pos);
        merge_gradients(&mut doc);
        assert!(doc.nodes[a].attached);
        assert!(!doc.nodes[b].attached);
        assert!(!doc.nodes[c].attached);
        assert_eq!(doc.nodes[a].stops, vec![3, 4]);
        assert!(!has(&doc.nodes[a], AttrKind::XlinkHref));
        assert_eq!(visible(&doc.nodes[a], AttrKind::X1), Some(true));
        assert_eq!(visible(&doc.nodes[a], AttrKind::X2), Some(true));
        let x1 = doc.nodes[a].attrs.iter().find(|t| t.kind == AttrKind::X1).unwrap().value;
        let x2 = doc.nodes[a].attrs.iter().find(|t| t.kind == AttrKind::X2).unwrap().value;
        assert_eq!(x1, AttrValue::Number(10_000));
        assert_eq!(x2, AttrValue::Number(5000));
        assert!(doc.nodes[3].attached && doc.nodes[4].attached);
    }
}

#[test]
fn merge_4() {
    let (mut doc, a, b, c) = chain(false);
    merge_gradients(&mut doc);
    assert!(doc.nodes[a].attached);
    assert!(!doc.nodes[b].attached);
    assert!(!doc.nodes[c].attached);
    assert_eq!(doc.nodes[a].stops, vec![3, 4]);
    assert_eq!(visible(&doc.nodes[a], AttrKind::X1), Some(true));
    assert_eq!(visible(&doc.nodes[a], AttrKind::X2), Some(true));
    assert!(!has(&doc.nodes[a], AttrKind::XlinkHref));
}

#[test]
fn merge_5() {
    let (mut doc, a, b, c) = chain(true);
    merge_gradients(&mut doc);
    assert!(doc.nodes[a].attached);
    assert!(!doc.nodes[b].attached);
    assert!(!doc.nodes[c].attached);
    assert_eq!(doc.nodes[a].stops, vec![3, 4]);
    assert_eq!(visible(&doc.nodes[a], AttrKind::X1), Some(true));
    assert_eq!(visible(&doc.nodes[a], AttrKind::X2), Some(true));
}

#[test]
fn merge_6() {
    let mut doc = Document {
        nodes: vec![
            lin(vec![attr(AttrKind::X1, 5000, true), attr(AttrKind::X2, 5000, true)], vec![]),
            grad(
                ElementKind::RadialGradient,
                vec![attr(AttrKind::X1, 5000, false), attr(AttrKind::X2, 5000, false), href(0)],
                vec![],
            ),
        ],
    };
    merge_gradients(&mut doc);
    assert_eq!(attached(&doc), vec![1]);
    assert_eq!(visible(&doc.nodes[1], AttrKind::X1), Some(false));
    assert_eq!(visible(&doc.nodes[1], AttrKind::X2), Some(false));
}

#[test]
fn merge_7() {
    let mut doc = Document {
        nodes: vec![
            lin(vec![], vec![1, 2]),
            stop(),
            stop(),
            lin(vec![href(0)], vec![4, 5]),
            stop(),
            stop(),
        ],
    };
    merge_gradients(&mut doc);
    assert_eq!(attached(&doc), vec![3, 4, 5]);
    assert_eq!(doc.nodes[3].stops, vec![4, 5]);
}

#[test]
fn shared_target_is_kept() {
    let mut doc = Document {
        nodes: vec![lin(vec![], vec![]), lin(vec![href(0)], vec![]), lin(vec![href(0)], vec![])],
    };
    merge_gradients(&mut doc);
    assert_eq!(attached(&doc), vec![0, 1, 2]);
    assert!(has(&doc.nodes[1], AttrKind::XlinkHref));
    assert!(has(&doc.nodes[2], AttrKind::XlinkHref));
}

#[test]
fn fill_reference_counts_as_use() {
    let shape = Node {
        kind: ElementKind::Other,
        attrs: vec![Attribute { kind: AttrKind::Fill, value: AttrValue::Link(0), visible: true }],
        stops: vec![],
        attached: true,
    };
    let mut doc = Document { nodes: vec![lin(vec![], vec![]), lin(vec![href(0)], vec![]), shape] };
    merge_gradients(&mut doc);
    assert_eq!(attached(&doc), vec![0, 1, 2]);
}

#[test]
fn merging_twice_changes_nothing() {
    let (mut doc, _, _, _) = chain(false);
    merge_gradients(&mut doc);
    let snapshot: Vec<(Vec<Attribute>, Vec<usize>, bool)> =
        doc.nodes.iter().map(|n| (n.attrs.clone(), n.stops.clone(), n.attached)).collect();
    merge_gradients(&mut doc);
    let again: Vec<(Vec<Attribute>, Vec<usize>, bool)> =
        doc.nodes.iter().map(|n| (n.attrs.clone(), n.stops.clone(), n.attached)).collect();
    assert_eq!(snapshot, again);
}

#[test]
fn relevant_attributes_by_kind() {
    assert!(is_relevant_attr(ElementKind::LinearGradient, AttrKind::X1));
    assert!(!is_relevant_attr(ElementKind::LinearGradient, AttrKind::Cx));
    assert!(is_relevant_attr(ElementKind::RadialGradient, AttrKind::R));
    assert!(is_relevant_attr(ElementKind::RadialGradient, AttrKind::SpreadMethod));
    assert!(!is_relevant_attr(ElementKind::RadialGradient, AttrKind::Fill));
}
