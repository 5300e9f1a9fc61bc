use svgcleaner::bake::{apply_transform_to_gradients, scale_value};
use svgcleaner::dom::{
    AttrKind, AttrValue, Attribute, Document, ElementKind, LengthUnit, Node, Transform,
};

fn num(kind: AttrKind, v: i32) -> Attribute {
    Attribute { kind, value: AttrValue::Number(v), visible: true }
}

fn pct(kind: AttrKind, v: i32) -> Attribute {
    Attribute { kind, value: AttrValue::Length { num: v, unit: LengthUnit::Percent }, visible: false }
}

fn ts(a: i32, b: i32, c: i32, d: i32, e: i32, f: i32) -> Attribute {
    Attribute {
        kind: AttrKind::GradientTransform,
        value: AttrValue::Transform(Transform { a, b, c, d, e, f }),
        visible: true,
    }
}

fn link(kind: AttrKind, t: usize) -> Attribute {
    Attribute { kind, value: AttrValue::Link(t), visible: true }
}

fn node(kind: ElementKind, attrs: Vec<Attribute>) -> Node {
    Node { kind, attrs, stops: vec![], attached: true }
}

fn linear(x: i32, extra: Vec<Attribute>) -> Node {
    let mut attrs = vec![
        num(AttrKind::X1, x),
        num(AttrKind::X2, x),
        num(AttrKind::Y1, x),
        num(AttrKind::Y2, x),
    ];
    attrs.extend(extra);
    node(ElementKind::LinearGradient, attrs)
}

fn value_of(n: &Node, k: AttrKind) -> Option<AttrValue> {
    n.attrs.iter().find(|a| a.kind == k).map(|a| a.value)
}

fn has(n: &Node, k: AttrKind) -> bool {
    n.attrs.iter().any(|a| a.kind == k)
}

#[test]
fn apply_1() {
    let mut doc = Document { nodes: vec![linear(10_000, vec![ts(1000, 0, 0, 1000, 10_000, 20_000)])] };
    apply_transform_to_gradients(&mut doc);
    let n = &doc.nodes[0];
    assert_eq!(value_of(n, AttrKind::X1), Some(AttrValue::Number(20_000)));
    assert_eq!(value_of(n, AttrKind::X2), Some(AttrValue::Number(20_000)));
    assert_eq!(value_of(n, AttrKind::Y1), Some(AttrValue::Number(30_000)));
    assert_eq!(value_of(n, AttrKind::Y2), Some(AttrValue::Number(30_000)));
    assert!(!has(n, AttrKind::GradientTransform));
}

#[test]
fn apply_2() {
    let attrs = vec![
        num(AttrKind::Cx, 10_000),
        num(AttrKind::Cy, 10_000),
        num(AttrKind::Fx, 10_000),
        num(AttrKind::Fy, 10_000),
        num(AttrKind::R, 5_000),
        ts(2000, 0, 0, 2000, 10_000, 20_000),
    ];
    let mut doc = Document { nodes: vec![node(ElementKind::RadialGradient, attrs)] };
    apply_transform_to_gradients(&mut doc);
    let n = &doc.nodes[0];
    assert_eq!(value_of(n, AttrKind::Cx), Some(AttrValue::Number(30_000)));
    assert_eq!(value_of(n, AttrKind::Cy), Some(AttrValue::Number(40_000)));
    assert_eq!(value_of(n, AttrKind::Fx), Some(AttrValue::Number(30_000)));
    assert_eq!(value_of(n, AttrKind::Fy), Some(AttrValue::Number(40_000)));
    assert_eq!(value_of(n, AttrKind::R), Some(AttrValue::Number(10_000)));
    assert!(!has(n, AttrKind::GradientTransform));
}

#[test]
fn keep_1() {
    let attrs = vec![
        pct(AttrKind::X1, 0),
        pct(AttrKind::Y1, 0),
        pct(AttrKind::X2, 100_000),
        pct(AttrKind::Y2, 0),
        ts(1000, 0, 0, 1000, 10_000, 20_000),
    ];
    let mut doc = Document { nodes: vec![node(ElementKind::LinearGradient, attrs.clone())] };
    apply_transform_to_gradients(&mut doc);
    assert_eq!(doc.nodes[0].attrs, attrs);
}

#[test]
fn keep_2() {
    let mut doc = Document { nodes: vec![linear(10_000, vec![ts(1000, 0, 52, 1000, 0, 0)])] };
    let before = doc.nodes[0].attrs.clone();
    apply_transform_to_gradients(&mut doc);
    assert_eq!(doc.nodes[0].attrs, before);
}

#[test]
fn keep_3() {
    let mut doc = Document { nodes: vec![linear(10_000, vec![ts(1500, 0, 0, 2000, 0, 0)])] };
    let before = doc.nodes[0].attrs.clone();
    apply_transform_to_gradients(&mut doc);
    assert_eq!(doc.nodes[0].attrs, before);
}

#[test]
fn keep_4() {
    let first = linear(10_000, vec![ts(1000, 0, 0, 1000, 10_000, 20_000)]);
    let second = node(ElementKind::LinearGradient, vec![link(AttrKind::XlinkHref, 0)]);
    let mut doc = Document { nodes: vec![first, second] };
    let before: Vec<Vec<Attribute>> = doc.nodes.iter().map(|n| n.attrs.clone()).collect();
    apply_transform_to_gradients(&mut doc);
    let after: Vec<Vec<Attribute>> = doc.nodes.iter().map(|n| n.attrs.clone()).collect();
    assert_eq!(after, before);
    assert!(doc.nodes.iter().all(|n| n.attached));
}

#[test]
fn inherited_transform_blocks_bake() {
    let base = node(ElementKind::Other, vec![ts(1000, 0, 0, 1000, 1000, 1000)]);
    let child = linear(
        10_000,
        vec![ts(1000, 0, 0, 1000, 10_000, 20_000), link(AttrKind::XlinkHref, 0)],
    );
    let mut doc = Document { nodes: vec![base, child] };
    let before = doc.nodes[1].attrs.clone();
    apply_transform_to_gradients(&mut doc);
    assert_eq!(doc.nodes[1].attrs, before);
}

#[test]
fn link_to_target_without_transform_allows_bake() {
    let base = node(ElementKind::Other, vec![]);
    let child = linear(10_000, vec![ts(1000, 0, 0, 1000, 1000, 0), link(AttrKind::XlinkHref, 0)]);
    let mut doc = Document { nodes: vec![base, child] };
    apply_transform_to_gradients(&mut doc);
    assert_eq!(value_of(&doc.nodes[1], AttrKind::X1), Some(AttrValue::Number(11_000)));
    assert!(!has(&doc.nodes[1], AttrKind::GradientTransform));
}

#[test]
fn overflowing_result_blocks_bake() {
    let mut doc = Document { nodes: vec![linear(i32::MAX, vec![ts(1000, 0, 0, 1000, 1000, 0)])] };
    let before = doc.nodes[0].attrs.clone();
    apply_transform_to_gradients(&mut doc);
    assert_eq!(doc.nodes[0].attrs, before);
}

#[test]
fn detached_gradient_is_skipped() {
    let mut n = linear(10_000, vec![ts(1000, 0, 0, 1000, 10_000, 20_000)]);
    n.attached = false;
    let mut doc = Document { nodes: vec![n] };
    let before = doc.nodes[0].attrs.clone();
    apply_transform_to_gradients(&mut doc);
    assert_eq!(doc.nodes[0].attrs, before);
}

#[test]
fn scaling_rounds_half_away_from_zero() {
    assert_eq!(scale_value(1, 1500), 2);
    assert_eq!(scale_value(-1, 1500), -2);
    assert_eq!(scale_value(10_000, 2000), 20_000);
    assert_eq!(scale_value(1, 400), 0);
}
