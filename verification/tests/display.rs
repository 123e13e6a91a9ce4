use azul_core::NodeData;
use azul_core::NodeKind;
use azul_core::css::Css;
use azul_core::css::CssProperty;
use azul_core::css::Declaration;
use azul_core::css::Selector;
use azul_core::css::StyleRule;
use azul_core::constraints::build_constraints;
use azul_core::constraints::LayoutRect;
use azul_core::constraints::solve_full;
use azul_core::display_list::DisplayItem;
use azul_core::display_list::DisplayList;
use azul_core::id_tree::NodeStore;
use azul_core::ui_description::UiDescription;
use azul_core::ui_state::UiState;
use azul_core::window::WindowId;

fn node(kind: NodeKind, tag: &[u8], classes: &[&[u8]], text: &[u8]) -> NodeData {
    NodeData {
        kind,
        tag: tag.to_vec(),
        id_attr: None,
        classes: classes.iter().map(|c| c.to_vec()).collect(),
        text: text.to_vec(),
    }
}

fn rule_for_tag(tag: &[u8], decls: Vec<Declaration>) -> StyleRule {
    StyleRule {
        selector: Selector { tag: Some(tag.to_vec()), id_attr: None, classes: Vec::new() },
        declarations: decls,
        specificity: 1,
    }
}

fn decl(property: CssProperty, value: i64) -> Declaration {
    Declaration { property, value }
}

fn clip_balance(items: &[DisplayItem]) -> i64 {
    let mut depth: i64 = 0;
    for it in items {
        match it {
            DisplayItem::PushClip { .. } => depth += 1,
            DisplayItem::PopClip => {
                depth -= 1;
                assert!(depth >= 0, "pop without matching push");
            },
            _ => {},
        }
    }
    depth
}

fn build_frame(store: NodeStore, css: &Css, w: u32, h: u32) -> (NodeStore, DisplayList) {
    let ui = UiState { store, window: WindowId::new(0) };
    let styles = UiDescription::from_ui_state(&ui, css);
    let cs = build_constraints(&ui.store, &styles);
    let vp = LayoutRect { x: 0, y: 0, width: w as i64, height: h as i64 };
    let rects = solve_full(&ui.store, &cs, &vp);
    let list = DisplayList::build(&ui.store, &styles, &rects);
    (ui.store, list)
}

#[test]
fn painter_order_parent_before_child() {
    let mut store = NodeStore::new();
    let root = store.insert(node(NodeKind::Container, b"root", &[], b""), None).unwrap();
    let child = store.insert(node(NodeKind::Element, b"p", &[], b""), Some(root)).unwrap();
    let css = Css {
        rules: vec![
            rule_for_tag(b"root", vec![decl(CssProperty::Width, 100), decl(CssProperty::Height, 100)]),
            rule_for_tag(b"p", vec![decl(CssProperty::Width, 10), decl(CssProperty::Height, 10)]),
        ],
    };
    let (_store, list) = build_frame(store, &css, 800, 600);
    let nodes: Vec<usize> = list
        .items
        .iter()
        .filter_map(|it| match it {
            DisplayItem::Rect { node, .. } => Some(*node),
            _ => None,
        })
        .collect();
    assert_eq!(nodes, vec![root.index, child.index]);
}

#[test]
fn clip_scopes_are_balanced() {
    let mut store = NodeStore::new();
    let root = store.insert(node(NodeKind::Container, b"root", &[], b""), None).unwrap();
    let clipper = store.insert(node(NodeKind::Container, b"c", &[], b""), Some(root)).unwrap();
    store.insert(node(NodeKind::Element, b"p", &[], b""), Some(clipper)).unwrap();
    let css = Css {
        rules: vec![
            rule_for_tag(b"root", vec![decl(CssProperty::Width, 100), decl(CssProperty::Height, 100)]),
            rule_for_tag(
                b"c",
                vec![
                    decl(CssProperty::Width, 50),
                    decl(CssProperty::Height, 50),
                    decl(CssProperty::Clip, 1),
                ],
            ),
            rule_for_tag(b"p", vec![decl(CssProperty::Width, 10), decl(CssProperty::Height, 10)]),
        ],
    };
    let (_store, list) = build_frame(store, &css, 800, 600);
    assert_eq!(clip_balance(&list.items), 0);
    assert!(list.items.iter().any(|i| matches!(i, DisplayItem::PushClip { .. })));
}

#[test]
fn zero_size_subtree_is_skipped_and_balance_kept() {
    let mut store = NodeStore::new();
    let root = store.insert(node(NodeKind::Container, b"root", &[], b""), None).unwrap();
    let hidden = store.insert(node(NodeKind::Container, b"z", &[], b""), Some(root)).unwrap();
    let inner = store.insert(node(NodeKind::Element, b"p", &[], b""), Some(hidden)).unwrap();
    let css = Css {
        rules: vec![
            rule_for_tag(b"root", vec![decl(CssProperty::Width, 100), decl(CssProperty::Height, 100)]),
            // the clipping container has zero height: whole subtree skipped
            rule_for_tag(
                b"z",
                vec![
                    decl(CssProperty::Width, 50),
                    decl(CssProperty::Height, 0),
                    decl(CssProperty::Clip, 1),
                ],
            ),
            rule_for_tag(b"p", vec![decl(CssProperty::Width, 10), decl(CssProperty::Height, 10)]),
        ],
    };
    let (_store, list) = build_frame(store, &css, 800, 600);
    assert_eq!(clip_balance(&list.items), 0);
    assert!(!list.items.iter().any(|i| matches!(i, DisplayItem::PushClip { .. })));
    for it in &list.items {
        match it {
            DisplayItem::Rect { node, .. } => {
                assert_ne!(*node, hidden.index);
                assert_ne!(*node, inner.index);
            },
            _ => {},
        }
    }
}

#[test]
fn text_nodes_emit_runs_with_baselines() {
    let mut store = NodeStore::new();
    let root = store.insert(node(NodeKind::Container, b"root", &[], b""), None).unwrap();
    let text = store
        .insert(node(NodeKind::TextRun, b"t", &[], b"hello"), Some(root))
        .unwrap();
    let css = Css {
        rules: vec![
            rule_for_tag(b"root", vec![decl(CssProperty::Width, 100), decl(CssProperty::Height, 100)]),
            rule_for_tag(
                b"t",
                vec![
                    decl(CssProperty::Width, 40),
                    decl(CssProperty::Height, 16),
                    decl(CssProperty::Margin, 2),
                    decl(CssProperty::Color, 7),
                ],
            ),
        ],
    };
    let (_store, list) = build_frame(store, &css, 800, 600);
    let runs: Vec<&DisplayItem> = list
        .items
        .iter()
        .filter(|i| matches!(i, DisplayItem::Text { .. }))
        .collect();
    assert_eq!(runs.len(), 1);
    match runs[0] {
        DisplayItem::Text { node, x, baseline, color } => {
            assert_eq!(*node, text.index);
            assert_eq!(*x, 2);
            // bottom edge of the 16-high box placed at y = 2
            assert_eq!(*baseline, 18);
            assert_eq!(*color, 7);
        },
        _ => unreachable!(),
    }
}

#[test]
fn children_paint_in_z_order_with_stable_ties() {
    let mut store = NodeStore::new();
    let root = store.insert(node(NodeKind::Container, b"root", &[], b""), None).unwrap();
    let high = store.insert(node(NodeKind::Element, b"hi", &[], b""), Some(root)).unwrap();
    let low = store.insert(node(NodeKind::Element, b"lo", &[], b""), Some(root)).unwrap();
    let mid_a = store.insert(node(NodeKind::Element, b"mida", &[], b""), Some(root)).unwrap();
    let mid_b = store.insert(node(NodeKind::Element, b"midb", &[], b""), Some(root)).unwrap();
    let size = vec![decl(CssProperty::Width, 10), decl(CssProperty::Height, 10)];
    let mut with_z = |tag: &[u8], z: i64| {
        let mut decls = size.clone();
        decls.push(decl(CssProperty::ZIndex, z));
        rule_for_tag(tag, decls)
    };
    let css = Css {
        rules: vec![
            rule_for_tag(b"root", vec![decl(CssProperty::Width, 100), decl(CssProperty::Height, 100)]),
            with_z(b"hi", 5),
            with_z(b"lo", -1),
            with_z(b"mida", 0),
            with_z(b"midb", 0),
        ],
    };
    let (_store, list) = build_frame(store, &css, 800, 600);
    let nodes: Vec<usize> = list
        .items
        .iter()
        .filter_map(|it| match it {
            DisplayItem::Rect { node, .. } => Some(*node),
            _ => None,
        })
        .collect();
    // parent first, then ascending z; equal z keeps document order
    assert_eq!(
        nodes,
        vec![root.index, low.index, mid_a.index, mid_b.index, high.index]
    );
}

#[test]
fn border_is_emitted_when_set() {
    let mut store = NodeStore::new();
    store.insert(
        node(NodeKind::Element, b"b", &[], b""),
        None,
    ).unwrap();
    let css = Css {
        rules: vec![rule_for_tag(
            b"b",
            vec![
                decl(CssProperty::Width, 10),
                decl(CssProperty::Height, 10),
                decl(CssProperty::Border, 3),
            ],
        )],
    };
    let (_store, list) = build_frame(store, &css, 800, 600);
    assert!(list.items.iter().any(|i| matches!(i, DisplayItem::Border { color: 3, .. })));
}
