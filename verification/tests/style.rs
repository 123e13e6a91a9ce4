use azul_core::NodeData;
use azul_core::NodeKind;
use azul_core::css::Css;
use azul_core::css::CssProperty;
use azul_core::css::Declaration;
use azul_core::css::ResolvedStyle;
use azul_core::css::Selector;
use azul_core::css::StyleRule;
use azul_core::css::resolve_node;
use azul_core::css::root_style_exec;
use azul_core::id_tree::NodeStore;
use azul_core::ui_description::UiDescription;
use azul_core::ui_state::UiState;
use azul_core::ui_state::restyle_needed;
use azul_core::window::WindowId;

const RED: i64 = 0xFF0000;
const BLUE: i64 = 0x0000FF;

fn node(tag: &[u8], classes: &[&[u8]], id: Option<&[u8]>, text: &[u8]) -> NodeData {
    NodeData {
        kind: NodeKind::Element,
        tag: tag.to_vec(),
        id_attr: id.map(|v| v.to_vec()),
        classes: classes.iter().map(|c| c.to_vec()).collect(),
        text: text.to_vec(),
    }
}

fn rule(tag: Option<&[u8]>, class: Option<&[u8]>, decls: Vec<Declaration>, spec: u64) -> StyleRule {
    StyleRule {
        selector: Selector {
            tag: tag.map(|v| v.to_vec()),
            id_attr: None,
            classes: class.map(|c| vec![c.to_vec()]).unwrap_or_default(),
        },
        declarations: decls,
        specificity: spec,
    }
}

#[test]
fn higher_specificity_wins() {
    // a button with class "primary": the class rule is more specific
    let css = Css {
        rules: vec![
            rule(
                Some(b"button"),
                None,
                vec![Declaration { property: CssProperty::Color, value: RED }],
                1,
            ),
            rule(
                None,
                Some(b"primary"),
                vec![Declaration { property: CssProperty::Color, value: BLUE }],
                2,
            ),
        ],
    };
    let n = node(b"button", &[b"primary"], None, b"");
    let parent = root_style_exec();
    let resolved = resolve_node(&css, &n, &parent);
    assert_eq!(resolved.color, BLUE);
}

#[test]
fn equal_specificity_later_source_wins() {
    let css = Css {
        rules: vec![
            rule(
                Some(b"p"),
                None,
                vec![Declaration { property: CssProperty::Color, value: RED }],
                1,
            ),
            rule(
                Some(b"p"),
                None,
                vec![Declaration { property: CssProperty::Color, value: BLUE }],
                1,
            ),
        ],
    };
    let n = node(b"p", &[], None, b"");
    let resolved = resolve_node(&css, &n, &root_style_exec());
    assert_eq!(resolved.color, BLUE);
}

#[test]
fn last_declaration_in_rule_wins() {
    let css = Css {
        rules: vec![rule(
            Some(b"p"),
            None,
            vec![
                Declaration { property: CssProperty::Margin, value: 4 },
                Declaration { property: CssProperty::Margin, value: 9 },
            ],
            1,
        )],
    };
    let n = node(b"p", &[], None, b"");
    let resolved = resolve_node(&css, &n, &root_style_exec());
    assert_eq!(resolved.margin, 9);
}

#[test]
fn color_inherits_from_parent_when_unset() {
    let css = Css { rules: vec![] };
    let n = node(b"span", &[], None, b"");
    let parent = ResolvedStyle { color: RED, ..root_style_exec() };
    let resolved = resolve_node(&css, &n, &parent);
    assert_eq!(resolved.color, RED);
    assert_eq!(resolved.margin, 0);
    assert_eq!(resolved.width, None);
}

#[test]
fn unmatched_selector_leaves_defaults() {
    let css = Css {
        rules: vec![rule(
            Some(b"button"),
            None,
            vec![Declaration { property: CssProperty::Color, value: RED }],
            1,
        )],
    };
    let n = node(b"div", &[], None, b"");
    let resolved = resolve_node(&css, &n, &root_style_exec());
    assert_eq!(resolved.color, 0);
}

#[test]
fn match_and_cascade_is_deterministic() {
    let mut store = NodeStore::new();
    let root = store.insert(node(b"div", &[], None, b""), None).unwrap();
    store.insert(node(b"button", &[b"primary"], None, b"ok"), Some(root)).unwrap();
    let css = Css {
        rules: vec![rule(
            Some(b"button"),
            None,
            vec![Declaration { property: CssProperty::Color, value: RED }],
            1,
        )],
    };
    let ui = UiState { store, window: WindowId::new(0) };
    let a = UiDescription::from_ui_state(&ui, &css);
    let b = UiDescription::from_ui_state(&ui, &css);
    for i in 0..3 {
        assert_eq!(a.style_at(i), b.style_at(i));
    }
}

#[test]
fn text_change_needs_no_restyle() {
    // Scenario: a node's text changes but tag, classes and id do not
    let mut old_store = NodeStore::new();
    let r = old_store.insert(node(b"div", &[], None, b""), None).unwrap();
    old_store.insert(node(b"p", &[b"c"], Some(b"i"), b"before"), Some(r)).unwrap();

    let mut new_store = NodeStore::new();
    let r2 = new_store.insert(node(b"div", &[], None, b""), None).unwrap();
    new_store.insert(node(b"p", &[b"c"], Some(b"i"), b"after"), Some(r2)).unwrap();

    assert!(!restyle_needed(&old_store, &new_store));
}

#[test]
fn class_change_needs_restyle() {
    let mut old_store = NodeStore::new();
    old_store.insert(node(b"p", &[b"one"], None, b"t"), None).unwrap();
    let mut new_store = NodeStore::new();
    new_store.insert(node(b"p", &[b"two"], None, b"t"), None).unwrap();
    assert!(restyle_needed(&old_store, &new_store));
}

#[test]
fn liveness_change_needs_restyle() {
    let mut old_store = NodeStore::new();
    let a = old_store.insert(node(b"p", &[], None, b""), None).unwrap();
    old_store.insert(node(b"q", &[], None, b""), None).unwrap();
    let mut new_store = NodeStore::new();
    let a2 = new_store.insert(node(b"p", &[], None, b""), None).unwrap();
    new_store.insert(node(b"q", &[], None, b""), None).unwrap();
    let _ = (a, a2);
    old_store.remove(a).unwrap();
    assert!(restyle_needed(&old_store, &new_store));
}
