use azul_core::NodeData;
use azul_core::NodeKind;
use azul_core::constraints::Constraint;
use azul_core::constraints::LayoutRect;
use azul_core::constraints::LayoutVar;
use azul_core::constraints::Relation;
use azul_core::constraints::Rhs;
use azul_core::constraints::Strength;
use azul_core::constraints::VarKind;
use azul_core::constraints::collect_infeasible;
use azul_core::constraints::solve_full;
use azul_core::constraints::solve_incremental;
use azul_core::id_tree::NodeStore;

fn elem(tag: &[u8]) -> NodeData {
    NodeData {
        kind: NodeKind::Element,
        tag: tag.to_vec(),
        id_attr: None,
        classes: Vec::new(),
        text: Vec::new(),
    }
}

fn eq(node: usize, kind: VarKind, rhs: Rhs, strength: Strength) -> Constraint {
    Constraint { target: LayoutVar { node, kind }, relation: Relation::Eq, rhs, strength }
}

fn vp(w: i64, h: i64) -> LayoutRect {
    LayoutRect { x: 0, y: 0, width: w, height: h }
}

#[test]
fn root_fills_viewport_through_parent_relative_constraints() {
    let mut store = NodeStore::new();
    let root = store.insert(elem(b"root"), None).unwrap();
    let cs = vec![
        eq(root.index, VarKind::Left, Rhs::ParentPlus(VarKind::Left, 0), Strength::Required),
        eq(root.index, VarKind::Top, Rhs::ParentPlus(VarKind::Top, 0), Strength::Required),
        eq(root.index, VarKind::Width, Rhs::ParentPlus(VarKind::Width, 0), Strength::Required),
        eq(root.index, VarKind::Height, Rhs::ParentPlus(VarKind::Height, 0), Strength::Required),
    ];
    let solved = solve_full(&store, &cs, &vp(800, 600));
    assert_eq!(
        solved[root.index],
        Some(LayoutRect { x: 0, y: 0, width: 800, height: 600 })
    );
}

#[test]
fn required_conflict_fails_subtree_but_not_siblings() {
    // Scenario: width = 100 and width = 200 both required on one node
    let mut store = NodeStore::new();
    let root = store.insert(elem(b"root"), None).unwrap();
    let bad = store.insert(elem(b"bad"), Some(root)).unwrap();
    let bad_child = store.insert(elem(b"badchild"), Some(bad)).unwrap();
    let good = store.insert(elem(b"good"), Some(root)).unwrap();
    let cs = vec![
        eq(bad.index, VarKind::Width, Rhs::Const(100), Strength::Required),
        eq(bad.index, VarKind::Width, Rhs::Const(200), Strength::Required),
        eq(good.index, VarKind::Width, Rhs::Const(50), Strength::Required),
    ];
    let solved = solve_full(&store, &cs, &vp(800, 600));
    assert!(solved[root.index].is_some());
    assert_eq!(solved[bad.index], None);
    assert_eq!(solved[bad_child.index], None);
    assert_eq!(solved[good.index].map(|r| r.width), Some(50));
    let diags = collect_infeasible(&store, &solved);
    let slots: Vec<usize> = diags.iter().map(|d| d.slot).collect();
    assert!(slots.contains(&bad.index));
    assert!(slots.contains(&bad_child.index));
    assert!(!slots.contains(&good.index));
    assert!(!slots.contains(&root.index));
}

#[test]
fn stronger_equality_wins_and_later_breaks_ties() {
    let mut store = NodeStore::new();
    let n = store.insert(elem(b"n"), None).unwrap();
    let cs = vec![
        eq(n.index, VarKind::Width, Rhs::Const(10), Strength::Weak),
        eq(n.index, VarKind::Width, Rhs::Const(20), Strength::Strong),
        eq(n.index, VarKind::Width, Rhs::Const(30), Strength::Weak),
        eq(n.index, VarKind::Height, Rhs::Const(1), Strength::Weak),
        eq(n.index, VarKind::Height, Rhs::Const(2), Strength::Weak),
    ];
    let solved = solve_full(&store, &cs, &vp(800, 600));
    let r = solved[n.index].unwrap();
    assert_eq!(r.width, 20);
    // equal strength: the later inserted constraint wins
    assert_eq!(r.height, 2);
}

#[test]
fn required_bounds_clamp_weaker_values() {
    let mut store = NodeStore::new();
    let n = store.insert(elem(b"n"), None).unwrap();
    let cs = vec![
        eq(n.index, VarKind::Width, Rhs::Const(500), Strength::Weak),
        Constraint {
            target: LayoutVar { node: n.index, kind: VarKind::Width },
            relation: Relation::Le,
            rhs: Rhs::Const(300),
            strength: Strength::Required,
        },
        Constraint {
            target: LayoutVar { node: n.index, kind: VarKind::Height },
            relation: Relation::Ge,
            rhs: Rhs::Const(40),
            strength: Strength::Required,
        },
    ];
    let solved = solve_full(&store, &cs, &vp(800, 600));
    let r = solved[n.index].unwrap();
    assert_eq!(r.width, 300);
    assert_eq!(r.height, 40);
}

#[test]
fn empty_required_bounds_are_infeasible() {
    let mut store = NodeStore::new();
    let n = store.insert(elem(b"n"), None).unwrap();
    let cs = vec![
        Constraint {
            target: LayoutVar { node: n.index, kind: VarKind::Width },
            relation: Relation::Ge,
            rhs: Rhs::Const(10),
            strength: Strength::Required,
        },
        Constraint {
            target: LayoutVar { node: n.index, kind: VarKind::Width },
            relation: Relation::Le,
            rhs: Rhs::Const(5),
            strength: Strength::Required,
        },
    ];
    let solved = solve_full(&store, &cs, &vp(800, 600));
    assert_eq!(solved[n.index], None);
}

#[test]
fn incremental_solve_matches_full_solve_after_an_edit() {
    // a root with two subtrees; edit a constraint under one of them
    let mut store = NodeStore::new();
    let root = store.insert(elem(b"root"), None).unwrap();
    let left = store.insert(elem(b"left"), Some(root)).unwrap();
    let leaf = store.insert(elem(b"leaf"), Some(left)).unwrap();
    let right = store.insert(elem(b"right"), Some(root)).unwrap();
    let mut cs = vec![
        eq(root.index, VarKind::Width, Rhs::ParentPlus(VarKind::Width, 0), Strength::Required),
        eq(left.index, VarKind::Width, Rhs::Const(100), Strength::Weak),
        eq(leaf.index, VarKind::Width, Rhs::ParentPlus(VarKind::Width, -10), Strength::Weak),
        eq(right.index, VarKind::Width, Rhs::Const(70), Strength::Weak),
    ];
    let viewport = vp(800, 600);
    let prev = solve_full(&store, &cs, &viewport);
    // the edit: a stronger width for the left subtree, inserted later
    cs.push(eq(left.index, VarKind::Width, Rhs::Const(200), Strength::Strong));
    // mark the edited node's subtree dirty
    let mut dirty = vec![false; store.slot_len()];
    dirty[left.index] = true;
    dirty[leaf.index] = true;
    let incremental = solve_incremental(&store, &cs, &viewport, &prev, &dirty);
    let full = solve_full(&store, &cs, &viewport);
    for i in 0..store.slot_len() {
        assert_eq!(incremental[i], full[i]);
    }
    assert_eq!(incremental[left.index].map(|r| r.width), Some(200));
    assert_eq!(incremental[leaf.index].map(|r| r.width), Some(190));
    // untouched subtrees kept their old rectangles
    assert_eq!(incremental[right.index], prev[right.index]);
    assert_eq!(incremental[root.index], prev[root.index]);
}

#[test]
fn offsets_saturate_instead_of_wrapping() {
    let mut store = NodeStore::new();
    let n = store.insert(elem(b"n"), None).unwrap();
    let cs = vec![
        eq(n.index, VarKind::Left, Rhs::ParentPlus(VarKind::Left, i64::MAX), Strength::Required),
    ];
    let solved = solve_full(&store, &cs, &vp(800, 600));
    assert_eq!(solved[n.index].unwrap().x, i64::MAX);
}
