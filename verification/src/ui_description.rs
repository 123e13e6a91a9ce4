//! Match-and-cascade over a whole snapshot: one resolved style per node.
use vstd::prelude::*;
use crate::NodeData;
use crate::css::Css;
use crate::css::CssProperty;
use crate::css::ResolvedStyle;
use crate::css::Selector;
use crate::css::StyleRule;
use crate::css::cascaded_value;
use crate::css::node_has_class;
use crate::css::resolve_node;
use crate::css::resolve_spec;
use crate::css::root_style;
use crate::css::root_style_exec;
use crate::css::winner_upto;
use crate::id_tree::NodeStore;
use crate::ui_state::UiState;
use crate::ui_state::classes_view;
use crate::ui_state::restyle_equal;
use crate::ui_state::style_key_view;

verus! {

/// Resolved style of live node `i`: the cascade applied down the ancestor
/// chain, starting from the built-in defaults above the root.
pub open spec fn resolved_of(store: NodeStore, rules: Seq<StyleRule>, i: int) -> ResolvedStyle
    decreases store.depth_of(i),
{
    match store.node_of(i).parent {
        None => resolve_spec(rules, store.node_of(i).data, root_style()),
        Some(p) => {
            if store.is_live(p.index as int) && store.depth_of(p.index as int) < store.depth_of(
                i,
            ) {
                resolve_spec(
                    rules,
                    store.node_of(i).data,
                    resolved_of(store, rules, p.index as int),
                )
            } else {
                resolve_spec(rules, store.node_of(i).data, root_style())
            }
        },
    }
}

/// Styles of a whole store: one entry per slot, `None` for free slots.
pub open spec fn styles_spec(store: NodeStore, rules: Seq<StyleRule>) -> Seq<Option<ResolvedStyle>> {
    Seq::new(
        store.slot_count() as nat,
        |i: int|
            if store.is_live(i) {
                Some(resolved_of(store, rules, i))
            } else {
                None
            },
    )
}

/// Resolve one live node by folding the cascade down its ancestor chain.
#[verifier::loop_isolation(false)]
pub fn style_for_slot(store: &NodeStore, css: &Css, i: usize) -> (r: ResolvedStyle)
    requires
        store.wf(),
        store.is_live(i as int),
    ensures
        r == resolved_of(*store, css.rules@, i as int),
{
    // Collect the chain, root first.
    let mut path: Vec<usize> = Vec::new();
    path.push(i);
    let mut done = false;
    while !done
        invariant
            store.wf(),
            path@.len() >= 1,
            path@[path@.len() - 1] == i,
            forall|t: int| 0 <= t < path@.len() ==> store.is_live((#[trigger] path@[t]) as int),
            forall|t: int|
                1 <= t < path@.len() ==> (store.node_of((#[trigger] path@[t]) as int).parent
                    matches Some(p) && p.index == path@[t - 1]),
            done ==> store.node_of(path@[0] as int).parent is None,
        decreases store.depth_of(path@[0] as int), (if done {
            0int
        } else {
            1int
        }),
    {
        let head = path[0];
        proof {
            assert(store.is_live(head as int));
            store.lemma_wf_node(head as int);
        }
        match store.parent_at(head) {
            Some(p) => {
                path.insert(0, p.index);
            },
            None => {
                done = true;
            },
        }
    }
    // Fold the cascade down the chain.
    let mut style = root_style_exec();
    let n = path.len();
    let mut k: usize = 0;
    while k < n
        invariant
            store.wf(),
            k <= n,
            k == 0 ==> style == root_style(),
            k > 0 ==> style == resolved_of(*store, css.rules@, path@[k - 1] as int),
        decreases n - k,
    {
        let idx = path[k];
        proof {
            assert(store.is_live(idx as int));
            store.lemma_wf_node(idx as int);
        }
        let s2 = resolve_node(css, store.data_at(idx), &style);
        proof {
            if k == 0 {
                assert(store.node_of(idx as int).parent is None);
            } else {
                let pidx = path@[k as int - 1] as int;
                assert(store.node_of(idx as int).parent matches Some(p) && p.index as int == pidx);
                assert(store.depth_of(pidx) < store.depth_of(idx as int));
            }
            assert(s2 == resolved_of(*store, css.rules@, idx as int));
        }
        style = s2;
        k += 1;
    }
    style
}

/// Styled description of a snapshot: resolved styles indexed by slot.
#[derive(Debug)]
pub struct UiDescription {
    pub styles: Vec<Option<ResolvedStyle>>,
}

impl UiDescription {
    /// A description with no styles at all.
    pub fn empty() -> (r: UiDescription)
        ensures
            r.styles@ == Seq::<Option<ResolvedStyle>>::empty(),
    {
        UiDescription { styles: Vec::new() }
    }

    /// Run match-and-cascade over the whole snapshot. The result is a pure
    /// function of the stylesheet and the tree.
    pub fn from_ui_state(ui: &UiState, css: &Css) -> (r: UiDescription)
        requires
            ui.store.wf(),
        ensures
            r.styles@ == styles_spec(ui.store, css.rules@),
    {
        let n = ui.store.slot_len();
        let mut styles: Vec<Option<ResolvedStyle>> = Vec::new();
        let mut i: usize = 0;
        while i < n
            invariant
                i <= n,
                n as int == ui.store.slot_count(),
                ui.store.wf(),
                styles@.len() == i,
                forall|t: int|
                    0 <= t < i ==> styles@[t] == styles_spec(ui.store, css.rules@)[t],
            decreases n - i,
        {
            if ui.store.live_slot(i) {
                styles.push(Some(style_for_slot(&ui.store, css, i)));
            } else {
                styles.push(None);
            }
            i += 1;
        }
        proof {
            assert(styles@ =~= styles_spec(ui.store, css.rules@));
        }
        UiDescription { styles }
    }

    /// Style of one slot, `None` for free or out-of-range slots.
    pub fn style_at(&self, i: usize) -> (r: Option<ResolvedStyle>)
        ensures
            r == (if 0 <= i < self.styles@.len() {
                self.styles@[i as int]
            } else {
                None
            }),
    {
        if i < self.styles.len() {
            self.styles[i]
        } else {
            None
        }
    }
}

proof fn lemma_sel_matches_congruent(sel: Selector, x: NodeData, y: NodeData)
    requires
        style_key_view(x) == style_key_view(y),
    ensures
        sel.sel_matches(x) == sel.sel_matches(y),
{
    assert(x.tag@ == y.tag@);
    assert(classes_view(x.classes@) == classes_view(y.classes@));
    assert(classes_view(x.classes@).len() == x.classes@.len());
    assert(classes_view(y.classes@).len() == y.classes@.len());
    assert forall|c: Seq<u8>| #[trigger] node_has_class(x, c) == node_has_class(y, c) by {
        if node_has_class(x, c) {
            let j = choose|j: int| 0 <= j < x.classes@.len() && (#[trigger] x.classes@[j])@ == c;
            assert(classes_view(y.classes@)[j] == y.classes@[j]@);
            assert(classes_view(x.classes@)[j] == x.classes@[j]@);
            assert(y.classes@[j]@ == c);
        }
        if node_has_class(y, c) {
            let j = choose|j: int| 0 <= j < y.classes@.len() && (#[trigger] y.classes@[j])@ == c;
            assert(classes_view(y.classes@)[j] == y.classes@[j]@);
            assert(classes_view(x.classes@)[j] == x.classes@[j]@);
            assert(x.classes@[j]@ == c);
        }
    }
    match x.id_attr {
        Some(v) => {
            assert(y.id_attr matches Some(w) && w@ == v@);
        },
        None => {
            assert(y.id_attr is None);
        },
    }
}

proof fn lemma_winner_congruent(
    rules: Seq<StyleRule>,
    x: NodeData,
    y: NodeData,
    p: CssProperty,
    k: int,
)
    requires
        style_key_view(x) == style_key_view(y),
    ensures
        winner_upto(rules, x, p, k) == winner_upto(rules, y, p, k),
    decreases k,
{
    if k > 0 {
        lemma_winner_congruent(rules, x, y, p, k - 1);
        if 0 <= k - 1 < rules.len() {
            lemma_sel_matches_congruent(rules[k - 1].selector, x, y);
        }
    }
}

proof fn lemma_resolve_congruent(rules: Seq<StyleRule>, x: NodeData, y: NodeData, parent: ResolvedStyle)
    requires
        style_key_view(x) == style_key_view(y),
    ensures
        resolve_spec(rules, x, parent) == resolve_spec(rules, y, parent),
{
    assert forall|p: CssProperty| #[trigger] cascaded_value(rules, x, p) == cascaded_value(
        rules,
        y,
        p,
    ) by {
        lemma_winner_congruent(rules, x, y, p, rules.len() as int);
    }
}

/// Skipping a restyle is sound: two snapshots with the same topology and
/// the same selector-relevant content per node — text content may differ —
/// cascade to identical resolved styles under any stylesheet.
pub proof fn lemma_restyle_skip_sound(a: NodeStore, b: NodeStore, rules: Seq<StyleRule>)
    requires
        a.wf(),
        b.wf(),
        restyle_equal(a, b),
    ensures
        styles_spec(a, rules) == styles_spec(b, rules),
{
    assert forall|i: int| a.is_live(i) implies #[trigger] resolved_of(a, rules, i) == resolved_of(
        b,
        rules,
        i,
    ) by {
        lemma_resolved_of_congruent(a, b, rules, i);
    }
    assert(styles_spec(a, rules) =~= styles_spec(b, rules));
}

proof fn lemma_resolved_of_congruent(a: NodeStore, b: NodeStore, rules: Seq<StyleRule>, i: int)
    requires
        a.wf(),
        b.wf(),
        restyle_equal(a, b),
        a.is_live(i),
    ensures
        resolved_of(a, rules, i) == resolved_of(b, rules, i),
    decreases a.depth_of(i),
{
    assert(b.is_live(i));
    a.lemma_wf_node(i);
    b.lemma_wf_node(i);
    assert(a.node_of(i).parent == b.node_of(i).parent);
    assert(style_key_view(a.node_of(i).data) == style_key_view(b.node_of(i).data));
    match a.node_of(i).parent {
        None => {
            lemma_resolve_congruent(rules, a.node_of(i).data, b.node_of(i).data, root_style());
        },
        Some(p) => {
            let pi = p.index as int;
            assert(a.is_live(pi) && a.depth_of(pi) < a.depth_of(i));
            assert(b.is_live(pi) && b.depth_of(pi) < b.depth_of(i));
            lemma_resolved_of_congruent(a, b, rules, pi);
            lemma_resolve_congruent(
                rules,
                a.node_of(i).data,
                b.node_of(i).data,
                resolved_of(a, rules, pi),
            );
        },
    }
}

/// Determinism of match-and-cascade: the resolved styles are a function of
/// the stylesheet and the node tree alone, so two runs over an unchanged
/// pair yield identical output.
pub proof fn lemma_match_and_cascade_deterministic(
    store: NodeStore,
    rules: Seq<StyleRule>,
    a: Seq<Option<ResolvedStyle>>,
    b: Seq<Option<ResolvedStyle>>,
)
    requires
        a == styles_spec(store, rules),
        b == styles_spec(store, rules),
    ensures
        a == b,
{
}

} // verus!
