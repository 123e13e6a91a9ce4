//! Display list building: solved geometry plus resolved paint properties,
//! emitted as draw commands in painter's order (depth first, parent before
//! children). A clipping container wraps its descendants' items in a
//! clip scope; a zero-size or unsolved subtree is skipped entirely, so the
//! scope nesting stays balanced in every case.
use vstd::prelude::*;
use crate::NodeKind;
use crate::constraints::LayoutRect;
use crate::constraints::sat_add;
use crate::constraints::sat_add_exec;
use crate::css::ResolvedStyle;
use crate::id_tree::NodeId;
use crate::id_tree::NodeStore;
use crate::ui_description::UiDescription;

verus! {

/// One paint instruction. Items own only plain values; order in the list
/// is paint order.
#[derive(Clone, Copy, PartialEq, Eq, Structural, Debug)]
pub enum DisplayItem {
    /// A filled rectangle.
    Rect { node: usize, x: i64, y: i64, width: i64, height: i64, color: i64 },
    /// A border around a rectangle.
    Border { node: usize, x: i64, y: i64, width: i64, height: i64, color: i64 },
    /// A shaped text run anchored at an explicit baseline.
    Text { node: usize, x: i64, baseline: i64, color: i64 },
    /// Open a clip scope bounding all items until the matching pop.
    PushClip { x: i64, y: i64, width: i64, height: i64 },
    /// Close the innermost clip scope.
    PopClip,
}

/// Ordered paint instructions for one frame.
#[derive(Debug)]
pub struct DisplayList {
    pub items: Vec<DisplayItem>,
}

/// Clip-scope contribution of one item.
pub open spec fn item_delta(it: DisplayItem) -> int {
    match it {
        DisplayItem::PushClip { .. } => 1,
        DisplayItem::PopClip => -1,
        _ => 0,
    }
}

/// Net clip-scope depth after the first `k` items.
pub open spec fn prefix_delta(items: Seq<DisplayItem>, k: int) -> int
    decreases k,
{
    if k <= 0 {
        0
    } else {
        prefix_delta(items, k - 1) + item_delta(items[k - 1])
    }
}

/// Clip scopes are balanced: every push has its pop, and no prefix pops a
/// scope that was never pushed.
pub open spec fn balanced(items: Seq<DisplayItem>) -> bool {
    &&& prefix_delta(items, items.len() as int) == 0
    &&& forall|k: int| 0 <= k <= items.len() ==> prefix_delta(items, k) >= 0
}

proof fn lemma_delta_concat(a: Seq<DisplayItem>, b: Seq<DisplayItem>, k: int)
    requires
        0 <= k <= b.len(),
    ensures
        prefix_delta(a + b, a.len() + k) == prefix_delta(a, a.len() as int) + prefix_delta(b, k),
    decreases k,
{
    if k == 0 {
        lemma_delta_prefix(a, b, a.len() as int);
    } else {
        lemma_delta_concat(a, b, k - 1);
        assert((a + b)[a.len() + k - 1] == b[k - 1]);
    }
}

proof fn lemma_delta_prefix(a: Seq<DisplayItem>, b: Seq<DisplayItem>, k: int)
    requires
        0 <= k <= a.len(),
    ensures
        prefix_delta(a + b, k) == prefix_delta(a, k),
    decreases k,
{
    if k > 0 {
        lemma_delta_prefix(a, b, k - 1);
        assert((a + b)[k - 1] == a[k - 1]);
    }
}

/// Concatenating balanced lists keeps the balance.
pub proof fn lemma_balanced_concat(a: Seq<DisplayItem>, b: Seq<DisplayItem>)
    requires
        balanced(a),
        balanced(b),
    ensures
        balanced(a + b),
{
    assert forall|k: int| 0 <= k <= (a + b).len() implies prefix_delta(a + b, k) >= 0 by {
        if k <= a.len() {
            lemma_delta_prefix(a, b, k);
        } else {
            lemma_delta_concat(a, b, k - a.len());
        }
    }
    lemma_delta_concat(a, b, b.len() as int);
    assert((a + b).len() == a.len() + b.len());
}

/// Wrapping a balanced list in one push/pop pair keeps the balance.
pub proof fn lemma_balanced_wrap(x: Seq<DisplayItem>, push: DisplayItem, pop: DisplayItem)
    requires
        balanced(x),
        item_delta(push) == 1,
        item_delta(pop) == -1,
    ensures
        balanced(seq![push] + x + seq![pop]),
{
    let p = seq![push];
    let q = seq![pop];
    let px = p + x;
    let all = px + q;
    assert(p[0] == push);
    assert(q[0] == pop);
    assert(prefix_delta(p, 1) == prefix_delta(p, 0) + item_delta(p[0]));
    assert(prefix_delta(q, 1) == prefix_delta(q, 0) + item_delta(q[0]));
    assert forall|k: int| 0 <= k <= px.len() implies prefix_delta(px, k) == (if k == 0 {
        0int
    } else {
        1 + prefix_delta(x, k - 1)
    }) by {
        if k > 0 {
            lemma_delta_concat(p, x, k - 1);
        }
    }
    assert(prefix_delta(px, px.len() as int) == 1);
    lemma_delta_concat(px, q, 1);
    assert(prefix_delta(all, all.len() as int) == 0);
    assert forall|k: int| 0 <= k <= all.len() implies prefix_delta(all, k) >= 0 by {
        if k <= px.len() {
            lemma_delta_prefix(px, q, k);
        } else {
            lemma_delta_concat(px, q, k - px.len());
        }
    }
    assert(seq![push] + x + seq![pop] =~= all);
    assert(balanced(all));
}

/// A list without clip items is balanced.
pub proof fn lemma_flat_balanced(items: Seq<DisplayItem>)
    requires
        forall|t: int| 0 <= t < items.len() ==> item_delta(#[trigger] items[t]) == 0,
    ensures
        balanced(items),
{
    assert forall|k: int| 0 <= k <= items.len() implies prefix_delta(items, k) == 0 by {
        lemma_flat_prefix(items, k);
    }
}

proof fn lemma_flat_prefix(items: Seq<DisplayItem>, k: int)
    requires
        0 <= k <= items.len(),
        forall|t: int| 0 <= t < items.len() ==> item_delta(#[trigger] items[t]) == 0,
    ensures
        prefix_delta(items, k) == 0,
    decreases k,
{
    if k > 0 {
        lemma_flat_prefix(items, k - 1);
    }
}

/// Items one node emits for itself: its background, its border when set,
/// and its shaped text run (baseline at the bottom edge) for a text node.
pub open spec fn own_items(store: NodeStore, i: int, s: ResolvedStyle, r: LayoutRect) -> Seq<
    DisplayItem,
> {
    let base = seq![
        DisplayItem::Rect {
            node: i as usize,
            x: r.x,
            y: r.y,
            width: r.width,
            height: r.height,
            color: s.background,
        },
    ];
    let withb = match s.border {
        Some(bc) => base.push(
            DisplayItem::Border {
                node: i as usize,
                x: r.x,
                y: r.y,
                width: r.width,
                height: r.height,
                color: bc,
            },
        ),
        None => base,
    };
    if store.node_of(i).data.kind is TextRun {
        withb.push(
            DisplayItem::Text {
                node: i as usize,
                x: r.x,
                baseline: sat_add(r.y, r.height),
                color: s.color,
            },
        )
    } else {
        withb
    }
}

/// Stacking key of a child: its resolved z-index, 0 when unstyled.
pub open spec fn child_z(styles: Seq<Option<ResolvedStyle>>, c: NodeId) -> i64 {
    if 0 <= c.index < styles.len() && styles[c.index as int] is Some {
        styles[c.index as int]->Some_0.z_index
    } else {
        0
    }
}

/// Position of the first element carrying the least stacking key.
pub open spec fn min_z_pos(styles: Seq<Option<ResolvedStyle>>, kids: Seq<NodeId>) -> int
    decreases kids.len(),
{
    if kids.len() <= 1 {
        0
    } else {
        let rest = min_z_pos(styles, kids.drop_first());
        if 0 <= rest + 1 < kids.len() && child_z(styles, kids[0]) <= child_z(
            styles,
            kids[rest + 1],
        ) {
            0
        } else {
            rest + 1
        }
    }
}

/// Children in paint order: ascending z-index, document order kept within
/// one z value (repeatedly pick the first least element).
pub open spec fn zorder(styles: Seq<Option<ResolvedStyle>>, kids: Seq<NodeId>) -> Seq<NodeId>
    decreases kids.len(),
{
    if kids.len() == 0 {
        Seq::empty()
    } else {
        let p = min_z_pos(styles, kids);
        if 0 <= p < kids.len() {
            seq![kids[p]] + zorder(styles, kids.remove(p))
        } else {
            kids
        }
    }
}

proof fn lemma_min_z_pos_range(styles: Seq<Option<ResolvedStyle>>, kids: Seq<NodeId>)
    requires
        kids.len() > 0,
    ensures
        0 <= min_z_pos(styles, kids) < kids.len(),
    decreases kids.len(),
{
    if kids.len() > 1 {
        lemma_min_z_pos_range(styles, kids.drop_first());
    }
}

/// Every element of the paint order comes from the child list.
proof fn lemma_zorder_membership(styles: Seq<Option<ResolvedStyle>>, kids: Seq<NodeId>)
    ensures
        forall|t: int|
            0 <= t < zorder(styles, kids).len() ==> kids.contains(
                #[trigger] zorder(styles, kids)[t],
            ),
    decreases kids.len(),
{
    if kids.len() > 0 {
        let p = min_z_pos(styles, kids);
        lemma_min_z_pos_range(styles, kids);
        let rest = kids.remove(p);
        lemma_zorder_membership(styles, rest);
        let z = zorder(styles, kids);
        assert forall|t: int| 0 <= t < z.len() implies kids.contains(#[trigger] z[t]) by {
            if t == 0 {
                assert(z[0] == kids[p]);
            } else {
                let c = zorder(styles, rest)[t - 1];
                assert(z[t] == c);
                assert(rest.contains(c));
                let j = choose|j: int| 0 <= j < rest.len() && rest[j] == c;
                if j < p {
                    assert(kids[j] == c);
                } else {
                    assert(kids[j + 1] == c);
                }
            }
        }
    }
}

/// Items of the subtree rooted at slot `i`, painter's order: the node's
/// own items, then each child subtree — children ordered by ascending
/// z-index, document order breaking ties — the whole run wrapped in a
/// clip scope when the node clips. An unstyled, unsolved or zero-size
/// node contributes nothing, children included.
pub open spec fn subtree_items(
    store: NodeStore,
    styles: Seq<Option<ResolvedStyle>>,
    rects: Seq<Option<LayoutRect>>,
    i: int,
) -> Seq<DisplayItem>
    decreases
            store.slot_count() - store.depth_of(i),
            zorder(styles, store.node_of(i).children@).len() + 1,
{
    if !(0 <= i < styles.len() && i < rects.len() && styles[i] is Some && rects[i] is Some
        && store.depth_of(i) < store.slot_count()) {
        Seq::empty()
    } else {
        let s = styles[i]->Some_0;
        let r = rects[i]->Some_0;
        if r.width <= 0 || r.height <= 0 {
            Seq::empty()
        } else {
            let order = zorder(styles, store.node_of(i).children@);
            let inner = own_items(store, i, s, r) + children_items(
                store,
                styles,
                rects,
                i,
                order,
                0,
            );
            if s.clip {
                seq![
                    DisplayItem::PushClip { x: r.x, y: r.y, width: r.width, height: r.height },
                ] + inner + seq![DisplayItem::PopClip]
            } else {
                inner
            }
        }
    }
}

/// Items of the child subtrees `order[k..]` of node `i`.
pub open spec fn children_items(
    store: NodeStore,
    styles: Seq<Option<ResolvedStyle>>,
    rects: Seq<Option<LayoutRect>>,
    i: int,
    order: Seq<NodeId>,
    k: int,
) -> Seq<DisplayItem>
    decreases store.slot_count() - store.depth_of(i), order.len() - k,
{
    if !(0 <= k < order.len() && store.depth_of(i) < store.slot_count()) {
        Seq::empty()
    } else {
        let c = order[k];
        let piece = if store.is_live(c.index as int) && store.depth_of(i) < store.depth_of(
            c.index as int,
        ) && store.depth_of(c.index as int) <= store.slot_count() {
            subtree_items(store, styles, rects, c.index as int)
        } else {
            Seq::empty()
        };
        piece + children_items(store, styles, rects, i, order, k + 1)
    }
}

/// Items of every root subtree among slots `[0, k)`, in slot order.
pub open spec fn roots_items(
    store: NodeStore,
    styles: Seq<Option<ResolvedStyle>>,
    rects: Seq<Option<LayoutRect>>,
    k: int,
) -> Seq<DisplayItem>
    decreases k,
{
    if k <= 0 {
        Seq::empty()
    } else {
        roots_items(store, styles, rects, k - 1) + (if store.is_live(k - 1) && store.node_of(
            k - 1,
        ).parent is None {
            subtree_items(store, styles, rects, k - 1)
        } else {
            Seq::empty()
        })
    }
}

/// Clip/scroll scope pushes and pops are balanced for any subtree,
/// zero-size and hidden subtrees included.
pub proof fn lemma_subtree_balanced(
    store: NodeStore,
    styles: Seq<Option<ResolvedStyle>>,
    rects: Seq<Option<LayoutRect>>,
    i: int,
)
    ensures
        balanced(subtree_items(store, styles, rects, i)),
    decreases
            store.slot_count() - store.depth_of(i),
            zorder(styles, store.node_of(i).children@).len() + 1,
{
    if !(0 <= i < styles.len() && i < rects.len() && styles[i] is Some && rects[i] is Some
        && store.depth_of(i) < store.slot_count()) {
        assert(balanced(Seq::<DisplayItem>::empty())) by {
            lemma_flat_balanced(Seq::<DisplayItem>::empty());
        }
    } else {
        let s = styles[i]->Some_0;
        let r = rects[i]->Some_0;
        if r.width <= 0 || r.height <= 0 {
            lemma_flat_balanced(Seq::<DisplayItem>::empty());
        } else {
            let order = zorder(styles, store.node_of(i).children@);
            let own = own_items(store, i, s, r);
            lemma_flat_balanced(own);
            lemma_children_balanced(store, styles, rects, i, order, 0);
            let inner = own + children_items(store, styles, rects, i, order, 0);
            lemma_balanced_concat(own, children_items(store, styles, rects, i, order, 0));
            if s.clip {
                lemma_balanced_wrap(
                    inner,
                    DisplayItem::PushClip { x: r.x, y: r.y, width: r.width, height: r.height },
                    DisplayItem::PopClip,
                );
            }
        }
    }
}

proof fn lemma_children_balanced(
    store: NodeStore,
    styles: Seq<Option<ResolvedStyle>>,
    rects: Seq<Option<LayoutRect>>,
    i: int,
    order: Seq<NodeId>,
    k: int,
)
    ensures
        balanced(children_items(store, styles, rects, i, order, k)),
    decreases store.slot_count() - store.depth_of(i), order.len() - k,
{
    if !(0 <= k < order.len() && store.depth_of(i) < store.slot_count()) {
        lemma_flat_balanced(Seq::<DisplayItem>::empty());
    } else {
        let c = order[k];
        if store.is_live(c.index as int) && store.depth_of(i) < store.depth_of(c.index as int)
            && store.depth_of(c.index as int) <= store.slot_count() {
            lemma_subtree_balanced(store, styles, rects, c.index as int);
        } else {
            lemma_flat_balanced(Seq::<DisplayItem>::empty());
        }
        lemma_children_balanced(store, styles, rects, i, order, k + 1);
        let piece = if store.is_live(c.index as int) && store.depth_of(i) < store.depth_of(
            c.index as int,
        ) && store.depth_of(c.index as int) <= store.slot_count() {
            subtree_items(store, styles, rects, c.index as int)
        } else {
            Seq::<DisplayItem>::empty()
        };
        lemma_balanced_concat(piece, children_items(store, styles, rects, i, order, k + 1));
    }
}

/// Balance of a whole frame's list.
pub proof fn lemma_roots_balanced(
    store: NodeStore,
    styles: Seq<Option<ResolvedStyle>>,
    rects: Seq<Option<LayoutRect>>,
    k: int,
)
    ensures
        balanced(roots_items(store, styles, rects, k)),
    decreases k,
{
    if k <= 0 {
        lemma_flat_balanced(Seq::<DisplayItem>::empty());
    } else {
        lemma_roots_balanced(store, styles, rects, k - 1);
        let piece = if store.is_live(k - 1) && store.node_of(k - 1).parent is None {
            subtree_items(store, styles, rects, k - 1)
        } else {
            Seq::<DisplayItem>::empty()
        };
        if store.is_live(k - 1) && store.node_of(k - 1).parent is None {
            lemma_subtree_balanced(store, styles, rects, k - 1);
        } else {
            lemma_flat_balanced(Seq::<DisplayItem>::empty());
        }
        lemma_balanced_concat(roots_items(store, styles, rects, k - 1), piece);
    }
}

fn child_z_exec(styles: &Vec<Option<ResolvedStyle>>, c: NodeId) -> (r: i64)
    ensures
        r == child_z(styles@, c),
{
    if c.index < styles.len() {
        match styles[c.index] {
            Some(s) => s.z_index,
            None => 0,
        }
    } else {
        0
    }
}

/// Arrange children into paint order by repeatedly extracting the first
/// element with the least z-index.
#[verifier::loop_isolation(false)]
fn zorder_exec(styles: &Vec<Option<ResolvedStyle>>, kids: &Vec<NodeId>) -> (r: Vec<NodeId>)
    ensures
        r@ == zorder(styles@, kids@),
{
    let mut rest: Vec<NodeId> = Vec::new();
    let mut t: usize = 0;
    while t < kids.len()
        invariant
            t <= kids@.len(),
            rest@ == kids@.subrange(0, t as int),
        decreases kids@.len() - t,
    {
        rest.push(kids[t]);
        proof {
            assert(kids@.subrange(0, t as int + 1) =~= kids@.subrange(0, t as int).push(
                kids@[t as int],
            ));
        }
        t += 1;
    }
    proof {
        assert(rest@ =~= kids@);
    }
    let mut out: Vec<NodeId> = Vec::new();
    while rest.len() > 0
        invariant
            out@ + zorder(styles@, rest@) == zorder(styles@, kids@),
        decreases rest@.len(),
    {
        let n = rest.len();
        let mut pos: usize = n - 1;
        let mut j: usize = n - 1;
        proof {
            assert(rest@.subrange(n as int - 1, n as int).len() == 1);
        }
        while j > 0
            invariant
                j < n,
                pos < n,
                n == rest@.len(),
                pos as int == j + min_z_pos(styles@, rest@.subrange(j as int, n as int)),
            decreases j,
        {
            j -= 1;
            proof {
                let suf = rest@.subrange(j as int, n as int);
                assert(suf.drop_first() =~= rest@.subrange(j as int + 1, n as int));
                assert(suf[0] == rest@[j as int]);
                lemma_min_z_pos_range(styles@, suf.drop_first());
                assert(suf[min_z_pos(styles@, suf.drop_first()) + 1] == rest@[pos as int]);
            }
            if child_z_exec(styles, rest[j]) <= child_z_exec(styles, rest[pos]) {
                pos = j;
            }
        }
        proof {
            assert(rest@.subrange(0, n as int) =~= rest@);
            assert(pos as int == min_z_pos(styles@, rest@));
        }
        let ghost restv = rest@;
        let ghost preo = out@;
        let picked = rest[pos];
        rest.remove(pos);
        out.push(picked);
        proof {
            lemma_min_z_pos_range(styles@, restv);
            assert(rest@ == restv.remove(pos as int));
            assert(zorder(styles@, restv) == seq![restv[pos as int]] + zorder(styles@, rest@));
            assert(out@ =~= preo.push(picked));
            assert(out@ + zorder(styles@, rest@) =~= preo + (seq![picked] + zorder(
                styles@,
                rest@,
            )));
        }
    }
    proof {
        assert(out@ + zorder(styles@, rest@) =~= out@);
    }
    out
}

/// Emit the subtree of live node `i` onto `out`.
#[verifier::loop_isolation(false)]
fn emit_subtree(
    store: &NodeStore,
    styles: &Vec<Option<ResolvedStyle>>,
    rects: &Vec<Option<LayoutRect>>,
    i: usize,
    out: &mut Vec<DisplayItem>,
)
    requires
        store.wf(),
        store.is_live(i as int),
    ensures
        final(out)@ == old(out)@ + subtree_items(*store, styles@, rects@, i as int),
    decreases store.slot_count() - store.depth_of(i as int),
{
    proof {
        store.lemma_wf_node(i as int);
        store.lemma_depth_bound(i as int);
    }
    let ghost base = out@;
    if i >= styles.len() || i >= rects.len() {
        proof {
            assert(base + subtree_items(*store, styles@, rects@, i as int) =~= base);
        }
        return ;
    }
    let sopt = styles[i];
    let ropt = rects[i];
    match (sopt, ropt) {
        (Some(s), Some(r)) => {
            if r.width <= 0 || r.height <= 0 {
                proof {
                    assert(base + subtree_items(*store, styles@, rects@, i as int) =~= base);
                }
                return ;
            }
            if s.clip {
                out.push(DisplayItem::PushClip { x: r.x, y: r.y, width: r.width, height: r.height });
            }
            let ghost start_inner = out@;
            out.push(
                DisplayItem::Rect {
                    node: i,
                    x: r.x,
                    y: r.y,
                    width: r.width,
                    height: r.height,
                    color: s.background,
                },
            );
            match s.border {
                Some(bc) => {
                    out.push(
                        DisplayItem::Border {
                            node: i,
                            x: r.x,
                            y: r.y,
                            width: r.width,
                            height: r.height,
                            color: bc,
                        },
                    );
                },
                None => {},
            }
            let is_text = match store.data_at(i).kind {
                NodeKind::TextRun => true,
                _ => false,
            };
            if is_text {
                let baseline = sat_add_exec(r.y, r.height);
                out.push(DisplayItem::Text { node: i, x: r.x, baseline, color: s.color });
            }
            proof {
                assert(out@ =~= start_inner + own_items(
                    *store,
                    i as int,
                    styles@[i as int]->Some_0,
                    rects@[i as int]->Some_0,
                ));
            }
            let ghost after_own = out@;
            let order = zorder_exec(styles, store.children_at(i));
            proof {
                lemma_zorder_membership(styles@, store.node_of(i as int).children@);
            }
            let norder = order.len();
            let mut k: usize = 0;
            while k < norder
                invariant
                    norder == order@.len(),
                    order@ == zorder(styles@, store.node_of(i as int).children@),
                    k <= norder,
                    out@ + children_items(*store, styles@, rects@, i as int, order@, k as int)
                        == after_own + children_items(*store, styles@, rects@, i as int, order@, 0),
                decreases norder - k,
            {
                let c = order[k];
                proof {
                    assert(store.node_of(i as int).children@.contains(c));
                    let j = choose|j: int|
                        0 <= j < store.node_of(i as int).children@.len() && store.node_of(
                            i as int,
                        ).children@[j] == c;
                    assert(store.valid(c));
                    store.lemma_wf_node(c.index as int);
                    assert(store.depth_of(i as int) < store.depth_of(c.index as int));
                    store.lemma_depth_bound(c.index as int);
                }
                let ghost before_child = out@;
                emit_subtree(store, styles, rects, c.index, out);
                proof {
                    let piece = subtree_items(*store, styles@, rects@, c.index as int);
                    let rest = children_items(
                        *store,
                        styles@,
                        rects@,
                        i as int,
                        order@,
                        k as int + 1,
                    );
                    assert(children_items(*store, styles@, rects@, i as int, order@, k as int)
                        == piece + rest);
                    assert(out@ + rest =~= before_child + (piece + rest));
                    assert(before_child + (piece + rest) =~= (before_child + piece) + rest);
                }
                k += 1;
            }
            proof {
                assert(children_items(*store, styles@, rects@, i as int, order@, norder as int)
                    =~= Seq::<DisplayItem>::empty());
                assert(out@ + Seq::<DisplayItem>::empty() =~= out@);
                assert(out@ =~= after_own + children_items(
                    *store,
                    styles@,
                    rects@,
                    i as int,
                    order@,
                    0,
                ));
            }
            if s.clip {
                out.push(DisplayItem::PopClip);
                proof {
                    let inner = own_items(
                        *store,
                        i as int,
                        styles@[i as int]->Some_0,
                        rects@[i as int]->Some_0,
                    ) + children_items(*store, styles@, rects@, i as int, order@, 0);
                    assert(out@ =~= base + (seq![
                        DisplayItem::PushClip { x: r.x, y: r.y, width: r.width, height: r.height },
                    ] + inner + seq![DisplayItem::PopClip]));
                }
            } else {
                proof {
                    assert(out@ =~= base + (own_items(
                        *store,
                        i as int,
                        styles@[i as int]->Some_0,
                        rects@[i as int]->Some_0,
                    ) + children_items(*store, styles@, rects@, i as int, order@, 0)));
                }
            }
        },
        _ => {
            proof {
                assert(base + subtree_items(*store, styles@, rects@, i as int) =~= base);
            }
            return ;
        },
    }
}

impl DisplayList {
    /// An empty display list.
    pub fn empty() -> (r: DisplayList)
        ensures
            r.items@ == Seq::<DisplayItem>::empty(),
    {
        DisplayList { items: Vec::new() }
    }

    /// Build the display list for a frame: walk every root subtree in slot
    /// order, depth first, parents before children. The clip scopes of the
    /// result are always balanced.
    pub fn build(store: &NodeStore, ui: &UiDescription, rects: &Vec<Option<LayoutRect>>) -> (r:
        DisplayList)
        requires
            store.wf(),
        ensures
            r.items@ == roots_items(*store, ui.styles@, rects@, store.slot_count()),
            balanced(r.items@),
    {
        let n = store.slot_len();
        let mut items: Vec<DisplayItem> = Vec::new();
        let mut i: usize = 0;
        while i < n
            invariant
                i <= n,
                n as int == store.slot_count(),
                store.wf(),
                items@ == roots_items(*store, ui.styles@, rects@, i as int),
            decreases n - i,
        {
            let ghost pre = items@;
            let mut is_root = false;
            if store.live_slot(i) {
                match store.parent_at(i) {
                    None => {
                        is_root = true;
                    },
                    Some(_) => {},
                }
            }
            if is_root {
                emit_subtree(store, &ui.styles, rects, i, &mut items);
            } else {
                proof {
                    assert(items@ =~= pre + Seq::<DisplayItem>::empty());
                }
            }
            i += 1;
        }
        proof {
            lemma_roots_balanced(*store, ui.styles@, rects@, store.slot_count());
        }
        DisplayList { items }
    }

    /// Number of items in the list.
    pub fn len(&self) -> (r: usize)
        ensures
            r as int == self.items@.len(),
    {
        self.items.len()
    }

    /// The item at one position.
    pub fn item_at(&self, k: usize) -> (r: DisplayItem)
        requires
            k < self.items@.len(),
        ensures
            r == self.items@[k as int],
    {
        self.items[k]
    }
}

} // verus!
