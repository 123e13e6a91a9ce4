//! Constraint-based layout solving.
//!
//! Each live node owns four layout variables (left, top, width, height). A
//! constraint relates one variable to a constant or to one of the parent's
//! variables plus an offset, with a relation (equal, at most, at least) and
//! a strength. Solving walks the tree from the root: required constraints
//! are never violated — a disagreement between required constraints makes
//! the node's subtree infeasible — while weaker constraints are relaxed:
//! among equality constraints the strongest wins, later insertion breaking
//! ties, and required bounds clamp the chosen value. The solution is a pure
//! function of the tree, the constraint list and the viewport, so solving
//! is deterministic and can be re-run per node.
use vstd::prelude::*;
use crate::css::ResolvedStyle;
use crate::id_tree::NodeStore;
use crate::ui_description::UiDescription;

verus! {

/// A resolved rectangle in the coordinate space of the surface.
#[derive(Clone, Copy, PartialEq, Eq, Structural, Debug)]
pub struct LayoutRect {
    pub x: i64,
    pub y: i64,
    pub width: i64,
    pub height: i64,
}

/// Which of a node's four layout variables a constraint speaks about.
#[derive(Clone, Copy, PartialEq, Eq, Structural, Debug)]
pub enum VarKind {
    Left,
    Top,
    Width,
    Height,
}

/// One layout variable: a node's slot index plus the variable kind.
#[derive(Clone, Copy, PartialEq, Eq, Structural, Debug)]
pub struct LayoutVar {
    pub node: usize,
    pub kind: VarKind,
}

#[derive(Clone, Copy, PartialEq, Eq, Structural, Debug)]
pub enum Relation {
    Eq,
    Le,
    Ge,
}

/// Priority of a constraint when the system is over-constrained.
#[derive(Clone, Copy, PartialEq, Eq, Structural, Debug)]
pub enum Strength {
    Weak,
    Strong,
    Required,
}

/// Right-hand side of a constraint: a constant, or one of the parent's
/// variables plus an offset (the viewport stands in for the parent of a
/// root node). Sums saturate at the i64 range.
#[derive(Clone, Copy, PartialEq, Eq, Structural, Debug)]
pub enum Rhs {
    Const(i64),
    ParentPlus(VarKind, i64),
}

/// A linear layout constraint.
#[derive(Clone, Copy, PartialEq, Eq, Structural, Debug)]
pub struct Constraint {
    pub target: LayoutVar,
    pub relation: Relation,
    pub rhs: Rhs,
    pub strength: Strength,
}

/// A required constraint set on one node cannot be satisfied; the node's
/// subtree keeps its last committed layout.
#[derive(Clone, Copy, PartialEq, Eq, Structural, Debug)]
pub struct LayoutInfeasible {
    pub slot: usize,
}

pub open spec fn rank(s: Strength) -> int {
    match s {
        Strength::Weak => 0,
        Strength::Strong => 1,
        Strength::Required => 2,
    }
}

pub open spec fn rect_kind(r: LayoutRect, k: VarKind) -> i64 {
    match k {
        VarKind::Left => r.x,
        VarKind::Top => r.y,
        VarKind::Width => r.width,
        VarKind::Height => r.height,
    }
}

/// Clip an unbounded sum into the i64 range.
pub open spec fn sat_i64(x: int) -> i64 {
    if x > i64::MAX {
        i64::MAX
    } else if x < i64::MIN {
        i64::MIN
    } else {
        x as i64
    }
}

pub open spec fn sat_add(a: i64, b: i64) -> i64 {
    sat_i64(a as int + b as int)
}

pub fn sat_add_exec(a: i64, b: i64) -> (r: i64)
    ensures
        r == sat_add(a, b),
{
    if b >= 0 {
        if a > i64::MAX - b {
            i64::MAX
        } else {
            a + b
        }
    } else {
        if a < i64::MIN - b {
            i64::MIN
        } else {
            a + b
        }
    }
}

/// Value of a right-hand side under the parent rectangle `env`.
pub open spec fn eval_rhs(rhs: Rhs, env: LayoutRect) -> i64 {
    match rhs {
        Rhs::Const(c) => c,
        Rhs::ParentPlus(k, off) => sat_add(rect_kind(env, k), off),
    }
}

pub fn eval_rhs_exec(rhs: Rhs, env: &LayoutRect) -> (r: i64)
    ensures
        r == eval_rhs(rhs, *env),
{
    match rhs {
        Rhs::Const(c) => c,
        Rhs::ParentPlus(k, off) => {
            let base = match k {
                VarKind::Left => env.x,
                VarKind::Top => env.y,
                VarKind::Width => env.width,
                VarKind::Height => env.height,
            };
            sat_add_exec(base, off)
        },
    }
}

/// The winning equality constraint for `v` among `cs[0..k)`: the one with
/// the highest strength, later insertion order breaking ties.
pub open spec fn eq_winner_upto(cs: Seq<Constraint>, v: LayoutVar, k: int) -> Option<int>
    decreases k,
{
    if k <= 0 {
        None
    } else {
        let rest = eq_winner_upto(cs, v, k - 1);
        if cs[k - 1].target == v && cs[k - 1].relation is Eq {
            match rest {
                None => Some(k - 1),
                Some(w) => if rank(cs[k - 1].strength) >= rank(cs[w].strength) {
                    Some(k - 1)
                } else {
                    Some(w)
                },
            }
        } else {
            rest
        }
    }
}

/// Value of the first required equality constraint for `v` in `cs[0..k)`.
pub open spec fn first_req_eq(cs: Seq<Constraint>, v: LayoutVar, env: LayoutRect, k: int) -> Option<
    i64,
>
    decreases k,
{
    if k <= 0 {
        None
    } else {
        match first_req_eq(cs, v, env, k - 1) {
            Some(x) => Some(x),
            None => {
                if cs[k - 1].target == v && cs[k - 1].relation is Eq && cs[k - 1].strength
                    is Required {
                    Some(eval_rhs(cs[k - 1].rhs, env))
                } else {
                    None
                }
            },
        }
    }
}

/// Two required equality constraints on `v` disagree within `cs[0..k)`.
pub open spec fn req_conflict_upto(
    cs: Seq<Constraint>,
    v: LayoutVar,
    env: LayoutRect,
    k: int,
) -> bool
    decreases k,
{
    if k <= 0 {
        false
    } else {
        req_conflict_upto(cs, v, env, k - 1) || (cs[k - 1].target == v && cs[k - 1].relation is Eq
            && cs[k - 1].strength is Required && (first_req_eq(cs, v, env, k - 1) matches Some(x)
            && x != eval_rhs(cs[k - 1].rhs, env)))
    }
}

/// Greatest lower bound required for `v`: the maximum over required
/// at-least constraints in `cs[0..k)`.
pub open spec fn req_lo_upto(cs: Seq<Constraint>, v: LayoutVar, env: LayoutRect, k: int) -> Option<
    i64,
>
    decreases k,
{
    if k <= 0 {
        None
    } else {
        let rest = req_lo_upto(cs, v, env, k - 1);
        if cs[k - 1].target == v && cs[k - 1].relation is Ge && cs[k - 1].strength is Required {
            let e = eval_rhs(cs[k - 1].rhs, env);
            match rest {
                None => Some(e),
                Some(x) => Some(
                    if e >= x {
                        e
                    } else {
                        x
                    },
                ),
            }
        } else {
            rest
        }
    }
}

/// Least upper bound required for `v`: the minimum over required at-most
/// constraints in `cs[0..k)`.
pub open spec fn req_hi_upto(cs: Seq<Constraint>, v: LayoutVar, env: LayoutRect, k: int) -> Option<
    i64,
>
    decreases k,
{
    if k <= 0 {
        None
    } else {
        let rest = req_hi_upto(cs, v, env, k - 1);
        if cs[k - 1].target == v && cs[k - 1].relation is Le && cs[k - 1].strength is Required {
            let e = eval_rhs(cs[k - 1].rhs, env);
            match rest {
                None => Some(e),
                Some(x) => Some(
                    if e <= x {
                        e
                    } else {
                        x
                    },
                ),
            }
        } else {
            rest
        }
    }
}

pub open spec fn clamp(x: i64, lo: Option<i64>, hi: Option<i64>) -> i64 {
    let a = match lo {
        Some(l) => if x < l {
            l
        } else {
            x
        },
        None => x,
    };
    match hi {
        Some(h) => if a > h {
            h
        } else {
            a
        },
        None => a,
    }
}

/// The winning equality value before clamping, 0 when nothing constrains
/// the variable.
pub open spec fn var_base(cs: Seq<Constraint>, v: LayoutVar, env: LayoutRect) -> i64 {
    match eq_winner_upto(cs, v, cs.len() as int) {
        None => 0,
        Some(w) => eval_rhs(cs[w].rhs, env),
    }
}

/// The solved value of one variable: the winning equality value, clamped
/// into the required bounds.
pub open spec fn var_value(cs: Seq<Constraint>, v: LayoutVar, env: LayoutRect) -> i64 {
    clamp(
        var_base(cs, v, env),
        req_lo_upto(cs, v, env, cs.len() as int),
        req_hi_upto(cs, v, env, cs.len() as int),
    )
}

/// The required constraints on one variable cannot all hold: required
/// equalities disagree, the required bounds are empty, or a required
/// equality value falls outside the required bounds.
pub open spec fn var_infeasible(cs: Seq<Constraint>, v: LayoutVar, env: LayoutRect) -> bool {
    let lo = req_lo_upto(cs, v, env, cs.len() as int);
    let hi = req_hi_upto(cs, v, env, cs.len() as int);
    ||| req_conflict_upto(cs, v, env, cs.len() as int)
    ||| (lo matches Some(l) && hi matches Some(h) && l > h)
    ||| (eq_winner_upto(cs, v, cs.len() as int) matches Some(w) && cs[w].strength is Required
        && clamp(var_base(cs, v, env), lo, hi) != var_base(cs, v, env))
}

/// Solve every variable of one node under the parent rectangle `env`;
/// `None` when the node's required constraints conflict.
pub open spec fn node_rect(cs: Seq<Constraint>, i: int, env: LayoutRect) -> Option<LayoutRect> {
    let vx = LayoutVar { node: i as usize, kind: VarKind::Left };
    let vy = LayoutVar { node: i as usize, kind: VarKind::Top };
    let vw = LayoutVar { node: i as usize, kind: VarKind::Width };
    let vh = LayoutVar { node: i as usize, kind: VarKind::Height };
    if var_infeasible(cs, vx, env) || var_infeasible(cs, vy, env) || var_infeasible(cs, vw, env)
        || var_infeasible(cs, vh, env) {
        None
    } else {
        Some(
            LayoutRect {
                x: var_value(cs, vx, env),
                y: var_value(cs, vy, env),
                width: var_value(cs, vw, env),
                height: var_value(cs, vh, env),
            },
        )
    }
}

pub open spec fn viewport_rect(width: u32, height: u32) -> LayoutRect {
    LayoutRect { x: 0, y: 0, width: width as i64, height: height as i64 }
}

/// Solved rectangle of live node `i`: its parent's solved rectangle (the
/// viewport for a root) feeds its own constraints; an infeasible ancestor
/// makes the whole subtree infeasible.
pub open spec fn solved_node(store: NodeStore, cs: Seq<Constraint>, vp: LayoutRect, i: int) -> Option<
    LayoutRect,
>
    decreases store.depth_of(i),
{
    match store.node_of(i).parent {
        None => node_rect(cs, i, vp),
        Some(p) => {
            if store.is_live(p.index as int) && store.depth_of(p.index as int) < store.depth_of(
                i,
            ) {
                match solved_node(store, cs, vp, p.index as int) {
                    None => None,
                    Some(env) => node_rect(cs, i, env),
                }
            } else {
                node_rect(cs, i, vp)
            }
        },
    }
}

/// The layout of a whole store: one entry per slot, `None` for free slots
/// and for members of infeasible subtrees.
pub open spec fn layout_spec(store: NodeStore, cs: Seq<Constraint>, vp: LayoutRect) -> Seq<
    Option<LayoutRect>,
> {
    Seq::new(
        store.slot_count() as nat,
        |i: int|
            if store.is_live(i) {
                solved_node(store, cs, vp, i)
            } else {
                None
            },
    )
}

/// Resolve one variable by a single scan over the constraint list.
fn var_solve(cs: &Vec<Constraint>, v: LayoutVar, env: &LayoutRect) -> (r: (i64, bool))
    ensures
        r.0 == var_value(cs@, v, *env),
        r.1 == var_infeasible(cs@, v, *env),
{
    let n = cs.len();
    let mut w: Option<usize> = None;
    let mut first: Option<i64> = None;
    let mut conflict = false;
    let mut lo: Option<i64> = None;
    let mut hi: Option<i64> = None;
    let mut k: usize = 0;
    while k < n
        invariant
            k <= n,
            n == cs@.len(),
            match w {
                None => eq_winner_upto(cs@, v, k as int) is None,
                Some(wi) => wi < k && eq_winner_upto(cs@, v, k as int) == Some(wi as int),
            },
            first == first_req_eq(cs@, v, *env, k as int),
            conflict == req_conflict_upto(cs@, v, *env, k as int),
            lo == req_lo_upto(cs@, v, *env, k as int),
            hi == req_hi_upto(cs@, v, *env, k as int),
        decreases n - k,
    {
        let c = cs[k];
        if c.target.node == v.node && c.target.kind == v.kind {
            proof {
                assert(c.target == v);
            }
            match c.relation {
                Relation::Eq => {
                    match w {
                        None => {
                            w = Some(k);
                        },
                        Some(wi) => {
                            let rw = match cs[wi].strength {
                                Strength::Weak => 0u8,
                                Strength::Strong => 1u8,
                                Strength::Required => 2u8,
                            };
                            let rc = match c.strength {
                                Strength::Weak => 0u8,
                                Strength::Strong => 1u8,
                                Strength::Required => 2u8,
                            };
                            if rc >= rw {
                                w = Some(k);
                            }
                        },
                    }
                    match c.strength {
                        Strength::Required => {
                            let e = eval_rhs_exec(c.rhs, env);
                            match first {
                                None => {
                                    first = Some(e);
                                },
                                Some(x) => {
                                    if x != e {
                                        conflict = true;
                                    }
                                },
                            }
                        },
                        _ => {},
                    }
                },
                Relation::Ge => {
                    match c.strength {
                        Strength::Required => {
                            let e = eval_rhs_exec(c.rhs, env);
                            match lo {
                                None => {
                                    lo = Some(e);
                                },
                                Some(x) => {
                                    if e >= x {
                                        lo = Some(e);
                                    }
                                },
                            }
                        },
                        _ => {},
                    }
                },
                Relation::Le => {
                    match c.strength {
                        Strength::Required => {
                            let e = eval_rhs_exec(c.rhs, env);
                            match hi {
                                None => {
                                    hi = Some(e);
                                },
                                Some(x) => {
                                    if e <= x {
                                        hi = Some(e);
                                    }
                                },
                            }
                        },
                        _ => {},
                    }
                },
            }
        }
        k += 1;
    }
    let base = match w {
        None => 0i64,
        Some(wi) => eval_rhs_exec(cs[wi].rhs, env),
    };
    let after_lo = match lo {
        Some(l) => if base < l {
            l
        } else {
            base
        },
        None => base,
    };
    let value = match hi {
        Some(h) => if after_lo > h {
            h
        } else {
            after_lo
        },
        None => after_lo,
    };
    let bounds_empty = match (lo, hi) {
        (Some(l), Some(h)) => l > h,
        _ => false,
    };
    let req_eq_clamped = match w {
        Some(wi) => {
            match cs[wi].strength {
                Strength::Required => value != base,
                _ => false,
            }
        },
        None => false,
    };
    let infeasible = conflict || bounds_empty || req_eq_clamped;
    (value, infeasible)
}

/// Solve all four variables of one node.
pub fn solve_node_exec(cs: &Vec<Constraint>, i: usize, env: &LayoutRect) -> (r: Option<LayoutRect>)
    ensures
        r == node_rect(cs@, i as int, *env),
{
    let (x, bx) = var_solve(cs, LayoutVar { node: i, kind: VarKind::Left }, env);
    let (y, by) = var_solve(cs, LayoutVar { node: i, kind: VarKind::Top }, env);
    let (width, bw) = var_solve(cs, LayoutVar { node: i, kind: VarKind::Width }, env);
    let (height, bh) = var_solve(cs, LayoutVar { node: i, kind: VarKind::Height }, env);
    if bx || by || bw || bh {
        None
    } else {
        Some(LayoutRect { x, y, width, height })
    }
}

/// Solve one live node by walking its ancestor chain down from the root.
#[verifier::loop_isolation(false)]
pub fn rect_for_slot(store: &NodeStore, cs: &Vec<Constraint>, vp: &LayoutRect, i: usize) -> (r:
    Option<LayoutRect>)
    requires
        store.wf(),
        store.is_live(i as int),
    ensures
        r == solved_node(*store, cs@, *vp, i as int),
{
    let mut path: Vec<usize> = Vec::new();
    path.push(i);
    let mut done = false;
    while !done
        invariant
            store.wf(),
            path@.len() >= 1,
            path@[path@.len() - 1] == i,
            forall|t: int| 0 <= t < path@.len() ==> store.is_live((#[trigger] path@[t]) as int),
            forall|t: int|
                1 <= t < path@.len() ==> (store.node_of((#[trigger] path@[t]) as int).parent
                    matches Some(p) && p.index == path@[t - 1]),
            done ==> store.node_of(path@[0] as int).parent is None,
        decreases store.depth_of(path@[0] as int), (if done {
            0int
        } else {
            1int
        }),
    {
        let head = path[0];
        proof {
            assert(store.is_live(head as int));
            store.lemma_wf_node(head as int);
        }
        match store.parent_at(head) {
            Some(p) => {
                path.insert(0, p.index);
            },
            None => {
                done = true;
            },
        }
    }
    let n = path.len();
    let mut cur: Option<LayoutRect> = None;
    let mut k: usize = 0;
    while k < n
        invariant
            store.wf(),
            k <= n,
            k > 0 ==> cur == solved_node(*store, cs@, *vp, path@[k - 1] as int),
        decreases n - k,
    {
        let idx = path[k];
        proof {
            assert(store.is_live(idx as int));
            store.lemma_wf_node(idx as int);
        }
        let next: Option<LayoutRect> = if k == 0 {
            solve_node_exec(cs, idx, vp)
        } else {
            match cur {
                None => None,
                Some(env) => solve_node_exec(cs, idx, &env),
            }
        };
        proof {
            if k == 0 {
                assert(store.node_of(idx as int).parent is None);
            } else {
                let pidx = path@[k as int - 1] as int;
                assert(store.node_of(idx as int).parent matches Some(p) && p.index as int == pidx);
                assert(store.depth_of(pidx) < store.depth_of(idx as int));
            }
            assert(next == solved_node(*store, cs@, *vp, idx as int));
        }
        cur = next;
        k += 1;
    }
    cur
}

/// Solve the whole tree from scratch.
pub fn solve_full(store: &NodeStore, cs: &Vec<Constraint>, vp: &LayoutRect) -> (r: Vec<
    Option<LayoutRect>,
>)
    requires
        store.wf(),
    ensures
        r@ == layout_spec(*store, cs@, *vp),
{
    let n = store.slot_len();
    let mut out: Vec<Option<LayoutRect>> = Vec::new();
    let mut i: usize = 0;
    while i < n
        invariant
            i <= n,
            n as int == store.slot_count(),
            store.wf(),
            out@.len() == i,
            forall|t: int| 0 <= t < i ==> out@[t] == layout_spec(*store, cs@, *vp)[t],
        decreases n - i,
    {
        if store.live_slot(i) {
            out.push(rect_for_slot(store, cs, vp, i));
        } else {
            out.push(None);
        }
        i += 1;
    }
    proof {
        assert(out@ =~= layout_spec(*store, cs@, *vp));
    }
    out
}

/// Re-solve only the marked slots, keeping a prior solution for the rest.
/// Sound whenever the unmarked entries of the prior solution already agree
/// with the current constraints, which
/// `lemma_untouched_subtree_stable` establishes after a constraint edit.
pub fn solve_incremental(
    store: &NodeStore,
    cs: &Vec<Constraint>,
    vp: &LayoutRect,
    prev: &Vec<Option<LayoutRect>>,
    dirty: &Vec<bool>,
) -> (r: Vec<Option<LayoutRect>>)
    requires
        store.wf(),
        prev@.len() == store.slot_count(),
        dirty@.len() == store.slot_count(),
        forall|t: int|
            0 <= t < store.slot_count() && store.is_live(t) && !dirty@[t] ==> prev@[t]
                == solved_node(*store, cs@, *vp, t),
    ensures
        r@ == layout_spec(*store, cs@, *vp),
{
    let n = store.slot_len();
    let mut out: Vec<Option<LayoutRect>> = Vec::new();
    let mut i: usize = 0;
    while i < n
        invariant
            i <= n,
            n as int == store.slot_count(),
            store.wf(),
            prev@.len() == store.slot_count(),
            dirty@.len() == store.slot_count(),
            forall|t: int|
                0 <= t < store.slot_count() && store.is_live(t) && !dirty@[t] ==> prev@[t]
                    == solved_node(*store, cs@, *vp, t),
            out@.len() == i,
            forall|t: int| 0 <= t < i ==> out@[t] == layout_spec(*store, cs@, *vp)[t],
        decreases n - i,
    {
        if !store.live_slot(i) {
            out.push(None);
        } else if dirty[i] {
            out.push(rect_for_slot(store, cs, vp, i));
        } else {
            out.push(prev[i]);
        }
        i += 1;
    }
    proof {
        assert(out@ =~= layout_spec(*store, cs@, *vp));
    }
    out
}

/// Merge a fresh solve with the last committed layout: infeasible or
/// unsolved slots fall back to their previous rectangle.
pub open spec fn merge_layout(new: Seq<Option<LayoutRect>>, prev: Seq<Option<LayoutRect>>) -> Seq<
    Option<LayoutRect>,
> {
    Seq::new(
        new.len(),
        |i: int|
            if new[i] is Some {
                new[i]
            } else if 0 <= i < prev.len() {
                prev[i]
            } else {
                None
            },
    )
}

pub fn merge_layout_exec(new: &Vec<Option<LayoutRect>>, prev: &Vec<Option<LayoutRect>>) -> (r: Vec<
    Option<LayoutRect>,
>)
    ensures
        r@ == merge_layout(new@, prev@),
{
    let mut out: Vec<Option<LayoutRect>> = Vec::new();
    let mut i: usize = 0;
    while i < new.len()
        invariant
            i <= new@.len(),
            out@.len() == i,
            forall|t: int| 0 <= t < i ==> out@[t] == merge_layout(new@, prev@)[t],
        decreases new@.len() - i,
    {
        match new[i] {
            Some(rc) => {
                out.push(Some(rc));
            },
            None => {
                if i < prev.len() {
                    out.push(prev[i]);
                } else {
                    out.push(None);
                }
            },
        }
        i += 1;
    }
    proof {
        assert(out@ =~= merge_layout(new@, prev@));
    }
    out
}

proof fn lemma_eq_winner_range(cs: Seq<Constraint>, v: LayoutVar, k: int)
    requires
        0 <= k <= cs.len(),
    ensures
        eq_winner_upto(cs, v, k) matches Some(w) ==> 0 <= w < k,
    decreases k,
{
    if k > 0 {
        lemma_eq_winner_range(cs, v, k - 1);
    }
}

proof fn lemma_scan_push_prefix(
    cs: Seq<Constraint>,
    c: Constraint,
    v: LayoutVar,
    env: LayoutRect,
    k: int,
)
    requires
        0 <= k <= cs.len(),
    ensures
        eq_winner_upto(cs.push(c), v, k) == eq_winner_upto(cs, v, k),
        first_req_eq(cs.push(c), v, env, k) == first_req_eq(cs, v, env, k),
        req_conflict_upto(cs.push(c), v, env, k) == req_conflict_upto(cs, v, env, k),
        req_lo_upto(cs.push(c), v, env, k) == req_lo_upto(cs, v, env, k),
        req_hi_upto(cs.push(c), v, env, k) == req_hi_upto(cs, v, env, k),
    decreases k,
{
    if k > 0 {
        lemma_scan_push_prefix(cs, c, v, env, k - 1);
        lemma_eq_winner_range(cs, v, k - 1);
        assert(cs.push(c)[k - 1] == cs[k - 1]);
        match eq_winner_upto(cs, v, k - 1) {
            Some(w) => {
                assert(cs.push(c)[w] == cs[w]);
            },
            None => {},
        }
    }
}

/// Adding a constraint that targets another node changes nothing about
/// this variable.
proof fn lemma_var_push_other(cs: Seq<Constraint>, c: Constraint, v: LayoutVar, env: LayoutRect)
    requires
        c.target.node != v.node,
    ensures
        var_value(cs.push(c), v, env) == var_value(cs, v, env),
        var_infeasible(cs.push(c), v, env) == var_infeasible(cs, v, env),
{
    lemma_scan_push_prefix(cs, c, v, env, cs.len() as int);
    lemma_eq_winner_range(cs, v, cs.len() as int);
    let n = cs.len() as int;
    assert(cs.push(c)[n] == c);
    assert(cs.push(c).len() == n + 1);
    assert(c.target != v);
    assert(eq_winner_upto(cs.push(c), v, n + 1) == eq_winner_upto(cs, v, n));
    assert(first_req_eq(cs.push(c), v, env, n + 1) == first_req_eq(cs, v, env, n));
    assert(req_conflict_upto(cs.push(c), v, env, n + 1) == req_conflict_upto(cs, v, env, n));
    assert(req_lo_upto(cs.push(c), v, env, n + 1) == req_lo_upto(cs, v, env, n));
    assert(req_hi_upto(cs.push(c), v, env, n + 1) == req_hi_upto(cs, v, env, n));
    match eq_winner_upto(cs, v, n) {
        Some(w) => {
            assert(cs.push(c)[w] == cs[w]);
        },
        None => {},
    }
}

/// Stability under a constraint edit: adding a constraint whose target
/// lies outside a node's ancestor chain leaves that node's solved
/// rectangle exactly as it was.
pub proof fn lemma_untouched_subtree_stable(
    store: NodeStore,
    cs: Seq<Constraint>,
    c: Constraint,
    vp: LayoutRect,
    j: int,
)
    requires
        store.wf(),
        store.is_live(j),
        !store.in_subtree(store.id_of(c.target.node as int), j),
    ensures
        solved_node(store, cs.push(c), vp, j) == solved_node(store, cs, vp, j),
    decreases store.depth_of(j),
{
    store.lemma_wf_node(j);
    store.lemma_live_in_range();
    store.lemma_slot_count_usize();
    assert(j != c.target.node as int);
    let vx = LayoutVar { node: j as usize, kind: VarKind::Left };
    let vy = LayoutVar { node: j as usize, kind: VarKind::Top };
    let vw = LayoutVar { node: j as usize, kind: VarKind::Width };
    let vh = LayoutVar { node: j as usize, kind: VarKind::Height };
    assert(vx.node != c.target.node);
    match store.node_of(j).parent {
        None => {
            lemma_var_push_other(cs, c, vx, vp);
            lemma_var_push_other(cs, c, vy, vp);
            lemma_var_push_other(cs, c, vw, vp);
            lemma_var_push_other(cs, c, vh, vp);
        },
        Some(p) => {
            let pi = p.index as int;
            assert(store.is_live(pi));
            assert(store.depth_of(pi) < store.depth_of(j));
            assert(!store.in_subtree(store.id_of(c.target.node as int), pi));
            lemma_untouched_subtree_stable(store, cs, c, vp, pi);
            match solved_node(store, cs, vp, pi) {
                None => {},
                Some(env) => {
                    lemma_var_push_other(cs, c, vx, env);
                    lemma_var_push_other(cs, c, vy, env);
                    lemma_var_push_other(cs, c, vw, env);
                    lemma_var_push_other(cs, c, vh, env);
                },
            }
        },
    }
}

/// Incremental/full-solve equivalence: starting from a committed full
/// solve and adding one constraint, re-solving only the edited node's
/// subtree reproduces the from-scratch solution — the clean entries of the
/// prior solution already agree with the new constraint list, which is
/// exactly what `solve_incremental` asks of its caller.
pub proof fn lemma_incremental_full_equivalence(
    store: NodeStore,
    cs_old: Seq<Constraint>,
    c: Constraint,
    vp: LayoutRect,
    prev: Seq<Option<LayoutRect>>,
    dirty: Seq<bool>,
)
    requires
        store.wf(),
        prev == layout_spec(store, cs_old, vp),
        dirty.len() == store.slot_count(),
        forall|t: int|
            0 <= t < store.slot_count() && store.is_live(t) && store.in_subtree(
                store.id_of(c.target.node as int),
                t,
            ) ==> dirty[t],
    ensures
        forall|t: int|
            0 <= t < store.slot_count() && store.is_live(t) && !dirty[t] ==> prev[t]
                == solved_node(store, cs_old.push(c), vp, t),
{
    assert forall|t: int|
        0 <= t < store.slot_count() && store.is_live(t) && !dirty[t] implies prev[t]
        == solved_node(store, cs_old.push(c), vp, t) by {
        assert(!store.in_subtree(store.id_of(c.target.node as int), t));
        lemma_untouched_subtree_stable(store, cs_old, c, vp, t);
        assert(prev[t] == solved_node(store, cs_old, vp, t));
    }
}

/// The infeasible diagnostics of a solve: every live slot whose rectangle
/// came out `None`.
pub fn collect_infeasible(store: &NodeStore, solved: &Vec<Option<LayoutRect>>) -> (r: Vec<
    LayoutInfeasible,
>)
    requires
        solved@.len() == store.slot_count(),
    ensures
        forall|t: int|
            0 <= t < r@.len() ==> store.is_live((#[trigger] r@[t]).slot as int) && solved@[r@[t].slot as int] is None,
        forall|i: int|
            0 <= i < solved@.len() && store.is_live(i) && solved@[i] is None ==> exists|t: int|
                0 <= t < r@.len() && (#[trigger] r@[t]).slot as int == i,
{
    let n = solved.len();
    let mut out: Vec<LayoutInfeasible> = Vec::new();
    let mut i: usize = 0;
    while i < n
        invariant
            i <= n,
            n == solved@.len(),
            solved@.len() == store.slot_count(),
            forall|t: int|
                0 <= t < out@.len() ==> store.is_live((#[trigger] out@[t]).slot as int)
                    && solved@[out@[t].slot as int] is None,
            forall|j: int|
                0 <= j < i && store.is_live(j) && solved@[j] is None ==> exists|t: int|
                    0 <= t < out@.len() && (#[trigger] out@[t]).slot as int == j,
        decreases n - i,
    {
        let ghost pre = out@;
        if store.live_slot(i) {
            match solved[i] {
                None => {
                    out.push(LayoutInfeasible { slot: i });
                },
                Some(_) => {},
            }
        }
        proof {
            assert forall|j: int|
                0 <= j < i as int + 1 && store.is_live(j) && solved@[j] is None implies exists|
                t: int,
            | 0 <= t < out@.len() && (#[trigger] out@[t]).slot as int == j by {
                if j < i as int {
                    let t = choose|t: int|
                        0 <= t < pre.len() && (#[trigger] pre[t]).slot as int == j;
                    assert(out@[t].slot as int == j);
                } else {
                    assert(out@[out@.len() - 1].slot as int == j);
                }
            }
        }
        i += 1;
    }
    out
}

/// The constraints the layout emits for one styled node: position is the
/// parent's content box origin (the node's margin plus the parent's
/// padding, required), size comes from the style — required when the style
/// pins it, otherwise a weak fill of the parent's size.
pub open spec fn node_constraints(i: int, s: ResolvedStyle, parent_padding: i64) -> Seq<Constraint> {
    seq![
        Constraint {
            target: LayoutVar { node: i as usize, kind: VarKind::Left },
            relation: Relation::Eq,
            rhs: Rhs::ParentPlus(VarKind::Left, sat_add(s.margin, parent_padding)),
            strength: Strength::Required,
        },
        Constraint {
            target: LayoutVar { node: i as usize, kind: VarKind::Top },
            relation: Relation::Eq,
            rhs: Rhs::ParentPlus(VarKind::Top, sat_add(s.margin, parent_padding)),
            strength: Strength::Required,
        },
        match s.width {
            Some(v) => Constraint {
                target: LayoutVar { node: i as usize, kind: VarKind::Width },
                relation: Relation::Eq,
                rhs: Rhs::Const(v),
                strength: Strength::Required,
            },
            None => Constraint {
                target: LayoutVar { node: i as usize, kind: VarKind::Width },
                relation: Relation::Eq,
                rhs: Rhs::ParentPlus(VarKind::Width, 0),
                strength: Strength::Weak,
            },
        },
        match s.height {
            Some(v) => Constraint {
                target: LayoutVar { node: i as usize, kind: VarKind::Height },
                relation: Relation::Eq,
                rhs: Rhs::Const(v),
                strength: Strength::Required,
            },
            None => Constraint {
                target: LayoutVar { node: i as usize, kind: VarKind::Height },
                relation: Relation::Eq,
                rhs: Rhs::ParentPlus(VarKind::Height, 0),
                strength: Strength::Weak,
            },
        },
    ]
}

/// Padding of a node's parent, 0 for roots and unstyled parents.
pub open spec fn parent_padding_of(store: NodeStore, styles: Seq<Option<ResolvedStyle>>, i: int) -> i64 {
    match store.node_of(i).parent {
        Some(p) => {
            if 0 <= p.index < styles.len() && styles[p.index as int] is Some {
                styles[p.index as int]->Some_0.padding
            } else {
                0
            }
        },
        None => 0,
    }
}

/// Constraints emitted for the styled slots among `[0, k)`, in slot order.
pub open spec fn emitted_upto(store: NodeStore, styles: Seq<Option<ResolvedStyle>>, k: int) -> Seq<
    Constraint,
>
    decreases k,
{
    if k <= 0 {
        Seq::empty()
    } else {
        emitted_upto(store, styles, k - 1) + (if store.is_live(k - 1) && k - 1 < styles.len()
            && styles[k - 1] is Some {
            node_constraints(k - 1, styles[k - 1]->Some_0, parent_padding_of(store, styles, k - 1))
        } else {
            Seq::empty()
        })
    }
}

/// Emit the whole constraint set for a styled snapshot.
pub fn build_constraints(store: &NodeStore, ui: &UiDescription) -> (r: Vec<Constraint>)
    ensures
        r@ == emitted_upto(*store, ui.styles@, store.slot_count()),
{
    let n = store.slot_len();
    let mut out: Vec<Constraint> = Vec::new();
    let mut i: usize = 0;
    while i < n
        invariant
            i <= n,
            n as int == store.slot_count(),
            out@ == emitted_upto(*store, ui.styles@, i as int),
        decreases n - i,
    {
        let ghost pre = out@;
        if store.live_slot(i) {
            match ui.style_at(i) {
                Some(s) => {
                    let pp: i64 = match store.parent_at(i) {
                        Some(p) => {
                            match ui.style_at(p.index) {
                                Some(ps) => ps.padding,
                                None => 0,
                            }
                        },
                        None => 0,
                    };
                    proof {
                        assert(pp == parent_padding_of(*store, ui.styles@, i as int));
                    }
                    let off = sat_add_exec(s.margin, pp);
                    out.push(
                        Constraint {
                            target: LayoutVar { node: i, kind: VarKind::Left },
                            relation: Relation::Eq,
                            rhs: Rhs::ParentPlus(VarKind::Left, off),
                            strength: Strength::Required,
                        },
                    );
                    out.push(
                        Constraint {
                            target: LayoutVar { node: i, kind: VarKind::Top },
                            relation: Relation::Eq,
                            rhs: Rhs::ParentPlus(VarKind::Top, off),
                            strength: Strength::Required,
                        },
                    );
                    match s.width {
                        Some(v) => {
                            out.push(
                                Constraint {
                                    target: LayoutVar { node: i, kind: VarKind::Width },
                                    relation: Relation::Eq,
                                    rhs: Rhs::Const(v),
                                    strength: Strength::Required,
                                },
                            );
                        },
                        None => {
                            out.push(
                                Constraint {
                                    target: LayoutVar { node: i, kind: VarKind::Width },
                                    relation: Relation::Eq,
                                    rhs: Rhs::ParentPlus(VarKind::Width, 0),
                                    strength: Strength::Weak,
                                },
                            );
                        },
                    }
                    match s.height {
                        Some(v) => {
                            out.push(
                                Constraint {
                                    target: LayoutVar { node: i, kind: VarKind::Height },
                                    relation: Relation::Eq,
                                    rhs: Rhs::Const(v),
                                    strength: Strength::Required,
                                },
                            );
                        },
                        None => {
                            out.push(
                                Constraint {
                                    target: LayoutVar { node: i, kind: VarKind::Height },
                                    relation: Relation::Eq,
                                    rhs: Rhs::ParentPlus(VarKind::Height, 0),
                                    strength: Strength::Weak,
                                },
                            );
                        },
                    }
                    proof {
                        assert(out@ =~= pre + node_constraints(
                            i as int,
                            s,
                            parent_padding_of(*store, ui.styles@, i as int),
                        ));
                    }
                },
                None => {
                    proof {
                        assert(out@ =~= pre + Seq::<Constraint>::empty());
                    }
                },
            }
        } else {
            proof {
                assert(out@ =~= pre + Seq::<Constraint>::empty());
            }
        }
        i += 1;
    }
    out
}

} // verus!
