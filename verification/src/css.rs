//! Style engine: CSS-like rules, selector matching and the cascade.
//!
//! A stylesheet is an ordered list of rules. For one node and one property,
//! the winning rule is the applying rule (selector matches, property
//! declared) with the highest specificity; among equally specific rules the
//! later one in source order wins. Within one rule the last declaration of a
//! property wins. Unset inheritable properties take the parent's resolved
//! value, other unset properties fall back to a built-in default.
use vstd::prelude::*;
use crate::NodeData;

verus! {

/// Properties the cascade can resolve.
#[derive(Clone, Copy, PartialEq, Eq, Structural, Debug)]
pub enum CssProperty {
    Color,
    Background,
    Width,
    Height,
    Margin,
    Padding,
    Border,
    ZIndex,
    Clip,
}

/// One `property: value` declaration. Values are integers: colors are
/// packed channels, lengths are whole pixels, `Clip` is zero or nonzero.
#[derive(Clone, Copy, PartialEq, Eq, Structural, Debug)]
pub struct Declaration {
    pub property: CssProperty,
    pub value: i64,
}

/// Selector predicates: optional tag name, optional id attribute, and a set
/// of class names that must all be present on the node.
#[derive(Debug)]
pub struct Selector {
    pub tag: Option<Vec<u8>>,
    pub id_attr: Option<Vec<u8>>,
    pub classes: Vec<Vec<u8>>,
}

/// A style rule: selector, ordered declarations, and a specificity score.
/// The rule's position in the stylesheet is its source index.
#[derive(Debug)]
pub struct StyleRule {
    pub selector: Selector,
    pub declarations: Vec<Declaration>,
    pub specificity: u64,
}

/// An ordered stylesheet.
#[derive(Debug)]
pub struct Css {
    pub rules: Vec<StyleRule>,
}

/// Node carries class `c`.
pub open spec fn node_has_class(node: NodeData, c: Seq<u8>) -> bool {
    exists|j: int| 0 <= j < node.classes@.len() && (#[trigger] node.classes@[j])@ == c
}

impl Selector {
    /// The selector matches the node's tag, id attribute and classes.
    pub open spec fn sel_matches(self, node: NodeData) -> bool {
        &&& (self.tag matches Some(t) ==> t@ == node.tag@)
        &&& (self.id_attr matches Some(want) ==> (node.id_attr matches Some(got) && got@
            == want@))
        &&& forall|k: int|
            0 <= k < self.classes@.len() ==> node_has_class(
                node,
                (#[trigger] self.classes@[k])@,
            )
    }

    pub fn matches_node(&self, node: &NodeData) -> (r: bool)
        ensures
            r == self.sel_matches(*node),
    {
        match &self.tag {
            Some(t) => {
                if !crate::bytes_eq(t, &node.tag) {
                    return false;
                }
            },
            None => {},
        }
        match &self.id_attr {
            Some(want) => {
                match &node.id_attr {
                    Some(got) => {
                        if !crate::bytes_eq(want, got) {
                            return false;
                        }
                    },
                    None => {
                        return false;
                    },
                }
            },
            None => {},
        }
        let mut k: usize = 0;
        while k < self.classes.len()
            invariant
                k <= self.classes@.len(),
                self.tag matches Some(t) ==> t@ == node.tag@,
                self.id_attr matches Some(want) ==> (node.id_attr matches Some(got) && got@
                    == want@),
                forall|t: int|
                    0 <= t < k ==> node_has_class(*node, (#[trigger] self.classes@[t])@),
            decreases self.classes@.len() - k,
        {
            if !has_class(node, &self.classes[k]) {
                return false;
            }
            k += 1;
        }
        true
    }
}

pub fn has_class(node: &NodeData, c: &Vec<u8>) -> (r: bool)
    ensures
        r == node_has_class(*node, c@),
{
    let mut j: usize = 0;
    while j < node.classes.len()
        invariant
            j <= node.classes@.len(),
            forall|t: int| 0 <= t < j ==> (#[trigger] node.classes@[t])@ != c@,
        decreases node.classes@.len() - j,
    {
        if crate::bytes_eq(&node.classes[j], c) {
            return true;
        }
        j += 1;
    }
    false
}

/// Value of the last declaration of `p` in an ordered declaration list.
pub open spec fn decl_value(decls: Seq<Declaration>, p: CssProperty) -> Option<i64>
    decreases decls.len(),
{
    if decls.len() == 0 {
        None
    } else if decls.last().property == p {
        Some(decls.last().value)
    } else {
        decl_value(decls.drop_last(), p)
    }
}

pub fn find_decl(decls: &Vec<Declaration>, p: CssProperty) -> (r: Option<i64>)
    ensures
        r == decl_value(decls@, p),
{
    let mut i: usize = decls.len();
    proof {
        assert(decls@.subrange(0, i as int) =~= decls@);
    }
    while i > 0
        invariant
            i <= decls@.len(),
            decl_value(decls@, p) == decl_value(decls@.subrange(0, i as int), p),
        decreases i,
    {
        i -= 1;
        let d = decls[i];
        proof {
            assert(decls@.subrange(0, i as int + 1).last() == decls@[i as int]);
            assert(decls@.subrange(0, i as int + 1).drop_last() =~= decls@.subrange(0, i as int));
        }
        if d.property == p {
            return Some(d.value);
        }
    }
    proof {
        assert(decls@.subrange(0, 0) =~= Seq::<Declaration>::empty());
    }
    None
}

/// Rule `i` applies to the node for property `p`: its selector matches and
/// it declares `p`.
pub open spec fn applies(rules: Seq<StyleRule>, node: NodeData, i: int, p: CssProperty) -> bool {
    &&& 0 <= i < rules.len()
    &&& rules[i].selector.sel_matches(node)
    &&& decl_value(rules[i].declarations@, p) is Some
}

/// Index of the winning rule for `p` among `rules[0..k)`: the applying rule
/// with the highest specificity, later source order breaking ties.
pub open spec fn winner_upto(rules: Seq<StyleRule>, node: NodeData, p: CssProperty, k: int) -> Option<
    int,
>
    decreases k,
{
    if k <= 0 {
        None
    } else {
        let rest = winner_upto(rules, node, p, k - 1);
        if applies(rules, node, k - 1, p) {
            match rest {
                None => Some(k - 1),
                Some(w) => if rules[k - 1].specificity >= rules[w].specificity {
                    Some(k - 1)
                } else {
                    Some(w)
                },
            }
        } else {
            rest
        }
    }
}

/// The cascaded value of `p` on the node: the winning rule's declared
/// value, or `None` when no rule applies.
pub open spec fn cascaded_value(rules: Seq<StyleRule>, node: NodeData, p: CssProperty) -> Option<
    i64,
> {
    match winner_upto(rules, node, p, rules.len() as int) {
        None => None,
        Some(w) => decl_value(rules[w].declarations@, p),
    }
}

/// The winner really is maximal: it applies, and every other applying rule
/// either has lower specificity or the same specificity and an earlier
/// source position.
pub proof fn lemma_winner_is_max(rules: Seq<StyleRule>, node: NodeData, p: CssProperty, k: int)
    requires
        0 <= k <= rules.len(),
    ensures
        winner_upto(rules, node, p, k) is None ==> forall|j: int|
            0 <= j < k ==> !applies(rules, node, j, p),
        winner_upto(rules, node, p, k) matches Some(w) ==> {
            &&& 0 <= w < k
            &&& applies(rules, node, w, p)
            &&& forall|j: int|
                0 <= j < k && #[trigger] applies(rules, node, j, p) && j != w ==> (
                rules[j].specificity < rules[w].specificity || (rules[j].specificity
                    == rules[w].specificity && j < w))
        },
    decreases k,
{
    if k > 0 {
        lemma_winner_is_max(rules, node, p, k - 1);
    }
}

pub fn cascaded_value_exec(css: &Css, node: &NodeData, p: CssProperty) -> (r: Option<i64>)
    ensures
        r == cascaded_value(css.rules@, *node, p),
{
    let mut w: Option<usize> = None;
    let mut i: usize = 0;
    while i < css.rules.len()
        invariant
            i <= css.rules@.len(),
            match w {
                None => winner_upto(css.rules@, *node, p, i as int) is None,
                Some(wi) => wi < i && winner_upto(css.rules@, *node, p, i as int) == Some(
                    wi as int,
                ),
            },
        decreases css.rules@.len() - i,
    {
        let rule = &css.rules[i];
        if rule.selector.matches_node(node) {
            let dv = find_decl(&rule.declarations, p);
            if dv.is_some() {
                match w {
                    None => {
                        w = Some(i);
                    },
                    Some(wi) => {
                        if rule.specificity >= css.rules[wi].specificity {
                            w = Some(i);
                        }
                    },
                }
            }
        }
        i += 1;
    }
    match w {
        None => None,
        Some(wi) => find_decl(&css.rules[wi].declarations, p),
    }
}

/// A node's fully resolved style for one frame.
#[derive(Clone, Copy, PartialEq, Eq, Structural, Debug)]
pub struct ResolvedStyle {
    pub color: i64,
    pub background: i64,
    pub width: Option<i64>,
    pub height: Option<i64>,
    pub margin: i64,
    pub padding: i64,
    pub border: Option<i64>,
    pub z_index: i64,
    pub clip: bool,
}

/// The style an imaginary parent of a root node has: all defaults.
pub open spec fn root_style() -> ResolvedStyle {
    ResolvedStyle {
        color: 0,
        background: 0,
        width: None,
        height: None,
        margin: 0,
        padding: 0,
        border: None,
        z_index: 0,
        clip: false,
    }
}

pub fn root_style_exec() -> (r: ResolvedStyle)
    ensures
        r == root_style(),
{
    ResolvedStyle {
        color: 0,
        background: 0,
        width: None,
        height: None,
        margin: 0,
        padding: 0,
        border: None,
        z_index: 0,
        clip: false,
    }
}

/// Cascade result for one node given its parent's resolved style. `Color`
/// is inheritable; everything else falls back to a default when unset.
pub open spec fn resolve_spec(rules: Seq<StyleRule>, node: NodeData, parent: ResolvedStyle) -> ResolvedStyle {
    ResolvedStyle {
        color: match cascaded_value(rules, node, CssProperty::Color) {
            Some(v) => v,
            None => parent.color,
        },
        background: match cascaded_value(rules, node, CssProperty::Background) {
            Some(v) => v,
            None => 0,
        },
        width: cascaded_value(rules, node, CssProperty::Width),
        height: cascaded_value(rules, node, CssProperty::Height),
        margin: match cascaded_value(rules, node, CssProperty::Margin) {
            Some(v) => v,
            None => 0,
        },
        padding: match cascaded_value(rules, node, CssProperty::Padding) {
            Some(v) => v,
            None => 0,
        },
        border: cascaded_value(rules, node, CssProperty::Border),
        z_index: match cascaded_value(rules, node, CssProperty::ZIndex) {
            Some(v) => v,
            None => 0,
        },
        clip: match cascaded_value(rules, node, CssProperty::Clip) {
            Some(v) => v != 0,
            None => false,
        },
    }
}

pub fn resolve_node(css: &Css, node: &NodeData, parent: &ResolvedStyle) -> (r: ResolvedStyle)
    ensures
        r == resolve_spec(css.rules@, *node, *parent),
{
    ResolvedStyle {
        color: match cascaded_value_exec(css, node, CssProperty::Color) {
            Some(v) => v,
            None => parent.color,
        },
        background: match cascaded_value_exec(css, node, CssProperty::Background) {
            Some(v) => v,
            None => 0,
        },
        width: cascaded_value_exec(css, node, CssProperty::Width),
        height: cascaded_value_exec(css, node, CssProperty::Height),
        margin: match cascaded_value_exec(css, node, CssProperty::Margin) {
            Some(v) => v,
            None => 0,
        },
        padding: match cascaded_value_exec(css, node, CssProperty::Padding) {
            Some(v) => v,
            None => 0,
        },
        border: cascaded_value_exec(css, node, CssProperty::Border),
        z_index: match cascaded_value_exec(css, node, CssProperty::ZIndex) {
            Some(v) => v,
            None => 0,
        },
        clip: match cascaded_value_exec(css, node, CssProperty::Clip) {
            Some(v) => v != 0,
            None => false,
        },
    }
}

} // verus!
