//! Stylesheet parsing.
//!
//! Grammar (bytes, ASCII): a stylesheet is a run of rules, each
//! `selector { declarations }`. A selector is `tag.class1.class2#id` with
//! every part optional (`*` or an empty selector matches everything); a
//! declaration is `name: value;` with an integer value of at most 18
//! digits, optionally negative. A malformed selector drops its whole rule,
//! a malformed declaration drops just itself; either is counted as a
//! diagnostic and parsing continues — a broken rule never aborts the
//! parse. Specificity is 100 per id, 10 per class, 1 per tag.
use vstd::prelude::*;
use crate::css::Css;
use crate::css::CssProperty;
use crate::css::Declaration;
use crate::css::Selector;
use crate::css::StyleRule;
use crate::ui_state::classes_view;

verus! {

pub open spec fn is_ws(b: u8) -> bool {
    b == 32 || b == 9 || b == 10 || b == 13
}

pub open spec fn trim_front(s: Seq<u8>) -> Seq<u8>
    decreases s.len(),
{
    if s.len() > 0 && is_ws(s[0]) {
        trim_front(s.drop_first())
    } else {
        s
    }
}

pub open spec fn trim_back(s: Seq<u8>) -> Seq<u8>
    decreases s.len(),
{
    if s.len() > 0 && is_ws(s.last()) {
        trim_back(s.drop_last())
    } else {
        s
    }
}

pub open spec fn trim(s: Seq<u8>) -> Seq<u8> {
    trim_back(trim_front(s))
}

/// First position of `b` in `s` at or after `from`.
pub open spec fn find_byte(s: Seq<u8>, from: int, b: u8) -> Option<int>
    decreases s.len() - from,
{
    if from < 0 || from >= s.len() {
        None
    } else if s[from] == b {
        Some(from)
    } else {
        find_byte(s, from + 1, b)
    }
}

/// Split `s` on `b`; always at least one (possibly empty) part.
pub open spec fn split_byte(s: Seq<u8>, b: u8) -> Seq<Seq<u8>>
    decreases s.len(),
{
    match find_byte(s, 0, b) {
        None => seq![s],
        Some(p) => {
            if 0 <= p < s.len() {
                seq![s.subrange(0, p)] + split_byte(s.subrange(p + 1, s.len() as int), b)
            } else {
                seq![s]
            }
        },
    }
}

pub open spec fn is_digit(b: u8) -> bool {
    48 <= b <= 57
}

pub open spec fn all_digits(s: Seq<u8>) -> bool {
    forall|t: int| 0 <= t < s.len() ==> is_digit(#[trigger] s[t])
}

/// Numeric value of a digit string.
pub open spec fn digits_val(s: Seq<u8>) -> int
    decreases s.len(),
{
    if s.len() == 0 {
        0
    } else {
        digits_val(s.drop_last()) * 10 + (s.last() - 48)
    }
}

/// Parse a trimmed integer literal: an optional minus sign and 1 to 18
/// digits (so the value always fits).
pub open spec fn parse_int_spec(s: Seq<u8>) -> Option<i64> {
    let t = trim(s);
    if t.len() > 0 && t[0] == 45 {
        let d = t.drop_first();
        if 1 <= d.len() <= 18 && all_digits(d) {
            Some((0 - digits_val(d)) as i64)
        } else {
            None
        }
    } else {
        if 1 <= t.len() <= 18 && all_digits(t) {
            Some(digits_val(t) as i64)
        } else {
            None
        }
    }
}

/// The property a declaration name denotes, if any.
pub open spec fn prop_of_name(s: Seq<u8>) -> Option<CssProperty> {
    if s == seq![99u8, 111u8, 108u8, 111u8, 114u8] {
        Some(CssProperty::Color)
    } else if s == seq![98u8, 97u8, 99u8, 107u8, 103u8, 114u8, 111u8, 117u8, 110u8, 100u8] {
        Some(CssProperty::Background)
    } else if s == seq![119u8, 105u8, 100u8, 116u8, 104u8] {
        Some(CssProperty::Width)
    } else if s == seq![104u8, 101u8, 105u8, 103u8, 104u8, 116u8] {
        Some(CssProperty::Height)
    } else if s == seq![109u8, 97u8, 114u8, 103u8, 105u8, 110u8] {
        Some(CssProperty::Margin)
    } else if s == seq![112u8, 97u8, 100u8, 100u8, 105u8, 110u8, 103u8] {
        Some(CssProperty::Padding)
    } else if s == seq![98u8, 111u8, 114u8, 100u8, 101u8, 114u8] {
        Some(CssProperty::Border)
    } else if s == seq![122u8, 45u8, 105u8, 110u8, 100u8, 101u8, 120u8] {
        Some(CssProperty::ZIndex)
    } else if s == seq![99u8, 108u8, 105u8, 112u8] {
        Some(CssProperty::Clip)
    } else {
        None
    }
}

/// Parse one `name: value` declaration (already `;`-split, unturned).
pub open spec fn parse_decl_spec(s: Seq<u8>) -> Option<Declaration> {
    match find_byte(s, 0, 58) {
        None => None,
        Some(p) => {
            let name = trim(s.subrange(0, p));
            let value = s.subrange(p + 1, s.len() as int);
            match prop_of_name(name) {
                None => None,
                Some(prop) => match parse_int_spec(value) {
                    None => None,
                    Some(v) => Some(Declaration { property: prop, value: v }),
                },
            }
        },
    }
}

/// Declarations of a `;`-split block, well-formed ones only.
pub open spec fn parse_decls_spec(parts: Seq<Seq<u8>>, k: int) -> Seq<Declaration>
    decreases k,
{
    if k <= 0 {
        Seq::empty()
    } else {
        parse_decls_spec(parts, k - 1) + (if trim(parts[k - 1]).len() == 0 {
            Seq::<Declaration>::empty()
        } else {
            match parse_decl_spec(parts[k - 1]) {
                Some(d) => seq![d],
                None => Seq::<Declaration>::empty(),
            }
        })
    }
}

/// Dropped declarations of a `;`-split block (the diagnostics count).
pub open spec fn bad_decls_spec(parts: Seq<Seq<u8>>, k: int) -> int
    decreases k,
{
    if k <= 0 {
        0
    } else {
        bad_decls_spec(parts, k - 1) + (if trim(parts[k - 1]).len() != 0 && parse_decl_spec(
            parts[k - 1],
        ) is None {
            1int
        } else {
            0int
        })
    }
}

/// Parse a trimmed selector `tag.class1.class2#id`, every part optional.
/// `None` on a malformed selector: a repeated `#`, an empty class name, or
/// an id containing `.`.
pub open spec fn parse_selector_spec(s: Seq<u8>) -> Option<
    (Option<Seq<u8>>, Seq<Seq<u8>>, Option<Seq<u8>>),
> {
    let t = trim(s);
    let hash_parts = split_byte(t, 35);
    if hash_parts.len() > 2 {
        None
    } else {
        let left = hash_parts[0];
        let id = if hash_parts.len() == 2 {
            Some(hash_parts[1])
        } else {
            None
        };
        if (id matches Some(v) && (v.len() == 0 || find_byte(v, 0, 46) is Some)) {
            None
        } else {
            let dot_parts = split_byte(left, 46);
            let tag_part = dot_parts[0];
            let tag = if tag_part.len() == 0 || tag_part == seq![42u8] {
                None
            } else {
                Some(tag_part)
            };
            let classes = dot_parts.drop_first();
            if exists|t2: int| 0 <= t2 < classes.len() && (#[trigger] classes[t2]).len() == 0 {
                None
            } else {
                Some((tag, classes, id))
            }
        }
    }
}

pub open spec fn sat_u64(x: int) -> u64 {
    if x > u64::MAX {
        u64::MAX
    } else if x < 0 {
        0
    } else {
        x as u64
    }
}

/// Specificity of a parsed selector: 100 per id, 10 per class, 1 per tag.
pub open spec fn specificity_spec(
    sel: (Option<Seq<u8>>, Seq<Seq<u8>>, Option<Seq<u8>>),
) -> u64 {
    sat_u64(
        (if sel.2 is Some {
            100int
        } else {
            0int
        }) + 10 * sel.1.len() + (if sel.0 is Some {
            1int
        } else {
            0int
        }),
    )
}

/// View of an executable rule, for relating parser output to the grammar.
pub open spec fn rule_view(r: StyleRule) -> (
    (Option<Seq<u8>>, Seq<Seq<u8>>, Option<Seq<u8>>),
    Seq<Declaration>,
    u64,
) {
    (
        (
            match r.selector.tag {
                Some(v) => Some(v@),
                None => None,
            },
            classes_view(r.selector.classes@),
            match r.selector.id_attr {
                Some(v) => Some(v@),
                None => None,
            },
        ),
        r.declarations@,
        r.specificity,
    )
}

/// One rule block: selector text and body text. `None` when the selector
/// is malformed; the declarations keep only their well-formed entries.
pub open spec fn parse_rule_spec(sel_text: Seq<u8>, body: Seq<u8>) -> Option<
    ((Option<Seq<u8>>, Seq<Seq<u8>>, Option<Seq<u8>>), Seq<Declaration>, u64),
> {
    match parse_selector_spec(sel_text) {
        None => None,
        Some(sel) => {
            let parts = split_byte(body, 59);
            Some((sel, parse_decls_spec(parts, parts.len() as int), specificity_spec(sel)))
        },
    }
}

/// The rule views of a whole stylesheet text, starting at `pos`: blocks
/// are `selector { body }`; a malformed selector drops its block; text
/// after the last complete block is ignored (diagnosed when not blank).
pub open spec fn parse_rules_spec(text: Seq<u8>, pos: int) -> Seq<
    ((Option<Seq<u8>>, Seq<Seq<u8>>, Option<Seq<u8>>), Seq<Declaration>, u64),
>
    decreases text.len() - pos,
{
    if pos < 0 || pos >= text.len() {
        Seq::empty()
    } else {
        match find_byte(text, pos, 123) {
            None => Seq::empty(),
            Some(ob) => {
                match find_byte(text, ob + 1, 125) {
                    None => Seq::empty(),
                    Some(cb) => {
                        let sel_text = text.subrange(pos, ob);
                        let body = text.subrange(ob + 1, cb);
                        (match parse_rule_spec(sel_text, body) {
                            Some(r) => seq![r],
                            None => Seq::empty(),
                        }) + if pos < cb + 1 <= text.len() {
                            parse_rules_spec(text, cb + 1)
                        } else {
                            Seq::empty()
                        }
                    },
                }
            },
        }
    }
}

/// A per-rule or per-declaration parse problem; the offending item was
/// dropped and parsing went on.
#[derive(Clone, Copy, PartialEq, Eq, Structural, Debug)]
pub enum StyleParseError {
    /// A selector that does not fit the grammar; its rule was dropped.
    BadSelector,
    /// A declaration that does not fit the grammar; it alone was dropped.
    BadDeclaration,
    /// An opening brace without a closing one; the tail was dropped.
    UnclosedBlock,
}

/// Diagnostics of a `;`-split block, in order.
pub open spec fn bad_decls_seq(parts: Seq<Seq<u8>>, k: int) -> Seq<StyleParseError>
    decreases k,
{
    if k <= 0 {
        Seq::empty()
    } else {
        bad_decls_seq(parts, k - 1) + (if trim(parts[k - 1]).len() != 0 && parse_decl_spec(
            parts[k - 1],
        ) is None {
            seq![StyleParseError::BadDeclaration]
        } else {
            Seq::<StyleParseError>::empty()
        })
    }
}

/// All diagnostics of a stylesheet text from `pos` on.
pub open spec fn diags_spec(text: Seq<u8>, pos: int) -> Seq<StyleParseError>
    decreases text.len() - pos,
{
    if pos < 0 || pos >= text.len() {
        Seq::empty()
    } else {
        match find_byte(text, pos, 123) {
            None => Seq::empty(),
            Some(ob) => {
                match find_byte(text, ob + 1, 125) {
                    None => seq![StyleParseError::UnclosedBlock],
                    Some(cb) => {
                        let sel_text = text.subrange(pos, ob);
                        let body = text.subrange(ob + 1, cb);
                        (match parse_selector_spec(sel_text) {
                            None => seq![StyleParseError::BadSelector],
                            Some(_) => {
                                let parts = split_byte(body, 59);
                                bad_decls_seq(parts, parts.len() as int)
                            },
                        }) + if pos < cb + 1 <= text.len() {
                            diags_spec(text, cb + 1)
                        } else {
                            Seq::empty()
                        }
                    },
                }
            },
        }
    }
}

/// Views of a rule list, for stating what the parser returned.
pub open spec fn rules_view(rs: Seq<StyleRule>) -> Seq<
    ((Option<Seq<u8>>, Seq<Seq<u8>>, Option<Seq<u8>>), Seq<Declaration>, u64),
> {
    rs.map_values(|r: StyleRule| rule_view(r))
}

fn find_byte_exec(s: &Vec<u8>, from: usize, b: u8) -> (r: Option<usize>)
    ensures
        (match r {
            Some(p) => find_byte(s@, from as int, b) == Some(p as int),
            None => find_byte(s@, from as int, b) is None,
        }),
        r matches Some(p) ==> from <= p < s@.len() && s@[p as int] == b,
    decreases s@.len() - from,
{
    let mut i: usize = from;
    while i < s.len()
        invariant
            from <= i,
            find_byte(s@, from as int, b) == find_byte(s@, i as int, b),
        decreases s@.len() - i,
    {
        if s[i] == b {
            return Some(i);
        }
        i += 1;
    }
    None
}

fn copy_range(s: &Vec<u8>, lo: usize, hi: usize) -> (r: Vec<u8>)
    requires
        lo <= hi <= s@.len(),
    ensures
        r@ == s@.subrange(lo as int, hi as int),
{
    let mut out: Vec<u8> = Vec::new();
    let mut i: usize = lo;
    while i < hi
        invariant
            lo <= i <= hi <= s@.len(),
            out@ == s@.subrange(lo as int, i as int),
        decreases hi - i,
    {
        out.push(s[i]);
        proof {
            assert(s@.subrange(lo as int, i as int + 1) =~= s@.subrange(lo as int, i as int).push(
                s@[i as int],
            ));
        }
        i += 1;
    }
    out
}

fn is_ws_exec(b: u8) -> (r: bool)
    ensures
        r == is_ws(b),
{
    b == 32 || b == 9 || b == 10 || b == 13
}

fn trim_exec(s: &Vec<u8>) -> (r: Vec<u8>)
    ensures
        r@ == trim(s@),
{
    let mut start: usize = 0;
    proof {
        assert(s@.subrange(0, s@.len() as int) =~= s@);
    }
    while start < s.len() && is_ws_exec(s[start])
        invariant
            start <= s@.len(),
            trim_front(s@) == trim_front(s@.subrange(start as int, s@.len() as int)),
        decreases s@.len() - start,
    {
        proof {
            let cur = s@.subrange(start as int, s@.len() as int);
            assert(cur[0] == s@[start as int]);
            assert(cur.drop_first() =~= s@.subrange(start as int + 1, s@.len() as int));
        }
        start += 1;
    }
    proof {
        let cur = s@.subrange(start as int, s@.len() as int);
        if cur.len() > 0 {
            assert(cur[0] == s@[start as int]);
        }
        assert(trim_front(s@) == cur);
    }
    let mut end: usize = s.len();
    while end > start && is_ws_exec(s[end - 1])
        invariant
            start <= end <= s@.len(),
            trim_front(s@) == s@.subrange(start as int, s@.len() as int),
            trim_back(s@.subrange(start as int, s@.len() as int)) == trim_back(
                s@.subrange(start as int, end as int),
            ),
        decreases end,
    {
        proof {
            let cur = s@.subrange(start as int, end as int);
            assert(cur.last() == s@[end - 1]);
            assert(cur.drop_last() =~= s@.subrange(start as int, end as int - 1));
        }
        end -= 1;
    }
    proof {
        let cur = s@.subrange(start as int, end as int);
        if cur.len() > 0 {
            assert(cur.last() == s@[end - 1]);
        }
        assert(trim_back(cur) == cur);
    }
    copy_range(s, start, end)
}

/// Split `s` on `b`, never returning an empty list.
fn split_exec(s: &Vec<u8>, b: u8) -> (r: Vec<Vec<u8>>)
    ensures
        classes_view(r@) == split_byte(s@, b),
        r@.len() >= 1,
{
    let mut out: Vec<Vec<u8>> = Vec::new();
    let mut rest: Vec<u8> = copy_range(s, 0, s.len());
    proof {
        assert(rest@ =~= s@);
    }
    let mut done = false;
    while !done
        invariant
            done ==> classes_view(out@) == split_byte(s@, b) && out@.len() >= 1,
            !done ==> classes_view(out@) + split_byte(rest@, b) == split_byte(s@, b),
        decreases rest@.len(), (if done {
            0int
        } else {
            1int
        }),
    {
        let ghost pre = out@;
        let ghost restv = rest@;
        match find_byte_exec(&rest, 0, b) {
            None => {
                proof {
                    assert(split_byte(restv, b) == seq![restv]);
                }
                out.push(rest);
                rest = Vec::new();
                done = true;
                proof {
                    assert(classes_view(out@) =~= classes_view(pre) + seq![restv]);
                }
            },
            Some(p) => {
                let piece = copy_range(&rest, 0, p);
                let tail = copy_range(&rest, p + 1, rest.len());
                out.push(piece);
                rest = tail;
                proof {
                    assert(split_byte(restv, b) == seq![restv.subrange(0, p as int)] + split_byte(
                        restv.subrange(p as int + 1, restv.len() as int),
                        b,
                    ));
                    assert(classes_view(out@) =~= classes_view(pre) + seq![
                        restv.subrange(0, p as int),
                    ]);
                    assert(classes_view(out@) + split_byte(rest@, b) =~= (classes_view(pre)
                        + seq![restv.subrange(0, p as int)]) + split_byte(rest@, b));
                    assert((classes_view(pre) + seq![restv.subrange(0, p as int)]) + split_byte(
                        rest@,
                        b,
                    ) =~= classes_view(pre) + (seq![restv.subrange(0, p as int)] + split_byte(
                        rest@,
                        b,
                    )));
                }
            },
        }
    }
    out
}

spec fn pow10(n: nat) -> int
    decreases n,
{
    if n == 0 {
        1
    } else {
        10 * pow10((n - 1) as nat)
    }
}

proof fn lemma_pow10_mono(a: nat, b: nat)
    requires
        a <= b,
    ensures
        1 <= pow10(a) <= pow10(b),
    decreases b,
{
    if b > 0 {
        if a == b {
            lemma_pow10_mono((a - 1) as nat, (b - 1) as nat);
        } else {
            lemma_pow10_mono(a, (b - 1) as nat);
        }
    }
}

proof fn lemma_digits_bound(s: Seq<u8>)
    requires
        all_digits(s),
    ensures
        0 <= digits_val(s) < pow10(s.len()),
    decreases s.len(),
{
    if s.len() == 0 {
    } else {
        assert(is_digit(s[s.len() - 1]));
        assert(all_digits(s.drop_last())) by {
            assert(forall|t: int| 0 <= t < s.len() - 1 ==> s.drop_last()[t] == s[t]);
        }
        lemma_digits_bound(s.drop_last());
    }
}

#[verifier::loop_isolation(false)]
fn parse_int_exec(s: &Vec<u8>) -> (r: Option<i64>)
    ensures
        r == parse_int_spec(s@),
{
    let t = trim_exec(s);
    let neg = t.len() > 0 && t[0] == 45;
    let lo: usize = if neg {
        1
    } else {
        0
    };
    let ghost d = t@.subrange(lo as int, t@.len() as int);
    proof {
        if neg {
            assert(trim(s@).drop_first() =~= d);
        } else {
            assert(trim(s@) =~= d);
        }
        assert(d.len() == t@.len() - lo);
    }
    if t.len() - lo < 1 || t.len() - lo > 18 {
        return None;
    }
    let mut i: usize = lo;
    while i < t.len()
        invariant
            lo <= i <= t@.len(),
            forall|k: int| lo <= k < i ==> is_digit(#[trigger] t@[k]),
        decreases t@.len() - i,
    {
        let c = t[i];
        if c < 48 || c > 57 {
            proof {
                assert(d[i as int - lo] == t@[i as int]);
                assert(!is_digit(d[i as int - lo]));
                assert(!all_digits(d));
            }
            return None;
        }
        i += 1;
    }
    proof {
        assert(all_digits(d)) by {
            assert(forall|k: int| 0 <= k < d.len() ==> d[k] == t@[k + lo]);
        }
        lemma_digits_bound(d);
        lemma_pow10_mono(d.len(), 18);
        assert(pow10(18) == 1000000000000000000) by {
            reveal_with_fuel(pow10, 20);
        }
    }
    let mut acc: i64 = 0;
    let mut k: usize = lo;
    while k < t.len()
        invariant
            lo <= k <= t@.len(),
            t@.len() - lo <= 18,
            forall|j: int| lo <= j < t@.len() ==> is_digit(#[trigger] t@[j]),
            acc == digits_val(t@.subrange(lo as int, k as int)),
            0 <= acc < pow10((k - lo) as nat),
        decreases t@.len() - k,
    {
        proof {
            let cur = t@.subrange(lo as int, k as int);
            let nxt = t@.subrange(lo as int, k as int + 1);
            assert(nxt.drop_last() =~= cur);
            assert(nxt.last() == t@[k as int]);
            lemma_pow10_mono((k - lo + 1) as nat, 18);
            assert(pow10(18) == 1000000000000000000) by {
                reveal_with_fuel(pow10, 20);
            }
        }
        acc = acc * 10 + ((t[k] - 48) as i64);
        k += 1;
    }
    proof {
        assert(t@.subrange(lo as int, t@.len() as int) =~= d);
        lemma_digits_bound(d);
        lemma_pow10_mono(d.len(), 18);
        assert(pow10(18) == 1000000000000000000) by {
            reveal_with_fuel(pow10, 20);
        }
    }
    if neg {
        Some(0 - acc)
    } else {
        Some(acc)
    }
}

fn prop_of_name_exec(s: &Vec<u8>) -> (r: Option<CssProperty>)
    ensures
        r == prop_of_name(s@),
{
    let color: Vec<u8> = vec![99u8, 111u8, 108u8, 111u8, 114u8];
    let background: Vec<u8> = vec![98u8, 97u8, 99u8, 107u8, 103u8, 114u8, 111u8, 117u8, 110u8, 100u8];
    let width: Vec<u8> = vec![119u8, 105u8, 100u8, 116u8, 104u8];
    let height: Vec<u8> = vec![104u8, 101u8, 105u8, 103u8, 104u8, 116u8];
    let margin: Vec<u8> = vec![109u8, 97u8, 114u8, 103u8, 105u8, 110u8];
    let padding: Vec<u8> = vec![112u8, 97u8, 100u8, 100u8, 105u8, 110u8, 103u8];
    let border: Vec<u8> = vec![98u8, 111u8, 114u8, 100u8, 101u8, 114u8];
    let zindex: Vec<u8> = vec![122u8, 45u8, 105u8, 110u8, 100u8, 101u8, 120u8];
    let clip: Vec<u8> = vec![99u8, 108u8, 105u8, 112u8];
    if crate::bytes_eq(s, &color) {
        Some(CssProperty::Color)
    } else if crate::bytes_eq(s, &background) {
        Some(CssProperty::Background)
    } else if crate::bytes_eq(s, &width) {
        Some(CssProperty::Width)
    } else if crate::bytes_eq(s, &height) {
        Some(CssProperty::Height)
    } else if crate::bytes_eq(s, &margin) {
        Some(CssProperty::Margin)
    } else if crate::bytes_eq(s, &padding) {
        Some(CssProperty::Padding)
    } else if crate::bytes_eq(s, &border) {
        Some(CssProperty::Border)
    } else if crate::bytes_eq(s, &zindex) {
        Some(CssProperty::ZIndex)
    } else if crate::bytes_eq(s, &clip) {
        Some(CssProperty::Clip)
    } else {
        None
    }
}

fn parse_decl_exec(s: &Vec<u8>) -> (r: Option<Declaration>)
    ensures
        r == parse_decl_spec(s@),
{
    match find_byte_exec(s, 0, 58) {
        None => None,
        Some(p) => {
            let n = s.len();
            proof {
                assert(p < n);
            }
            let raw_name = copy_range(s, 0, p);
            let name = trim_exec(&raw_name);
            let value = copy_range(s, p + 1, n);
            match prop_of_name_exec(&name) {
                None => None,
                Some(prop) => {
                    match parse_int_exec(&value) {
                        None => None,
                        Some(v) => Some(Declaration { property: prop, value: v }),
                    }
                },
            }
        },
    }
}

fn parse_decls_exec(body: &Vec<u8>) -> (r: (Vec<Declaration>, Vec<StyleParseError>))
    ensures
        ({
            let parts = split_byte(body@, 59);
            &&& r.0@ == parse_decls_spec(parts, parts.len() as int)
            &&& r.1@ == bad_decls_seq(parts, parts.len() as int)
        }),
{
    let parts = split_exec(body, 59);
    let ghost pv = split_byte(body@, 59);
    let mut out: Vec<Declaration> = Vec::new();
    let mut bad: Vec<StyleParseError> = Vec::new();
    let mut k: usize = 0;
    while k < parts.len()
        invariant
            k <= parts@.len(),
            classes_view(parts@) == pv,
            out@ == parse_decls_spec(pv, k as int),
            bad@ == bad_decls_seq(pv, k as int),
        decreases parts@.len() - k,
    {
        proof {
            assert(classes_view(parts@)[k as int] == parts@[k as int]@);
        }
        let ghost preo = out@;
        let ghost preb = bad@;
        let t = trim_exec(&parts[k]);
        if t.len() > 0 {
            match parse_decl_exec(&parts[k]) {
                Some(d) => {
                    out.push(d);
                },
                None => {
                    bad.push(StyleParseError::BadDeclaration);
                },
            }
        }
        proof {
            assert(out@ =~= parse_decls_spec(pv, k as int + 1));
            assert(bad@ =~= bad_decls_seq(pv, k as int + 1));
        }
        k += 1;
    }
    proof {
        assert(classes_view(parts@).len() == parts@.len());
    }
    (out, bad)
}

#[verifier::loop_isolation(false)]
fn parse_selector_exec(sel_text: &Vec<u8>) -> (r: Option<Selector>)
    ensures
        (match r {
            Some(sel) => parse_selector_spec(sel_text@) == Some(
                (
                    match sel.tag {
                        Some(v) => Some(v@),
                        None => None::<Seq<u8>>,
                    },
                    classes_view(sel.classes@),
                    match sel.id_attr {
                        Some(v) => Some(v@),
                        None => None::<Seq<u8>>,
                    },
                ),
            ),
            None => parse_selector_spec(sel_text@) is None,
        }),
{
    let t = trim_exec(sel_text);
    let mut hp = split_exec(&t, 35);
    if hp.len() > 2 {
        return None;
    }
    let ghost hpv = split_byte(trim(sel_text@), 35);
    let id_attr: Option<Vec<u8>> = if hp.len() == 2 {
        let v = match hp.pop() {
            Some(v) => v,
            None => Vec::new(),
        };
        proof {
            assert(v@ == hpv[1]);
        }
        if v.len() == 0 {
            return None;
        }
        match find_byte_exec(&v, 0, 46) {
            Some(_) => {
                return None;
            },
            None => {},
        }
        Some(v)
    } else {
        None
    };
    let left = match hp.pop() {
        Some(v) => v,
        None => Vec::new(),
    };
    proof {
        assert(hpv.len() >= 1);
        assert(left@ == hpv[0]);
    }
    let mut dp = split_exec(&left, 46);
    let ghost dpv = split_byte(left@, 46);
    proof {
        assert(classes_view(dp@).len() == dp@.len());
        assert(dpv.len() == dp@.len());
        assert(dpv.len() >= 1);
    }
    let ghost dp0 = dp@;
    let tag_part = dp.remove(0);
    proof {
        assert(tag_part@ == classes_view(dp0)[0]);
        assert(tag_part@ == dpv[0]);
        assert(classes_view(dp@) =~= dpv.drop_first()) by {
            assert(forall|j: int| 0 <= j < dp@.len() ==> #[trigger] dp@[j] == dp0[j + 1]);
            assert(forall|j: int|
                0 <= j < dp@.len() ==> (#[trigger] classes_view(dp@)[j]) == dp@[j]@);
            assert(forall|j: int|
                0 <= j < dpv.drop_first().len() ==> (#[trigger] dpv.drop_first()[j]) == dpv[j
                    + 1]);
        }
    }
    let tag: Option<Vec<u8>> = if tag_part.len() == 0 {
        None
    } else if tag_part.len() == 1 && tag_part[0] == 42 {
        proof {
            assert(tag_part@ =~= seq![42u8]);
        }
        None
    } else {
        proof {
            assert(tag_part@ != seq![42u8]) by {
                if tag_part@ == seq![42u8] {
                    assert(tag_part@.len() == 1);
                    assert(tag_part@[0] == 42u8);
                }
            }
        }
        Some(tag_part)
    };
    let mut j: usize = 0;
    while j < dp.len()
        invariant
            j <= dp@.len(),
            classes_view(dp@) == dpv.drop_first(),
            forall|c: int| 0 <= c < j ==> (#[trigger] dpv.drop_first()[c]).len() != 0,
        decreases dp@.len() - j,
    {
        if dp[j].len() == 0 {
            proof {
                assert(dpv.drop_first()[j as int].len() == 0);
            }
            return None;
        }
        proof {
            assert((#[trigger] dpv.drop_first()[j as int]).len() == dp@[j as int]@.len());
        }
        j += 1;
    }
    proof {
        assert(classes_view(dp@).len() == dp@.len());
        assert(!(exists|t2: int|
            0 <= t2 < dpv.drop_first().len() && (#[trigger] dpv.drop_first()[t2]).len() == 0));
    }
    Some(Selector { tag, id_attr, classes: dp })
}

fn specificity_exec(has_tag: bool, n_classes: usize, has_id: bool) -> (r: u64)
    ensures
        r == sat_u64(
            (if has_id {
                100int
            } else {
                0int
            }) + 10 * n_classes + (if has_tag {
                1int
            } else {
                0int
            }),
        ),
{
    let c = n_classes as u64;
    proof {
        assert(c == n_classes);
    }
    let extra: u64 = (if has_id {
        100u64
    } else {
        0u64
    }) + (if has_tag {
        1u64
    } else {
        0u64
    });
    if c > u64::MAX / 10 {
        proof {
            assert(10 * (n_classes as int) > u64::MAX);
        }
        u64::MAX
    } else {
        let prod: u64 = 10 * c;
        if prod > u64::MAX - extra {
            u64::MAX
        } else {
            prod + extra
        }
    }
}

/// Parse a stylesheet. The returned rules are exactly the grammar's parse
/// of the text, in source order; the diagnostics are exactly the dropped
/// rules, declarations and unclosed blocks, in source order. A malformed
/// item never stops the parse.
pub fn parse_css(text: &Vec<u8>) -> (r: (Css, Vec<StyleParseError>))
    ensures
        rules_view(r.0.rules@) == parse_rules_spec(text@, 0),
        r.1@ == diags_spec(text@, 0),
{
    let mut rules: Vec<StyleRule> = Vec::new();
    let mut diags: Vec<StyleParseError> = Vec::new();
    let mut pos: usize = 0;
    let mut done = false;
    while !done
        invariant
            pos <= text@.len(),
            done ==> rules_view(rules@) == parse_rules_spec(text@, 0) && diags@ == diags_spec(
                text@,
                0,
            ),
            !done ==> rules_view(rules@) + parse_rules_spec(text@, pos as int) == parse_rules_spec(
                text@,
                0,
            ) && diags@ + diags_spec(text@, pos as int) == diags_spec(text@, 0),
        decreases text@.len() - pos, (if done {
            0int
        } else {
            1int
        }),
    {
        let ghost prer = rules@;
        let ghost pred = diags@;
        let ghost prepos = pos as int;
        if pos >= text.len() {
            done = true;
            proof {
                assert(parse_rules_spec(text@, prepos) =~= Seq::<
                    ((Option<Seq<u8>>, Seq<Seq<u8>>, Option<Seq<u8>>), Seq<Declaration>, u64),
                >::empty());
                assert(rules_view(rules@) + parse_rules_spec(text@, prepos) =~= rules_view(
                    rules@,
                ));
                assert(diags@ + diags_spec(text@, prepos) =~= diags@);
            }
        } else {
            match find_byte_exec(text, pos, 123) {
                None => {
                    done = true;
                    proof {
                        assert(rules_view(rules@) + parse_rules_spec(text@, prepos) =~= rules_view(
                            rules@,
                        ));
                        assert(diags@ + diags_spec(text@, prepos) =~= diags@);
                    }
                },
                Some(ob) => {
                    match find_byte_exec(text, ob + 1, 125) {
                        None => {
                            diags.push(StyleParseError::UnclosedBlock);
                            done = true;
                            proof {
                                assert(rules_view(rules@) + parse_rules_spec(text@, prepos)
                                    =~= rules_view(rules@));
                                assert(diags@ =~= pred + diags_spec(text@, prepos));
                            }
                        },
                        Some(cb) => {
                            let sel_text = copy_range(text, pos, ob);
                            let body = copy_range(text, ob + 1, cb);
                            match parse_selector_exec(&sel_text) {
                                None => {
                                    diags.push(StyleParseError::BadSelector);
                                },
                                Some(sel) => {
                                    let (decls, mut bad) = parse_decls_exec(&body);
                                    let has_tag = match &sel.tag {
                                        Some(_) => true,
                                        None => false,
                                    };
                                    let has_id = match &sel.id_attr {
                                        Some(_) => true,
                                        None => false,
                                    };
                                    let spec_val = specificity_exec(
                                        has_tag,
                                        sel.classes.len(),
                                        has_id,
                                    );
                                    proof {
                                        assert(classes_view(sel.classes@).len()
                                            == sel.classes@.len());
                                    }
                                    rules.push(
                                        StyleRule {
                                            selector: sel,
                                            declarations: decls,
                                            specificity: spec_val,
                                        },
                                    );
                                    let mut b: usize = 0;
                                    while b < bad.len()
                                        invariant
                                            b <= bad@.len(),
                                            diags@ == pred + bad@.subrange(0, b as int),
                                        decreases bad@.len() - b,
                                    {
                                        diags.push(bad[b]);
                                        proof {
                                            assert(pred + bad@.subrange(0, b as int + 1) =~= (pred
                                                + bad@.subrange(0, b as int)).push(
                                                bad@[b as int],
                                            ));
                                        }
                                        b += 1;
                                    }
                                    proof {
                                        assert(bad@.subrange(0, bad@.len() as int) =~= bad@);
                                    }
                                },
                            }
                            pos = cb + 1;
                            proof {
                                let selv = text@.subrange(prepos, ob as int);
                                let bodyv = text@.subrange(ob as int + 1, cb as int);
                                assert(sel_text@ == selv);
                                assert(body@ == bodyv);
                                assert(rules_view(rules@) =~= rules_view(prer) + (
                                match parse_rule_spec(selv, bodyv) {
                                    Some(rv) => seq![rv],
                                    None => Seq::empty(),
                                })) by {
                                    assert(forall|j: int|
                                        0 <= j < prer.len() ==> rules_view(rules@)[j]
                                            == rules_view(prer)[j]);
                                }
                                assert(rules_view(rules@) + parse_rules_spec(text@, pos as int)
                                    =~= rules_view(prer) + parse_rules_spec(text@, prepos));
                                assert(diags@ + diags_spec(text@, pos as int) =~= pred
                                    + diags_spec(text@, prepos));
                            }
                        },
                    }
                },
            }
        }
    }
    (Css { rules }, diags)
}

} // verus!
