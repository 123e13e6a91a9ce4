//! UI state snapshots and restyle-need detection.
//!
//! A snapshot is the node tree built from the application data. Between two
//! snapshots the engine only needs to re-run match-and-cascade when some
//! node's selector-relevant content (tag, id attribute, classes), liveness
//! or parent changed; changing text content alone never forces a restyle.
use vstd::prelude::*;
use crate::NodeData;
use crate::app_state::AppState;
use crate::fast_hash::push_bytes;
use crate::fast_hash::xxhash64;
use crate::id_tree::NodeStore;
use crate::traits::LayoutScreen;
use crate::window::WindowId;

verus! {

/// Class list of a node as a sequence of byte strings.
pub open spec fn classes_view(cs: Seq<Vec<u8>>) -> Seq<Seq<u8>> {
    cs.map_values(|v: Vec<u8>| v@)
}

/// Selector-relevant content of a node: tag, id attribute and classes.
/// Text content is deliberately absent: changing it cannot change which
/// rules match.
pub open spec fn style_key_view(n: NodeData) -> (Seq<u8>, Option<Seq<u8>>, Seq<Seq<u8>>) {
    (
        n.tag@,
        match n.id_attr {
            Some(v) => Some(v@),
            None => None,
        },
        classes_view(n.classes@),
    )
}

/// Byte encoding of everything before the class list.
pub open spec fn style_key_prefix(n: NodeData) -> Seq<u8> {
    n.tag@ + seq![0u8] + (match n.id_attr {
        Some(v) => seq![1u8] + v@,
        None => seq![0u8],
    })
}

pub open spec fn classes_bytes(cs: Seq<Vec<u8>>, k: int) -> Seq<u8>
    decreases k,
{
    if k <= 0 {
        Seq::empty()
    } else {
        classes_bytes(cs, k - 1) + seq![0u8] + cs[k - 1]@
    }
}

/// Byte encoding of the style key, fed to the digest fast path.
pub open spec fn style_key_bytes(n: NodeData) -> Seq<u8> {
    style_key_prefix(n) + classes_bytes(n.classes@, n.classes@.len() as int)
}

/// Equal style keys give equal encodings; the digest fast path relies on
/// this direction alone.
pub proof fn lemma_key_bytes_congruent(a: NodeData, b: NodeData)
    requires
        style_key_view(a) == style_key_view(b),
    ensures
        style_key_bytes(a) == style_key_bytes(b),
{
    assert(a.tag@ == b.tag@);
    assert(classes_view(a.classes@) == classes_view(b.classes@));
    assert(classes_view(a.classes@).len() == a.classes@.len());
    assert(classes_view(b.classes@).len() == b.classes@.len());
    assert(a.classes@.len() == b.classes@.len());
    lemma_classes_bytes_congruent(a.classes@, b.classes@, a.classes@.len() as int);
    match a.id_attr {
        Some(v) => {
            assert(b.id_attr matches Some(w) && w@ == v@);
        },
        None => {
            assert(b.id_attr is None);
        },
    }
}

proof fn lemma_classes_bytes_congruent(a: Seq<Vec<u8>>, b: Seq<Vec<u8>>, k: int)
    requires
        classes_view(a) == classes_view(b),
        k <= a.len(),
    ensures
        classes_bytes(a, k) == classes_bytes(b, k),
    decreases k,
{
    assert(classes_view(a).len() == a.len());
    assert(classes_view(b).len() == b.len());
    assert(a.len() == b.len());
    if k > 0 {
        lemma_classes_bytes_congruent(a, b, k - 1);
        assert(classes_view(a)[k - 1] == classes_view(b)[k - 1]);
        assert(a[k - 1]@ == b[k - 1]@);
    }
}

fn encode_style_key(n: &NodeData) -> (r: Vec<u8>)
    ensures
        r@ == style_key_bytes(*n),
{
    let mut out: Vec<u8> = Vec::new();
    push_bytes(&mut out, &n.tag);
    out.push(0);
    match &n.id_attr {
        Some(v) => {
            out.push(1);
            push_bytes(&mut out, v);
        },
        None => {
            out.push(0);
        },
    }
    proof {
        assert(out@ =~= style_key_prefix(*n));
    }
    let mut k: usize = 0;
    while k < n.classes.len()
        invariant
            k <= n.classes@.len(),
            out@ == style_key_prefix(*n) + classes_bytes(n.classes@, k as int),
        decreases n.classes@.len() - k,
    {
        out.push(0);
        push_bytes(&mut out, &n.classes[k]);
        proof {
            assert(out@ =~= style_key_prefix(*n) + classes_bytes(n.classes@, k as int + 1));
        }
        k += 1;
    }
    proof {
        assert(out@ =~= style_key_bytes(*n));
    }
    out
}

/// Exact comparison of two nodes' style keys.
fn style_key_eq(a: &NodeData, b: &NodeData) -> (r: bool)
    ensures
        r == (style_key_view(*a) == style_key_view(*b)),
{
    if !crate::bytes_eq(&a.tag, &b.tag) {
        return false;
    }
    match (&a.id_attr, &b.id_attr) {
        (Some(x), Some(y)) => {
            if !crate::bytes_eq(x, y) {
                return false;
            }
        },
        (None, None) => {},
        _ => {
            return false;
        },
    }
    if a.classes.len() != b.classes.len() {
        proof {
            assert(classes_view(a.classes@).len() == a.classes@.len());
            assert(classes_view(b.classes@).len() == b.classes@.len());
        }
        return false;
    }
    let mut j: usize = 0;
    while j < a.classes.len()
        invariant
            j <= a.classes@.len(),
            a.classes@.len() == b.classes@.len(),
            forall|t: int| 0 <= t < j ==> (#[trigger] a.classes@[t])@ == b.classes@[t]@,
        decreases a.classes@.len() - j,
    {
        if !crate::bytes_eq(&a.classes[j], &b.classes[j]) {
            proof {
                assert(classes_view(a.classes@)[j as int] != classes_view(b.classes@)[j as int]);
            }
            return false;
        }
        j += 1;
    }
    proof {
        assert(classes_view(a.classes@) =~= classes_view(b.classes@));
    }
    true
}

/// The two stores would match and cascade identically: same slots live,
/// same selector-relevant content, same parents.
pub open spec fn restyle_equal(a: NodeStore, b: NodeStore) -> bool {
    &&& a.slot_count() == b.slot_count()
    &&& forall|i: int| #[trigger] a.is_live(i) <==> b.is_live(i)
    &&& forall|i: int|
        a.is_live(i) ==> style_key_view((#[trigger] a.node_of(i)).data) == style_key_view(
            b.node_of(i).data,
        )
    &&& forall|i: int| a.is_live(i) ==> (#[trigger] a.node_of(i)).parent == b.node_of(i).parent
}

/// Decide whether a restyle pass is needed between two snapshots. Uses the
/// digest of each node's style key as a sound fast path: differing digests
/// prove a difference; equal digests fall back to the exact comparison.
pub fn restyle_needed(prev: &NodeStore, next: &NodeStore) -> (r: bool)
    ensures
        r == !restyle_equal(*prev, *next),
{
    if prev.slot_len() != next.slot_len() {
        return true;
    }
    let n = prev.slot_len();
    let mut i: usize = 0;
    while i < n
        invariant
            i <= n,
            n as int == prev.slot_count(),
            prev.slot_count() == next.slot_count(),
            forall|t: int| 0 <= t < i ==> (#[trigger] prev.is_live(t) <==> next.is_live(t)),
            forall|t: int|
                0 <= t < i && prev.is_live(t) ==> style_key_view(
                    (#[trigger] prev.node_of(t)).data,
                ) == style_key_view(next.node_of(t).data),
            forall|t: int|
                0 <= t < i && prev.is_live(t) ==> (#[trigger] prev.node_of(t)).parent
                    == next.node_of(t).parent,
        decreases n - i,
    {
        let la = prev.live_slot(i);
        let lb = next.live_slot(i);
        if la != lb {
            return true;
        }
        if la {
            let ka = encode_style_key(prev.data_at(i));
            let kb = encode_style_key(next.data_at(i));
            if xxhash64(&ka) != xxhash64(&kb) {
                proof {
                    if style_key_view(prev.node_of(i as int).data) == style_key_view(
                        next.node_of(i as int).data,
                    ) {
                        lemma_key_bytes_congruent(
                            prev.node_of(i as int).data,
                            next.node_of(i as int).data,
                        );
                    }
                }
                return true;
            }
            if !style_key_eq(prev.data_at(i), next.data_at(i)) {
                return true;
            }
            let pa = prev.parent_at(i);
            let pb = next.parent_at(i);
            match (pa, pb) {
                (Some(x), Some(y)) => {
                    if x != y {
                        return true;
                    }
                },
                (None, None) => {},
                _ => {
                    return true;
                },
            }
        }
        i += 1;
    }
    proof {
        prev.lemma_live_in_range();
        next.lemma_live_in_range();
    }
    false
}

/// Snapshot of the UI for one window: the node tree built from the
/// application's data model at one instant.
pub struct UiState {
    pub store: NodeStore,
    pub window: WindowId,
}

impl UiState {
    /// Build the snapshot for one window from the application state.
    pub fn from_app_state<T: LayoutScreen>(app_state: &AppState<T>, window_id: WindowId) -> (u:
        UiState)
        ensures
            u.store.wf(),
            u.window == window_id,
    {
        UiState { store: app_state.data.get_dom(window_id), window: window_id }
    }
}

} // verus!
