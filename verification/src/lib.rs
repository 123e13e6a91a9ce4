//! Retained-mode UI toolkit core: a slab-allocated node tree, a CSS-like
//! cascade engine, a priority-based linear constraint layout solver, a
//! display-list builder, and a frame coordinator that runs the minimal
//! restyle / relayout / rebuild work per redraw tick.
use vstd::prelude::*;

/// Slab allocator for UI nodes, keyed by generation-tagged ids
pub mod id_tree;
/// Styling: rules, selector matching, the cascade
pub mod css;
/// Content digests for dirty tracking
pub mod fast_hash;
/// Wrapper for the application data
pub mod app_state;
/// The layout trait applications implement
pub mod traits;
/// Window identity and the frame coordinator
pub mod window;
/// State snapshots for user interfaces
pub mod ui_state;
/// Resolved styles for a whole snapshot
pub mod ui_description;
/// Constraint handling and the layout solver
pub mod constraints;
/// Display list building from solved geometry and styles
pub mod display_list;
/// Stylesheet parsing with per-rule error recovery
pub mod css_parser;

verus! {

/// Byte-string equality, usable wherever names are compared.
pub fn bytes_eq(a: &Vec<u8>, b: &Vec<u8>) -> (r: bool)
    ensures
        r == (a@ == b@),
{
    if a.len() != b.len() {
        proof {
            assert(a@ != b@) by {
                if a@ == b@ {
                    assert(a@.len() == b@.len());
                }
            }
        }
        return false;
    }
    let mut i: usize = 0;
    while i < a.len()
        invariant
            i <= a@.len(),
            a@.len() == b@.len(),
            forall|t: int| 0 <= t < i ==> a@[t] == b@[t],
        decreases a@.len() - i,
    {
        if a[i] != b[i] {
            return false;
        }
        i += 1;
    }
    proof {
        assert(a@ =~= b@);
    }
    true
}

/// Kind of a UI node: a styled element, a run of text, or a plain container.
#[derive(Clone, Copy, PartialEq, Eq, Structural, Debug)]
pub enum NodeKind {
    Element,
    TextRun,
    Container,
}

/// Raw content of a UI node: its kind, tag name, optional id attribute,
/// class list and text content. Names are byte strings.
#[derive(Debug)]
pub struct NodeData {
    pub kind: NodeKind,
    pub tag: Vec<u8>,
    pub id_attr: Option<Vec<u8>>,
    pub classes: Vec<Vec<u8>>,
    pub text: Vec<u8>,
}

/// Graphical application core: the per-window surfaces plus the global
/// application state they snapshot.
pub struct App<T> {
    /// The surfaces, indexed by window id.
    pub windows: Vec<window::Window>,
    /// The global application state.
    pub app_state: app_state::AppState<T>,
}

impl<T: traits::LayoutScreen> App<T> {
    /// All surfaces hold consistent style caches.
    pub open spec fn wf(self) -> bool {
        forall|i: int| 0 <= i < self.windows@.len() ==> (#[trigger] self.windows@[i]).wf()
    }

    /// Create a new, empty application; no window is created yet.
    pub fn new(initial_data: T) -> (app: App<T>)
        ensures
            app.wf(),
            app.windows@.len() == 0,
            app.app_state.data == initial_data,
    {
        App { windows: Vec::new(), app_state: app_state::AppState::new(initial_data) }
    }

    /// Number of open windows.
    pub fn window_count(&self) -> (r: usize)
        ensures
            r as int == self.windows@.len(),
    {
        self.windows.len()
    }

    /// Spawn a new surface. Ids are handed out in order: the first window
    /// gets id 0, each next one the highest id so far plus one.
    pub fn create_window(&mut self, options: window::WindowCreateOptions) -> (r: Result<
        window::WindowId,
        window::WindowCreateError,
    >)
        requires
            old(self).wf(),
        ensures
            final(self).wf(),
            r matches Ok(id) && id.id == old(self).windows@.len(),
            final(self).windows@.len() == old(self).windows@.len() + 1,
            forall|i: int|
                0 <= i < old(self).windows@.len() ==> final(self).windows@[i] == old(self).windows@[i],
            final(self).windows@.last().width == options.width,
            final(self).windows@.last().height == options.height,
            final(self).windows@.last().dirty == window::DirtyState::StyleDirty,
            final(self).app_state == old(self).app_state,
    {
        let id = window::WindowId { id: self.windows.len() };
        self.windows.push(window::Window::new(options));
        Ok(id)
    }

    /// Deliver one event to one surface; `None` on an unknown window id.
    pub fn on_event(&mut self, win: window::WindowId, e: window::Event) -> (r: Option<
        window::DirtyState,
    >)
        requires
            old(self).wf(),
        ensures
            final(self).wf(),
            r is Some <==> win.id < old(self).windows@.len(),
            r matches Some(d) ==> ({
                &&& d == window::dirty_max(old(self).windows@[win.id as int].dirty, window::event_dirty(e))
                &&& final(self).windows@[win.id as int].dirty == d
                &&& forall|i: int|
                    0 <= i < old(self).windows@.len() && i != win.id as int ==> final(self).windows@[i] == old(self).windows@[i]
            }),
            r is None ==> *final(self) == *old(self),
            final(self).app_state == old(self).app_state,
    {
        if win.id >= self.windows.len() {
            return None;
        }
        let d = self.windows[win.id].on_event(e);
        Some(d)
    }

    /// Redraw one surface from a fresh snapshot of the application state.
    /// `None` when the window is unknown or clean; otherwise the display
    /// list to hand to the renderer backend.
    pub fn redraw(&mut self, win: window::WindowId) -> (r: Option<display_list::DisplayList>)
        requires
            old(self).wf(),
        ensures
            final(self).wf(),
            win.id >= old(self).windows@.len() ==> r is None && *final(self) == *old(self),
            win.id < old(self).windows@.len() ==> ({
                &&& (r is None <==> old(self).windows@[win.id as int].dirty
                    == window::DirtyState::Clean)
                &&& final(self).windows@[win.id as int].dirty == window::DirtyState::Clean || final(self).windows@[win.id as int] == old(self).windows@[win.id as int]
                &&& r matches Some(dl) ==> display_list::balanced(dl.items@)
                &&& forall|i: int|
                    0 <= i < old(self).windows@.len() && i != win.id as int ==> final(self).windows@[i] == old(self).windows@[i]
            }),
            final(self).app_state == old(self).app_state,
    {
        if win.id >= self.windows.len() {
            return None;
        }
        let ui = ui_state::UiState::from_app_state(&self.app_state, win);
        let css_text = self.app_state.data.get_css(win);
        let w = &mut self.windows[win.id];
        w.redraw(ui, css_text)
    }
}

impl NodeData {
    /// A container node with no tag, classes or text.
    pub fn container() -> (n: NodeData)
        ensures
            n.kind == NodeKind::Container,
            n.tag@ == Seq::<u8>::empty(),
            n.id_attr is None,
            n.classes@ == Seq::<Vec<u8>>::empty(),
            n.text@ == Seq::<u8>::empty(),
    {
        NodeData {
            kind: NodeKind::Container,
            tag: Vec::new(),
            id_attr: None,
            classes: Vec::new(),
            text: Vec::new(),
        }
    }
}

} // verus!
