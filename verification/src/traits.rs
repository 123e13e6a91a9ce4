//! The layout trait an application implements to drive the core.
use vstd::prelude::*;
use crate::id_tree::NodeStore;
use crate::window::WindowId;

verus! {

/// Implemented by the application's data model: it hands the core a DOM
/// and a stylesheet per window.
pub trait LayoutScreen {
    /// The DOM for one window, as a well-formed node store.
    fn get_dom(&self, window: WindowId) -> (dom: NodeStore)
        ensures
            dom.wf(),
    ;

    /// The stylesheet text for one window.
    fn get_css(&self, window: WindowId) -> (css: Vec<u8>);
}

/// The smallest possible screen: an empty DOM and an empty stylesheet.
pub struct EmptyScreen;

impl LayoutScreen for EmptyScreen {
    fn get_dom(&self, _window: WindowId) -> (dom: NodeStore) {
        NodeStore::new()
    }

    fn get_css(&self, _window: WindowId) -> (css: Vec<u8>) {
        Vec::new()
    }
}

} // verus!
