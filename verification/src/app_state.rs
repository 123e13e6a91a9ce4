//! Wrapper for the application's data model.
use vstd::prelude::*;
use crate::traits::LayoutScreen;

verus! {

/// The global application state the pipelines read their snapshots from.
/// Exclusive access around it is the embedder's concern; the core itself
/// never holds it across a solve or build stage.
pub struct AppState<T> {
    /// The application's own data model.
    pub data: T,
}

impl<T: LayoutScreen> AppState<T> {
    /// Wrap the initial application data.
    pub fn new(initial_data: T) -> (s: AppState<T>)
        ensures
            s.data == initial_data,
    {
        AppState { data: initial_data }
    }
}

} // verus!
