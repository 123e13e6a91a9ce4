//! Window identity, creation options, and the frame coordinator.
//!
//! The coordinator runs, per redraw tick, the minimal ordered subset of
//! restyle, relayout and display-list rebuild that the surface's dirty
//! state implies, then returns to clean. A restyle is skipped even on a
//! style-dirty tick when neither the stylesheet text nor any node's
//! selector-relevant content changed.
use vstd::prelude::*;
use crate::constraints::LayoutRect;
use crate::constraints::build_constraints;
use crate::constraints::emitted_upto;
use crate::constraints::layout_spec;
use crate::constraints::merge_layout;
use crate::constraints::merge_layout_exec;
use crate::constraints::solve_full;
use crate::constraints::viewport_rect;
use crate::css::Css;
use crate::css_parser::StyleParseError;
use crate::css_parser::diags_spec;
use crate::css_parser::parse_css;
use crate::css_parser::parse_rules_spec;
use crate::css_parser::rules_view;
use crate::display_list::DisplayList;
use crate::display_list::balanced;
use crate::display_list::roots_items;
use crate::ui_description::UiDescription;
use crate::ui_description::lemma_restyle_skip_sound;
use crate::ui_description::styles_spec;
use crate::ui_state::UiState;
use crate::ui_state::restyle_equal;
use crate::ui_state::restyle_needed;

verus! {

/// Identity of one UI surface.
#[derive(Clone, Copy, PartialEq, Eq, Structural, Debug)]
pub struct WindowId {
    pub id: usize,
}

impl WindowId {
    pub fn new(id: usize) -> (w: WindowId)
        ensures
            w.id == id,
    {
        WindowId { id }
    }
}

/// Options a new surface is created with.
#[derive(Clone, Copy, PartialEq, Eq, Structural, Debug)]
pub struct WindowCreateOptions {
    pub width: u32,
    pub height: u32,
}

/// Creating the backing window failed. The backend itself lives outside
/// the core; a failure is fatal to the affected surface only.
#[derive(Clone, Copy, PartialEq, Eq, Structural, Debug)]
pub enum WindowCreateError {
    Backend,
}

/// Dirtiness of one surface. Each level implies everything a lower level
/// implies: restyling forces a relayout, relayouting forces a rebuild of
/// the display list.
#[derive(Clone, Copy, PartialEq, Eq, Structural, Debug)]
pub enum DirtyState {
    Clean,
    ListDirty,
    LayoutDirty,
    StyleDirty,
}

/// How much work a dirty state implies, for comparing two of them.
pub open spec fn dirty_rank(d: DirtyState) -> int {
    match d {
        DirtyState::Clean => 0,
        DirtyState::ListDirty => 1,
        DirtyState::LayoutDirty => 2,
        DirtyState::StyleDirty => 3,
    }
}

/// The dirtier of the two states.
pub open spec fn dirty_max(a: DirtyState, b: DirtyState) -> DirtyState {
    if dirty_rank(a) >= dirty_rank(b) {
        a
    } else {
        b
    }
}

/// An input the event source delivers to a surface.
#[derive(Clone, Copy, PartialEq, Eq, Structural, Debug)]
pub enum Event {
    /// The application mutated its data model.
    StateMutation,
    /// The stylesheet was replaced wholesale.
    StylesheetReplaced,
    /// The surface was resized.
    Resize { width: u32, height: u32 },
    /// The pointer moved; hit testing is external and changes nothing here.
    PointerMove { x: i64, y: i64 },
    /// A redraw tick with no other cause.
    Refresh,
}

/// The dirtiness a single event implies on its own.
pub open spec fn event_dirty(e: Event) -> DirtyState {
    match e {
        Event::StateMutation => DirtyState::StyleDirty,
        Event::StylesheetReplaced => DirtyState::StyleDirty,
        Event::Resize { .. } => DirtyState::LayoutDirty,
        Event::PointerMove { .. } => DirtyState::Clean,
        Event::Refresh => DirtyState::ListDirty,
    }
}

fn dirty_rank_exec(d: DirtyState) -> (r: u8)
    ensures
        r as int == dirty_rank(d),
{
    match d {
        DirtyState::Clean => 0,
        DirtyState::ListDirty => 1,
        DirtyState::LayoutDirty => 2,
        DirtyState::StyleDirty => 3,
    }
}

/// One UI surface: its size, its dirty state, the active stylesheet, and
/// the frame-scoped caches (resolved styles, committed layout).
pub struct Window {
    pub width: u32,
    pub height: u32,
    pub dirty: DirtyState,
    /// Text of the active stylesheet.
    pub css_text: Vec<u8>,
    /// Parsed form of the active stylesheet.
    pub css: Css,
    /// Diagnostics of the last stylesheet parse.
    pub style_diags: Vec<StyleParseError>,
    /// The snapshot the style cache was computed from.
    pub styled: Option<UiState>,
    /// Resolved styles for `styled`.
    pub ui_description: UiDescription,
    /// Last committed layout, the fallback for infeasible subtrees.
    pub rects: Vec<Option<LayoutRect>>,
}

impl Window {
    /// The style cache matches the styled snapshot and the active rules.
    pub open spec fn wf(self) -> bool {
        match self.styled {
            Some(ui) => ui.store.wf() && self.ui_description.styles@ == styles_spec(
                ui.store,
                self.css.rules@,
            ),
            None => self.ui_description.styles@.len() == 0,
        }
    }

    /// Restyle may be skipped: the stylesheet text is unchanged and the
    /// new snapshot is selector-equivalent to the styled one.
    pub open spec fn restyle_skippable(self, ui: UiState, css_text: Seq<u8>) -> bool {
        &&& self.css_text@ == css_text
        &&& self.styled matches Some(st) && restyle_equal(st.store, ui.store)
    }

    /// A fresh surface: everything dirty, nothing styled or laid out yet.
    pub fn new(options: WindowCreateOptions) -> (w: Window)
        ensures
            w.wf(),
            w.width == options.width,
            w.height == options.height,
            w.dirty == DirtyState::StyleDirty,
            w.styled is None,
            w.rects@.len() == 0,
            w.css.rules@.len() == 0,
            w.css_text@.len() == 0,
    {
        Window {
            width: options.width,
            height: options.height,
            dirty: DirtyState::StyleDirty,
            css_text: Vec::new(),
            css: Css { rules: Vec::new() },
            style_diags: Vec::new(),
            styled: None,
            ui_description: UiDescription::empty(),
            rects: Vec::new(),
        }
    }

    /// Fold one event into the dirty state: the surface becomes as dirty
    /// as the dirtier of its current state and what the event implies. A
    /// resize also records the new surface size.
    pub fn on_event(&mut self, e: Event) -> (d: DirtyState)
        ensures
            final(self).dirty == dirty_max(old(self).dirty, event_dirty(e)),
            d == final(self).dirty,
            (e matches Event::Resize { width, height } ==> final(self).width == width && final(self).height == height),
            !(e matches Event::Resize { .. }) ==> final(self).width == old(self).width && final(self).height == old(self).height,
            final(self).css_text == old(self).css_text,
            final(self).css == old(self).css,
            final(self).styled == old(self).styled,
            final(self).ui_description == old(self).ui_description,
            final(self).rects == old(self).rects,
            final(self).style_diags == old(self).style_diags,
    {
        match e {
            Event::Resize { width, height } => {
                self.width = width;
                self.height = height;
            },
            _ => {},
        }
        let implied = match e {
            Event::StateMutation => DirtyState::StyleDirty,
            Event::StylesheetReplaced => DirtyState::StyleDirty,
            Event::Resize { .. } => DirtyState::LayoutDirty,
            Event::PointerMove { .. } => DirtyState::Clean,
            Event::Refresh => DirtyState::ListDirty,
        };
        if dirty_rank_exec(implied) > dirty_rank_exec(self.dirty) {
            self.dirty = implied;
        }
        self.dirty
    }

    /// Run one redraw tick against a fresh snapshot and stylesheet text.
    ///
    /// Executes the minimal stage subset the dirty state implies, then
    /// returns to clean. `None` means the surface was clean and nothing
    /// was done. On a style-dirty tick the restyle is skipped — the style
    /// cache is returned untouched — when the stylesheet text is unchanged
    /// and no node's selector-relevant content or place in the tree
    /// changed. A relayout solves the emitted constraints against the
    /// current viewport and commits the solution merged over the previous
    /// one, so infeasible subtrees keep their last good rectangles. The
    /// returned display list is built from the current snapshot, the style
    /// cache and the committed layout, and its clip scopes are balanced.
    pub fn redraw(&mut self, ui: UiState, css_text: Vec<u8>) -> (r: Option<DisplayList>)
        requires
            old(self).wf(),
            ui.store.wf(),
        ensures
            final(self).wf(),
            final(self).dirty == DirtyState::Clean || *final(self) == *old(self),
            r is None <==> old(self).dirty == DirtyState::Clean,
            r is None ==> *final(self) == *old(self),
            final(self).width == old(self).width && final(self).height == old(self).height,
            // restyle never runs below style-dirty, and is skipped when
            // nothing selector-relevant changed
            (old(self).dirty == DirtyState::LayoutDirty || old(self).dirty == DirtyState::ListDirty
                || (old(self).dirty == DirtyState::StyleDirty && old(self).restyle_skippable(
                ui,
                css_text@,
            ))) ==> (final(self).ui_description == old(self).ui_description && final(self).css
                == old(self).css && final(self).styled == old(self).styled),
            // a restyle that does run commits the cascade of the new
            // snapshot under the reparsed rules
            (old(self).dirty == DirtyState::StyleDirty && !old(self).restyle_skippable(
                ui,
                css_text@,
            )) ==> (final(self).styled == Some(ui) && final(self).css_text@ == css_text@
                && rules_view(final(self).css.rules@) == parse_rules_spec(css_text@, 0) && final(self).ui_description.styles@ == styles_spec(ui.store, final(self).css.rules@) && final(self).style_diags@ == diags_spec(css_text@, 0)),
            // relayout commits the fresh solution over the previous one
            (old(self).dirty == DirtyState::StyleDirty || old(self).dirty
                == DirtyState::LayoutDirty) ==> final(self).rects@ == merge_layout(
                layout_spec(
                    ui.store,
                    emitted_upto(ui.store, final(self).ui_description.styles@, ui.store.slot_count()),
                    viewport_rect(old(self).width, old(self).height),
                ),
                old(self).rects@,
            ),
            old(self).dirty == DirtyState::ListDirty ==> final(self).rects == old(self).rects,
            // whether restyle ran or was soundly skipped, the style cache
            // agrees with the cascade of the current snapshot
            old(self).dirty == DirtyState::StyleDirty ==> final(self).ui_description.styles@
                == styles_spec(ui.store, final(self).css.rules@),
            // the rebuilt list is the painter's-order walk, clip-balanced
            r matches Some(dl) ==> dl.items@ == roots_items(
                ui.store,
                final(self).ui_description.styles@,
                final(self).rects@,
                ui.store.slot_count(),
            ) && balanced(dl.items@),
    {
        match self.dirty {
            DirtyState::Clean => {
                return None;
            },
            _ => {},
        }
        let is_style_dirty = match self.dirty {
            DirtyState::StyleDirty => true,
            _ => false,
        };
        let is_layout_dirty = match self.dirty {
            DirtyState::StyleDirty => true,
            DirtyState::LayoutDirty => true,
            _ => false,
        };
        let mut did_restyle = false;
        if is_style_dirty {
            let skip = if crate::bytes_eq(&self.css_text, &css_text) {
                match &self.styled {
                    Some(st) => !restyle_needed(&st.store, &ui.store),
                    None => false,
                }
            } else {
                false
            };
            if !skip {
                let (css, diags) = parse_css(&css_text);
                self.css = css;
                self.style_diags = diags;
                self.css_text = css_text;
                self.ui_description = UiDescription::from_ui_state(&ui, &self.css);
                did_restyle = true;
            } else {
                proof {
                    let st = self.styled->Some_0;
                    lemma_restyle_skip_sound(st.store, ui.store, self.css.rules@);
                }
            }
        }
        if is_layout_dirty {
            let vp = LayoutRect {
                x: 0,
                y: 0,
                width: self.width as i64,
                height: self.height as i64,
            };
            let cs = build_constraints(&ui.store, &self.ui_description);
            let solved = solve_full(&ui.store, &cs, &vp);
            let merged = merge_layout_exec(&solved, &self.rects);
            self.rects = merged;
        }
        let list = DisplayList::build(&ui.store, &self.ui_description, &self.rects);
        if did_restyle {
            self.styled = Some(ui);
        }
        self.dirty = DirtyState::Clean;
        Some(list)
    }
}

} // verus!
