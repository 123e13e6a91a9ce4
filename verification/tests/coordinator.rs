use azul_core::App;
use azul_core::NodeData;
use azul_core::NodeKind;
use azul_core::display_list::DisplayItem;
use azul_core::id_tree::NodeStore;
use azul_core::traits::LayoutScreen;
use azul_core::window::DirtyState;
use azul_core::window::Event;
use azul_core::window::WindowCreateOptions;
use azul_core::window::WindowId;

struct Screen {
    text: Vec<u8>,
    css: Vec<u8>,
}

impl LayoutScreen for Screen {
    fn get_dom(&self, _window: WindowId) -> NodeStore {
        let mut store = NodeStore::new();
        let root = store
            .insert(
                NodeData {
                    kind: NodeKind::Container,
                    tag: b"root".to_vec(),
                    id_attr: None,
                    classes: Vec::new(),
                    text: Vec::new(),
                },
                None,
            )
            .unwrap();
        store
            .insert(
                NodeData {
                    kind: NodeKind::TextRun,
                    tag: b"p".to_vec(),
                    id_attr: None,
                    classes: Vec::new(),
                    text: self.text.clone(),
                },
                Some(root),
            )
            .unwrap();
        store
    }

    fn get_css(&self, _window: WindowId) -> Vec<u8> {
        self.css.clone()
    }
}

fn demo_css() -> Vec<u8> {
    b"root { height: 600; } p { width: 100; height: 50; color: 9; }".to_vec()
}

#[test]
fn window_ids_count_up_from_zero() {
    let mut app = App::new(Screen { text: b"hi".to_vec(), css: demo_css() });
    let opts = WindowCreateOptions { width: 800, height: 600 };
    assert_eq!(app.create_window(opts).unwrap(), WindowId::new(0));
    assert_eq!(app.create_window(opts).unwrap(), WindowId::new(1));
    assert_eq!(app.create_window(opts).unwrap(), WindowId::new(2));
    assert_eq!(app.window_count(), 3);
}

#[test]
fn events_raise_the_dirty_state_monotonically() {
    let mut app = App::new(Screen { text: b"hi".to_vec(), css: demo_css() });
    let win = app.create_window(WindowCreateOptions { width: 800, height: 600 }).unwrap();
    // first frame: everything dirty
    assert!(app.redraw(win).is_some());
    // clean now: a redraw does nothing
    assert!(app.redraw(win).is_none());
    assert_eq!(app.on_event(win, Event::PointerMove { x: 3, y: 4 }), Some(DirtyState::Clean));
    assert_eq!(app.on_event(win, Event::Refresh), Some(DirtyState::ListDirty));
    assert_eq!(
        app.on_event(win, Event::Resize { width: 400, height: 600 }),
        Some(DirtyState::LayoutDirty)
    );
    assert_eq!(app.on_event(win, Event::Refresh), Some(DirtyState::LayoutDirty));
    assert_eq!(app.on_event(win, Event::StateMutation), Some(DirtyState::StyleDirty));
    assert_eq!(app.on_event(WindowId::new(9), Event::Refresh), None);
}

#[test]
fn resize_relayouts_without_restyle() {
    // Scenario: 800x600 shrinks to 400x600; the root container is as wide
    // as its parent (the surface), the child box has a fixed size
    let mut app = App::new(Screen { text: b"hi".to_vec(), css: demo_css() });
    let win = app.create_window(WindowCreateOptions { width: 800, height: 600 }).unwrap();
    app.redraw(win).unwrap();
    let root_before = app.windows[0].rects[0].unwrap();
    let child_before = app.windows[0].rects[1].unwrap();
    assert_eq!(root_before.width, 800);
    let styles_before: Vec<_> = (0..2).map(|i| app.windows[0].ui_description.style_at(i)).collect();

    app.on_event(win, Event::Resize { width: 400, height: 600 });
    app.redraw(win).unwrap();

    let root_after = app.windows[0].rects[0].unwrap();
    let child_after = app.windows[0].rects[1].unwrap();
    // only the viewport-sized container changed
    assert_eq!(root_after.width, 400);
    assert_eq!(child_after, child_before);
    // resolved styles were left untouched
    let styles_after: Vec<_> = (0..2).map(|i| app.windows[0].ui_description.style_at(i)).collect();
    assert_eq!(styles_before, styles_after);
}

#[test]
fn text_mutation_skips_the_restyle_pass() {
    let mut app = App::new(Screen { text: b"before".to_vec(), css: demo_css() });
    let win = app.create_window(WindowCreateOptions { width: 800, height: 600 }).unwrap();
    app.redraw(win).unwrap();
    // the styled snapshot holds the old text
    assert_eq!(app.windows[0].styled.as_ref().unwrap().store.data_at(1).text, b"before".to_vec());

    app.app_state.data.text = b"after".to_vec();
    app.on_event(win, Event::StateMutation);
    let list = app.redraw(win).unwrap();

    // restyle was skipped: the styled snapshot still holds the old text,
    // while the display list was rebuilt from the current snapshot
    assert_eq!(app.windows[0].styled.as_ref().unwrap().store.data_at(1).text, b"before".to_vec());
    assert!(list.items.iter().any(|i| matches!(i, DisplayItem::Text { node: 1, .. })));
}

#[test]
fn stylesheet_change_runs_the_restyle_pass() {
    let mut app = App::new(Screen { text: b"hi".to_vec(), css: demo_css() });
    let win = app.create_window(WindowCreateOptions { width: 800, height: 600 }).unwrap();
    app.redraw(win).unwrap();
    // replacing the stylesheet forces a restyle even with equal content
    app.app_state.data.css = b"root { height: 600; } p { width: 100; height: 50; color: 4; }"
        .to_vec();
    app.on_event(win, Event::StylesheetReplaced);
    app.redraw(win).unwrap();
    let style = app.windows[0].ui_description.style_at(1).unwrap();
    assert_eq!(style.color, 4);
}

#[test]
fn initial_cascade_applies_the_stylesheet() {
    let mut app = App::new(Screen { text: b"hi".to_vec(), css: demo_css() });
    let win = app.create_window(WindowCreateOptions { width: 800, height: 600 }).unwrap();
    app.redraw(win).unwrap();
    let style = app.windows[0].ui_description.style_at(1).unwrap();
    assert_eq!(style.color, 9);
    assert_eq!(style.width, Some(100));
}
