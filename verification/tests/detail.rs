use nfctl::cards::Focus;
use nfctl::detail::{Action, DetailPanel, DetailState, Input, Key, LoadedView, Mouse, Rect, Reply};

fn loaded(vertices: usize, columns: usize) -> DetailState {
    let mut s = DetailState::new();
    s.vertices = vertices;
    s.columns = columns;
    s
}

#[test]
fn tab_walks_the_vertices_and_stops_at_the_ends() {
    let mut s = loaded(3, 2);
    assert_eq!(s.update(Input::Key(Key::Prev)).action, None);
    assert_eq!(s.selected, 0);
    for _ in 0..5 {
        s.update(Input::Key(Key::Next));
    }
    assert_eq!(s.selected, 2);
    assert!(s.follow);
    let mut empty = DetailState::new();
    empty.update(Input::Key(Key::Next));
    assert_eq!(empty.selected, 0);
    assert!(!empty.follow);
}

#[test]
fn arrows_scroll_the_focused_box() {
    let mut s = loaded(3, 4);
    s.update(Input::Key(Key::PageDown));
    assert_eq!(s.vscroll, 5);
    s.update(Input::Key(Key::Up));
    assert_eq!(s.vscroll, 4);
    s.focus = Focus::Edges;
    s.rows_at = 2;
    s.update(Input::Key(Key::PageUp));
    assert_eq!(s.rows, 0);
    s.update(Input::Key(Key::Down));
    assert_eq!(s.rows, 3);
    assert_eq!(s.vscroll, 4);
    // Sideways is for the flow only.
    s.update(Input::Key(Key::Right));
    assert_eq!(s.scroll, 0);
    s.focus = Focus::Flow;
    for _ in 0..10 {
        s.update(Input::Key(Key::Right));
    }
    assert_eq!(s.scroll, 3);
    s.update(Input::Key(Key::Left));
    assert_eq!(s.scroll, 2);
}

#[test]
fn keys_ask_for_actions() {
    let mut s = loaded(3, 2);
    assert_eq!(s.update(Input::Key(Key::Quit)).action, Some(Action::Quit));
    assert_eq!(s.update(Input::Key(Key::Back)).action, Some(Action::Back));
    assert!(s.update(Input::Key(Key::Reload)).reload);
    assert!(s.update(Input::Tick).reload);
    assert_eq!(s.update(Input::Key(Key::Logs)).action, Some(Action::OpenLogs(None)));
    s.update(Input::Key(Key::Next));
    assert_eq!(s.update(Input::Key(Key::Open)).action, Some(Action::OpenLogs(Some(1))));
    assert_eq!(DetailState::new().update(Input::Key(Key::Open)).action, Some(Action::OpenLogs(None)));
    s.update(Input::Key(Key::Shards));
    assert!(s.expand_shards);
    s.update(Input::Key(Key::Grow));
    s.update(Input::Key(Key::Grow));
    s.update(Input::Key(Key::Shrink));
    assert_eq!(s.split, 1);
    s.update(Input::Frame);
    assert_eq!(s.spin, 1);
}

#[test]
fn a_click_focuses_and_a_drag_moves_the_line() {
    let mut s = loaded(3, 2);
    s.flow = Rect { x: 0, y: 2, width: 40, height: 10 };
    s.edges = Rect { x: 0, y: 13, width: 40, height: 6 };
    s.update(Input::Mouse(Mouse::LeftDown, 5, 15));
    assert_eq!(s.focus, Focus::Edges);
    assert!(!s.dragging);
    // The line between the boxes.
    s.update(Input::Mouse(Mouse::LeftDown, 5, 12));
    assert!(s.dragging);
    s.update(Input::Mouse(Mouse::LeftDrag, 5, 9));
    assert_eq!(s.split, 3);
    s.update(Input::Mouse(Mouse::LeftUp, 5, 9));
    assert!(!s.dragging);
    s.update(Input::Mouse(Mouse::LeftDown, 5, 3));
    assert_eq!(s.focus, Focus::Flow);
    s.update(Input::Mouse(Mouse::ScrollDown, 5, 3));
    assert_eq!(s.vscroll, 1);
}

fn view(key: &str, vertices: usize, columns: usize) -> LoadedView {
    LoadedView { key: key.to_owned(), vertices, columns }
}

#[test]
fn the_shape_draws_until_the_view_lands() {
    let mut p = DetailPanel::new("demo/p".to_owned(), DetailState::new());
    p.reply(Reply::Shape(view("demo/p", 3, 2)));
    assert_eq!(p.held, Some((3, 2)));
    assert_eq!((p.state.vertices, p.state.columns), (3, 2));
    p.reply(Reply::View(Ok(view("demo/p", 4, 3))));
    assert_eq!(p.held, Some((4, 3)));
    // A shape arriving after the view does not replace it.
    p.reply(Reply::Shape(view("demo/p", 1, 1)));
    assert_eq!(p.held, Some((4, 3)));
    assert_eq!(p.state.columns, 3);
}

#[test]
fn replies_for_another_pipeline_are_stale() {
    let mut p = DetailPanel::new("demo/p".to_owned(), DetailState::new());
    p.reply(Reply::Shape(view("demo/q", 3, 2)));
    assert_eq!(p.held, None);
    p.reply(Reply::View(Ok(view("other/p", 3, 2))));
    assert_eq!(p.held, None);
    assert_eq!(p.state.vertices, 0);
}

#[test]
fn an_error_keeps_the_view_held_and_a_view_clears_it() {
    let mut p = DetailPanel::new("demo/p".to_owned(), DetailState::new());
    p.reply(Reply::View(Ok(view("demo/p", 2, 2))));
    p.reply(Reply::View(Err("timed out".to_owned())));
    assert_eq!(p.error.as_deref(), Some("timed out"));
    assert_eq!(p.held, Some((2, 2)));
    p.reply(Reply::View(Ok(view("demo/p", 5, 4))));
    assert_eq!(p.error, None);
    assert_eq!(p.held, Some((5, 4)));
}
