use nfctl::canvas::{CellInk, Heading, draw_edges, glyph, Canvas, L, R, U, D};
use nfctl::layout::{EdgeColour, EdgeId, Route};
use nfctl::mermaid_in::from_mermaid;
use nfctl::style::CrossingStyle;
use nfctl::view::ViewGraph;

fn graph(body: &str) -> ViewGraph {
    let src = format!("graph LR\n subgraph p[\"p\"]\n{body}\n end\n");
    ViewGraph::expanded(&from_mermaid(&src).unwrap().remove(0).1)
}

fn text(c: &Canvas) -> Vec<String> {
    c.rows().iter().map(|r| r.iter().map(|(ch, _)| *ch).collect()).collect()
}

fn route(edge: u32, pts: Vec<(i32, i32)>, colour: Option<EdgeColour>) -> Route {
    let head = *pts.last().unwrap();
    Route { edge: EdgeId(edge), polyline: pts, head, colour }
}

#[test]
fn glyphs_follow_the_sides() {
    assert_eq!(glyph(0), ' ');
    assert_eq!(glyph(L | R), '─');
    assert_eq!(glyph(U), '│');
    assert_eq!(glyph(R | D), '┌');
    assert_eq!(glyph(L | U), '┘');
    assert_eq!(glyph(L | R | D), '┬');
    assert_eq!(glyph(U | D | L), '┤');
    assert_eq!(glyph(L | R | U | D), '┼');
}

#[test]
fn a_path_is_painted_with_its_head() {
    let mut c = Canvas::new(5, 3, 0, 0);
    c.path(0, &vec![(0, 0), (2, 0), (2, 2), (4, 2)], Some(EdgeColour(1)));
    c.head(4, 2, Some(EdgeColour(1)), Heading::Right);
    assert_eq!(text(&c), vec!["──┐  ", "  │  ", "  └─▶"]);
    assert!(c.rows()[0].iter().take(3).all(|(_, ink)| *ink == CellInk::One(Some(EdgeColour(1)))));
    assert_eq!(c.rows()[0][4].1, CellInk::Blank);
}

#[test]
fn scrolled_canvas_clips_what_it_does_not_show() {
    let mut c = Canvas::new(3, 1, 2, 0);
    c.path(0, &vec![(0, 0), (6, 0)], None);
    assert_eq!(text(&c), vec!["───"]);
}

#[test]
fn unrelated_edges_cross_on_a_bridge() {
    let g = graph("a([a]) --> b[[b]]\n c([c]) --> d[[d]]");
    let colours = vec![Some(EdgeColour(0)), Some(EdgeColour(1))];
    let routes = vec![
        route(0, vec![(0, 1), (4, 1)], colours[0]),
        route(1, vec![(2, 0), (2, 2)], colours[1]),
    ];
    let crossed = draw_edges(&routes, &g, &colours, 5, 3, 0, 0, CrossingStyle::Cross);
    assert_eq!(text(&crossed)[1], "──┼─▶");
    assert_eq!(crossed.rows()[1][2].1, CellInk::One(Some(EdgeColour(1))), "mixed takes the vertical's colour");
    let bridged = draw_edges(&routes, &g, &colours, 5, 3, 0, 0, CrossingStyle::Bridge);
    assert_eq!(text(&bridged), vec!["  │  ", "─╴│╶▶", "  ▶  "]);
}

#[test]
fn one_line_keeps_its_junction() {
    let g = graph("a([a]) --> b[[b]]\n a --> d[[d]]");
    let colours = vec![None, None];
    let routes = vec![
        route(0, vec![(0, 1), (4, 1)], None),
        route(1, vec![(2, 0), (2, 2)], None),
    ];
    let bridged = draw_edges(&routes, &g, &colours, 5, 3, 0, 0, CrossingStyle::Bridge);
    assert_eq!(text(&bridged)[1], "──┼─▶");
}
