use nfctl::cards::{Focus, Paint, Scroll, badge_rows};
use nfctl::layout::EdgeColour;
use nfctl::render::{Format, RenderOptions};
use nfctl::mermaid::Direction;
use nfctl::style::{CrossingStyle, Ink, Palette};

#[test]
fn monochrome_keeps_the_bridge_and_drops_hues() {
    let p = Palette::monochrome();
    assert_eq!(p.crossing(), CrossingStyle::Bridge);
    assert_eq!(p.ink(Some(EdgeColour(2))), Ink::Bold);
    assert_eq!(p.ink(None), Ink::Dim);
    let c = Palette::default();
    assert_eq!(c.ink(Some(EdgeColour(8))), Ink::Hue(2));
    assert_eq!(c.with_crossing(CrossingStyle::Cross).crossing(), CrossingStyle::Cross);
    assert_eq!(Palette::detected(false, true), Palette::monochrome());
    assert_eq!(Palette::detected(false, false), Palette::default());
}

#[test]
fn badges_wrap_whole() {
    let labels: Vec<String> = ["alpha", "beta", "gamma-ray", "x"].iter().map(|s| (*s).to_owned()).collect();
    assert_eq!(badge_rows(&labels, 10), vec![0..2, 2..3, 3..4]);
    assert_eq!(badge_rows(&labels, 11), vec![0..2, 2..4]);
    assert_eq!(badge_rows(&labels, 100), vec![0..4]);
    assert_eq!(badge_rows(&labels, 3), vec![0..1, 1..2, 2..3, 3..4]);
    assert!(badge_rows(&labels, 0).is_empty());
    assert!(badge_rows(&[], 10).is_empty());
}

#[test]
fn defaults() {
    let p = Paint::default();
    assert_eq!(p.scroll, Scroll { column: 0, row: 0 });
    assert_eq!(p.spin, 0);
    assert_eq!(Focus::default(), Focus::Flow);
    let o = RenderOptions::default();
    assert!(o.width.is_none() && !o.collapse_shards && !o.colour);
    assert_eq!(Direction::default().keyword(), "LR");
    assert_eq!(Direction::TopDown.keyword(), "TD");
    assert_ne!(Format::Ascii, Format::Dot);
}
