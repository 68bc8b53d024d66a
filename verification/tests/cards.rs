use nfctl::cards::{FULL_CARD, MIN_CARD, WIDEST_CARD, card_width, fmt_i64, last_visible, pick_card_width};
use nfctl::mermaid_in::from_mermaid;
use nfctl::model::Topology;
use nfctl::view::ViewGraph;

fn topo(body: &str) -> Topology {
    let src = format!("graph LR\n subgraph p[\"p\"]\n{body}\n end\n");
    from_mermaid(&src).unwrap().remove(0).1
}

#[test]
fn card_width_is_clamped_then_squeezed() {
    assert_eq!(pick_card_width(0, 1, 200), FULL_CARD);
    assert_eq!(pick_card_width(30, 1, 200), 30);
    assert_eq!(pick_card_width(50, 1, 200), WIDEST_CARD);
    assert_eq!(pick_card_width(30, 4, 100), 21);
    assert_eq!(pick_card_width(30, 5, 100), MIN_CARD);
    assert_eq!(pick_card_width(30, 0, 10), MIN_CARD);
    assert_eq!(pick_card_width(usize::MAX, 1, 1000), WIDEST_CARD);
}

#[test]
fn card_width_follows_the_longest_label() {
    let g = ViewGraph::collapsed(&topo(
        "s([s]) --> abcdefghijklmnopqrst[abcdefghijklmnopqrst]\n abcdefghijklmnopqrst --> t[[t]]",
    ));
    assert_eq!(card_width(&g, 3, 200), 29);
    assert_eq!(card_width(&g, 3, 80), 23);
    assert_eq!(card_width(&g, 3, 20), MIN_CARD);
}

#[test]
fn card_width_makes_room_for_tags() {
    let short = ViewGraph::collapsed(&topo("a([a]) --> t[[t]]\n b([b]) --> t"));
    assert_eq!(card_width(&short, 2, 200), FULL_CARD);
    let tagged = ViewGraph::collapsed(&topo(
        "a([a]) -->|tag-number-one-xyz| t[[t]]\n b([b]) -->|tag-number-two-xyz| t",
    ));
    assert_eq!(card_width(&tagged, 2, 200), WIDEST_CARD);
}

#[test]
fn last_visible_counts_whole_cards() {
    let col_x = vec![0, 29, 58, 87];
    assert_eq!(last_visible(&col_x, 24, 0, 60), 1);
    assert_eq!(last_visible(&col_x, 24, 2, 60), 3);
    assert_eq!(last_visible(&col_x, 24, 3, 60), 3);
    assert_eq!(last_visible(&col_x, 24, 1, 10), 1);
    assert_eq!(last_visible(&col_x, 24, 9, 200), 9);
    assert_eq!(last_visible(&col_x, 24, 0, 200), 3);
    assert_eq!(last_visible(&vec![], 24, 0, 200), 0);
}

#[test]
fn counts_are_written_or_dashed() {
    assert_eq!(fmt_i64(None), "-");
    assert_eq!(fmt_i64(Some(9553)), "9553");
    assert_eq!(fmt_i64(Some(-12)), "-12");
    assert_eq!(fmt_i64(Some(0)), "0");
    assert_eq!(fmt_i64(Some(i64::MIN)), "-9223372036854775808");
}
