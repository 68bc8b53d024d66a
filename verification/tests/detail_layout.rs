use nfctl::detail::{DetailState, Rect, centre, height_for, table_height, table_rows};
use nfctl::style::Palette;

#[test]
fn centre_floats_a_small_box_in_the_middle() {
    let area = Rect { x: 0, y: 0, width: 80, height: 24 };
    assert_eq!(centre(area, 20, 10), Rect { x: 30, y: 7, width: 20, height: 10 });
    let small = Rect { x: 5, y: 5, width: 10, height: 4 };
    assert_eq!(centre(small, 20, 10), small);
    let odd = Rect { x: 1, y: 1, width: 11, height: 5 };
    assert_eq!(centre(odd, 4, 2), Rect { x: 4, y: 2, width: 4, height: 2 });
}

#[test]
fn table_rows_count_header_and_border() {
    assert_eq!(table_rows(0), 6);
    assert_eq!(table_rows(3), 6);
    assert_eq!(table_rows(10), 13);
    assert_eq!(table_rows(usize::MAX), u16::MAX);
}

#[test]
fn table_height_keeps_both_floors_and_follows_the_split() {
    assert_eq!(table_height(30, 0, false, 10, 3, 0), 6);
    assert_eq!(table_height(30, 0, false, 10, 3, 5), 11);
    assert_eq!(table_height(30, 0, false, 10, 3, 100), 22);
    assert_eq!(table_height(30, 0, false, 10, 3, -10), 4);
    assert_eq!(table_height(5, 1, true, 10, 3, 0), 4);
    assert_eq!(table_height(40, 0, false, 4, 40, 0), 32);
}

#[test]
fn height_for_counts_every_part() {
    assert_eq!(height_for(None, 3, 0, false), 5);
    assert_eq!(height_for(Some(10), 3, 1, false), 22);
    assert_eq!(height_for(Some(10), 3, 1, true), 23);
    assert_eq!(height_for(Some(0), 100, 0, false), 208);
    assert_eq!(height_for(Some(u16::MAX), 0, 0, false), u16::MAX);
}

#[test]
fn scroll_for_pulls_the_selected_column_into_view() {
    let col_x = vec![0, 29, 58, 87];
    let mut s = DetailState::new();
    s.scroll = 5;
    assert_eq!(s.scroll_for(&col_x, 24, Some(3), 60), 3);
    s.scroll = 0;
    s.follow = true;
    assert_eq!(s.scroll_for(&col_x, 24, Some(3), 60), 2);
    assert_eq!(s.scroll, 2);
    assert_eq!(s.scroll_for(&col_x, 24, Some(0), 60), 0);
    assert_eq!(s.scroll_for(&col_x, 24, None, 60), 0);
    assert_eq!(s.scroll_for(&vec![], 24, None, 60), 0);
}

#[test]
fn vscroll_for_keeps_the_selected_card_in_view() {
    let mut s = DetailState::new();
    s.vscroll = 50;
    assert_eq!(s.vscroll_for(40, 10, Some((25, 5))), 30);
    s.vscroll = 0;
    assert_eq!(s.vscroll_for(40, 10, Some((25, 5))), 0);
    s.follow = true;
    assert_eq!(s.vscroll_for(40, 10, Some((25, 5))), 20);
    assert_eq!(s.vscroll, 20);
    assert_eq!(s.vscroll_for(40, 10, Some((-3, 5))), 0);
    assert_eq!(s.vscroll_for(8, 10, Some((25, 5))), 0);
}

#[test]
fn table_top_stays_on_an_edge() {
    let mut s = DetailState::new();
    s.rows = 10;
    assert_eq!(s.table_top(4), 3);
    assert_eq!(s.rows_at, 3);
    assert_eq!(s.table_top(0), 0);
    assert_eq!(s.rows, 10);
}

#[test]
fn builders_set_palette_and_timings() {
    let s = DetailState::new();
    assert!(!s.timings);
    assert_eq!(s.palette, Palette::default());
    let s = s.with_palette(Palette::monochrome()).with_timings(true);
    assert_eq!(s.palette, Palette::monochrome());
    assert!(s.timings);
    assert_eq!(s.selected_vertex(), None);
    let mut s = s;
    s.vertices = 3;
    s.selected = 2;
    assert_eq!(s.selected_vertex(), Some(2));
    let list = nfctl::pipelines::PipelinesState::new().with_timings(true);
    assert!(list.timings && list.loading);
}
