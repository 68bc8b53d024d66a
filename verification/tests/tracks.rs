use nfctl::layout::EdgeId;
use nfctl::layout::tracks::{Span, pack};

fn span(edge: u32, lo: i32, hi: i32, src: u32, dst: u32) -> Span {
    Span { edge: EdgeId(edge), lo, hi, y_in: lo, y_out: hi, src, dst, colour: None }
}

#[test]
fn unrelated_overlapping_runs_need_two_tracks() {
    let spans = vec![span(0, 0, 6, 0, 1), span(1, 3, 9, 2, 3)];
    let (assign, n) = pack(&spans, false);
    assert_eq!(n, 2);
    assert_ne!(assign[0], assign[1]);
}

#[test]
fn runs_that_may_share_take_one_track() {
    // A fan-out from one source, and a later run with a blank row between.
    let spans = vec![span(0, 0, 4, 0, 1), span(1, 0, 8, 0, 2), span(2, 10, 12, 5, 6)];
    let (assign, n) = pack(&spans, false);
    assert_eq!(n, 1);
    assert_eq!(assign, vec![0, 0, 0]);
}

#[test]
fn straight_runs_take_no_track() {
    let spans = vec![span(0, 3, 3, 0, 1), span(1, 5, 5, 2, 3)];
    let (assign, n) = pack(&spans, false);
    assert_eq!(n, 0);
    assert_eq!(assign, vec![0, 0]);
}
