use nfctl::table::{Column, fill, fit, try_fill};

fn rows() -> Vec<Vec<String>> {
    vec![
        vec!["orders".to_owned(), "Running".to_owned(), "5m".to_owned()],
        vec!["x".to_owned()],
    ]
}

#[test]
fn fit_takes_the_widest_cell_and_leaves_the_last_open() {
    let header = ["NAME", "PHASE", "AGE"];
    assert_eq!(
        fit(&header, &rows()),
        vec![Column::Length(6), Column::Length(7), Column::Min(3)]
    );
    assert_eq!(fit(&["NAME"], &rows()), vec![Column::Min(6)]);
    assert_eq!(fit(&["中文", "é"], &[]), vec![Column::Length(4), Column::Min(1)]);
    assert!(fit(&[], &rows()).is_empty());
}

#[test]
fn fill_shares_the_room_and_spans_the_width() {
    let header = ["NAME", "PHASE", "AGE"];
    let out = fill(&header, &rows(), 40, 2, &[0, 1]);
    assert_eq!(out, vec![Column::Length(15), Column::Length(18), Column::Length(3)]);
    let spanned: u16 = out.iter().map(|c| c.cells()).sum::<u16>() + 2 * 2;
    assert_eq!(spanned, 40);
}

#[test]
fn fill_without_room_or_growers_keeps_the_fit() {
    let header = ["NAME", "PHASE", "AGE"];
    let fitted = vec![Column::Length(6), Column::Length(7), Column::Length(3)];
    assert_eq!(fill(&header, &rows(), 10, 2, &[0, 1]), fitted);
    assert_eq!(fill(&header, &rows(), 40, 2, &[]), fitted);
    assert_eq!(
        fill(&header, &rows(), 40, 2, &[0, 9]),
        vec![Column::Length(26), Column::Length(7), Column::Length(3)]
    );
}

#[test]
fn try_fill_refuses_what_would_overflow() {
    let header = ["NAME", "PHASE", "AGE"];
    assert_eq!(try_fill(&header, &rows(), u16::MAX, 2, &[0, 1]), None);
    assert_eq!(
        try_fill(&header, &rows(), 40, 2, &[0, 1]),
        Some(vec![Column::Length(15), Column::Length(18), Column::Length(3)])
    );
}
