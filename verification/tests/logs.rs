use nfctl::detail::Action;
use nfctl::logs::{CAPACITY, LogKey, LogLine, LogsInput, LogsOutcome, LogsState};

fn line(i: usize) -> LogLine {
    LogLine { pod: "linear-cat-0".to_owned(), container: "numa".to_owned(), text: format!("{i}") }
}

#[test]
fn logs_follow_then_pin_then_follow_again() {
    let mut s = LogsState::new();
    for i in 0..10 {
        s.update(LogsInput::Line(line(i)));
    }
    assert!(s.following());
    assert_eq!(s.visible(8), 2..10);
    s.update(LogsInput::Key(LogKey::Up));
    assert_eq!(s.scroll(), Some(8));
    assert!(!s.following());
    s.update(LogsInput::Line(line(10)));
    assert_eq!(s.scroll(), Some(8), "a pinned view stays put while lines arrive");
    assert_eq!(s.visible(8), 8..11);
    s.update(LogsInput::Key(LogKey::PageUp));
    assert_eq!(s.scroll(), Some(0));
    s.update(LogsInput::Key(LogKey::Down));
    assert_eq!(s.scroll(), Some(1));
    s.update(LogsInput::Key(LogKey::PageDown));
    assert!(s.following(), "scrolling past the tail follows it again");
    s.update(LogsInput::Key(LogKey::Up));
    s.update(LogsInput::Key(LogKey::End));
    assert!(s.following());
}

#[test]
fn logs_keep_the_latest_lines_and_the_pinned_one() {
    let mut s = LogsState::new();
    for i in 0..CAPACITY {
        s.receive(line(i));
    }
    assert_eq!(s.lines().len(), CAPACITY);
    s.update(LogsInput::Key(LogKey::PageUp));
    assert_eq!(s.scroll(), Some(CAPACITY - 21));
    s.receive(line(CAPACITY));
    assert_eq!(s.lines().len(), CAPACITY);
    assert_eq!(s.lines()[0].text, "1");
    assert_eq!(s.lines()[CAPACITY - 1].text, format!("{CAPACITY}"));
    assert_eq!(s.scroll(), Some(CAPACITY - 22));
    assert_eq!(s.lines()[CAPACITY - 22].text, format!("{}", CAPACITY - 21));
}

#[test]
fn logs_leave_and_fail() {
    let mut s = LogsState::new();
    assert_eq!(
        s.update(LogsInput::Key(LogKey::Quit)),
        LogsOutcome { action: Some(Action::Quit), stop: true }
    );
    assert_eq!(
        s.update(LogsInput::Key(LogKey::Back)),
        LogsOutcome { action: Some(Action::Back), stop: true }
    );
    assert_eq!(s.update(LogsInput::Tick), LogsOutcome { action: None, stop: false });
    s.update(LogsInput::Failed("stream closed".to_owned()));
    assert_eq!(s.error().as_deref(), Some("stream closed"));
    assert_eq!(s.visible(5), 0..0);
    s.update(LogsInput::Key(LogKey::Up));
    assert!(s.following(), "nothing to scroll");
}
