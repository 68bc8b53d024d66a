use nfctl::pipelines::{ListAction, ListInput, ListKey, ListOutcome, PipelineRef, PipelinesState};

fn p(ns: &str, name: &str) -> PipelineRef {
    PipelineRef { namespace: ns.to_owned(), name: name.to_owned() }
}

fn key(s: &mut PipelinesState, k: ListKey) -> ListOutcome {
    s.update(ListInput::Key(k))
}

#[test]
fn selection_stays_on_the_same_pipeline_across_refreshes() {
    let mut s = PipelinesState::new();
    assert!(s.loading);
    assert_eq!(key(&mut s, ListKey::Open).action, None);
    s.update(ListInput::Loaded(Ok(vec![p("a", "one"), p("a", "two"), p("b", "one")])));
    assert!(!s.loading);
    assert_eq!(s.selected, Some(0));
    key(&mut s, ListKey::Down);
    key(&mut s, ListKey::Down);
    key(&mut s, ListKey::Down);
    assert_eq!(s.selected, Some(2), "stops at the last row");
    s.update(ListInput::Loaded(Ok(vec![p("b", "one"), p("a", "one"), p("a", "two")])));
    assert_eq!(s.selected, Some(0), "followed b/one to its new row");
    key(&mut s, ListKey::Up);
    assert_eq!(s.selected, Some(0));
    s.update(ListInput::Loaded(Ok(vec![p("c", "x"), p("c", "y")])));
    assert_eq!(s.selected, Some(0), "gone: back to the first row");
    s.update(ListInput::Loaded(Ok(vec![])));
    assert_eq!(s.selected, None);
    key(&mut s, ListKey::Down);
    assert_eq!(s.selected, None);
}

#[test]
fn list_keys_open_and_reload() {
    let mut s = PipelinesState::new();
    assert_eq!(s.update(ListInput::Tick), ListOutcome { action: None, reload: true });
    s.update(ListInput::Loaded(Ok(vec![p("a", "one"), p("a", "two")])));
    key(&mut s, ListKey::Down);
    assert_eq!(key(&mut s, ListKey::Open), ListOutcome { action: Some(ListAction::OpenDetail(1)), reload: false });
    assert_eq!(key(&mut s, ListKey::Logs).action, Some(ListAction::OpenLogs(1)));
    assert_eq!(key(&mut s, ListKey::Reload), ListOutcome { action: None, reload: true });
    assert_eq!(key(&mut s, ListKey::Quit).action, Some(ListAction::Quit));
    assert_eq!(key(&mut s, ListKey::Other), ListOutcome { action: None, reload: false });
    s.update(ListInput::Loaded(Err("forbidden".to_owned())));
    assert_eq!(s.error.as_deref(), Some("forbidden"));
    assert_eq!(s.items.len(), 2);
    assert_eq!(s.selected, Some(1));
    s.update(ListInput::Loaded(Ok(vec![p("a", "two")])));
    assert_eq!(s.error, None);
    assert_eq!(s.selected, Some(0));
}
