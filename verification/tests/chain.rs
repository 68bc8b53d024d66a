use nfctl::chain::{Step, card_inner, chain_width, replicas, stages, step_for, try_step_for};
use nfctl::dto::DesiredPhase;
use nfctl::dto::monovertex::MonoVertex;

fn mono(transformer: bool, map: bool, fallback: bool, ready: Option<u32>, replicas: u32) -> MonoVertex {
    MonoVertex {
        desired: DesiredPhase::Running,
        phase: None,
        replicas,
        desired_replicas: None,
        ready_replicas: ready,
        has_transformer: transformer,
        has_map: map,
        has_fallback: fallback,
        message: None,
        conditions: vec![],
    }
}

#[test]
fn stages_follow_the_message() {
    let m = mono(true, false, true, None, 1);
    assert_eq!(stages(&m, false), vec!["source", "transform", "sink", "fallback"]);
    assert_eq!(stages(&m, true), vec!["src", "trf", "sink", "fb"]);
    assert_eq!(stages(&mono(false, true, false, None, 1), false), vec!["source", "map", "sink"]);
}

#[test]
fn chain_width_counts_boxes_and_hops() {
    let ws = vec![6, 9, 4, 8];
    assert_eq!(chain_width(&ws, Step { short: false, boxed: true }, 3), 52);
    assert_eq!(chain_width(&ws, Step { short: true, boxed: false }, 3), 42);
}

#[test]
fn the_widest_style_that_fits_is_drawn() {
    let m = mono(true, false, true, None, 1);
    assert_eq!(step_for(&m, 60), Step { short: false, boxed: true });
    assert_eq!(step_for(&m, 59), Step { short: true, boxed: true });
    assert_eq!(step_for(&m, 44), Step { short: true, boxed: false });
    assert_eq!(try_step_for(&m, 60), Some(Step { short: false, boxed: true }));
}

#[test]
fn card_inner_holds_name_chain_and_badges() {
    assert_eq!(card_inner(10, 52, 2, 20, 200), 58);
    assert_eq!(card_inner(10, 52, 2, 20, 40), 38);
    assert_eq!(card_inner(10, 12, 4, 30, 200), 42);
}

#[test]
fn replica_badge_says_how_many_are_ready() {
    assert_eq!(replicas(&mono(false, false, false, Some(3), 3)), "×3");
    assert_eq!(replicas(&mono(false, false, false, Some(2), 3)), "×2/3");
    assert_eq!(replicas(&mono(false, false, false, None, 0)), "×0");
    assert_eq!(replicas(&mono(false, false, false, Some(12), 120)), "×12/120");
}
