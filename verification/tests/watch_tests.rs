use mdworkspace::errors::WsError;
use mdworkspace::watch::{open_next, picker_outcome, OpenEvent, OpenStep, WatchRegistration};

#[test]
fn fresh_registration_accepts_nothing() {
    let reg = WatchRegistration::new();
    assert!(!reg.accepts(0));
    assert!(!reg.accepts(7));
    assert!(reg.current_root().is_none());
}

#[test]
fn install_stamps_a_generation_and_sets_the_root() {
    let mut reg = WatchRegistration::new();
    let g = reg.install("/home/me/notes".to_string());
    assert!(reg.accepts(g));
    assert!(!reg.accepts(g + 1));
    assert_eq!(reg.current_root().unwrap().as_str(), "/home/me/notes");
}

#[test]
fn second_workspace_supersedes_the_first() {
    let mut reg = WatchRegistration::new();
    let g1 = reg.install("/first".to_string());
    assert!(reg.accepts(g1));
    let g2 = reg.install("/second".to_string());
    assert_ne!(g1, g2);
    // a change under the first root signals with g1: no longer delivered
    assert!(!reg.accepts(g1));
    // a change under the second root signals with g2: delivered
    assert!(reg.accepts(g2));
    assert_eq!(reg.current_root().unwrap().as_str(), "/second");
}

#[test]
fn open_flow_happy_path_reaches_done() {
    let s = OpenStep::PickFolder;
    let s = open_next(s, OpenEvent::Picked(Some("/picked".to_string())));
    assert!(matches!(&s, OpenStep::Resolve { picked } if picked == "/picked"));
    let s = open_next(s, OpenEvent::Resolved(Some("/canonical".to_string())));
    assert!(matches!(&s, OpenStep::Watch { root } if root == "/canonical"));
    let s = open_next(s, OpenEvent::Watched(true));
    assert!(matches!(&s, OpenStep::Scan { root } if root == "/canonical"));
    let s = open_next(s, OpenEvent::Scanned);
    assert!(matches!(&s, OpenStep::Done { root } if root == "/canonical"));
}

#[test]
fn declined_picker_cancels_the_flow() {
    let s = open_next(OpenStep::PickFolder, OpenEvent::Picked(None));
    assert!(matches!(s, OpenStep::Failed { error: WsError::Cancelled }));
}

#[test]
fn unresolved_path_fails_with_not_found() {
    let s = OpenStep::Resolve { picked: "/gone".to_string() };
    let s = open_next(s, OpenEvent::Resolved(None));
    assert!(matches!(s, OpenStep::Failed { error: WsError::NotFound }));
}

#[test]
fn failed_watch_construction_fails_with_watch_setup_error() {
    let s = OpenStep::Watch { root: "/r".to_string() };
    let s = open_next(s, OpenEvent::Watched(false));
    assert!(matches!(s, OpenStep::Failed { error: WsError::WatchSetupError }));
}

#[test]
fn mismatched_event_leaves_the_step_unchanged() {
    let s = OpenStep::PickFolder;
    let s = open_next(s, OpenEvent::Scanned);
    assert!(matches!(s, OpenStep::PickFolder));
    let s = OpenStep::Done { root: "/r".to_string() };
    let s = open_next(s, OpenEvent::Watched(true));
    assert!(matches!(&s, OpenStep::Done { root } if root == "/r"));
}

#[test]
fn picker_outcome_maps_cancel_to_cancelled() {
    let r = picker_outcome(Some("/file.md".to_string()));
    assert_eq!(r.unwrap().as_str(), "/file.md");
    let r = picker_outcome(None);
    assert!(matches!(r, Err(WsError::Cancelled)));
}
