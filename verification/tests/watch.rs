use daily_knowledge::watch::{
    is_relevant_event, watch_step, FsEvent, FsEventKind, WatchAction, WatchInput, WatchState,
};

fn mk(kind: FsEventKind, path: &str) -> FsEvent {
    FsEvent { kind, paths: vec![path.to_string()] }
}

#[test]
fn test_is_relevant_event() {
    // creating, modifying or removing a .md file triggers
    assert!(is_relevant_event(&mk(FsEventKind::Create, "/x/a.md")));
    assert!(is_relevant_event(&mk(FsEventKind::Modify, "/x/a.md")));
    assert!(is_relevant_event(&mk(FsEventKind::Remove, "/x/a.md")));
    // a file that is not .md does not
    assert!(!is_relevant_event(&mk(FsEventKind::Create, "/x/a.txt")));
    // an access event does not
    assert!(!is_relevant_event(&mk(FsEventKind::Access, "/x/a.md")));
}

#[test]
fn extension_case_and_other_paths() {
    assert!(is_relevant_event(&mk(FsEventKind::Modify, "/x/B.MD")));
    assert!(!is_relevant_event(&mk(FsEventKind::Modify, "/x/.md")));
    assert!(!is_relevant_event(&mk(FsEventKind::Other, "/x/a.md")));
    assert!(!is_relevant_event(&mk(FsEventKind::Any, "/x/a.md")));
    let ev = FsEvent {
        kind: FsEventKind::Remove,
        paths: vec!["/x/a.txt".to_string(), "/x/b.Md".to_string()],
    };
    assert!(is_relevant_event(&ev));
    assert!(!is_relevant_event(&FsEvent { kind: FsEventKind::Create, paths: vec![] }));
}

#[test]
fn changes_settle_before_a_refresh() {
    let (s, a) = watch_step(WatchState::Idle, WatchInput::Changed);
    assert_eq!((s, a), (WatchState::Settling, WatchAction::WaitQuiet));
    let (s, a) = watch_step(s, WatchInput::Changed);
    assert_eq!((s, a), (WatchState::Settling, WatchAction::WaitQuiet));
    let (s, a) = watch_step(s, WatchInput::QuietElapsed);
    assert_eq!((s, a), (WatchState::Idle, WatchAction::Refresh));
    assert_eq!(watch_step(s, WatchInput::Closed), (WatchState::Idle, WatchAction::Stop));
    assert_eq!(
        watch_step(WatchState::Settling, WatchInput::Closed),
        (WatchState::Settling, WatchAction::WaitQuiet)
    );
}
