use hiliter::reactive::step;
use hiliter::reactive::topic_name;
use hiliter::reactive::LoopAction;
use hiliter::reactive::LoopEvent;
use hiliter::reactive::LoopState;
use hiliter::reactive::Topic;

#[test]
fn connect_ok_greets_passes_subscribes() {
    let (next, acts) = step(LoopState::Connecting, &LoopEvent::ConnectOk);
    assert_eq!(next, LoopState::Idle);
    assert_eq!(
        acts,
        vec![
            LoopAction::Greet,
            LoopAction::RunPass,
            LoopAction::Subscribe(Topic::TextChanged),
            LoopAction::Subscribe(Topic::CursorMoved),
            LoopAction::Subscribe(Topic::InsertEnter),
        ]
    );
}

#[test]
fn connect_failure_fails_fast() {
    let (next, acts) = step(LoopState::Connecting, &LoopEvent::ConnectFailed);
    assert_eq!(next, LoopState::Terminated);
    assert_eq!(acts, vec![LoopAction::ReportFailure]);
    for a in &acts {
        assert_ne!(*a, LoopAction::RunPass);
        assert!(!matches!(a, LoopAction::Subscribe(_)));
    }
}

#[test]
fn text_changed_while_idle_runs_one_pass() {
    let (next, acts) = step(
        LoopState::Idle,
        &LoopEvent::Notification("text-changed".to_owned()),
    );
    assert_eq!(next, LoopState::Idle);
    assert_eq!(acts, vec![LoopAction::RunPass]);
}

#[test]
fn all_topics_handled_alike() {
    for topic in ["text-changed", "cursor-moved", "insert-enter", "anything-else"] {
        let (next, acts) = step(LoopState::Idle, &LoopEvent::Notification(topic.to_owned()));
        assert_eq!(next, LoopState::Idle);
        assert_eq!(acts, vec![LoopAction::RunPass]);
    }
}

#[test]
fn intake_closed_says_farewell() {
    let (next, acts) = step(LoopState::Idle, &LoopEvent::IntakeClosed);
    assert_eq!(next, LoopState::Terminated);
    assert_eq!(acts, vec![LoopAction::Farewell]);
}

#[test]
fn terminated_ignores_events() {
    let (next, acts) = step(
        LoopState::Terminated,
        &LoopEvent::Notification("text-changed".to_owned()),
    );
    assert_eq!(next, LoopState::Terminated);
    assert!(acts.is_empty());
}

#[test]
fn topic_names_match_wire() {
    assert_eq!(topic_name(Topic::TextChanged), "text-changed");
    assert_eq!(topic_name(Topic::CursorMoved), "cursor-moved");
    assert_eq!(topic_name(Topic::InsertEnter), "insert-enter");
}
