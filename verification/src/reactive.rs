//! The reactive loop's decision core: a state machine from (state,
//! event) to (next state, actions). The surrounding process performs
//! the actions — connecting, painting, subscribing — and feeds the
//! next event back in; every decision lives here.

use vstd::prelude::*;

verus! {

/// The loop's state: waiting for the connection to open, subscribed
/// and idle between notifications, or terminated.
#[derive(Clone, Copy, Debug, PartialEq, Eq, Structural)]
pub enum LoopState {
    Connecting,
    Idle,
    Terminated,
}

/// A change-notification topic the loop subscribes to on connection.
#[derive(Clone, Copy, Debug, PartialEq, Eq, Structural)]
pub enum Topic {
    TextChanged,
    CursorMoved,
    InsertEnter,
}

/// What the loop observes: the connection opened or failed to, a
/// subscribed notification arrived (with its topic), or the intake
/// queue closed because the editor went away.
pub enum LoopEvent {
    ConnectOk,
    ConnectFailed,
    Notification(String),
    IntakeClosed,
}

/// What the loop asks its surroundings to do, in order: send the
/// greeting, run one full recompute pass over the buffer's current
/// text, subscribe to a topic, report a fatal startup failure, or send
/// the farewell.
#[derive(Clone, Copy, Debug, PartialEq, Eq, Structural)]
pub enum LoopAction {
    Greet,
    RunPass,
    Subscribe(Topic),
    ReportFailure,
    Farewell,
}

/// The transition rule. On connection: greet, run one initial pass,
/// subscribe to the three topics, and go idle; a failed connection
/// terminates at once with a report, before any subscription or pass.
/// While idle, every notification — all topics are handled alike —
/// triggers exactly one recompute pass; a closed intake queue ends the
/// loop with a farewell. Anything else changes nothing.
pub open spec fn spec_step(s: LoopState, e: LoopEvent) -> (LoopState, Seq<LoopAction>) {
    match (s, e) {
        (LoopState::Connecting, LoopEvent::ConnectOk) => (
            LoopState::Idle,
            seq![
                LoopAction::Greet,
                LoopAction::RunPass,
                LoopAction::Subscribe(Topic::TextChanged),
                LoopAction::Subscribe(Topic::CursorMoved),
                LoopAction::Subscribe(Topic::InsertEnter),
            ],
        ),
        (LoopState::Connecting, LoopEvent::ConnectFailed) => (
            LoopState::Terminated,
            seq![LoopAction::ReportFailure],
        ),
        (LoopState::Idle, LoopEvent::Notification(_)) => (
            LoopState::Idle,
            seq![LoopAction::RunPass],
        ),
        (LoopState::Idle, LoopEvent::IntakeClosed) => (
            LoopState::Terminated,
            seq![LoopAction::Farewell],
        ),
        _ => (s, Seq::empty()),
    }
}

/// Take one step of the reactive loop: the next state and the actions
/// to perform, in order.
pub fn step(s: LoopState, e: &LoopEvent) -> (r: (LoopState, Vec<LoopAction>))
    ensures
        r.0 == spec_step(s, *e).0,
        r.1@ == spec_step(s, *e).1,
{
    match (s, e) {
        (LoopState::Connecting, LoopEvent::ConnectOk) => {
            let mut acts: Vec<LoopAction> = Vec::new();
            acts.push(LoopAction::Greet);
            acts.push(LoopAction::RunPass);
            acts.push(LoopAction::Subscribe(Topic::TextChanged));
            acts.push(LoopAction::Subscribe(Topic::CursorMoved));
            acts.push(LoopAction::Subscribe(Topic::InsertEnter));
            proof {
                assert(acts@ =~= spec_step(s, *e).1);
            }
            (LoopState::Idle, acts)
        },
        (LoopState::Connecting, LoopEvent::ConnectFailed) => {
            let mut acts: Vec<LoopAction> = Vec::new();
            acts.push(LoopAction::ReportFailure);
            proof {
                assert(acts@ =~= spec_step(s, *e).1);
            }
            (LoopState::Terminated, acts)
        },
        (LoopState::Idle, LoopEvent::Notification(_)) => {
            let mut acts: Vec<LoopAction> = Vec::new();
            acts.push(LoopAction::RunPass);
            proof {
                assert(acts@ =~= spec_step(s, *e).1);
            }
            (LoopState::Idle, acts)
        },
        (LoopState::Idle, LoopEvent::IntakeClosed) => {
            let mut acts: Vec<LoopAction> = Vec::new();
            acts.push(LoopAction::Farewell);
            proof {
                assert(acts@ =~= spec_step(s, *e).1);
            }
            (LoopState::Terminated, acts)
        },
        _ => {
            let acts: Vec<LoopAction> = Vec::new();
            proof {
                assert(acts@ =~= spec_step(s, *e).1);
            }
            (s, acts)
        },
    }
}

/// The name of a topic on the editor's wire, for the subscribe call.
pub fn topic_name(t: Topic) -> (name: String)
    ensures
        t == Topic::TextChanged ==> name@ == "text-changed"@,
        t == Topic::CursorMoved ==> name@ == "cursor-moved"@,
        t == Topic::InsertEnter ==> name@ == "insert-enter"@,
{
    match t {
        Topic::TextChanged => "text-changed".to_owned(),
        Topic::CursorMoved => "cursor-moved".to_owned(),
        Topic::InsertEnter => "insert-enter".to_owned(),
    }
}

/// A notification arriving while idle — whatever its topic — triggers
/// exactly one recompute pass and leaves the loop idle, ready for the
/// next notification.
pub proof fn lemma_notification_one_pass(topic: String)
    ensures
        spec_step(LoopState::Idle, LoopEvent::Notification(topic)).0 == LoopState::Idle,
        spec_step(LoopState::Idle, LoopEvent::Notification(topic)).1 =~= seq![
            LoopAction::RunPass,
        ],
{
}

/// Fail fast: a connection failure at startup terminates the loop with
/// a single failure report — no subscription is attempted and no
/// recompute pass is run.
pub proof fn lemma_connect_failure_fail_fast()
    ensures
        spec_step(LoopState::Connecting, LoopEvent::ConnectFailed).0 == LoopState::Terminated,
        spec_step(LoopState::Connecting, LoopEvent::ConnectFailed).1 =~= seq![
            LoopAction::ReportFailure,
        ],
        forall|j: int|
            0 <= j < spec_step(LoopState::Connecting, LoopEvent::ConnectFailed).1.len()
                ==> (#[trigger] spec_step(LoopState::Connecting, LoopEvent::ConnectFailed).1[j])
                != LoopAction::RunPass && !(spec_step(
                LoopState::Connecting,
                LoopEvent::ConnectFailed,
            ).1[j] matches LoopAction::Subscribe(_)),
{
}

} // verus!
