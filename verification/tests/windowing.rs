use simple_graphics_controller::client_id::ClientId;
use simple_graphics_controller::control::ControlMessage;
use simple_graphics_controller::engine::{
    answered, AcquireOutcome, EngineCommand, EngineEvent, EngineTurn, PolicyEngine, REVOKE_TIMEOUT,
};
use simple_graphics_controller::message::{InputResource, Resource};
use simple_graphics_controller::policy::{AcquireDecision, Policy, SlotState};
use std::collections::VecDeque;
use tokio::sync::mpsc::{unbounded_channel, UnboundedReceiver};

fn fbdev() -> Resource {
    Resource::Fbdev
}

fn mouse() -> Resource {
    Resource::Input(InputResource::Mouse(0))
}

fn cid(n: u64) -> ClientId {
    ClientId::new(n)
}

fn engine(policy: Policy) -> PolicyEngine {
    PolicyEngine::spawn(vec![(fbdev(), policy)])
}

/// Registers a fake connection and returns its control receiver.
fn connect(engine: &mut PolicyEngine, id: u64) -> UnboundedReceiver<ControlMessage> {
    let (tx, rx) = unbounded_channel();
    engine.register(cid(id), tx);
    rx
}

fn next_control(rx: &mut UnboundedReceiver<ControlMessage>) -> ControlMessage {
    rx.try_recv().expect("expected a control message")
}

fn denial(outcome: AcquireOutcome) -> String {
    match outcome {
        AcquireOutcome::Denied { reason } => reason,
        other => panic!("expected a denial, got {:?}", other),
    }
}

#[test]
fn windowing_free_slot_grants_for_all_policies() {
    for policy in [Policy::FirstOwner, Policy::LatestOwner, Policy::FairQueue] {
        assert_eq!(policy.decide(SlotState::Free), AcquireDecision::Grant);
    }
}

#[test]
fn windowing_first_owner_denies_when_held() {
    let policy = Policy::FirstOwner;
    assert_eq!(policy.decide(SlotState::Granted), AcquireDecision::Deny);
    assert_eq!(policy.decide(SlotState::Revoking), AcquireDecision::Deny);
}

#[test]
fn windowing_preemptive_policies_revoke_or_queue() {
    for policy in [Policy::LatestOwner, Policy::FairQueue] {
        assert_eq!(policy.decide(SlotState::Granted), AcquireDecision::RevokeAndQueue);
        assert_eq!(policy.decide(SlotState::Revoking), AcquireDecision::Queue);
    }
}

#[test]
fn windowing_latest_owner_serves_newest_waiter_first() {
    let mut waiters: VecDeque<u32> = [10, 20, 30].into_iter().collect();
    assert_eq!(Policy::LatestOwner.pop_waiter(&mut waiters), Some(30));
    assert_eq!(Policy::LatestOwner.pop_waiter(&mut waiters), Some(20));
    assert_eq!(Policy::LatestOwner.pop_waiter(&mut waiters), Some(10));
    assert_eq!(Policy::LatestOwner.pop_waiter(&mut waiters), None);
}

#[test]
fn windowing_fair_queue_serves_oldest_waiter_first() {
    let mut waiters: VecDeque<u32> = [10, 20, 30].into_iter().collect();
    assert_eq!(Policy::FairQueue.pop_waiter(&mut waiters), Some(10));
    assert_eq!(Policy::FairQueue.pop_waiter(&mut waiters), Some(20));
    assert_eq!(Policy::FairQueue.pop_waiter(&mut waiters), Some(30));
    assert_eq!(Policy::FairQueue.pop_waiter(&mut waiters), None);
}

#[test]
fn windowing_first_owner_never_serves_waiters() {
    let mut waiters: VecDeque<u32> = [10, 20].into_iter().collect();
    assert_eq!(Policy::FirstOwner.pop_waiter(&mut waiters), None);
    assert_eq!(waiters.len(), 2, "waiter list must stay untouched");
}

#[test]
fn windowing_requeued_owner_gets_one_more_turn_after_current_waiters() {
    // Both preemptive policies: B (10) queued, then A (99) revoked and
    // requeued -> B served first, then A gets the resource back.
    for policy in [Policy::LatestOwner, Policy::FairQueue] {
        let mut waiters: VecDeque<u32> = [10].into_iter().collect();
        policy.requeue_waiter(&mut waiters, 99);
        assert_eq!(policy.pop_waiter(&mut waiters), Some(10));
        assert_eq!(policy.pop_waiter(&mut waiters), Some(99));
        assert_eq!(policy.pop_waiter(&mut waiters), None);
    }
}

#[test]
fn windowing_latest_owner_requeue_does_not_regrant_immediately() {
    // Pushing to the back would serve the revoked owner (99) before the
    // preemptor (10).
    let mut waiters: VecDeque<u32> = [10].into_iter().collect();
    Policy::LatestOwner.requeue_waiter(&mut waiters, 99);
    assert_eq!(Policy::LatestOwner.pop_waiter(&mut waiters), Some(10));
}

#[test]
fn windowing_first_owner_requeue_is_noop() {
    let mut waiters: VecDeque<u32> = [10].into_iter().collect();
    Policy::FirstOwner.requeue_waiter(&mut waiters, 99);
    assert_eq!(waiters.len(), 1, "FirstOwner never queues");
}

#[test]
fn windowing_parse_policy_names() {
    assert_eq!("first-owner".parse::<Policy>().unwrap(), Policy::FirstOwner);
    assert_eq!("latest-owner".parse::<Policy>().unwrap(), Policy::LatestOwner);
    assert_eq!("fair-queue".parse::<Policy>().unwrap(), Policy::FairQueue);
    assert!("kebab".parse::<Policy>().is_err());
}

#[test]
fn immediate_grant_when_free() {
    let mut engine = engine(Policy::FairQueue);
    let mut a = connect(&mut engine, 1);
    assert!(matches!(engine.acquire(cid(1), fbdev(), 0), AcquireOutcome::Granted));
    // Immediate grants are sent by the connection itself; nothing on control.
    assert!(a.try_recv().is_err());
}

#[test]
fn preempt_revokes_owner_then_grants_after_release() {
    let mut engine = engine(Policy::FairQueue);
    let mut a = connect(&mut engine, 1);
    let mut b = connect(&mut engine, 2);
    assert!(matches!(engine.acquire(cid(1), fbdev(), 0), AcquireOutcome::Granted));
    assert!(matches!(engine.acquire(cid(2), fbdev(), 0), AcquireOutcome::Queued));
    // A is told to leave.
    assert!(matches!(
        next_control(&mut a),
        ControlMessage::Revoke { resources } if resources == vec![fbdev()]
    ));
    // A's release hands the resource to B.
    engine.release(cid(1), fbdev());
    assert!(matches!(
        next_control(&mut b),
        ControlMessage::Grant { resources } if resources == vec![fbdev()]
    ));
}

#[test]
fn revoked_owner_is_requeued_and_gets_one_more_turn() {
    let mut engine = engine(Policy::FairQueue);
    let mut a = connect(&mut engine, 1);
    let mut b = connect(&mut engine, 2);
    engine.acquire(cid(1), fbdev(), 0);
    engine.acquire(cid(2), fbdev(), 0); // B queued, revoke sent to A
    let _ = next_control(&mut a); // revoke
    engine.release(cid(1), fbdev()); // A requeued
    let _ = next_control(&mut b); // B granted
    engine.release(cid(2), fbdev()); // B done, A gets one more turn
    assert!(matches!(next_control(&mut a), ControlMessage::Grant { .. }));
}

#[test]
fn fair_queue_serves_oldest_waiter() {
    let mut engine = engine(Policy::FairQueue);
    let mut a = connect(&mut engine, 1);
    let mut b = connect(&mut engine, 2);
    let mut c = connect(&mut engine, 3);
    engine.acquire(cid(1), fbdev(), 0);
    engine.acquire(cid(2), fbdev(), 0); // queued
    engine.acquire(cid(3), fbdev(), 0); // queued
    let _ = next_control(&mut a); // revoke A
    engine.release(cid(1), fbdev());
    // B arrived before C, so B is granted first.
    assert!(matches!(next_control(&mut b), ControlMessage::Grant { .. }));
    assert!(c.try_recv().is_err());
}

#[test]
fn latest_owner_serves_newest_waiter() {
    let mut engine = engine(Policy::LatestOwner);
    let mut a = connect(&mut engine, 1);
    let mut b = connect(&mut engine, 2);
    let mut c = connect(&mut engine, 3);
    engine.acquire(cid(1), fbdev(), 0);
    engine.acquire(cid(2), fbdev(), 0); // queued
    engine.acquire(cid(3), fbdev(), 0); // queued
    let _ = next_control(&mut a); // revoke A
    engine.release(cid(1), fbdev());
    // C arrived after B, so C is granted first.
    assert!(matches!(next_control(&mut c), ControlMessage::Grant { .. }));
    assert!(b.try_recv().is_err());
}

#[test]
fn windowing_first_owner_denies_new_acquires() {
    let mut engine = engine(Policy::FirstOwner);
    let _a = connect(&mut engine, 1);
    let _b = connect(&mut engine, 2);
    assert!(matches!(engine.acquire(cid(1), fbdev(), 0), AcquireOutcome::Granted));
    assert!(matches!(engine.acquire(cid(2), fbdev(), 0), AcquireOutcome::Denied { .. }));
}

#[test]
fn double_acquire_by_owner_is_denied() {
    let mut engine = engine(Policy::FairQueue);
    let _a = connect(&mut engine, 1);
    assert!(matches!(engine.acquire(cid(1), fbdev(), 0), AcquireOutcome::Granted));
    assert!(matches!(
        engine.acquire(cid(1), fbdev(), 0),
        AcquireOutcome::Denied { reason } if reason.contains("already owned")
    ));
}

#[test]
fn unregistered_resource_is_denied() {
    let mut engine = PolicyEngine::spawn(vec![]);
    let _a = connect(&mut engine, 1);
    assert!(matches!(
        engine.acquire(cid(1), fbdev(), 0),
        AcquireOutcome::Denied { reason } if reason.contains("not registered")
    ));
}

#[test]
fn disconnect_while_queued_removes_waiter() {
    let mut engine = engine(Policy::FairQueue);
    let _a = connect(&mut engine, 1);
    let _b = connect(&mut engine, 2);
    let mut c = connect(&mut engine, 3);
    engine.acquire(cid(1), fbdev(), 0);
    assert!(matches!(engine.acquire(cid(2), fbdev(), 0), AcquireOutcome::Queued));
    // B gives up and disconnects while queued.
    engine.disconnected(cid(2));
    engine.release(cid(1), fbdev());
    // No waiter left: a fresh acquire is granted immediately.
    assert!(matches!(engine.acquire(cid(3), fbdev(), 0), AcquireOutcome::Granted));
    assert!(c.try_recv().is_err());
}

#[test]
fn owner_disconnect_grants_queued_waiter() {
    let mut engine = engine(Policy::FairQueue);
    let mut a = connect(&mut engine, 1);
    let mut b = connect(&mut engine, 2);
    engine.acquire(cid(1), fbdev(), 0);
    engine.acquire(cid(2), fbdev(), 0); // queued, revoke sent
    let _ = next_control(&mut a); // revoke
    // A dies instead of releasing.
    engine.disconnected(cid(1));
    assert!(matches!(next_control(&mut b), ControlMessage::Grant { .. }));
}

#[test]
fn windowing_silent_owner_is_force_reclaimed_after_timeout() {
    let mut engine = engine(Policy::FairQueue);
    let mut a = connect(&mut engine, 1);
    let mut b = connect(&mut engine, 2);
    engine.acquire(cid(1), fbdev(), 0);
    engine.acquire(cid(2), fbdev(), 0); // queued, revoke sent
    let _ = next_control(&mut a); // revoke
    assert_eq!(engine.next_deadline(), Some(REVOKE_TIMEOUT));
    // A never releases; time goes past the revoke deadline.
    engine.expire(REVOKE_TIMEOUT + 1000);
    assert!(matches!(next_control(&mut b), ControlMessage::Grant { .. }));
    // A does not get another turn.
    engine.release(cid(2), fbdev());
    assert!(a.try_recv().is_err());
}

#[test]
fn denials_name_the_resource_and_the_reason() {
    let mut engine = PolicyEngine::spawn(vec![(mouse(), Policy::FirstOwner)]);
    assert_eq!(denial(engine.acquire(cid(1), fbdev(), 0)), "Fbdev is not registered");
    assert_eq!(
        denial(engine.acquire(cid(1), Resource::Drm { card: 12 }, 0)),
        "Drm { card: 12 } is not registered"
    );
    assert!(matches!(engine.acquire(cid(1), mouse(), 0), AcquireOutcome::Granted));
    assert_eq!(
        denial(engine.acquire(cid(1), mouse(), 0)),
        "Input(Mouse(0)) is already owned by this client"
    );
    assert_eq!(
        denial(engine.acquire(cid(20), mouse(), 0)),
        "Input(Mouse(0)) is owned by client 1"
    );
}

#[test]
fn grace_ends_at_the_deadline_and_not_before() {
    let mut engine = engine(Policy::FairQueue);
    let mut a = connect(&mut engine, 1);
    let mut b = connect(&mut engine, 2);
    assert_eq!(engine.next_deadline(), None);
    engine.acquire(cid(1), fbdev(), 100);
    engine.acquire(cid(2), fbdev(), 200);
    engine.acquire(cid(3), fbdev(), 900);
    let _ = next_control(&mut a);
    // The owner is asked once, and its grace is not prolonged.
    assert!(a.try_recv().is_err());
    assert_eq!(engine.next_deadline(), Some(5200));
    engine.expire(5199);
    assert!(b.try_recv().is_err());
    assert_eq!(engine.next_deadline(), Some(5200));
    engine.expire(5200);
    assert!(matches!(next_control(&mut b), ControlMessage::Grant { .. }));
    assert_eq!(engine.next_deadline(), None);
}

#[test]
fn vanished_owner_is_replaced_at_once() {
    let mut engine = engine(Policy::FairQueue);
    let mut b = connect(&mut engine, 2);
    // Client 1 owns without being registered.
    assert!(matches!(engine.acquire(cid(1), fbdev(), 0), AcquireOutcome::Granted));
    assert!(matches!(engine.acquire(cid(2), fbdev(), 0), AcquireOutcome::Queued));
    assert!(matches!(next_control(&mut b), ControlMessage::Grant { .. }));
    assert_eq!(
        denial(engine.acquire(cid(2), fbdev(), 0)),
        "Fbdev is already owned by this client"
    );
}

#[test]
fn waiter_with_a_closed_channel_is_passed_over() {
    let mut engine = engine(Policy::FairQueue);
    let mut a = connect(&mut engine, 1);
    let b = connect(&mut engine, 2);
    let mut c = connect(&mut engine, 3);
    engine.acquire(cid(1), fbdev(), 0);
    engine.acquire(cid(2), fbdev(), 0);
    engine.acquire(cid(3), fbdev(), 0);
    let _ = next_control(&mut a);
    drop(b);
    engine.release(cid(1), fbdev());
    assert!(matches!(next_control(&mut c), ControlMessage::Grant { .. }));
}

#[test]
fn release_by_someone_else_is_ignored() {
    let mut engine = engine(Policy::FairQueue);
    let mut a = connect(&mut engine, 1);
    let _b = connect(&mut engine, 2);
    engine.acquire(cid(1), fbdev(), 0);
    engine.release(cid(2), fbdev());
    engine.release(cid(1), mouse());
    assert_eq!(
        denial(engine.acquire(cid(1), fbdev(), 0)),
        "Fbdev is already owned by this client"
    );
    assert!(a.try_recv().is_err());
}

#[test]
fn asking_again_while_waiting_keeps_one_place() {
    let mut engine = engine(Policy::FairQueue);
    let mut a = connect(&mut engine, 1);
    let mut b = connect(&mut engine, 2);
    engine.acquire(cid(1), fbdev(), 0);
    engine.acquire(cid(2), fbdev(), 0);
    assert!(matches!(engine.acquire(cid(2), fbdev(), 0), AcquireOutcome::Queued));
    let _ = next_control(&mut a);
    engine.release(cid(1), fbdev());
    let _ = next_control(&mut b);
    engine.release(cid(2), fbdev());
    // Only A waited; B had one place.
    let _ = next_control(&mut a);
    assert!(b.try_recv().is_err());
}

#[test]
fn resources_are_arbitrated_separately() {
    let mut engine =
        PolicyEngine::spawn(vec![(fbdev(), Policy::FairQueue), (mouse(), Policy::FirstOwner)]);
    let mut a = connect(&mut engine, 1);
    let mut b = connect(&mut engine, 2);
    engine.acquire(cid(1), fbdev(), 0);
    assert!(matches!(engine.acquire(cid(2), mouse(), 0), AcquireOutcome::Granted));
    engine.acquire(cid(2), fbdev(), 0);
    let _ = next_control(&mut a);
    engine.disconnected(cid(1));
    assert!(matches!(next_control(&mut b), ControlMessage::Grant { .. }));
    assert_eq!(
        denial(engine.acquire(cid(3), mouse(), 0)),
        "Input(Mouse(0)) is owned by client 2"
    );
}

#[test]
fn last_policy_of_a_resource_counts() {
    let mut engine =
        PolicyEngine::spawn(vec![(fbdev(), Policy::FairQueue), (fbdev(), Policy::FirstOwner)]);
    let _a = connect(&mut engine, 1);
    engine.acquire(cid(1), fbdev(), 0);
    assert_eq!(denial(engine.acquire(cid(2), fbdev(), 0)), "Fbdev is owned by client 1");
}

#[test]
fn turns_answer_acquires_only() {
    let mut engine = engine(Policy::FairQueue);
    let (tx, mut a) = unbounded_channel();
    let register = EngineCommand::Register { client: cid(1), control: tx };
    assert!(matches!(
        engine.step(EngineEvent::Command(register), 0),
        EngineTurn::Continue { reply: None }
    ));
    let acquire = EngineCommand::Acquire { client: cid(1), resource: fbdev() };
    assert!(matches!(
        engine.step(EngineEvent::Command(acquire), 0),
        EngineTurn::Continue { reply: Some(AcquireOutcome::Granted) }
    ));
    let other = EngineCommand::Acquire { client: cid(2), resource: fbdev() };
    assert!(matches!(engine.handle_command(other, 7), Some(AcquireOutcome::Queued)));
    let _ = next_control(&mut a);
    assert_eq!(engine.next_deadline(), Some(5007));
    assert!(matches!(
        engine.step(EngineEvent::Elapsed, 5007),
        EngineTurn::Continue { reply: None }
    ));
    assert_eq!(engine.next_deadline(), None);
    let release = EngineCommand::Release { client: cid(2), resource: fbdev() };
    assert!(engine.handle_command(release, 5007).is_none());
    let gone = EngineCommand::Disconnected { client: cid(1) };
    assert!(engine.handle_command(gone, 5007).is_none());
    assert!(matches!(engine.step(EngineEvent::Closed, 5007), EngineTurn::Stop));
}

#[test]
fn silent_engine_is_a_denial() {
    assert_eq!(denial(answered(None)), "policy engine unavailable");
    assert!(matches!(answered(Some(AcquireOutcome::Queued)), AcquireOutcome::Queued));
}
