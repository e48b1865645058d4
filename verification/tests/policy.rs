use simple_graphics_controller::policy::{AcquireDecision, Policy, SlotState};
use std::collections::VecDeque;

#[test]
fn policy_free_slot_grants_for_all_policies() {
    for policy in [Policy::FirstOwner, Policy::LatestOwner, Policy::FairQueue] {
        assert_eq!(policy.decide(SlotState::Free), AcquireDecision::Grant);
    }
}

#[test]
fn policy_first_owner_denies_when_held() {
    let policy = Policy::FirstOwner;
    assert_eq!(policy.decide(SlotState::Granted), AcquireDecision::Deny);
    assert_eq!(policy.decide(SlotState::Revoking), AcquireDecision::Deny);
}

#[test]
fn policy_preemptive_policies_revoke_or_queue() {
    for policy in [Policy::LatestOwner, Policy::FairQueue] {
        assert_eq!(policy.decide(SlotState::Granted), AcquireDecision::RevokeAndQueue);
        assert_eq!(policy.decide(SlotState::Revoking), AcquireDecision::Queue);
    }
}

#[test]
fn policy_latest_owner_serves_newest_waiter_first() {
    let mut waiters: VecDeque<u32> = [10, 20, 30].into_iter().collect();
    assert_eq!(Policy::LatestOwner.pop_waiter(&mut waiters), Some(30));
    assert_eq!(Policy::LatestOwner.pop_waiter(&mut waiters), Some(20));
    assert_eq!(Policy::LatestOwner.pop_waiter(&mut waiters), Some(10));
    assert_eq!(Policy::LatestOwner.pop_waiter(&mut waiters), None);
}

#[test]
fn policy_fair_queue_serves_oldest_waiter_first() {
    let mut waiters: VecDeque<u32> = [10, 20, 30].into_iter().collect();
    assert_eq!(Policy::FairQueue.pop_waiter(&mut waiters), Some(10));
    assert_eq!(Policy::FairQueue.pop_waiter(&mut waiters), Some(20));
    assert_eq!(Policy::FairQueue.pop_waiter(&mut waiters), Some(30));
    assert_eq!(Policy::FairQueue.pop_waiter(&mut waiters), None);
}

#[test]
fn policy_first_owner_never_serves_waiters() {
    let mut waiters: VecDeque<u32> = [10, 20].into_iter().collect();
    assert_eq!(Policy::FirstOwner.pop_waiter(&mut waiters), None);
    assert_eq!(waiters.len(), 2, "waiter list must stay untouched");
}

#[test]
fn policy_requeued_owner_gets_one_more_turn_after_current_waiters() {
    // Both preemptive policies: B (10) queued, then A (99) revoked and
    // requeued -> B served first, then A gets the resource back.
    for policy in [Policy::LatestOwner, Policy::FairQueue] {
        let mut waiters: VecDeque<u32> = [10].into_iter().collect();
        policy.requeue_waiter(&mut waiters, 99);
        assert_eq!(policy.pop_waiter(&mut waiters), Some(10));
        assert_eq!(policy.pop_waiter(&mut waiters), Some(99));
        assert_eq!(policy.pop_waiter(&mut waiters), None);
    }
}

#[test]
fn policy_latest_owner_requeue_does_not_regrant_immediately() {
    // Pushing to the back would serve the revoked owner (99) before the
    // preemptor (10).
    let mut waiters: VecDeque<u32> = [10].into_iter().collect();
    Policy::LatestOwner.requeue_waiter(&mut waiters, 99);
    assert_eq!(Policy::LatestOwner.pop_waiter(&mut waiters), Some(10));
}

#[test]
fn policy_first_owner_requeue_is_noop() {
    let mut waiters: VecDeque<u32> = [10].into_iter().collect();
    Policy::FirstOwner.requeue_waiter(&mut waiters, 99);
    assert_eq!(waiters.len(), 1, "FirstOwner never queues");
}

#[test]
fn policy_parse_policy_names() {
    assert_eq!("first-owner".parse::<Policy>().unwrap(), Policy::FirstOwner);
    assert_eq!("latest-owner".parse::<Policy>().unwrap(), Policy::LatestOwner);
    assert_eq!("fair-queue".parse::<Policy>().unwrap(), Policy::FairQueue);
    assert!("kebab".parse::<Policy>().is_err());
}

#[test]
fn unset_policy_is_fair_queue() {
    assert_eq!(Policy::configured(None).unwrap(), Policy::FairQueue);
    assert_eq!(Policy::configured(Some("first-owner")).unwrap(), Policy::FirstOwner);
    assert_eq!(Policy::configured(Some("kebab")).unwrap_err().name, "kebab");
    assert_eq!(Policy::parse("Fair-Queue").unwrap_err().name, "Fair-Queue");
    assert!(Policy::parse("").is_err());
}

#[test]
fn newcomer_place_depends_on_the_policy() {
    let mut fair: VecDeque<u32> = [1, 2].into_iter().collect();
    fair.push_back(3);
    assert_eq!(Policy::FairQueue.pop_waiter(&mut fair), Some(1));
    assert_eq!(fair, [2, 3].into_iter().collect::<VecDeque<u32>>());
    let mut latest: VecDeque<u32> = [1, 2].into_iter().collect();
    latest.push_back(3);
    assert_eq!(Policy::LatestOwner.pop_waiter(&mut latest), Some(3));
    assert_eq!(latest, [1, 2].into_iter().collect::<VecDeque<u32>>());
}

#[test]
fn unknown_policy_names_what_was_given() {
    assert_eq!("kebab".parse::<Policy>().unwrap_err().name, "kebab");
    assert_eq!("".parse::<Policy>().unwrap_err().name, "");
    assert_eq!("Fair-Queue".parse::<Policy>().unwrap_err().name, "Fair-Queue");
}
