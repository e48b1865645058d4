//! The arbitration policy: given a slot's state, decide what an acquire
//! does (grant, preempt and queue, queue, deny) and how waiters are served
//! when the resource frees. No mechanism here; the engine enforces.

use crate::text;
use std::collections::VecDeque;
use std::str::FromStr;
use vstd::prelude::*;

verus! {

/// Lifecycle state of a resource slot, as visible to the policy layer.
#[derive(Debug, Clone, Copy, PartialEq, Eq, Structural)]
pub enum SlotState {
    /// No owner; the next acquire is granted immediately.
    Free,
    /// Some client owns the resource.
    Granted,
    /// A revoke was sent to the owner; its release is awaited.
    Revoking,
}

/// Outcome of a policy decision for an acquire.
#[derive(Debug, Clone, Copy, PartialEq, Eq, Structural)]
pub enum AcquireDecision {
    /// Slot is free; grant immediately.
    Grant,
    /// Preempt the current owner (send a revoke) and join the waiters.
    RevokeAndQueue,
    /// A revoke is already in flight; join the waiters.
    Queue,
    /// Hard denial, no waiting.
    Deny,
}

/// Arbitration policy for a resource.
#[derive(Debug, Clone, Copy, PartialEq, Eq, Structural)]
pub enum Policy {
    /// The first acquirer holds until it releases or disconnects; later
    /// acquires are denied.
    FirstOwner,
    /// The newest acquirer preempts the current owner; waiters are served
    /// newest first.
    LatestOwner,
    /// The newest acquirer preempts; waiters are served oldest first, so
    /// that newer applications cannot starve older waiters.
    FairQueue,
}

/// The name given for a policy is none of the known ones.
#[derive(Debug, Clone)]
pub struct UnknownPolicy {
    pub name: String,
}

/// What an acquire meets under `policy` in `state`.
pub open spec fn decision(policy: Policy, state: SlotState) -> AcquireDecision {
    if state is Free {
        AcquireDecision::Grant
    } else if policy is FirstOwner {
        AcquireDecision::Deny
    } else if state is Granted {
        AcquireDecision::RevokeAndQueue
    } else {
        AcquireDecision::Queue
    }
}

/// The waiters in the order in which `policy` serves them.
pub open spec fn service_order<T>(policy: Policy, waiters: Seq<T>) -> Seq<T> {
    match policy {
        Policy::FirstOwner => Seq::empty(),
        Policy::LatestOwner => waiters.reverse(),
        Policy::FairQueue => waiters,
    }
}

/// The waiters once the first of the service order is gone.
pub open spec fn without_first<T>(policy: Policy, waiters: Seq<T>) -> Seq<T> {
    if service_order(policy, waiters).len() == 0 {
        waiters
    } else if policy is LatestOwner {
        waiters.drop_last()
    } else {
        waiters.drop_first()
    }
}

/// The waiters once a revoked owner has been put back among them.
pub open spec fn requeued<T>(policy: Policy, waiters: Seq<T>, waiter: T) -> Seq<T> {
    match policy {
        Policy::FirstOwner => waiters,
        Policy::LatestOwner => seq![waiter] + waiters,
        Policy::FairQueue => waiters.push(waiter),
    }
}

/// The policy of a given name.
pub open spec fn policy_named(name: Seq<char>) -> Option<Policy> {
    if name == "first-owner"@ {
        Some(Policy::FirstOwner)
    } else if name == "latest-owner"@ {
        Some(Policy::LatestOwner)
    } else if name == "fair-queue"@ {
        Some(Policy::FairQueue)
    } else {
        None
    }
}

impl Policy {
    /// What happens to an acquire given the current slot state.
    pub fn decide(&self, state: SlotState) -> (decided: AcquireDecision)
        ensures
            decided == decision(*self, state),
    {
        match (self, state) {
            (_, SlotState::Free) => AcquireDecision::Grant,
            (Policy::FirstOwner, _) => AcquireDecision::Deny,
            (_, SlotState::Granted) => AcquireDecision::RevokeAndQueue,
            (_, SlotState::Revoking) => AcquireDecision::Queue,
        }
    }

    /// Which waiter gets the resource when it frees.
    pub fn pop_waiter<T>(&self, waiters: &mut VecDeque<T>) -> (waiter: Option<T>)
        ensures
            ({
                let order = service_order(*self, old(waiters)@);
                if order.len() == 0 {
                    waiter is None
                } else {
                    waiter == Some(order[0])
                }
            }),
            final(waiters)@ == without_first(*self, old(waiters)@),
            service_order(*self, old(waiters)@).len() > 0 ==> service_order(
                *self,
                final(waiters)@,
            ) == service_order(*self, old(waiters)@).drop_first(),
    {
        match self {
            // Never queues, so never serves waiters.
            Policy::FirstOwner => None,
            // Newest requester first.
            Policy::LatestOwner => waiters.pop_back(),
            // Oldest requester first.
            Policy::FairQueue => waiters.pop_front(),
        }
    }

    /// Requeues a client that was just revoked (it released after a revoke),
    /// so that it gets one more turn after everyone currently waiting.
    ///
    /// It is placed at the far end from where `pop_waiter` pops: pushing it
    /// to the back would hand the resource straight back to the revoked
    /// owner where the newest waiter is served first.
    pub fn requeue_waiter<T>(&self, waiters: &mut VecDeque<T>, waiter: T)
        ensures
            final(waiters)@ == requeued(*self, old(waiters)@, waiter),
    {
        match self {
            // Never queues, so never requeues.
            Policy::FirstOwner => {},
            // The back is served first; served last is the front.
            Policy::LatestOwner => waiters.push_front(waiter),
            // The front is served first; served last is the back.
            Policy::FairQueue => waiters.push_back(waiter),
        }
        assert(final(waiters)@ =~= requeued(*self, old(waiters)@, waiter));
    }

    /// The policy of the given name: `first-owner`, `latest-owner` or
    /// `fair-queue`.
    pub fn parse(name: &str) -> (parsed: Result<Self, UnknownPolicy>)
        ensures
            match policy_named(name@) {
                Some(policy) => parsed == Ok::<Policy, UnknownPolicy>(policy),
                None => parsed matches Err(e) && e.name@ == name@,
            },
    {
        if text::same_text(name, "first-owner") {
            Ok(Policy::FirstOwner)
        } else if text::same_text(name, "latest-owner") {
            Ok(Policy::LatestOwner)
        } else if text::same_text(name, "fair-queue") {
            Ok(Policy::FairQueue)
        } else {
            Err(UnknownPolicy { name: name.to_string() })
        }
    }

    /// The policy that the server runs under: the configured one, or
    /// fair queueing where none is configured.
    pub fn configured(value: Option<&str>) -> (chosen: Result<Self, UnknownPolicy>)
        ensures
            match value {
                None => chosen == Ok::<Policy, UnknownPolicy>(Policy::FairQueue),
                Some(name) => match policy_named(name@) {
                    Some(policy) => chosen == Ok::<Policy, UnknownPolicy>(policy),
                    None => chosen matches Err(e) && e.name@ == name@,
                },
            },
    {
        match value {
            Some(name) => Policy::parse(name),
            None => Ok(Policy::FairQueue),
        }
    }
}

impl FromStr for Policy {
    type Err = UnknownPolicy;

    /// The policy of the given name, as `Policy::parse` gives it.
    fn from_str(s: &str) -> (parsed: Result<Self, Self::Err>)
        ensures
            match policy_named(s@) {
                Some(policy) => parsed == Ok::<Policy, UnknownPolicy>(policy),
                None => parsed matches Err(e) && e.name@ == s@,
            },
    {
        Policy::parse(s)
    }
}

/// A free slot grants under every policy.
pub proof fn free_slot_grants(policy: Policy)
    ensures
        decision(policy, SlotState::Free) == AcquireDecision::Grant,
{
}

/// A held resource is denied under `FirstOwner`, and never denied under the
/// two preemptive policies.
pub proof fn only_first_owner_denies(policy: Policy, state: SlotState)
    requires
        !(state is Free),
    ensures
        decision(policy, state) == AcquireDecision::Deny <==> policy is FirstOwner,
{
}

/// A requeued client gets one more turn, after everyone who is waiting.
pub proof fn requeued_is_served_last<T>(policy: Policy, waiters: Seq<T>, waiter: T)
    requires
        !(policy is FirstOwner),
    ensures
        service_order(policy, requeued(policy, waiters, waiter)) == service_order(
            policy,
            waiters,
        ).push(waiter),
{
    assert(service_order(policy, requeued(policy, waiters, waiter)) =~= service_order(
        policy,
        waiters,
    ).push(waiter));
}

/// Under `FairQueue` a newcomer is served after everyone who is waiting, so
/// it delays none of them.
pub proof fn fair_queue_serves_newcomer_last<T>(waiters: Seq<T>, newcomer: T)
    ensures
        service_order(Policy::FairQueue, waiters.push(newcomer)) == service_order(
            Policy::FairQueue,
            waiters,
        ).push(newcomer),
{
}

/// Under `LatestOwner` a newcomer is served before everyone who is waiting.
pub proof fn latest_owner_serves_newcomer_first<T>(waiters: Seq<T>, newcomer: T)
    ensures
        service_order(Policy::LatestOwner, waiters.push(newcomer)) == seq![newcomer]
            + service_order(Policy::LatestOwner, waiters),
{
    assert(service_order(Policy::LatestOwner, waiters.push(newcomer)) =~= seq![newcomer]
        + service_order(Policy::LatestOwner, waiters));
}

/// Serving removes exactly the first of the service order.
pub proof fn serving_advances_the_order<T>(policy: Policy, waiters: Seq<T>)
    requires
        service_order(policy, waiters).len() > 0,
    ensures
        service_order(policy, without_first(policy, waiters)) == service_order(
            policy,
            waiters,
        ).drop_first(),
{
    assert(service_order(policy, without_first(policy, waiters)) =~= service_order(
        policy,
        waiters,
    ).drop_first());
}

/// Who is served next: the one who has waited longest under `FairQueue`, the
/// one who came last under `LatestOwner`, nobody under `FirstOwner`.
pub proof fn policies_differ_in_who_is_next<T>(waiters: Seq<T>, i: int)
    requires
        0 <= i < waiters.len(),
    ensures
        service_order(Policy::FairQueue, waiters).len() == waiters.len(),
        service_order(Policy::FairQueue, waiters)[i] == waiters[i],
        service_order(Policy::LatestOwner, waiters).len() == waiters.len(),
        service_order(Policy::LatestOwner, waiters)[waiters.len() - 1 - i] == waiters[i],
        service_order(Policy::FirstOwner, waiters).len() == 0,
{
}

/// Under the preemptive policies an owner is asked to leave when the first
/// client comes to wait, and not again while that is in flight.
pub proof fn preemption_is_asked_for_once(policy: Policy)
    requires
        !(policy is FirstOwner),
    ensures
        decision(policy, SlotState::Granted) == AcquireDecision::RevokeAndQueue,
        decision(policy, SlotState::Revoking) == AcquireDecision::Queue,
{
}

/// Serving leaves the others as they are: the one served is gone from its
/// end of the queue, and nobody else.
pub proof fn serving_takes_one_waiter<T>(waiters: Seq<T>)
    requires
        waiters.len() > 0,
    ensures
        waiters == seq![waiters[0]] + without_first(Policy::FairQueue, waiters),
        waiters == without_first(Policy::LatestOwner, waiters).push(waiters.last()),
        waiters == without_first(Policy::FirstOwner, waiters),
{
    assert(waiters =~= seq![waiters[0]] + without_first(Policy::FairQueue, waiters));
    assert(waiters =~= without_first(Policy::LatestOwner, waiters).push(waiters.last()));
}

/// Each policy has one name, and no other text names a policy.
pub proof fn each_policy_has_one_name(name: Seq<char>)
    ensures
        policy_named(name) == Some(Policy::FirstOwner) <==> name == "first-owner"@,
        policy_named(name) == Some(Policy::LatestOwner) <==> name == "latest-owner"@,
        policy_named(name) == Some(Policy::FairQueue) <==> name == "fair-queue"@,
        policy_named(name) is None <==> name != "first-owner"@ && name != "latest-owner"@ && name
            != "fair-queue"@,
{
    reveal_strlit("first-owner");
    reveal_strlit("latest-owner");
    reveal_strlit("fair-queue");
    assert("first-owner"@.len() == 11);
    assert("latest-owner"@.len() == 12);
    assert("fair-queue"@.len() == 10);
}

} // verus!
