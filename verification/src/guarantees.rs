//! What the engine guarantees its clients, whatever they do.

use crate::client_id::ClientId;
use crate::control::Channels;
use crate::engine::{AcquireOutcome, EngineView};
use crate::message::Resource;
use crate::slot::{SlotView, Waiter};
use crate::{control, engine, policy, slot};
use vstd::prelude::*;

verus! {

/// A free resource is granted at once.
pub proof fn free_resource_is_granted(
    before: EngineView,
    client: ClientId,
    resource: Resource,
    now: u64,
    after: EngineView,
    outcome: AcquireOutcome,
)
    requires
        before.slots.contains_key(resource),
        before.slots[resource].owner is None,
        engine::acquire_effect(before, client, resource, now, after, outcome),
    ensures
        outcome is Granted,
        after.slots[resource].owner == Some(client),
        after.channels == before.channels,
{
}

/// A client is granted a resource at once only where it was free.
pub proof fn only_free_resources_are_granted(
    before: EngineView,
    client: ClientId,
    resource: Resource,
    now: u64,
    after: EngineView,
    outcome: AcquireOutcome,
)
    requires
        engine::acquire_effect(before, client, resource, now, after, outcome),
        outcome is Granted,
    ensures
        before.slots.contains_key(resource),
        before.slots[resource].owner is None,
{
}

/// A denial changes nothing.
pub proof fn denial_changes_nothing(
    before: EngineView,
    client: ClientId,
    resource: Resource,
    now: u64,
    after: EngineView,
    outcome: AcquireOutcome,
)
    requires
        engine::acquire_effect(before, client, resource, now, after, outcome),
        outcome is Denied,
    ensures
        after == before,
{
}

/// Under `FirstOwner` a held resource is denied to everyone, and its owner
/// keeps it.
pub proof fn first_owner_is_never_preempted(
    before: EngineView,
    client: ClientId,
    resource: Resource,
    now: u64,
    after: EngineView,
    outcome: AcquireOutcome,
)
    requires
        before.slots.contains_key(resource),
        before.slots[resource].policy is FirstOwner,
        before.slots[resource].owner is Some,
        engine::acquire_effect(before, client, resource, now, after, outcome),
    ensures
        outcome is Denied,
        after == before,
{
}

/// Under the preemptive policies a client that asks for a resource which
/// another client holds is never denied: it waits.
pub proof fn held_resource_is_waited_for(
    before: EngineView,
    client: ClientId,
    resource: Resource,
    now: u64,
    after: EngineView,
    outcome: AcquireOutcome,
)
    requires
        before.slots.contains_key(resource),
        !(before.slots[resource].policy is FirstOwner),
        before.slots[resource].owner is Some,
        before.slots[resource].owner != Some(client),
        engine::acquire_effect(before, client, resource, now, after, outcome),
    ensures
        outcome is Queued,
{
}

/// Acquiring a resource that a registered client holds does not take it
/// away: the owner stays until it releases, disconnects or lets its grace
/// pass.
pub proof fn acquire_does_not_evict(
    before: EngineView,
    client: ClientId,
    resource: Resource,
    now: u64,
    after: EngineView,
    outcome: AcquireOutcome,
)
    requires
        before.well_formed(),
        before.slots.contains_key(resource),
        before.slots[resource].owner matches Some(owner) && before.channels.contains_key(owner),
        engine::acquire_effect(before, client, resource, now, after, outcome),
    ensures
        after.slots[resource].owner == before.slots[resource].owner,
{
}

/// An acquire joins the waiters at the end of the service order under
/// `FairQueue`, so that it overtakes none of them, and at its start under
/// `LatestOwner`. The others keep their places.
pub proof fn newcomer_takes_its_place(
    before: EngineView,
    client: ClientId,
    resource: Resource,
    now: u64,
    after: EngineView,
    outcome: AcquireOutcome,
)
    requires
        before.slots.contains_key(resource),
        before.slots[resource].owner matches Some(owner) && before.channels.contains_key(owner),
        !before.slots[resource].has_waiter(client),
        engine::acquire_effect(before, client, resource, now, after, outcome),
        outcome is Queued,
    ensures
        ({
            let slot = before.slots[resource];
            let order = policy::service_order(slot.policy, slot.waiters);
            let order_after = policy::service_order(
                after.slots[resource].policy,
                after.slots[resource].waiters,
            );
            &&& slot.policy is FairQueue ==> order_after == order.push(Waiter { client })
            &&& slot.policy is LatestOwner ==> order_after == seq![Waiter { client }] + order
        }),
{
    let slot = before.slots[resource];
    if slot.policy is LatestOwner {
        policy::latest_owner_serves_newcomer_first(slot.waiters, Waiter { client });
    }
}

/// An owner is asked to leave once: while a revoke is in flight, acquires
/// send nothing and do not prolong its grace.
pub proof fn owner_is_asked_once(
    before: EngineView,
    client: ClientId,
    resource: Resource,
    now: u64,
    after: EngineView,
    outcome: AcquireOutcome,
)
    requires
        before.slots.contains_key(resource),
        before.slots[resource].owner is Some,
        before.slots[resource].revoke_deadline is Some,
        engine::acquire_effect(before, client, resource, now, after, outcome),
    ensures
        after.channels == before.channels,
        after.slots[resource].revoke_deadline == before.slots[resource].revoke_deadline,
{
}

/// The first client to wait for a resource has its owner asked to leave,
/// within the grace.
pub proof fn first_waiter_starts_the_revoke(
    before: EngineView,
    client: ClientId,
    resource: Resource,
    now: u64,
    after: EngineView,
    outcome: AcquireOutcome,
    owner: ClientId,
)
    requires
        before.slots.contains_key(resource),
        before.slots[resource].owner == Some(owner),
        before.slots[resource].revoke_deadline is None,
        !before.slots[resource].has_waiter(client),
        before.channels.contains_key(owner),
        now + engine::REVOKE_TIMEOUT <= u64::MAX,
        engine::acquire_effect(before, client, resource, now, after, outcome),
        outcome is Queued,
    ensures
        after.slots[resource].revoke_deadline == Some((now + engine::REVOKE_TIMEOUT) as u64),
        exists|taken: bool|
            after.channels[owner] == #[trigger] before.channels[owner].push(
                slot::revoke_offer(resource, taken),
            ),
{
    let taken = choose|taken: bool|
        after.channels == #[trigger] control::offered(
            before.channels,
            owner,
            slot::revoke_offer(resource, taken),
        );
    assert(after.channels[owner] == before.channels[owner].push(
        slot::revoke_offer(resource, taken),
    ));
}

/// A client that asks again while it waits keeps its position.
pub proof fn asking_again_keeps_the_position(
    before: EngineView,
    client: ClientId,
    resource: Resource,
    now: u64,
    after: EngineView,
    outcome: AcquireOutcome,
)
    requires
        before.well_formed(),
        before.slots.contains_key(resource),
        before.slots[resource].has_waiter(client),
        engine::acquire_effect(before, client, resource, now, after, outcome),
    ensures
        outcome is Queued,
        after == before,
{
    let slot = before.slots[resource];
    assert(slot.well_formed());
    let i = choose|i: int| 0 <= i < slot.waiters.len() && slot.waiters[i] == Waiter { client };
}

/// Only the owner can release: what anyone else releases changes nothing.
pub proof fn only_the_owner_releases(
    before: EngineView,
    client: ClientId,
    resource: Resource,
    after: EngineView,
)
    requires
        engine::release_effect(before, client, resource, after),
        before.slots.contains_key(resource) ==> before.slots[resource].owner != Some(client),
    ensures
        after == before,
{
}

/// Releasing a resource that nobody waits for frees it; the client that
/// released it is not granted it again.
pub proof fn release_without_waiters_frees(
    before: EngineView,
    client: ClientId,
    resource: Resource,
    after: EngineView,
)
    requires
        before.slots.contains_key(resource),
        before.slots[resource].owner == Some(client),
        before.slots[resource].waiters.len() == 0,
        engine::release_effect(before, client, resource, after),
    ensures
        after.slots[resource] == SlotView::fresh(before.slots[resource].policy),
        after.channels == before.channels,
{
    let freed = before.slots[resource].freed();
    let k = choose|k: int| #[trigger]
        slot::handed_over_after(
            resource,
            freed,
            before.channels,
            after.slots[resource],
            after.channels,
            k,
        );
    assert(policy::service_order(freed.policy, freed.waiters).len() == 0);
    assert(after.slots[resource].waiters =~= Seq::empty());
    assert(after.slots[resource] =~= SlotView::fresh(before.slots[resource].policy));
}

/// Acquiring a free resource and releasing it again leaves everything as it
/// was; so does a grant that is rolled back.
pub proof fn release_undoes_acquire(
    before: EngineView,
    client: ClientId,
    resource: Resource,
    now: u64,
    between: EngineView,
    outcome: AcquireOutcome,
    after: EngineView,
)
    requires
        before.well_formed(),
        engine::acquire_effect(before, client, resource, now, between, outcome),
        outcome is Granted,
        engine::release_effect(between, client, resource, after),
    ensures
        after == before,
{
    let slot = before.slots[resource];
    assert(slot.well_formed());
    assert(slot.waiters =~= Seq::empty());
    release_without_waiters_frees(between, client, resource, after);
    assert(slot =~= SlotView::fresh(slot.policy));
    assert(after.slots =~= before.slots);
    assert(after =~= before);
}

/// A released resource goes to the first waiter in service order, where
/// that waiter is registered and its channel takes the grant; otherwise the
/// waiter was now offered it once, in vain, or is not registered.
pub proof fn release_serves_the_first_waiter(
    before: EngineView,
    client: ClientId,
    resource: Resource,
    after: EngineView,
    next: ClientId,
)
    requires
        before.well_formed(),
        before.slots.contains_key(resource),
        before.slots[resource].owner == Some(client),
        engine::release_effect(before, client, resource, after),
        ({
            let slot = before.slots[resource];
            let order = policy::service_order(slot.policy, slot.waiters);
            order.len() > 0 && order[0] == (Waiter { client: next })
        }),
    ensures
        ({
            ||| after.slots[resource].owner == Some(next)
            ||| !before.channels.contains_key(next)
            ||| after.channels[next] == before.channels[next].push(
                slot::grant_offer(resource, false),
            )
        }),
{
    let slot = before.slots[resource];
    let rest = engine::relinquished(slot);
    let order = policy::service_order(rest.policy, rest.waiters);
    let k = choose|k: int| #[trigger]
        slot::handed_over_after(
            resource,
            rest,
            before.channels,
            after.slots[resource],
            after.channels,
            k,
        );
    assert(slot.well_formed());
    if slot.revoke_deadline is Some {
        policy::requeued_is_served_last(slot.policy, slot.waiters, Waiter { client });
    }
    assert(order[0] == Waiter { client: next });
    engine::requeueing_keeps_waiters_distinct(slot, client);
    assert forall|i: int| 0 < i < order.len() implies (#[trigger] order[i]).client != next by {
        if order[i].client == next {
            assert(order[i] == order[0]);
            if rest.policy is LatestOwner {
                let last = rest.waiters.len() - 1;
                assert(rest.waiters[last - i] == rest.waiters[last]);
            } else {
                assert(rest.waiters[i] == rest.waiters[0]);
            }
        }
    }
    if k > 0 && before.channels.contains_key(next) {
        first_is_refused_once(before.channels, resource, order, k);
    }
}

/// Where the first of `order` does not occur again in it, it was offered the
/// resource once when the first `k` were passed over.
proof fn first_is_refused_once(channels: Channels, resource: Resource, order: Seq<Waiter>, k: int)
    requires
        0 < k <= order.len(),
        channels.contains_key(order[0].client),
        forall|i: int| 0 < i < order.len() ==> (#[trigger] order[i]).client != order[0].client,
    ensures
        ({
            let first = order[0].client;
            let passed = slot::refused(channels, resource, order, k);
            &&& passed.contains_key(first)
            &&& passed[first] == channels[first].push(slot::grant_offer(resource, false))
        }),
    decreases k,
{
    if k > 1 {
        first_is_refused_once(channels, resource, order, k - 1);
        assert(order[k - 1].client != order[0].client);
    } else {
        assert(slot::refused(channels, resource, order, 0) == channels);
    }
}

/// An owner who releases because it was asked to waits for one more turn,
/// after everyone who was waiting.
pub proof fn revoked_owner_gets_one_more_turn(slot: SlotView, client: ClientId)
    requires
        slot.well_formed(),
        slot.owner == Some(client),
        slot.revoke_deadline is Some,
        slot.waiters.len() > 0,
    ensures
        policy::service_order(slot.policy, engine::relinquished(slot).waiters)
            == policy::service_order(slot.policy, slot.waiters).push(Waiter { client }),
{
    policy::requeued_is_served_last(slot.policy, slot.waiters, Waiter { client });
}

/// What a client acquires or releases does not touch the other resources.
pub proof fn other_resources_are_untouched(
    before: EngineView,
    client: ClientId,
    resource: Resource,
    now: u64,
    after: EngineView,
    outcome: AcquireOutcome,
    other: Resource,
)
    requires
        other != resource,
        engine::acquire_effect(before, client, resource, now, after, outcome)
            || engine::release_effect(before, client, resource, after),
    ensures
        after.slots.contains_key(other) == before.slots.contains_key(other),
        before.slots.contains_key(other) ==> after.slots[other] == before.slots[other],
{
}

/// A client whose connection ended owns nothing, waits for nothing and is
/// sent nothing.
pub proof fn departed_client_is_gone(before: EngineView, client: ClientId, after: EngineView)
    requires
        before.well_formed(),
        engine::disconnect_effect(before, client, after),
    ensures
        !after.involves(client),
        !after.channels.contains_key(client),
{
    let effect: engine::SlotEffect =
        |r: Resource, s: SlotView, c: Channels, s2: SlotView, c2: Channels|
        engine::departure_effect(client, r, s, c, s2, c2);
    let (order, trace) = choose|order: Seq<Resource>, trace: Seq<Channels>|
        #![trigger engine::swept_along(before.slots, after.slots, effect, order, trace)]
        engine::swept_along(before.slots, after.slots, effect, order, trace) && trace[0]
            == before.channels.remove(client) && trace.last() == after.channels;
    assert forall|i: int| 0 <= i < order.len() implies ({
        let slot = #[trigger] after.slots[order[i]];
        slot.owner != Some(client) && !slot.has_waiter(client) && trace[i + 1].dom()
            == trace[i].dom()
    }) by {
        assert(order.contains(order[i]));
        assert(before.slots.contains_key(order[i]));
        engine::departure_keeps_slot_well_formed(
            client,
            order[i],
            before.slots[order[i]],
            trace[i],
            after.slots[order[i]],
            trace[i + 1],
        );
    }
    if after.involves(client) {
        let resource = choose|resource: Resource|
            after.slots.contains_key(resource) && {
                ||| (#[trigger] after.slots[resource]).owner == Some(client)
                ||| after.slots[resource].has_waiter(client)
            };
        assert(before.slots.contains_key(resource));
        assert(order.contains(resource));
        let i = choose|i: int| 0 <= i < order.len() && order[i] == resource;
        assert(after.slots[order[i]].owner != Some(client));
    }
    assert forall|i: int| 0 <= i < trace.len() - 1 implies #[trigger] same_clients(trace, i) by {
        let slot = after.slots[order[i]];
    }
    sweep_keeps_clients(trace, order.len() as int);
}

/// Step `i` of a sweep registered no client and forgot none.
spec fn same_clients(trace: Seq<Channels>, i: int) -> bool {
    trace[i + 1].dom() == trace[i].dom()
}

proof fn sweep_keeps_clients(trace: Seq<Channels>, n: int)
    requires
        0 <= n < trace.len(),
        forall|i: int| 0 <= i < trace.len() - 1 ==> #[trigger] same_clients(trace, i),
    ensures
        trace[n].dom() == trace[0].dom(),
    decreases n,
{
    if n > 0 {
        sweep_keeps_clients(trace, n - 1);
        assert(same_clients(trace, n - 1));
    }
}

/// Once time has passed up to `now`, no revoke is overdue, and an owner who
/// let its grace pass neither owns the resource nor waits for it.
pub proof fn silent_owner_is_reclaimed(
    before: EngineView,
    now: u64,
    after: EngineView,
    resource: Resource,
)
    requires
        before.well_formed(),
        engine::expire_effect(before, now, after),
        before.slots.contains_key(resource),
    ensures
        after.slots.contains_key(resource),
        after.slots[resource].revoke_deadline matches Some(deadline) ==> now < deadline,
        before.slots[resource].revoke_deadline matches Some(deadline) ==> deadline <= now ==> {
            &&& after.slots[resource].owner != before.slots[resource].owner
            &&& !after.slots[resource].has_waiter(before.slots[resource].owner->0)
        },
{
    let effect: engine::SlotEffect =
        |r: Resource, s: SlotView, c: Channels, s2: SlotView, c2: Channels|
        engine::expiry_effect(now, r, s, c, s2, c2);
    let (order, trace) = choose|order: Seq<Resource>, trace: Seq<Channels>|
        #![trigger engine::swept_along(before.slots, after.slots, effect, order, trace)]
        engine::swept_along(before.slots, after.slots, effect, order, trace) && trace[0]
            == before.channels && trace.last() == after.channels;
    assert(order.contains(resource));
    let i = choose|i: int| 0 <= i < order.len() && order[i] == resource;
    assert(effect(
        order[i],
        before.slots[order[i]],
        trace[i],
        after.slots[order[i]],
        trace[i + 1],
    ));
    engine::expiry_keeps_slot_well_formed(
        now,
        resource,
        before.slots[resource],
        trace[i],
        after.slots[resource],
        trace[i + 1],
    );
}

/// Nothing is reclaimed before the next deadline.
pub proof fn grace_is_granted_in_full(
    before: EngineView,
    earliest: Option<u64>,
    now: u64,
    after: EngineView,
)
    requires
        engine::is_next_deadline(before.slots, earliest),
        earliest is None || now < earliest->0,
        engine::expire_effect(before, now, after),
    ensures
        after == before,
{
    let effect: engine::SlotEffect =
        |r: Resource, s: SlotView, c: Channels, s2: SlotView, c2: Channels|
        engine::expiry_effect(now, r, s, c, s2, c2);
    let (order, trace) = choose|order: Seq<Resource>, trace: Seq<Channels>|
        #![trigger engine::swept_along(before.slots, after.slots, effect, order, trace)]
        engine::swept_along(before.slots, after.slots, effect, order, trace) && trace[0]
            == before.channels && trace.last() == after.channels;
    assert forall|i: int| 0 <= i < order.len() implies after.slots[#[trigger] order[i]]
        == before.slots[order[i]] && trace[i + 1] == trace[i] by {
        assert(order.contains(order[i]));
        assert(before.slots.contains_key(order[i]));
        let slot = before.slots[order[i]];
        assert(effect(order[i], slot, trace[i], after.slots[order[i]], trace[i + 1]));
    }
    assert forall|i: int| 0 <= i < trace.len() - 1 implies #[trigger] quiet(trace, i) by {
        let resource = order[i];
    }
    quiet_sweep_keeps_channels(trace, order.len() as int);
    assert forall|resource: Resource| before.slots.dom().contains(
        resource,
    ) implies #[trigger] after.slots[resource] == before.slots[resource] by {
        assert(before.slots.contains_key(resource));
        assert(order.contains(resource));
        let i = choose|i: int| 0 <= i < order.len() && order[i] == resource;
        assert(after.slots[order[i]] == before.slots[order[i]]);
    }
    assert(after.slots =~= before.slots);
    assert(after =~= before);
}

/// Step `i` of a sweep left the channels as they were.
spec fn quiet(trace: Seq<Channels>, i: int) -> bool {
    trace[i + 1] == trace[i]
}

proof fn quiet_sweep_keeps_channels(trace: Seq<Channels>, n: int)
    requires
        0 <= n < trace.len(),
        forall|i: int| 0 <= i < trace.len() - 1 ==> #[trigger] quiet(trace, i),
    ensures
        trace[n] == trace[0],
    decreases n,
{
    if n > 0 {
        quiet_sweep_keeps_channels(trace, n - 1);
        assert(quiet(trace, n - 1));
    }
}

/// There is one next deadline: the engine waits for no other moment.
pub proof fn next_deadline_is_unique(
    slots: Map<Resource, SlotView>,
    a: Option<u64>,
    b: Option<u64>,
)
    requires
        engine::is_next_deadline(slots, a),
        engine::is_next_deadline(slots, b),
    ensures
        a == b,
{
}

/// The next deadline is when the first grace ends: some revoke is overdue
/// from then on, and none is before.
pub proof fn next_deadline_is_when_a_grace_ends(
    slots: Map<Resource, SlotView>,
    earliest: Option<u64>,
    now: u64,
)
    requires
        engine::is_next_deadline(slots, earliest),
    ensures
        (exists|resource: Resource|
            slots.contains_key(resource) && (#[trigger] slots[resource]).revoke_deadline is Some
                && slots[resource].revoke_deadline->0 <= now) <==> earliest is Some && earliest->0
            <= now,
{
}

} // verus!
