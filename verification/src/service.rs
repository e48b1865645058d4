//! Who is served when a resource changes hands, and in what order: the
//! guarantees to those who wait, in terms of who waited and who was told
//! what.

use crate::client_id::ClientId;
use crate::control::{Channels, ControlMessage, ControlView, Offer};
use crate::engine::{AcquireOutcome, EngineCommand, EngineView};
use crate::message::Resource;
use crate::policy::Policy;
use crate::slot::{SlotView, Waiter};
use crate::{control, engine, message, policy, slot, text};
use tokio::sync::mpsc::UnboundedSender;
use vstd::prelude::*;

verus! {

/// Those who wait, in the order of their turns: newest first under
/// `LatestOwner`, else oldest first.
pub open spec fn turns(slot: SlotView) -> Seq<Waiter> {
    if slot.policy is LatestOwner {
        slot.waiters.reverse()
    } else {
        slot.waiters
    }
}

/// Was the client told something between two moments?
pub open spec fn told(before: Channels, after: Channels, client: ClientId, offer: Offer) -> bool {
    &&& before.contains_key(client)
    &&& after.contains_key(client)
    &&& exists|i: int|
        before[client].len() <= i < after[client].len() && #[trigger] after[client][i] == offer
}

/// Of those who stand in a line for a resource, the first `k` were passed
/// over, each because it is not registered or its channel did not take the
/// grant; the next one owns the resource, was told so, and the rest still
/// stand in line. Where nobody is next, nobody owns it and the line is empty.
pub open spec fn served_after(
    resource: Resource,
    line: Seq<Waiter>,
    before: Channels,
    rest: Seq<Waiter>,
    owner: Option<ClientId>,
    after: Channels,
    k: int,
) -> bool {
    let grant = ControlView::Grant { resources: seq![resource] };
    &&& 0 <= k <= line.len()
    &&& forall|i: int|
        0 <= i < k ==> !before.contains_key((#[trigger] line[i]).client) || told(
            before,
            after,
            line[i].client,
            Offer { message: grant, taken: false },
        )
    &&& if k < line.len() {
        &&& owner == Some(line[k].client)
        &&& told(before, after, line[k].client, Offer { message: grant, taken: true })
        &&& rest == line.skip(k + 1)
    } else {
        owner is None && rest.len() == 0
    }
}

/// The resource went to the first in line who could take it.
pub open spec fn served(
    resource: Resource,
    line: Seq<Waiter>,
    before: Channels,
    rest: Seq<Waiter>,
    owner: Option<ClientId>,
    after: Channels,
) -> bool {
    exists|k: int| #[trigger] served_after(resource, line, before, rest, owner, after, k)
}

/// Nobody was told anything but those in line, and each of them at most one
/// thing: a grant of the resource.
pub open spec fn only_line_is_told(
    resource: Resource,
    line: Seq<Waiter>,
    before: Channels,
    after: Channels,
) -> bool {
    let grant = ControlView::Grant { resources: seq![resource] };
    &&& after.dom() == before.dom()
    &&& forall|client: ClientId| #[trigger]
        before.contains_key(client) ==> {
            ||| after[client] == before[client]
            ||| line.contains(Waiter { client }) && exists|taken: bool|
                after[client] == #[trigger] before[client].push(Offer { message: grant, taken })
        }
}

proof fn refusals_are_recorded(
    channels: Channels,
    resource: Resource,
    order: Seq<Waiter>,
    k: int,
    client: ClientId,
)
    requires
        0 <= k <= order.len(),
        order.no_duplicates(),
        channels.contains_key(client),
    ensures
        ({
            let passed = slot::refused(channels, resource, order, k);
            let refusal = Offer {
                message: ControlView::Grant { resources: seq![resource] },
                taken: false,
            };
            &&& passed.contains_key(client)
            &&& passed[client] == if order.take(k).contains(Waiter { client }) {
                channels[client].push(refusal)
            } else {
                channels[client]
            }
        }),
    decreases k,
{
    if k > 0 {
        refusals_are_recorded(channels, resource, order, k - 1, client);
        let last = order[k - 1];
        let shorter = order.take(k - 1);
        let longer = order.take(k);
        assert(longer =~= shorter.push(last));
        if last.client == client {
            assert(last == Waiter { client });
            assert(longer[k - 1] == last);
            if shorter.contains(last) {
                let j = choose|j: int| 0 <= j < shorter.len() && shorter[j] == last;
                assert(order[j] == order[k - 1]);
            }
        } else {
            if longer.contains(Waiter { client }) {
                let j = choose|j: int| 0 <= j < longer.len() && longer[j] == Waiter { client };
                assert(shorter[j] == Waiter { client });
            }
            if shorter.contains(Waiter { client }) {
                let j = choose|j: int| 0 <= j < shorter.len() && shorter[j] == Waiter { client };
                assert(longer[j] == Waiter { client });
            }
        }
    } else {
        assert(order.take(k).len() == 0);
    }
}

/// A hand-over serves those who wait in the order of their turns: oldest
/// first under `FairQueue`, newest first under `LatestOwner`. It changes
/// nothing else of the slot, and tells nobody else anything.
pub proof fn hand_over_serves_in_turn(
    resource: Resource,
    before: SlotView,
    channels: Channels,
    after: SlotView,
    channels_after: Channels,
)
    requires
        slot::handed_over(resource, before, channels, after, channels_after),
        before.owner is None,
        before.waiters.no_duplicates(),
        before.policy is FirstOwner ==> before.waiters.len() == 0,
    ensures
        after.policy == before.policy,
        after.revoke_deadline == before.revoke_deadline,
        served(resource, turns(before), channels, turns(after), after.owner, channels_after),
        only_line_is_told(resource, before.waiters, channels, channels_after),
{
    let grant = ControlView::Grant { resources: seq![resource] };
    let k = choose|k: int|
        #[trigger] slot::handed_over_after(
            resource,
            before,
            channels,
            after,
            channels_after,
            k,
        );
    let order = policy::service_order(before.policy, before.waiters);
    let line = turns(before);
    let rest = turns(after);
    assert(order =~= line);
    assert(order.no_duplicates());
    let passed = slot::refused(channels, resource, order, k);
    slot::hand_over_keeps_clients(resource, before, channels, after, channels_after);
    assert forall|i: int| 0 <= i < k implies !channels.contains_key((#[trigger] line[i]).client)
        || told(
        channels,
        channels_after,
        line[i].client,
        Offer { message: grant, taken: false },
    ) by {
        let client = line[i].client;
        if channels.contains_key(client) {
            refusals_are_recorded(channels, resource, order, k, client);
            assert(order.take(k)[i] == Waiter { client });
            assert(passed[client] == channels[client].push(Offer { message: grant, taken: false }));
            if k < order.len() {
                assert(order[k].client != client) by {
                    if order[k].client == client {
                        assert(order[k] == order[i]);
                    }
                }
            }
            let n = channels[client].len() as int;
            assert(channels_after[client][n] == Offer { message: grant, taken: false });
        }
    }
    if k < line.len() {
        let winner = line[k].client;
        refusals_are_recorded(channels, resource, order, k, winner);
        if order.take(k).contains(Waiter { client: winner }) {
            let j = choose|j: int| 0 <= j < k && order.take(k)[j] == Waiter { client: winner };
            assert(order[j] == order[k]);
        }
        let n = channels[winner].len() as int;
        assert(channels_after[winner][n] == Offer { message: grant, taken: true });
        assert(rest =~= line.skip(k + 1));
    } else {
        assert(rest =~= Seq::empty());
    }
    assert(served_after(resource, line, channels, rest, after.owner, channels_after, k));
    assert forall|client: ClientId| #[trigger] channels.contains_key(client) implies {
        ||| channels_after[client] == channels[client]
        ||| before.waiters.contains(Waiter { client }) && exists|taken: bool|
            channels_after[client] == #[trigger] channels[client].push(
                Offer { message: grant, taken },
            )
    } by {
        refusals_are_recorded(channels, resource, order, k, client);
        if order.take(k).contains(Waiter { client }) {
            let j = choose|j: int| 0 <= j < k && order.take(k)[j] == Waiter { client };
            waits_somewhere(before, j);
            if k < order.len() && order[k].client == client {
                assert(order[k] == order[j]);
            }
            assert(channels_after[client] == channels[client].push(
                Offer { message: grant, taken: false },
            ));
        } else if k < order.len() && order[k].client == client {
            waits_somewhere(before, k);
            assert(channels_after[client] == channels[client].push(
                Offer { message: grant, taken: true },
            ));
        }
    }
}

proof fn waits_somewhere(slot: SlotView, i: int)
    requires
        0 <= i < policy::service_order(slot.policy, slot.waiters).len(),
    ensures
        slot.waiters.contains(policy::service_order(slot.policy, slot.waiters)[i]),
{
    let order = policy::service_order(slot.policy, slot.waiters);
    if slot.policy is LatestOwner {
        assert(slot.waiters[slot.waiters.len() - 1 - i] == order[i]);
    } else {
        assert(slot.waiters[i] == order[i]);
    }
}

/// A release serves those who wait in turn. The owner who leaves because it
/// was asked to stands in line again, behind everyone who waits; one who
/// leaves of its own accord does not.
pub proof fn release_serves_in_turn(
    before: EngineView,
    client: ClientId,
    resource: Resource,
    after: EngineView,
)
    requires
        before.well_formed(),
        before.slots.contains_key(resource),
        before.slots[resource].owner == Some(client),
        engine::release_effect(before, client, resource, after),
    ensures
        ({
            let slot = before.slots[resource];
            let left = after.slots[resource];
            let line = if slot.revoke_deadline is Some && slot.waiters.len() > 0 {
                turns(slot).push(Waiter { client })
            } else {
                turns(slot)
            };
            &&& left.policy == slot.policy
            &&& left.revoke_deadline is None
            &&& served(
                resource,
                line,
                before.channels,
                turns(left),
                left.owner,
                after.channels,
            )
            &&& only_line_is_told(resource, line, before.channels, after.channels)
        }),
{
    let slot = before.slots[resource];
    let rest = engine::relinquished(slot);
    assert(slot.well_formed());
    engine::requeueing_keeps_waiters_distinct(slot, client);
    hand_over_serves_in_turn(
        resource,
        rest,
        before.channels,
        after.slots[resource],
        after.channels,
    );
    if slot.revoke_deadline is Some && slot.waiters.len() > 0 {
        let line = turns(slot).push(Waiter { client });
        assert(turns(rest) =~= line);
        assert forall|w: Waiter| rest.waiters.contains(w) implies line.contains(w) by {
            let i = choose|i: int| 0 <= i < rest.waiters.len() && rest.waiters[i] == w;
            if slot.policy is LatestOwner {
                assert(line[line.len() - 1 - i] == w);
            } else {
                assert(line[i] == w);
            }
        }
    } else {
        assert(turns(rest) =~= turns(slot));
        line_holds_the_waiters(slot);
    }
}

proof fn line_holds_the_waiters(slot: SlotView)
    ensures
        forall|w: Waiter| slot.waiters.contains(w) <==> turns(slot).contains(w),
{
    let line = turns(slot);
    assert forall|w: Waiter| slot.waiters.contains(w) <==> line.contains(w) by {
        if slot.waiters.contains(w) {
            let i = choose|i: int| 0 <= i < slot.waiters.len() && slot.waiters[i] == w;
            if slot.policy is LatestOwner {
                assert(line[line.len() - 1 - i] == w);
            } else {
                assert(line[i] == w);
            }
        }
        if line.contains(w) {
            let i = choose|i: int| 0 <= i < line.len() && line[i] == w;
            if slot.policy is LatestOwner {
                assert(slot.waiters[line.len() - 1 - i] == w);
            } else {
                assert(slot.waiters[i] == w);
            }
        }
    }
}

/// A client that releases while no revoke is in flight neither owns the
/// resource nor waits for it afterwards. Those who wait afterwards waited
/// before, in the same order: the ones whose turn came left from the front
/// under `FairQueue`, from the back under `LatestOwner`.
pub proof fn unasked_release_ends_the_turn(
    before: EngineView,
    client: ClientId,
    resource: Resource,
    after: EngineView,
)
    requires
        before.well_formed(),
        before.slots.contains_key(resource),
        before.slots[resource].owner == Some(client),
        before.slots[resource].revoke_deadline is None,
        engine::release_effect(before, client, resource, after),
    ensures
        after.slots[resource].owner != Some(client),
        !after.slots[resource].waiters.contains(Waiter { client }),
        ({
            let waiters = before.slots[resource].waiters;
            let left = after.slots[resource].waiters;
            let gone = waiters.len() - left.len();
            &&& 0 <= gone
            &&& left == if before.slots[resource].policy is LatestOwner {
                waiters.take(waiters.len() - gone)
            } else {
                waiters.skip(gone)
            }
        }),
{
    let slot = before.slots[resource];
    let left = after.slots[resource];
    assert(slot.well_formed());
    release_serves_in_turn(before, client, resource, after);
    line_holds_the_waiters(slot);
    line_holds_the_waiters(left);
    rest_is_the_end_of_the_line(
        resource,
        turns(slot),
        before.channels,
        turns(left),
        left.owner,
        after.channels,
    );
    let gone = slot.waiters.len() - left.waiters.len();
    assert(turns(left) =~= turns(slot).skip(gone));
    if slot.policy is LatestOwner {
        assert forall|i: int| 0 <= i < left.waiters.len() implies left.waiters[i]
            == slot.waiters[i] by {
            let n = left.waiters.len();
            assert(turns(left)[n - 1 - i] == turns(slot)[gone + n - 1 - i]);
        }
        assert(left.waiters =~= slot.waiters.take(slot.waiters.len() - gone));
    }
}

proof fn rest_is_the_end_of_the_line(
    resource: Resource,
    line: Seq<Waiter>,
    before: Channels,
    rest: Seq<Waiter>,
    owner: Option<ClientId>,
    after: Channels,
)
    requires
        served(resource, line, before, rest, owner, after),
    ensures
        rest.len() <= line.len(),
        rest == line.skip(line.len() - rest.len()),
        owner is Some ==> line.contains(Waiter { client: owner->0 }),
        forall|w: Waiter| rest.contains(w) ==> line.contains(w),
{
    let k = choose|k: int| #[trigger]
        served_after(resource, line, before, rest, owner, after, k);
    if k < line.len() {
        assert(line[k] == Waiter { client: owner->0 });
    } else {
        assert(rest =~= line.skip(line.len() as int));
    }
    assert forall|w: Waiter| rest.contains(w) implies line.contains(w) by {
        let i = choose|i: int| 0 <= i < rest.len() && rest[i] == w;
        assert(line[line.len() - rest.len() + i] == w);
    }
}

/// A client that releases because it was asked to, while others wait, has
/// one more turn after all of them: it is the last in line, or its turn came
/// at once because none of the others could take the resource.
pub proof fn asked_release_waits_for_one_more_turn(
    before: EngineView,
    client: ClientId,
    resource: Resource,
    after: EngineView,
)
    requires
        before.well_formed(),
        before.slots.contains_key(resource),
        before.slots[resource].owner == Some(client),
        before.slots[resource].revoke_deadline is Some,
        before.slots[resource].waiters.len() > 0,
        engine::release_effect(before, client, resource, after),
    ensures
        ({
            let left = after.slots[resource];
            let line = turns(left);
            ||| line.len() > 0 && line.last() == (Waiter { client }) && left.owner != Some(client)
            ||| line.len() == 0 && left.owner == Some(client)
            ||| line.len() == 0 && left.owner is None && (!before.channels.contains_key(client)
                || told(
                before.channels,
                after.channels,
                client,
                Offer { message: ControlView::Grant { resources: seq![resource] }, taken: false },
            ))
        }),
{
    let slot = before.slots[resource];
    let left = after.slots[resource];
    assert(slot.well_formed());
    release_serves_in_turn(before, client, resource, after);
    line_holds_the_waiters(slot);
    let line = turns(slot).push(Waiter { client });
    let k = choose|k: int| #[trigger]
        served_after(
            resource,
            line,
            before.channels,
            turns(left),
            left.owner,
            after.channels,
            k,
        );
    if k < line.len() - 1 {
        assert(line[k] == turns(slot)[k]);
        assert(turns(slot).contains(line[k]));
        assert(turns(left).last() == line.last());
    } else if k == line.len() {
        assert(line[k - 1].client == client);
    }
}

/// A client that joins the waiters takes the last place among them in the
/// order of arrival. The owner keeps the resource, and the others keep their
/// places. Where the owner was not asked to leave yet, it is now, and has
/// five seconds to; where it was, nobody is told anything.
pub proof fn newcomer_changes_nothing_else(
    before: EngineView,
    client: ClientId,
    resource: Resource,
    now: u64,
    after: EngineView,
    outcome: AcquireOutcome,
    owner: ClientId,
)
    requires
        before.slots.contains_key(resource),
        before.slots[resource].owner == Some(owner),
        before.slots[resource].revoke_deadline is Some || before.channels.contains_key(owner),
        !before.slots[resource].waiters.contains(Waiter { client }),
        now + 5000 <= u64::MAX,
        engine::acquire_effect(before, client, resource, now, after, outcome),
        outcome is Queued,
    ensures
        ({
            let slot = before.slots[resource];
            let joined = after.slots[resource];
            let revoke = ControlView::Revoke { resources: seq![resource] };
            &&& joined.owner == Some(owner)
            &&& joined.policy == slot.policy
            &&& joined.waiters == slot.waiters.push(Waiter { client })
            &&& slot.revoke_deadline is Some ==> {
                &&& joined.revoke_deadline == slot.revoke_deadline
                &&& after.channels == before.channels
            }
            &&& slot.revoke_deadline is None ==> {
                &&& joined.revoke_deadline == Some((now + 5000) as u64)
                &&& exists|taken: bool|
                    after.channels == #[trigger] before.channels.insert(
                        owner,
                        before.channels[owner].push(Offer { message: revoke, taken }),
                    )
            }
        }),
{
    let slot = before.slots[resource];
    if slot.revoke_deadline is None {
        let taken = choose|taken: bool|
            after.channels == #[trigger] control::offered(
                before.channels,
                owner,
                slot::revoke_offer(resource, taken),
            );
        let revoke = ControlView::Revoke { resources: seq![resource] };
        assert(after.channels == before.channels.insert(
            owner,
            before.channels[owner].push(Offer { message: revoke, taken }),
        ));
    }
}

/// A client that asks for a free resource owns it, and it alone changes: no
/// revoke is in flight, and whoever waited still waits.
pub proof fn grant_changes_only_the_owner(
    before: EngineView,
    client: ClientId,
    resource: Resource,
    now: u64,
    after: EngineView,
    outcome: AcquireOutcome,
)
    requires
        engine::acquire_effect(before, client, resource, now, after, outcome),
        outcome is Granted,
    ensures
        ({
            let slot = before.slots[resource];
            let granted = after.slots[resource];
            &&& slot.owner is None
            &&& granted.owner == Some(client)
            &&& granted.policy == slot.policy
            &&& granted.waiters == slot.waiters
            &&& granted.revoke_deadline == slot.revoke_deadline
            &&& after.channels == before.channels
        }),
{
}

/// Where the owner of a resource is no longer registered and nobody has been
/// asked to leave yet, a newcomer has the resource change hands at once: it
/// goes to the first in line who can take it, the newcomer among them.
pub proof fn vanished_owner_is_succeeded(
    before: EngineView,
    client: ClientId,
    resource: Resource,
    now: u64,
    after: EngineView,
    outcome: AcquireOutcome,
    owner: ClientId,
)
    requires
        before.well_formed(),
        before.slots.contains_key(resource),
        before.slots[resource].owner == Some(owner),
        before.slots[resource].revoke_deadline is None,
        !before.channels.contains_key(owner),
        !before.slots[resource].waiters.contains(Waiter { client }),
        engine::acquire_effect(before, client, resource, now, after, outcome),
        outcome is Queued,
    ensures
        ({
            let slot = before.slots[resource];
            let left = after.slots[resource];
            let line = if slot.policy is LatestOwner {
                seq![Waiter { client }] + turns(slot)
            } else {
                turns(slot).push(Waiter { client })
            };
            &&& left.policy == slot.policy
            &&& left.revoke_deadline is None
            &&& served(
                resource,
                line,
                before.channels,
                turns(left),
                left.owner,
                after.channels,
            )
        }),
{
    let slot = before.slots[resource];
    assert(slot.well_formed());
    let joined = engine::joined(slot, client).freed();
    assert(joined.waiters.no_duplicates());
    hand_over_serves_in_turn(
        resource,
        joined,
        before.channels,
        after.slots[resource],
        after.channels,
    );
    if slot.policy is LatestOwner {
        assert(turns(joined) =~= seq![Waiter { client }] + turns(slot));
    }
}

/// Each client that was registered still is, and what it was told so far
/// stays as it is.
pub open spec fn histories_grow(before: Channels, after: Channels) -> bool {
    forall|client: ClientId| #[trigger]
        before.contains_key(client) ==> after.contains_key(client)
            && before[client].is_prefix_of(after[client])
}

/// Whatever a client was told between two moments is the grant of a resource
/// that it waited for, and whose slot is one of those that `freed` picks.
pub open spec fn news_is_due(
    slots: Map<Resource, SlotView>,
    freed: spec_fn(SlotView) -> bool,
    before: Channels,
    after: Channels,
) -> bool {
    forall|client: ClientId, i: int|
        before.contains_key(client) && before[client].len() <= i < after[client].len()
            ==> is_due(slots, freed, client, #[trigger] after[client][i])
}

/// Is what the client was told the grant of a resource that it waited for,
/// and whose slot is one of those that `freed` picks?
pub open spec fn is_due(
    slots: Map<Resource, SlotView>,
    freed: spec_fn(SlotView) -> bool,
    client: ClientId,
    offer: Offer,
) -> bool {
    exists|resource: Resource|
        slots.contains_key(resource) && freed(#[trigger] slots[resource])
            && slots[resource].waiters.contains(Waiter { client }) && offer.message
            == (ControlView::Grant { resources: seq![resource] })
}

/// One step of a sweep: nobody was told anything, or the slot is one that
/// `freed` picks and only those who wait there were told.
spec fn due_step(
    slots: Map<Resource, SlotView>,
    freed: spec_fn(SlotView) -> bool,
    order: Seq<Resource>,
    trace: Seq<Channels>,
    i: int,
) -> bool {
    ||| trace[i + 1] == trace[i]
    ||| freed(slots[order[i]]) && slots.contains_key(order[i]) && only_line_is_told(
        order[i],
        slots[order[i]].waiters,
        trace[i],
        trace[i + 1],
    )
}

proof fn sweep_grows(
    slots: Map<Resource, SlotView>,
    freed: spec_fn(SlotView) -> bool,
    order: Seq<Resource>,
    trace: Seq<Channels>,
    from: int,
    to: int,
)
    requires
        trace.len() == order.len() + 1,
        0 <= from <= to < trace.len(),
        forall|i: int|
            0 <= i < order.len() ==> #[trigger] due_step(slots, freed, order, trace, i),
    ensures
        histories_grow(trace[from], trace[to]),
        trace[to].dom() == trace[from].dom(),
        news_is_due(slots, freed, trace[from], trace[to]),
    decreases to - from,
{
    if from < to {
        let mid = to - 1;
        sweep_grows(slots, freed, order, trace, from, mid);
        assert(due_step(slots, freed, order, trace, mid));
        assert(trace[mid + 1] == trace[to]);
        let start = trace[from];
        let end = trace[to];
        let last = trace[mid];
        assert forall|client: ClientId, i: int|
            start.contains_key(client) && start[client].len() <= i
                < end[client].len() implies is_due(
            slots,
            freed,
            client,
            #[trigger] end[client][i],
        ) by {
            assert(last.contains_key(client));
            if i < last[client].len() {
                assert(end[client][i] == last[client][i]);
                assert(is_due(slots, freed, client, last[client][i]));
            } else {
                assert(end[client] != last[client]);
                let resource = order[mid];
                assert(slots[resource].waiters.contains(Waiter { client }));
            }
        }
    }
}

proof fn telling_lasts(
    start: Channels,
    before: Channels,
    after: Channels,
    end: Channels,
    client: ClientId,
    offer: Offer,
)
    requires
        histories_grow(start, before),
        start.dom() == before.dom(),
        histories_grow(after, end),
        told(before, after, client, offer),
    ensures
        told(start, end, client, offer),
{
    let i = choose|i: int|
        before[client].len() <= i < after[client].len() && #[trigger] after[client][i] == offer;
    assert(start.contains_key(client));
    assert(end[client][i] == offer);
}

proof fn serving_lasts(
    start: Channels,
    before: Channels,
    after: Channels,
    end: Channels,
    resource: Resource,
    line: Seq<Waiter>,
    rest: Seq<Waiter>,
    owner: Option<ClientId>,
)
    requires
        histories_grow(start, before),
        start.dom() == before.dom(),
        histories_grow(after, end),
        served(resource, line, before, rest, owner, after),
    ensures
        served(resource, line, start, rest, owner, end),
{
    let grant = ControlView::Grant { resources: seq![resource] };
    let k = choose|k: int| #[trigger]
        served_after(resource, line, before, rest, owner, after, k);
    assert forall|i: int| 0 <= i < k implies !start.contains_key((#[trigger] line[i]).client)
        || told(start, end, line[i].client, Offer { message: grant, taken: false }) by {
        if start.contains_key(line[i].client) {
            telling_lasts(
                start,
                before,
                after,
                end,
                line[i].client,
                Offer { message: grant, taken: false },
            );
        }
    }
    if k < line.len() {
        telling_lasts(
            start,
            before,
            after,
            end,
            line[k].client,
            Offer { message: grant, taken: true },
        );
    }
    assert(served_after(resource, line, start, rest, owner, end, k));
}

proof fn stranger_takes_nobody_along(waiters: Seq<Waiter>, client: ClientId)
    requires
        !waiters.contains(Waiter { client }),
    ensures
        waiters.filter(|w: Waiter| w.client != client) == waiters,
    decreases waiters.len(),
{
    reveal(Seq::filter);
    if waiters.len() > 0 {
        let shorter = waiters.drop_last();
        let last = waiters.last();
        assert(waiters[waiters.len() - 1] == last);
        assert(last.client != client) by {
            if last.client == client {
                assert(last == Waiter { client });
            }
        }
        assert forall|i: int| 0 <= i < shorter.len() implies shorter[i] != (Waiter { client }) by {
            assert(waiters[i] == shorter[i]);
        }
        stranger_takes_nobody_along(shorter, client);
        assert(waiters =~= shorter.push(last));
    } else {
        assert(waiters.filter(|w: Waiter| w.client != client) =~= waiters);
    }
}

proof fn leaver_takes_nobody_along(waiters: Seq<Waiter>, client: ClientId, i: int)
    requires
        waiters.no_duplicates(),
        0 <= i < waiters.len(),
        waiters[i].client == client,
    ensures
        waiters.filter(|w: Waiter| w.client != client) == waiters.remove(i),
    decreases waiters.len(),
{
    reveal(Seq::filter);
    let n = waiters.len() - 1;
    let shorter = waiters.drop_last();
    let last = waiters.last();
    assert(waiters[i] == Waiter { client });
    assert forall|j: int| 0 <= j < waiters.len() && j != i implies (
    #[trigger] waiters[j]).client != client by {
        if waiters[j].client == client {
            assert(waiters[j] == waiters[i]);
        }
    }
    if i == n {
        assert forall|j: int| 0 <= j < shorter.len() implies shorter[j] != (Waiter { client }) by {
            assert(waiters[j] == shorter[j]);
        }
        stranger_takes_nobody_along(shorter, client);
        assert(waiters.remove(i) =~= shorter);
    } else {
        assert(last == waiters[n]);
        assert(shorter.no_duplicates());
        assert(shorter[i] == waiters[i]);
        leaver_takes_nobody_along(shorter, client, i);
        assert(waiters.remove(i) =~= shorter.remove(i).push(last));
    }
}

proof fn leaving_removes_one(waiters: Seq<Waiter>, client: ClientId)
    requires
        waiters.no_duplicates(),
    ensures
        ({
            let others = waiters.filter(|w: Waiter| w.client != client);
            &&& !waiters.contains(Waiter { client }) ==> others == waiters
            &&& forall|i: int|
                0 <= i < waiters.len() && (#[trigger] waiters[i]).client == client ==> others
                    == waiters.remove(i)
        }),
{
    if !waiters.contains(Waiter { client }) {
        stranger_takes_nobody_along(waiters, client);
    }
    assert forall|i: int|
        0 <= i < waiters.len() && (#[trigger] waiters[i]).client == client implies waiters.filter(
        |w: Waiter| w.client != client,
    ) == waiters.remove(i) by {
        leaver_takes_nobody_along(waiters, client, i);
    }
}

proof fn departure_step(
    client: ClientId,
    resource: Resource,
    before: SlotView,
    channels: Channels,
    after: SlotView,
    channels_after: Channels,
)
    requires
        before.well_formed(),
        engine::departure_effect(client, resource, before, channels, after, channels_after),
    ensures
        after.policy == before.policy,
        before.owner != Some(client) ==> {
            &&& channels_after == channels
            &&& after.owner == before.owner
            &&& after.revoke_deadline == before.revoke_deadline
            &&& !before.waiters.contains(Waiter { client }) ==> after.waiters == before.waiters
            &&& forall|i: int|
                0 <= i < before.waiters.len() && (#[trigger] before.waiters[i]).client == client
                    ==> after.waiters == before.waiters.remove(i)
        },
        before.owner == Some(client) ==> {
            &&& after.revoke_deadline is None
            &&& served(
                resource,
                turns(before),
                channels,
                turns(after),
                after.owner,
                channels_after,
            )
            &&& only_line_is_told(resource, before.waiters, channels, channels_after)
        },
{
    leaving_removes_one(before.waiters, client);
    if before.owner == Some(client) {
        assert(before.without_waiter(client).waiters == before.waiters);
        hand_over_serves_in_turn(
            resource,
            before.without_waiter(client).freed(),
            channels,
            after,
            channels_after,
        );
        assert(turns(before.without_waiter(client).freed()) == turns(before));
    }
}

/// When a client departs, a resource that it did not own keeps its owner,
/// its revoke and its waiters, all but the departed one, each in its place.
pub proof fn departure_disturbs_no_one_else(
    before: EngineView,
    client: ClientId,
    after: EngineView,
    resource: Resource,
)
    requires
        before.well_formed(),
        engine::disconnect_effect(before, client, after),
        before.slots.contains_key(resource),
        before.slots[resource].owner != Some(client),
    ensures
        after.slots.contains_key(resource),
        ({
            let slot = before.slots[resource];
            let left = after.slots[resource];
            &&& left.policy == slot.policy
            &&& left.owner == slot.owner
            &&& left.revoke_deadline == slot.revoke_deadline
            &&& !slot.waiters.contains(Waiter { client }) ==> left.waiters == slot.waiters
            &&& forall|i: int|
                0 <= i < slot.waiters.len() && (#[trigger] slot.waiters[i]).client == client
                    ==> left.waiters == slot.waiters.remove(i)
            &&& forall|other: ClientId|
                other != client ==> (#[trigger] left.waiters.contains(Waiter { client: other })
                    <==> slot.waiters.contains(Waiter { client: other }))
        }),
{
    let effect: engine::SlotEffect =
        |r: Resource, s: SlotView, c: Channels, s2: SlotView, c2: Channels|
        engine::departure_effect(client, r, s, c, s2, c2);
    let (order, trace) = choose|order: Seq<Resource>, trace: Seq<Channels>|
        #![trigger engine::swept_along(before.slots, after.slots, effect, order, trace)]
        engine::swept_along(before.slots, after.slots, effect, order, trace) && trace[0]
            == before.channels.remove(client) && trace.last() == after.channels;
    assert(order.contains(resource));
    let k = choose|k: int| 0 <= k < order.len() && order[k] == resource;
    let slot = before.slots[resource];
    let left = after.slots[resource];
    assert(effect(order[k], before.slots[order[k]], trace[k], after.slots[order[k]], trace[k + 1]));
    assert(slot.well_formed());
    departure_step(client, resource, slot, trace[k], left, trace[k + 1]);
    assert forall|other: ClientId| other != client implies (
    #[trigger] left.waiters.contains(Waiter { client: other }) <==> slot.waiters.contains(
        Waiter { client: other },
    )) by {
        let w = Waiter { client: other };
        if slot.waiters.contains(Waiter { client }) {
            let i = choose|i: int| 0 <= i < slot.waiters.len() && slot.waiters[i] == Waiter {
                client,
            };
            assert(left.waiters == slot.waiters.remove(i));
            if slot.waiters.contains(w) {
                let j = choose|j: int| 0 <= j < slot.waiters.len() && slot.waiters[j] == w;
                if j < i {
                    assert(left.waiters[j] == w);
                } else {
                    assert(left.waiters[j - 1] == w);
                }
            }
            if left.waiters.contains(w) {
                let j = choose|j: int| 0 <= j < left.waiters.len() && left.waiters[j] == w;
                if j < i {
                    assert(slot.waiters[j] == w);
                } else {
                    assert(slot.waiters[j + 1] == w);
                }
            }
        }
    }
}

/// When the owner of a resource departs, it goes to the first in line who can
/// take it. The others who waited for it still do, in the same order, or were
/// told of the grant in vain, or are not registered.
pub proof fn departed_owner_is_succeeded(
    before: EngineView,
    client: ClientId,
    after: EngineView,
    resource: Resource,
)
    requires
        before.well_formed(),
        engine::disconnect_effect(before, client, after),
        before.slots.contains_key(resource),
        before.slots[resource].owner == Some(client),
    ensures
        after.slots.contains_key(resource),
        after.slots[resource].policy == before.slots[resource].policy,
        after.slots[resource].revoke_deadline is None,
        served(
            resource,
            turns(before.slots[resource]),
            before.channels.remove(client),
            turns(after.slots[resource]),
            after.slots[resource].owner,
            after.channels,
        ),
{
    let freed = |slot: SlotView| slot.owner == Some(client);
    let effect: engine::SlotEffect =
        |r: Resource, s: SlotView, c: Channels, s2: SlotView, c2: Channels|
        engine::departure_effect(client, r, s, c, s2, c2);
    let (order, trace) = choose|order: Seq<Resource>, trace: Seq<Channels>|
        #![trigger engine::swept_along(before.slots, after.slots, effect, order, trace)]
        engine::swept_along(before.slots, after.slots, effect, order, trace) && trace[0]
            == before.channels.remove(client) && trace.last() == after.channels;
    departure_steps_are_due(before, client, after, freed, order, trace);
    assert(order.contains(resource));
    let k = choose|k: int| 0 <= k < order.len() && order[k] == resource;
    let slot = before.slots[resource];
    let left = after.slots[resource];
    assert(effect(order[k], before.slots[order[k]], trace[k], after.slots[order[k]], trace[k + 1]));
    assert(slot.well_formed());
    departure_step(client, resource, slot, trace[k], left, trace[k + 1]);
    sweep_grows(before.slots, freed, order, trace, 0, k);
    sweep_grows(before.slots, freed, order, trace, k + 1, order.len() as int);
    serving_lasts(
        trace[0],
        trace[k],
        trace[k + 1],
        trace.last(),
        resource,
        turns(slot),
        turns(left),
        left.owner,
    );
}

proof fn departure_steps_are_due(
    before: EngineView,
    client: ClientId,
    after: EngineView,
    freed: spec_fn(SlotView) -> bool,
    order: Seq<Resource>,
    trace: Seq<Channels>,
)
    requires
        before.well_formed(),
        freed == (|slot: SlotView| slot.owner == Some(client)),
        engine::swept_along(
            before.slots,
            after.slots,
            |r: Resource, s: SlotView, c: Channels, s2: SlotView, c2: Channels|
                engine::departure_effect(client, r, s, c, s2, c2),
            order,
            trace,
        ),
    ensures
        forall|i: int|
            0 <= i < order.len() ==> #[trigger] due_step(
                before.slots,
                freed,
                order,
                trace,
                i,
            ),
{
    let effect: engine::SlotEffect =
        |r: Resource, s: SlotView, c: Channels, s2: SlotView, c2: Channels|
        engine::departure_effect(client, r, s, c, s2, c2);
    assert forall|i: int| 0 <= i < order.len() implies #[trigger] due_step(
        before.slots,
        freed,
        order,
        trace,
        i,
    ) by {
        let resource = order[i];
        assert(order.contains(resource));
        assert(before.slots.contains_key(resource));
        assert(before.slots[resource].well_formed());
        assert(effect(
            order[i],
            before.slots[order[i]],
            trace[i],
            after.slots[order[i]],
            trace[i + 1],
        ));
        departure_step(
            client,
            resource,
            before.slots[resource],
            trace[i],
            after.slots[resource],
            trace[i + 1],
        );
    }
}

/// When a client departs, the others are told of nothing but grants of what
/// it owned and they waited for; and whoever else was registered still is.
pub proof fn departure_tells_only_those_in_line(
    before: EngineView,
    client: ClientId,
    after: EngineView,
)
    requires
        before.well_formed(),
        engine::disconnect_effect(before, client, after),
    ensures
        after.channels.dom() == before.channels.dom().remove(client),
        histories_grow(before.channels.remove(client), after.channels),
        news_is_due(
            before.slots,
            |slot: SlotView| slot.owner == Some(client),
            before.channels.remove(client),
            after.channels,
        ),
{
    let freed = |slot: SlotView| slot.owner == Some(client);
    let effect: engine::SlotEffect =
        |r: Resource, s: SlotView, c: Channels, s2: SlotView, c2: Channels|
        engine::departure_effect(client, r, s, c, s2, c2);
    let (order, trace) = choose|order: Seq<Resource>, trace: Seq<Channels>|
        #![trigger engine::swept_along(before.slots, after.slots, effect, order, trace)]
        engine::swept_along(before.slots, after.slots, effect, order, trace) && trace[0]
            == before.channels.remove(client) && trace.last() == after.channels;
    departure_steps_are_due(before, client, after, freed, order, trace);
    sweep_grows(before.slots, freed, order, trace, 0, order.len() as int);
}

proof fn expiry_step(
    now: u64,
    resource: Resource,
    before: SlotView,
    channels: Channels,
    after: SlotView,
    channels_after: Channels,
)
    requires
        before.well_formed(),
        engine::expiry_effect(now, resource, before, channels, after, channels_after),
    ensures
        after.policy == before.policy,
        before.revoke_deadline is None || now < before.revoke_deadline->0 ==> {
            &&& after == before
            &&& channels_after == channels
        },
        before.revoke_deadline is Some && before.revoke_deadline->0 <= now ==> {
            &&& after.revoke_deadline is None
            &&& served(
                resource,
                turns(before),
                channels,
                turns(after),
                after.owner,
                channels_after,
            )
            &&& only_line_is_told(resource, before.waiters, channels, channels_after)
        },
{
    if before.revoke_deadline is Some && before.revoke_deadline->0 <= now {
        hand_over_serves_in_turn(resource, before.freed(), channels, after, channels_after);
        assert(turns(before.freed()) == turns(before));
    }
}

proof fn expiry_steps_are_due(
    before: EngineView,
    now: u64,
    after: EngineView,
    freed: spec_fn(SlotView) -> bool,
    order: Seq<Resource>,
    trace: Seq<Channels>,
)
    requires
        before.well_formed(),
        freed == (|slot: SlotView|
            slot.revoke_deadline is Some && slot.revoke_deadline->0 <= now),
        engine::swept_along(
            before.slots,
            after.slots,
            |r: Resource, s: SlotView, c: Channels, s2: SlotView, c2: Channels|
                engine::expiry_effect(now, r, s, c, s2, c2),
            order,
            trace,
        ),
    ensures
        forall|i: int|
            0 <= i < order.len() ==> #[trigger] due_step(before.slots, freed, order, trace, i),
{
    let effect: engine::SlotEffect =
        |r: Resource, s: SlotView, c: Channels, s2: SlotView, c2: Channels|
        engine::expiry_effect(now, r, s, c, s2, c2);
    assert forall|i: int| 0 <= i < order.len() implies #[trigger] due_step(
        before.slots,
        freed,
        order,
        trace,
        i,
    ) by {
        let resource = order[i];
        assert(order.contains(resource));
        assert(before.slots.contains_key(resource));
        assert(before.slots[resource].well_formed());
        assert(effect(
            order[i],
            before.slots[order[i]],
            trace[i],
            after.slots[order[i]],
            trace[i + 1],
        ));
        expiry_step(
            now,
            resource,
            before.slots[resource],
            trace[i],
            after.slots[resource],
            trace[i + 1],
        );
    }
}

/// As time passes, an owner who was not asked to leave, or still has time to,
/// keeps the resource, and those who wait for it keep their places. One who
/// let its time pass is succeeded by the first in line who can take the
/// resource, and does not stand in line again.
pub proof fn silent_owner_is_succeeded(
    before: EngineView,
    now: u64,
    after: EngineView,
    resource: Resource,
)
    requires
        before.well_formed(),
        engine::expire_effect(before, now, after),
        before.slots.contains_key(resource),
    ensures
        after.slots.contains_key(resource),
        ({
            let slot = before.slots[resource];
            let left = after.slots[resource];
            if slot.revoke_deadline is Some && slot.revoke_deadline->0 <= now {
                &&& left.policy == slot.policy
                &&& left.revoke_deadline is None
                &&& served(
                    resource,
                    turns(slot),
                    before.channels,
                    turns(left),
                    left.owner,
                    after.channels,
                )
            } else {
                left == slot
            }
        }),
{
    let freed = |slot: SlotView| slot.revoke_deadline is Some && slot.revoke_deadline->0 <= now;
    let effect: engine::SlotEffect =
        |r: Resource, s: SlotView, c: Channels, s2: SlotView, c2: Channels|
        engine::expiry_effect(now, r, s, c, s2, c2);
    let (order, trace) = choose|order: Seq<Resource>, trace: Seq<Channels>|
        #![trigger engine::swept_along(before.slots, after.slots, effect, order, trace)]
        engine::swept_along(before.slots, after.slots, effect, order, trace) && trace[0]
            == before.channels && trace.last() == after.channels;
    expiry_steps_are_due(before, now, after, freed, order, trace);
    assert(order.contains(resource));
    let k = choose|k: int| 0 <= k < order.len() && order[k] == resource;
    let slot = before.slots[resource];
    let left = after.slots[resource];
    assert(effect(order[k], before.slots[order[k]], trace[k], after.slots[order[k]], trace[k + 1]));
    assert(slot.well_formed());
    expiry_step(now, resource, slot, trace[k], left, trace[k + 1]);
    if slot.revoke_deadline is Some && slot.revoke_deadline->0 <= now {
        sweep_grows(before.slots, freed, order, trace, 0, k);
        sweep_grows(before.slots, freed, order, trace, k + 1, order.len() as int);
        serving_lasts(
            trace[0],
            trace[k],
            trace[k + 1],
            trace.last(),
            resource,
            turns(slot),
            turns(left),
            left.owner,
        );
    }
}

/// As time passes, nobody is told of anything but grants of what a silent
/// owner held and they waited for; and whoever was registered still is.
pub proof fn expiry_tells_only_those_in_line(before: EngineView, now: u64, after: EngineView)
    requires
        before.well_formed(),
        engine::expire_effect(before, now, after),
    ensures
        after.channels.dom() == before.channels.dom(),
        histories_grow(before.channels, after.channels),
        news_is_due(
            before.slots,
            |slot: SlotView| slot.revoke_deadline is Some && slot.revoke_deadline->0 <= now,
            before.channels,
            after.channels,
        ),
{
    let freed = |slot: SlotView| slot.revoke_deadline is Some && slot.revoke_deadline->0 <= now;
    let effect: engine::SlotEffect =
        |r: Resource, s: SlotView, c: Channels, s2: SlotView, c2: Channels|
        engine::expiry_effect(now, r, s, c, s2, c2);
    let (order, trace) = choose|order: Seq<Resource>, trace: Seq<Channels>|
        #![trigger engine::swept_along(before.slots, after.slots, effect, order, trace)]
        engine::swept_along(before.slots, after.slots, effect, order, trace) && trace[0]
            == before.channels && trace.last() == after.channels;
    expiry_steps_are_due(before, now, after, freed, order, trace);
    sweep_grows(before.slots, freed, order, trace, 0, order.len() as int);
}

/// A client that registers owns nothing more and waits for nothing more; no
/// slot changes, and the others were told what they were told.
pub proof fn registering_disturbs_no_one(
    before: EngineView,
    client: ClientId,
    control: UnboundedSender<ControlMessage>,
    now: u64,
    after: EngineView,
    reply: Option<AcquireOutcome>,
)
    requires
        engine::command_effect(
            before,
            EngineCommand::Register { client, control },
            now,
            after,
            reply,
        ),
    ensures
        after.slots == before.slots,
        after.channels.contains_key(client),
        after.channels[client] == control::offers(control),
        forall|other: ClientId|
            other != client ==> (#[trigger] after.channels.contains_key(other)
                <==> before.channels.contains_key(other)) && after.channels[other]
                == before.channels[other],
{
}

/// Only an acquire is answered; every other command is carried out in
/// silence.
pub proof fn only_acquires_are_answered(
    before: EngineView,
    command: EngineCommand,
    now: u64,
    after: EngineView,
    reply: Option<AcquireOutcome>,
)
    requires
        engine::command_effect(before, command, now, after, reply),
    ensures
        reply is Some <==> command is Acquire,
{
}

/// The engine manages the resources that it is told of, and no others.
pub proof fn engine_manages_what_it_is_told(
    policies: Seq<(Resource, Policy)>,
    resource: Resource,
)
    ensures
        engine::fresh_slots(policies).contains_key(resource) <==> exists|i: int|
            0 <= i < policies.len() && (#[trigger] policies[i]).0 == resource,
    decreases policies.len(),
{
    if policies.len() > 0 {
        let shorter = policies.drop_last();
        let n = policies.len() - 1;
        engine_manages_what_it_is_told(shorter, resource);
        if engine::fresh_slots(shorter).contains_key(resource) {
            let i = choose|i: int| 0 <= i < shorter.len() && (#[trigger] shorter[i]).0 == resource;
            assert(policies[i].0 == resource);
        } else if policies[n].0 != resource {
            assert forall|i: int| 0 <= i < policies.len() implies (#[trigger] policies[i]).0
                != resource by {
                if i < n {
                    assert(shorter[i].0 != resource);
                }
            }
        }
    }
}

/// Each resource starts free, with nobody waiting, under the last policy
/// that the engine is told for it.
pub proof fn engine_starts_free(policies: Seq<(Resource, Policy)>, i: int)
    requires
        0 <= i < policies.len(),
        forall|j: int| i < j < policies.len() ==> (#[trigger] policies[j]).0 != policies[i].0,
    ensures
        ({
            let slot = engine::fresh_slots(policies)[policies[i].0];
            &&& slot.policy == policies[i].1
            &&& slot.owner is None
            &&& slot.waiters.len() == 0
            &&& slot.revoke_deadline is None
        }),
    decreases policies.len(),
{
    let n = policies.len() - 1;
    if i < n {
        let shorter = policies.drop_last();
        assert(policies[n].0 != policies[i].0);
        assert forall|j: int| i < j < shorter.len() implies (#[trigger] shorter[j]).0
            != shorter[i].0 by {
            assert(policies[j].0 != policies[i].0);
        }
        engine_starts_free(shorter, i);
    }
}

/// A denied client is told which resource it asked for, and why it cannot
/// have it: it is not managed, is its own already, or has another owner.
pub proof fn denial_says_why(
    before: EngineView,
    client: ClientId,
    resource: Resource,
    now: u64,
    after: EngineView,
    outcome: AcquireOutcome,
    reason: Seq<char>,
)
    requires
        engine::acquire_effect(before, client, resource, now, after, outcome),
        outcome matches AcquireOutcome::Denied { reason: said } && said@ == reason,
    ensures
        message::resource_name(resource).is_prefix_of(reason),
        ({
            let why = reason.skip(message::resource_name(resource).len() as int);
            if !before.slots.contains_key(resource) {
                why == " is not registered"@
            } else if before.slots[resource].owner == Some(client) {
                why == " is already owned by this client"@
            } else {
                &&& before.slots[resource].owner matches Some(owner)
                &&& why == " is owned by client "@ + text::decimal(owner.0 as nat)
            }
        }),
{
    let name = message::resource_name(resource);
    if !before.slots.contains_key(resource) {
        assert(reason.skip(name.len() as int) =~= " is not registered"@);
    } else if before.slots[resource].owner == Some(client) {
        assert(reason.skip(name.len() as int) =~= " is already owned by this client"@);
    } else {
        let owner = before.slots[resource].owner->0;
        assert(reason.skip(name.len() as int) =~= " is owned by client "@ + text::decimal(
            owner.0 as nat,
        ));
    }
}

} // verus!
