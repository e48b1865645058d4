//! The policy engine: one slot per resource, and the mechanism (revoke
//! handshake, waiter queues, deadlines) that enforces each slot's policy.

use crate::client_id::ClientId;
use crate::control::{Channels, ControlMessage, ControlRegistry};
use crate::message::Resource;
use crate::policy::{AcquireDecision, Policy};
use crate::slot::{Slot, SlotView, Waiter};
use crate::{control, message, policy, slot, text};
use tokio::sync::mpsc::UnboundedSender;
use vstd::prelude::*;

verus! {

/// How long a revoked owner has to release before the resource is forced
/// free (the owner is not requeued in that case), in milliseconds.
pub const REVOKE_TIMEOUT: u64 = 5000;

/// Outcome of an acquire.
#[derive(Debug)]
pub enum AcquireOutcome {
    /// Granted immediately; the caller sends the grant.
    Granted,
    /// Queued; a grant arrives later over the control channel.
    Queued,
    /// Denied; never granted. The reason is for humans.
    Denied { reason: String },
}

/// What connections ask of the engine.
pub enum EngineCommand {
    Register { client: ClientId, control: UnboundedSender<ControlMessage> },
    Acquire { client: ClientId, resource: Resource },
    Release { client: ClientId, resource: Resource },
    Disconnected { client: ClientId },
}

/// What ends one wait of the engine.
pub enum EngineEvent {
    /// A command came in.
    Command(EngineCommand),
    /// No connection is left to send one.
    Closed,
    /// The next deadline passed first.
    Elapsed,
}

/// What the engine does after an event.
pub enum EngineTurn {
    /// It waits again, having answered an acquire if there was one.
    Continue { reply: Option<AcquireOutcome> },
    /// It shuts down.
    Stop,
}

/// A resource with its slot.
pub struct SlotEntry {
    pub resource: Resource,
    pub slot: Slot,
}

/// All arbitration state: the slots and the clients' control channels.
pub struct PolicyEngine {
    entries: Vec<SlotEntry>,
    registry: ControlRegistry,
}

/// The engine's state: a slot for each managed resource, and what each
/// registered client was offered.
#[verifier::ext_equal]
pub struct EngineView {
    pub slots: Map<Resource, SlotView>,
    pub channels: Channels,
}

/// Is the resource that of the entry at `i`?
pub open spec fn entry_at(entries: Seq<SlotEntry>, resource: Resource, i: int) -> bool {
    0 <= i < entries.len() && entries[i].resource == resource
}

/// The slots of a list of entries.
pub open spec fn slots_of(entries: Seq<SlotEntry>) -> Map<Resource, SlotView> {
    Map::new(
        |resource: Resource| exists|i: int| entry_at(entries, resource, i),
        |resource: Resource| entries[choose|i: int| entry_at(entries, resource, i)].slot@,
    )
}

/// No resource has two entries.
pub open spec fn distinct_resources(entries: Seq<SlotEntry>) -> bool {
    forall|i: int, j: int|
        0 <= i < j < entries.len() ==> (#[trigger] entries[i]).resource != (
        #[trigger] entries[j]).resource
}

/// The slots that a list of policies asks for; the last policy of a
/// resource counts.
pub open spec fn fresh_slots(policies: Seq<(Resource, Policy)>) -> Map<Resource, SlotView>
    decreases policies.len(),
{
    if policies.len() == 0 {
        Map::empty()
    } else {
        fresh_slots(policies.drop_last()).insert(
            policies.last().0,
            SlotView::fresh(policies.last().1),
        )
    }
}

/// Is the outcome a denial for the given reason?
pub open spec fn denied(outcome: AcquireOutcome, reason: Seq<char>) -> bool {
    outcome matches AcquireOutcome::Denied { reason: said } && said@ == reason
}

impl EngineView {
    /// Every slot is well formed.
    pub open spec fn well_formed(self) -> bool {
        forall|resource: Resource|
            self.slots.contains_key(resource) ==> (
            #[trigger] self.slots[resource]).well_formed()
    }

    /// The state with one slot replaced.
    pub open spec fn with_slot(self, resource: Resource, slot: SlotView) -> EngineView {
        EngineView { slots: self.slots.insert(resource, slot), ..self }
    }

    /// Does the client own or await any resource?
    pub open spec fn involves(self, client: ClientId) -> bool {
        exists|resource: Resource|
            self.slots.contains_key(resource) && {
                ||| (#[trigger] self.slots[resource]).owner == Some(client)
                ||| self.slots[resource].has_waiter(client)
            }
    }
}

/// The slot once `client` has joined its waiters.
pub open spec fn joined(slot: SlotView, client: ClientId) -> SlotView {
    SlotView { waiters: slot.waiters.push(Waiter { client }), ..slot }
}

/// What acquiring `resource` for `client` at time `now` does.
pub open spec fn acquire_effect(
    before: EngineView,
    client: ClientId,
    resource: Resource,
    now: u64,
    after: EngineView,
    outcome: AcquireOutcome,
) -> bool {
    let name = message::resource_name(resource);
    let slot = before.slots[resource];
    let owner = slot.owner->0;
    if !before.slots.contains_key(resource) {
        // Not a managed resource.
        after == before && denied(outcome, name + " is not registered"@)
    } else if slot.owner == Some(client) {
        after == before && denied(outcome, name + " is already owned by this client"@)
    } else {
        match policy::decision(slot.policy, slot.state()) {
            AcquireDecision::Grant => {
                &&& outcome is Granted
                &&& after == before.with_slot(
                    resource,
                    SlotView { owner: Some(client), ..slot },
                )
            },
            AcquireDecision::Deny => {
                &&& after == before
                &&& denied(
                    outcome,
                    name + " is owned by client "@ + text::decimal(owner.0 as nat),
                )
            },
            AcquireDecision::RevokeAndQueue | AcquireDecision::Queue => {
                &&& outcome is Queued
                &&& if slot.has_waiter(client) {
                    // Keeps its position.
                    after == before
                } else if slot.revoke_deadline is Some {
                    // The owner was asked already.
                    after == before.with_slot(resource, joined(slot, client))
                } else if before.channels.contains_key(owner) {
                    // First to wait: the owner is asked to leave.
                    &&& after.slots == before.slots.insert(
                        resource,
                        SlotView {
                            revoke_deadline: Some((now + REVOKE_TIMEOUT) as u64),
                            ..joined(slot, client)
                        },
                    )
                    &&& exists|taken: bool|
                        after.channels == #[trigger] control::offered(
                            before.channels,
                            owner,
                            slot::revoke_offer(resource, taken),
                        )
                } else {
                    // The owner vanished: the resource changes hands.
                    &&& after.slots == before.slots.insert(resource, after.slots[resource])
                    &&& slot::handed_over(
                        resource,
                        joined(slot, client).freed(),
                        before.channels,
                        after.slots[resource],
                        after.channels,
                    )
                }
            },
        }
    }
}

/// The slot as a release by its owner leaves it, before it is handed over:
/// an owner who was asked to leave while others wait gets one more turn.
pub open spec fn relinquished(slot: SlotView) -> SlotView {
    if slot.revoke_deadline is Some && slot.waiters.len() > 0 {
        SlotView {
            waiters: policy::requeued(
                slot.policy,
                slot.waiters,
                Waiter { client: slot.owner->0 },
            ),
            ..slot.freed()
        }
    } else {
        slot.freed()
    }
}

/// What a release of `resource` by `client` does.
pub open spec fn release_effect(
    before: EngineView,
    client: ClientId,
    resource: Resource,
    after: EngineView,
) -> bool {
    if !before.slots.contains_key(resource) || before.slots[resource].owner != Some(client) {
        // Only an owner can release.
        after == before
    } else {
        &&& after.slots == before.slots.insert(resource, after.slots[resource])
        &&& slot::handed_over(
            resource,
            relinquished(before.slots[resource]),
            before.channels,
            after.slots[resource],
            after.channels,
        )
    }
}

/// What the departure of `client` does to one slot.
pub open spec fn departure_effect(
    client: ClientId,
    resource: Resource,
    before: SlotView,
    channels: Channels,
    after: SlotView,
    channels_after: Channels,
) -> bool {
    if before.owner == Some(client) {
        slot::handed_over(
            resource,
            before.without_waiter(client).freed(),
            channels,
            after,
            channels_after,
        )
    } else {
        after == before.without_waiter(client) && channels_after == channels
    }
}

/// What the passing of time, up to `now`, does to one slot.
pub open spec fn expiry_effect(
    now: u64,
    resource: Resource,
    before: SlotView,
    channels: Channels,
    after: SlotView,
    channels_after: Channels,
) -> bool {
    if before.revoke_deadline is Some && before.revoke_deadline->0 <= now {
        slot::handed_over(resource, before.freed(), channels, after, channels_after)
    } else {
        after == before && channels_after == channels
    }
}

/// The effect of one step on one slot, with the channels before and after.
pub type SlotEffect = spec_fn(Resource, SlotView, Channels, SlotView, Channels) -> bool;

/// Every slot went through `effect`, one after the other in the given
/// order, each with the channels as the one before it left them.
pub open spec fn swept_along(
    slots: Map<Resource, SlotView>,
    slots_after: Map<Resource, SlotView>,
    effect: SlotEffect,
    order: Seq<Resource>,
    trace: Seq<Channels>,
) -> bool {
    &&& order.no_duplicates()
    &&& forall|resource: Resource| slots.contains_key(resource) <==> order.contains(resource)
    &&& slots_after.dom() == slots.dom()
    &&& trace.len() == order.len() + 1
    &&& forall|i: int|
        0 <= i < order.len() ==> effect(
            #[trigger] order[i],
            slots[order[i]],
            trace[i],
            slots_after[order[i]],
            trace[i + 1],
        )
}

/// Every slot went through `effect`, in some order.
pub open spec fn swept(
    slots: Map<Resource, SlotView>,
    channels: Channels,
    effect: SlotEffect,
    slots_after: Map<Resource, SlotView>,
    channels_after: Channels,
) -> bool {
    exists|order: Seq<Resource>, trace: Seq<Channels>|
        #![trigger swept_along(slots, slots_after, effect, order, trace)]
        swept_along(slots, slots_after, effect, order, trace) && trace[0] == channels
            && trace.last() == channels_after
}

/// What the departure of `client` does.
pub open spec fn disconnect_effect(
    before: EngineView,
    client: ClientId,
    after: EngineView,
) -> bool {
    swept(
        before.slots,
        before.channels.remove(client),
        |r: Resource, s: SlotView, c: Channels, s2: SlotView, c2: Channels|
            departure_effect(client, r, s, c, s2, c2),
        after.slots,
        after.channels,
    )
}

/// What the passing of time, up to `now`, does.
pub open spec fn expire_effect(before: EngineView, now: u64, after: EngineView) -> bool {
    swept(
        before.slots,
        before.channels,
        |r: Resource, s: SlotView, c: Channels, s2: SlotView, c2: Channels|
            expiry_effect(now, r, s, c, s2, c2),
        after.slots,
        after.channels,
    )
}

/// What a command does, and how it is answered.
pub open spec fn command_effect(
    before: EngineView,
    command: EngineCommand,
    now: u64,
    after: EngineView,
    reply: Option<AcquireOutcome>,
) -> bool {
    match command {
        EngineCommand::Register { client, control } => {
            &&& reply is None
            &&& after == EngineView {
                channels: before.channels.insert(client, control::offers(control)),
                ..before
            }
        },
        EngineCommand::Disconnected { client } => {
            &&& reply is None
            &&& disconnect_effect(before, client, after)
        },
        EngineCommand::Acquire { client, resource } => {
            reply matches Some(outcome) && acquire_effect(
                before,
                client,
                resource,
                now,
                after,
                outcome,
            )
        },
        EngineCommand::Release { client, resource } => {
            &&& reply is None
            &&& release_effect(before, client, resource, after)
        },
    }
}

/// Is `earliest` the first moment at which a revoke of one of the slots is
/// overdue?
pub open spec fn is_next_deadline(
    slots: Map<Resource, SlotView>,
    earliest: Option<u64>,
) -> bool {
    &&& forall|resource: Resource|
        slots.contains_key(resource) ==> ((#[trigger] slots[resource]).revoke_deadline matches Some(
            deadline,
        ) ==> earliest is Some && earliest->0 <= deadline)
    &&& earliest is Some ==> exists|resource: Resource|
        slots.contains_key(resource) && (#[trigger] slots[resource]).revoke_deadline == earliest
}

proof fn slot_is_found(entries: Seq<SlotEntry>, i: int)
    requires
        distinct_resources(entries),
        0 <= i < entries.len(),
    ensures
        slots_of(entries).contains_key(entries[i].resource),
        slots_of(entries)[entries[i].resource] == entries[i].slot@,
{
    let resource = entries[i].resource;
    assert(entry_at(entries, resource, i));
    let j = choose|j: int| entry_at(entries, resource, j);
    assert(entry_at(entries, resource, j));
    if j < i {
        assert(entries[j].resource != entries[i].resource);
    } else if i < j {
        assert(entries[i].resource != entries[j].resource);
    }
}

proof fn slot_is_replaced(entries: Seq<SlotEntry>, entries_after: Seq<SlotEntry>, i: int)
    requires
        distinct_resources(entries),
        0 <= i < entries.len(),
        entries_after.len() == entries.len(),
        entries_after[i].resource == entries[i].resource,
        forall|j: int| 0 <= j < entries.len() && j != i ==> entries_after[j] == entries[j],
    ensures
        distinct_resources(entries_after),
        slots_of(entries_after) == slots_of(entries).insert(
            entries[i].resource,
            entries_after[i].slot@,
        ),
{
    assert forall|j: int, k: int| 0 <= j < k < entries_after.len() implies (
    #[trigger] entries_after[j]).resource != (#[trigger] entries_after[k]).resource by {
        assert(entries[j].resource != entries[k].resource);
    }
    let after = slots_of(entries_after);
    let expected = slots_of(entries).insert(entries[i].resource, entries_after[i].slot@);
    slot_is_found(entries_after, i);
    assert forall|r: Resource|
        #![trigger after.dom().contains(r)]
        #![trigger expected.dom().contains(r)]
        after.dom().contains(r) == expected.dom().contains(r) && (after.dom().contains(r)
            ==> after[r] == expected[r]) by {
        if after.contains_key(r) {
            let j = choose|j: int| entry_at(entries_after, r, j);
            assert(entry_at(entries_after, r, j));
            slot_is_found(entries_after, j);
            assert(entry_at(entries, r, j));
            slot_is_found(entries, j);
        }
        if slots_of(entries).contains_key(r) {
            let j = choose|j: int| entry_at(entries, r, j);
            assert(entry_at(entries, r, j));
            assert(entry_at(entries_after, r, j));
        }
    }
    assert(after =~= expected);
}

proof fn slot_is_added(entries: Seq<SlotEntry>, entry: SlotEntry)
    requires
        distinct_resources(entries),
        !slots_of(entries).contains_key(entry.resource),
    ensures
        distinct_resources(entries.push(entry)),
        slots_of(entries.push(entry)) == slots_of(entries).insert(entry.resource, entry.slot@),
{
    let longer = entries.push(entry);
    assert forall|j: int, k: int| 0 <= j < k < longer.len() implies (
    #[trigger] longer[j]).resource != (#[trigger] longer[k]).resource by {
        assert(entry_at(entries, entries[j].resource, j));
        if k < entries.len() {
            assert(entries[j].resource != entries[k].resource);
        }
    }
    let after = slots_of(longer);
    let expected = slots_of(entries).insert(entry.resource, entry.slot@);
    assert(longer[entries.len() as int] == entry);
    slot_is_found(longer, entries.len() as int);
    assert forall|r: Resource|
        #![trigger after.dom().contains(r)]
        #![trigger expected.dom().contains(r)]
        after.dom().contains(r) == expected.dom().contains(r) && (after.dom().contains(r)
            ==> after[r] == expected[r]) by {
        if after.contains_key(r) {
            let j = choose|j: int| entry_at(longer, r, j);
            assert(entry_at(longer, r, j));
            slot_is_found(longer, j);
            if j < entries.len() {
                assert(entry_at(entries, r, j));
                slot_is_found(entries, j);
            }
        }
        if slots_of(entries).contains_key(r) {
            let j = choose|j: int| entry_at(entries, r, j);
            assert(entry_at(entries, r, j));
            assert(entry_at(longer, r, j));
        }
    }
    assert(after =~= expected);
}

proof fn joining_keeps_slot_well_formed(slot: SlotView, client: ClientId)
    requires
        slot.well_formed(),
        slot.owner is Some,
        slot.owner != Some(client),
        !(slot.policy is FirstOwner),
        !slot.has_waiter(client),
    ensures
        joined(slot, client).well_formed(),
{
    let after = joined(slot, client);
    let owner = Waiter { client: slot.owner->0 };
    if after.waiters.contains(owner) {
        let j = choose|j: int| 0 <= j < after.waiters.len() && after.waiters[j] == owner;
        assert(slot.waiters[j] == owner);
    }
}

/// Nobody waits twice once an owner has released.
pub proof fn requeueing_keeps_waiters_distinct(slot: SlotView, client: ClientId)
    requires
        slot.well_formed(),
        slot.owner == Some(client),
    ensures
        relinquished(slot).waiters.no_duplicates(),
        relinquished(slot).policy is FirstOwner ==> relinquished(slot).waiters.len() == 0,
{
    let owner = Waiter { client };
    assert(!slot.waiters.contains(owner));
    assert forall|i: int| 0 <= i < slot.waiters.len() implies slot.waiters[i] != owner by {
        if slot.waiters[i] == owner {
            assert(slot.waiters.contains(owner));
        }
    }
}

proof fn filtering_keeps_waiters_distinct(waiters: Seq<Waiter>, client: ClientId)
    requires
        waiters.no_duplicates(),
    ensures
        ({
            let kept = waiters.filter(|w: Waiter| w.client != client);
            &&& kept.no_duplicates()
            &&& kept.len() <= waiters.len()
            &&& forall|w: Waiter| #[trigger]
                kept.contains(w) <==> waiters.contains(w) && w.client != client
        }),
    decreases waiters.len(),
{
    reveal(Seq::filter);
    let stays = |w: Waiter| w.client != client;
    let kept = waiters.filter(stays);
    if waiters.len() > 0 {
        let shorter = waiters.drop_last();
        filtering_keeps_waiters_distinct(shorter, client);
        let earlier = shorter.filter(stays);
        let last = waiters.last();
        assert(!shorter.contains(last)) by {
            if shorter.contains(last) {
                let j = choose|j: int| 0 <= j < shorter.len() && shorter[j] == last;
                assert(waiters[j] == waiters[waiters.len() - 1]);
            }
        }
        assert(!earlier.contains(last));
        assert forall|w: Waiter| #[trigger]
            kept.contains(w) <==> waiters.contains(w) && w.client != client by {
            if shorter.contains(w) {
                let j = choose|j: int| 0 <= j < shorter.len() && shorter[j] == w;
                assert(waiters[j] == w);
            }
            if waiters.contains(w) && w != last {
                let j = choose|j: int| 0 <= j < waiters.len() && waiters[j] == w;
                assert(shorter[j] == w);
            }
            if stays(last) {
                assert(kept == earlier.push(last));
                if earlier.contains(w) {
                    let j = choose|j: int| 0 <= j < earlier.len() && earlier[j] == w;
                    assert(kept[j] == w);
                }
                if w == last {
                    assert(kept[kept.len() - 1] == w);
                }
                if kept.contains(w) && w != last {
                    let j = choose|j: int| 0 <= j < kept.len() && kept[j] == w;
                    assert(earlier[j] == w);
                }
            }
        }
    }
}

/// Once a client has left, a well-formed slot is well formed, the client
/// neither owns it nor waits for it, and the registered clients are those
/// who were registered before.
pub proof fn departure_keeps_slot_well_formed(
    client: ClientId,
    resource: Resource,
    before: SlotView,
    channels: Channels,
    after: SlotView,
    channels_after: Channels,
)
    requires
        before.well_formed(),
        departure_effect(client, resource, before, channels, after, channels_after),
    ensures
        after.well_formed(),
        after.owner != Some(client),
        !after.has_waiter(client),
        channels_after.dom() == channels.dom(),
{
    filtering_keeps_waiters_distinct(before.waiters, client);
    let rest = before.without_waiter(client);
    assert(!rest.has_waiter(client));
    if before.owner == Some(client) {
        slot::hand_over_keeps_slot_well_formed(
            resource,
            rest.freed(),
            channels,
            after,
            channels_after,
        );
        slot::hand_over_keeps_clients(resource, rest.freed(), channels, after, channels_after);
        slot::hand_over_invents_no_one(
            resource,
            rest.freed(),
            channels,
            after,
            channels_after,
            client,
        );
    }
}

/// Once time has passed, a well-formed slot is well formed, no revoke of it
/// is overdue, and the registered clients are those who were registered
/// before. An owner whose grace passed neither owns the resource nor waits
/// for it.
pub proof fn expiry_keeps_slot_well_formed(
    now: u64,
    resource: Resource,
    before: SlotView,
    channels: Channels,
    after: SlotView,
    channels_after: Channels,
)
    requires
        before.well_formed(),
        expiry_effect(now, resource, before, channels, after, channels_after),
    ensures
        after.well_formed(),
        after.revoke_deadline matches Some(deadline) ==> now < deadline,
        before.revoke_deadline matches Some(deadline) ==> deadline <= now ==> after.owner
            != before.owner && !after.has_waiter(before.owner->0),
        channels_after.dom() == channels.dom(),
{
    if before.revoke_deadline is Some && before.revoke_deadline->0 <= now {
        let freed = before.freed();
        slot::hand_over_keeps_slot_well_formed(resource, freed, channels, after, channels_after);
        slot::hand_over_keeps_clients(resource, freed, channels, after, channels_after);
        slot::hand_over_invents_no_one(
            resource,
            freed,
            channels,
            after,
            channels_after,
            before.owner->0,
        );
    }
}

/// The first `n` entries have gone through `effect`, the others are as they
/// were.
spec fn sweeping(
    entries: Seq<SlotEntry>,
    current: Seq<SlotEntry>,
    effect: SlotEffect,
    trace: Seq<Channels>,
    n: int,
) -> bool {
    &&& current.len() == entries.len()
    &&& trace.len() == n + 1
    &&& forall|j: int|
        0 <= j < entries.len() ==> (#[trigger] entries[j]).slot@.well_formed()
            && current[j].slot@.well_formed()
    &&& forall|j: int|
        0 <= j < entries.len() ==> (#[trigger] current[j]).resource == entries[j].resource
    &&& forall|j: int| n <= j < entries.len() ==> #[trigger] current[j] == entries[j]
    &&& forall|j: int|
        0 <= j < n ==> effect(
            (#[trigger] entries[j]).resource,
            entries[j].slot@,
            trace[j],
            current[j].slot@,
            trace[j + 1],
        )
}

proof fn sweep_starts(engine: PolicyEngine, effect: SlotEffect, channels: Channels)
    requires
        engine.well_formed(),
    ensures
        sweeping(engine.entries@, engine.entries@, effect, seq![channels], 0),
{
    let entries = engine.entries@;
    assert forall|j: int| 0 <= j < entries.len() implies (
    #[trigger] entries[j]).slot@.well_formed() by {
        slot_is_found(entries, j);
        assert(engine@.slots[entries[j].resource].well_formed());
    }
}

proof fn sweep_advances(
    entries: Seq<SlotEntry>,
    current: Seq<SlotEntry>,
    next: Seq<SlotEntry>,
    effect: SlotEffect,
    trace: Seq<Channels>,
    n: int,
    channels: Channels,
)
    requires
        sweeping(entries, current, effect, trace, n),
        0 <= n < entries.len(),
        next.len() == current.len(),
        next[n].resource == current[n].resource,
        next[n].slot@.well_formed(),
        forall|j: int| 0 <= j < next.len() && j != n ==> next[j] == current[j],
        effect(entries[n].resource, entries[n].slot@, trace[n], next[n].slot@, channels),
    ensures
        sweeping(entries, next, effect, trace.push(channels), n + 1),
{
}

proof fn sweep_ends(
    entries: Seq<SlotEntry>,
    swept_entries: Seq<SlotEntry>,
    effect: SlotEffect,
    trace: Seq<Channels>,
)
    requires
        distinct_resources(entries),
        sweeping(entries, swept_entries, effect, trace, entries.len() as int),
    ensures
        distinct_resources(swept_entries),
        forall|resource: Resource|
            slots_of(swept_entries).contains_key(resource) ==> (
            #[trigger] slots_of(swept_entries)[resource]).well_formed(),
        swept(slots_of(entries), trace[0], effect, slots_of(swept_entries), trace.last()),
{
    let slots = slots_of(entries);
    let slots_after = slots_of(swept_entries);
    let order = entries.map_values(|e: SlotEntry| e.resource);
    assert forall|j: int, k: int| 0 <= j < k < swept_entries.len() implies (
    #[trigger] swept_entries[j]).resource != (#[trigger] swept_entries[k]).resource by {
        assert(entries[j].resource != entries[k].resource);
    }
    assert forall|resource: Resource| slots.contains_key(resource) <==> order.contains(resource) by {
        if slots.contains_key(resource) {
            let j = choose|j: int| entry_at(entries, resource, j);
            assert(entry_at(entries, resource, j));
            assert(order[j] == resource);
        }
        if order.contains(resource) {
            let j = choose|j: int| 0 <= j < order.len() && order[j] == resource;
            assert(entry_at(entries, resource, j));
        }
    }
    assert forall|resource: Resource| slots_after.dom().contains(resource) == slots.dom().contains(
        resource,
    ) by {
        if slots.contains_key(resource) {
            let j = choose|j: int| entry_at(entries, resource, j);
            assert(entry_at(entries, resource, j));
            assert(entry_at(swept_entries, resource, j));
        }
        if slots_after.contains_key(resource) {
            let j = choose|j: int| entry_at(swept_entries, resource, j);
            assert(entry_at(swept_entries, resource, j));
            assert(entry_at(entries, resource, j));
        }
    }
    assert(slots_after.dom() =~= slots.dom());
    assert forall|resource: Resource| slots_after.contains_key(resource) implies (
    #[trigger] slots_after[resource]).well_formed() by {
        let j = choose|j: int| entry_at(swept_entries, resource, j);
        assert(entry_at(swept_entries, resource, j));
        assert(entries[j].slot@.well_formed());
        slot_is_found(swept_entries, j);
    }
    assert forall|i: int| 0 <= i < order.len() implies effect(
        #[trigger] order[i],
        slots[order[i]],
        trace[i],
        slots_after[order[i]],
        trace[i + 1],
    ) by {
        slot_is_found(entries, i);
        slot_is_found(swept_entries, i);
        assert(swept_entries[i].resource == entries[i].resource);
    }
    assert(order.no_duplicates());
    assert(swept_along(slots, slots_after, effect, order, trace));
}

impl View for PolicyEngine {
    type V = EngineView;

    closed spec fn view(&self) -> EngineView {
        EngineView { slots: slots_of(self.entries@), channels: self.registry@ }
    }
}

impl PolicyEngine {
    /// No resource has two slots, and every slot is well formed.
    pub closed spec fn well_formed(&self) -> bool {
        distinct_resources(self.entries@) && self@.well_formed()
    }

    /// Starts an engine with one free slot per resource in `policies`, and
    /// no clients. Where a resource is listed more than once, its last
    /// policy counts.
    pub fn spawn(policies: Vec<(Resource, Policy)>) -> (engine: Self)
        ensures
            engine.well_formed(),
            engine@.slots == fresh_slots(policies@),
            engine@.channels == Channels::empty(),
    {
        let mut engine = PolicyEngine { entries: Vec::new(), registry: ControlRegistry::new() };
        let n: usize = policies.len();
        let mut i: usize = 0;
        assert(engine@.slots =~= Map::empty());
        while i < n
            invariant
                i <= n,
                n == policies@.len(),
                engine.well_formed(),
                engine@.slots == fresh_slots(policies@.take(i as int)),
                engine@.channels == Channels::empty(),
            decreases n - i,
        {
            let (resource, policy) = policies[i];
            let slot = Slot::new(policy);
            proof {
                assert(policies@.take(i + 1).drop_last() =~= policies@.take(i as int));
            }
            match engine.find(&resource) {
                Some(at) => {
                    let ghost entries = engine.entries@;
                    engine.entries[at].slot = slot;
                    proof {
                        slot_is_replaced(entries, engine.entries@, at as int);
                    }
                },
                None => {
                    proof {
                        slot_is_added(engine.entries@, SlotEntry { resource, slot });
                    }
                    engine.entries.push(SlotEntry { resource, slot });
                },
            }
            i = i + 1;
        }
        proof {
            assert(policies@.take(n as int) =~= policies@);
        }
        engine
    }

    fn find(&self, resource: &Resource) -> (at: Option<usize>)
        requires
            self.well_formed(),
        ensures
            match at {
                Some(i) => {
                    &&& i < self.entries@.len()
                    &&& self.entries@[i as int].resource == *resource
                    &&& self@.slots.contains_key(*resource)
                    &&& self@.slots[*resource] == self.entries@[i as int].slot@
                },
                None => !self@.slots.contains_key(*resource),
            },
    {
        let n: usize = self.entries.len();
        let mut i: usize = 0;
        while i < n
            invariant
                i <= n,
                n == self.entries@.len(),
                self.well_formed(),
                forall|j: int| 0 <= j < i ==> !entry_at(self.entries@, *resource, j),
            decreases n - i,
        {
            if self.entries[i].resource == *resource {
                proof {
                    slot_is_found(self.entries@, i as int);
                }
                return Some(i);
            }
            i = i + 1;
        }
        None
    }

    /// Registers a client's control channel.
    pub fn register(&mut self, client: ClientId, control: UnboundedSender<ControlMessage>)
        requires
            old(self).well_formed(),
        ensures
            final(self).well_formed(),
            final(self)@ == (EngineView {
                channels: old(self)@.channels.insert(client, control::offers(control)),
                ..old(self)@
            }),
    {
        self.registry.insert(client, control);
    }

    /// Acquires `resource` for `client`. A held resource is denied, or the
    /// client waits for it and the owner is asked to leave, according to the
    /// resource's policy.
    pub fn acquire(&mut self, client: ClientId, resource: Resource, now: u64) -> (outcome:
        AcquireOutcome)
        requires
            old(self).well_formed(),
            now + REVOKE_TIMEOUT <= u64::MAX,
        ensures
            final(self).well_formed(),
            acquire_effect(old(self)@, client, resource, now, final(self)@, outcome),
    {
        let at = match self.find(&resource) {
            Some(at) => at,
            None => {
                let name = resource.name();
                return AcquireOutcome::Denied { reason: name.concat(" is not registered") };
            },
        };
        let ghost entries = self.entries@;
        let ghost before = self@;
        let ghost slot = entries[at as int].slot@;
        if self.entries[at].slot.owner == Some(client) {
            let name = resource.name();
            return AcquireOutcome::Denied {
                reason: name.concat(" is already owned by this client"),
            };
        }
        match self.entries[at].slot.policy.decide(self.entries[at].slot.state()) {
            AcquireDecision::Grant => {
                self.entries[at].slot.owner = Some(client);
                proof {
                    slot_is_replaced(entries, self.entries@, at as int);
                    assert(!slot.has_waiter(client));
                }
                AcquireOutcome::Granted
            },
            AcquireDecision::Deny => {
                let name = resource.name();
                match self.entries[at].slot.owner {
                    Some(owner) => {
                        let number = owner.to_text();
                        AcquireOutcome::Denied {
                            reason: name.concat(" is owned by client ").concat(number.as_str()),
                        }
                    },
                    None => AcquireOutcome::Denied { reason: name.concat(" is not available") },
                }
            },
            AcquireDecision::RevokeAndQueue | AcquireDecision::Queue => {
                if self.entries[at].slot.is_queued(client) {
                    return AcquireOutcome::Queued;
                }
                self.entries[at].slot.waiters.push_back(Waiter { client });
                let ghost queued = self.entries@;
                proof {
                    assert(queued[at as int].slot@ =~= joined(slot, client));
                    slot_is_replaced(entries, queued, at as int);
                    joining_keeps_slot_well_formed(slot, client);
                }
                let in_flight = self.entries[at].slot.revoke_deadline.is_some();
                if let (false, Some(owner)) = (in_flight, self.entries[at].slot.owner) {
                    // First to wait: ask the current owner to leave.
                    let mut resources: Vec<Resource> = Vec::new();
                    resources.push(resource);
                    assert(resources@ =~= seq![resource]);
                    let answer = self.registry.offer(owner, ControlMessage::Revoke { resources });
                    if answer.is_some() {
                        self.entries[at].slot.revoke_deadline = Some(now + REVOKE_TIMEOUT);
                        proof {
                            slot_is_replaced(queued, self.entries@, at as int);
                            assert(self@.slots =~= before.slots.insert(
                                resource,
                                self.entries@[at as int].slot@,
                            ));
                            assert(self@.channels == control::offered(
                                before.channels,
                                owner,
                                slot::revoke_offer(resource, answer == Some(true)),
                            ));
                        }
                    } else {
                        // The owner vanished; reclaim.
                        self.entries[at].slot.owner = None;
                        self.entries[at].slot.grant_next(&resource, &mut self.registry);
                        proof {
                            let after = self.entries@[at as int].slot@;
                            slot_is_replaced(queued, self.entries@, at as int);
                            assert(joined(slot, client).freed() =~= SlotView {
                                owner: None,
                                ..joined(slot, client)
                            });
                            slot::hand_over_keeps_slot_well_formed(
                                resource,
                                joined(slot, client).freed(),
                                before.channels,
                                after,
                                self.registry@,
                            );
                            assert(self@.slots =~= before.slots.insert(resource, after));
                        }
                    }
                }
                AcquireOutcome::Queued
            },
        }
    }

    /// Gives `resource` back. Only its owner can; after a revoke the release
    /// is also the acknowledgment of that revoke, and the client waits for
    /// one more turn.
    pub fn release(&mut self, client: ClientId, resource: Resource)
        requires
            old(self).well_formed(),
        ensures
            final(self).well_formed(),
            release_effect(old(self)@, client, resource, final(self)@),
    {
        let at = match self.find(&resource) {
            Some(at) => at,
            None => {
                return ;
            },
        };
        if self.entries[at].slot.owner != Some(client) {
            return ;
        }
        let ghost entries = self.entries@;
        let ghost before = self@;
        let ghost slot = entries[at as int].slot@;
        let revoking = self.entries[at].slot.revoke_deadline.is_some();
        self.entries[at].slot.owner = None;
        self.entries[at].slot.revoke_deadline = None;
        if revoking && self.entries[at].slot.waiters.len() > 0 {
            // The preempted owner gets one more turn.
            let policy = self.entries[at].slot.policy;
            policy.requeue_waiter(&mut self.entries[at].slot.waiters, Waiter { client });
        }
        assert(self.entries@[at as int].slot@ =~= relinquished(slot));
        self.entries[at].slot.grant_next(&resource, &mut self.registry);
        proof {
            let after = self.entries@[at as int].slot@;
            slot_is_replaced(entries, self.entries@, at as int);
            requeueing_keeps_waiters_distinct(slot, client);
            slot::hand_over_keeps_slot_well_formed(
                resource,
                relinquished(slot),
                before.channels,
                after,
                self.registry@,
            );
            assert(self@.slots =~= before.slots.insert(resource, after));
        }
    }

    /// Forgets a client whose connection ended: it waits for nothing, and
    /// what it owned goes to the next waiters.
    pub fn disconnected(&mut self, client: ClientId)
        requires
            old(self).well_formed(),
        ensures
            final(self).well_formed(),
            disconnect_effect(old(self)@, client, final(self)@),
    {
        self.registry.remove(client);
        let ghost entries = self.entries@;
        let ghost effect: SlotEffect =
            |r: Resource, s: SlotView, c: Channels, s2: SlotView, c2: Channels|
            departure_effect(client, r, s, c, s2, c2);
        let ghost mut trace: Seq<Channels> = seq![self.registry@];
        proof {
            sweep_starts(*old(self), effect, self.registry@);
        }
        let n: usize = self.entries.len();
        let mut i: usize = 0;
        while i < n
            invariant
                i <= n,
                n == self.entries@.len(),
                distinct_resources(entries),
                effect == (|r: Resource, s: SlotView, c: Channels, s2: SlotView, c2: Channels|
                    departure_effect(client, r, s, c, s2, c2)),
                sweeping(entries, self.entries@, effect, trace, i as int),
                trace[0] == old(self)@.channels.remove(client),
                trace.last() == self.registry@,
            decreases n - i,
        {
            let ghost earlier = self.entries@;
            let ghost channels = self.registry@;
            let ghost slot = entries[i as int].slot@;
            let resource = self.entries[i].resource;
            self.entries[i].slot.remove_waiter(client);
            if self.entries[i].slot.owner == Some(client) {
                self.entries[i].slot.force_reclaim(&resource, &mut self.registry);
            }
            proof {
                departure_keeps_slot_well_formed(
                    client,
                    resource,
                    slot,
                    channels,
                    self.entries@[i as int].slot@,
                    self.registry@,
                );
                sweep_advances(entries, earlier, self.entries@, effect, trace, i as int, self.registry@);
                trace = trace.push(self.registry@);
            }
            i = i + 1;
        }
        proof {
            sweep_ends(entries, self.entries@, effect, trace);
        }
    }

    /// Frees every resource whose owner was asked to leave and has let its
    /// grace pass, up to `now`. Such an owner does not wait for another turn.
    pub fn expire(&mut self, now: u64)
        requires
            old(self).well_formed(),
        ensures
            final(self).well_formed(),
            expire_effect(old(self)@, now, final(self)@),
    {
        let ghost entries = self.entries@;
        let ghost effect: SlotEffect =
            |r: Resource, s: SlotView, c: Channels, s2: SlotView, c2: Channels|
            expiry_effect(now, r, s, c, s2, c2);
        let ghost mut trace: Seq<Channels> = seq![self.registry@];
        proof {
            sweep_starts(*old(self), effect, self.registry@);
        }
        let n: usize = self.entries.len();
        let mut i: usize = 0;
        while i < n
            invariant
                i <= n,
                n == self.entries@.len(),
                distinct_resources(entries),
                effect == (|r: Resource, s: SlotView, c: Channels, s2: SlotView, c2: Channels|
                    expiry_effect(now, r, s, c, s2, c2)),
                sweeping(entries, self.entries@, effect, trace, i as int),
                trace[0] == old(self)@.channels,
                trace.last() == self.registry@,
            decreases n - i,
        {
            let ghost earlier = self.entries@;
            let ghost channels = self.registry@;
            let ghost slot = entries[i as int].slot@;
            let resource = self.entries[i].resource;
            if let Some(deadline) = self.entries[i].slot.revoke_deadline {
                if deadline <= now {
                    self.entries[i].slot.force_reclaim(&resource, &mut self.registry);
                }
            }
            proof {
                expiry_keeps_slot_well_formed(
                    now,
                    resource,
                    slot,
                    channels,
                    self.entries@[i as int].slot@,
                    self.registry@,
                );
                sweep_advances(entries, earlier, self.entries@, effect, trace, i as int, self.registry@);
                trace = trace.push(self.registry@);
            }
            i = i + 1;
        }
        proof {
            sweep_ends(entries, self.entries@, effect, trace);
        }
    }

    /// The earliest moment at which a revoked owner's grace ends, if any
    /// revoke is in flight.
    pub fn next_deadline(&self) -> (earliest: Option<u64>)
        requires
            self.well_formed(),
        ensures
            is_next_deadline(self@.slots, earliest),
    {
        let mut earliest: Option<u64> = None;
        let n: usize = self.entries.len();
        let mut i: usize = 0;
        while i < n
            invariant
                i <= n,
                n == self.entries@.len(),
                forall|j: int|
                    0 <= j < i ==> ((#[trigger] self.entries@[j]).slot.revoke_deadline matches Some(
                        deadline,
                    ) ==> earliest is Some && earliest->0 <= deadline),
                earliest is Some ==> exists|j: int|
                    0 <= j < i && (#[trigger] self.entries@[j]).slot.revoke_deadline == earliest,
            decreases n - i,
        {
            if let Some(deadline) = self.entries[i].slot.revoke_deadline {
                let sooner = match earliest {
                    Some(known) => deadline < known,
                    None => true,
                };
                if sooner {
                    earliest = Some(deadline);
                    assert(self.entries@[i as int].slot.revoke_deadline == earliest);
                }
            }
            i = i + 1;
        }
        proof {
            let slots = self@.slots;
            assert forall|resource: Resource| slots.contains_key(resource) implies ((
            #[trigger] slots[resource]).revoke_deadline matches Some(deadline) ==> earliest is Some
                && earliest->0 <= deadline) by {
                let j = choose|j: int| entry_at(self.entries@, resource, j);
                assert(entry_at(self.entries@, resource, j));
                slot_is_found(self.entries@, j);
            }
            if earliest is Some {
                let j = choose|j: int|
                    0 <= j < n && (#[trigger] self.entries@[j]).slot.revoke_deadline == earliest;
                slot_is_found(self.entries@, j);
                assert(slots[self.entries@[j].resource].revoke_deadline == earliest);
            }
        }
        earliest
    }

    /// Carries out one command. Only an acquire is answered.
    pub fn handle_command(&mut self, command: EngineCommand, now: u64) -> (reply: Option<
        AcquireOutcome,
    >)
        requires
            old(self).well_formed(),
            now + REVOKE_TIMEOUT <= u64::MAX,
        ensures
            final(self).well_formed(),
            command_effect(old(self)@, command, now, final(self)@, reply),
    {
        match command {
            EngineCommand::Register { client, control } => {
                self.register(client, control);
                None
            },
            EngineCommand::Disconnected { client } => {
                self.disconnected(client);
                None
            },
            EngineCommand::Acquire { client, resource } => {
                Some(self.acquire(client, resource, now))
            },
            EngineCommand::Release { client, resource } => {
                self.release(client, resource);
                None
            },
        }
    }

    /// One turn of the engine: what came out of waiting for a command until
    /// the next deadline.
    pub fn step(&mut self, event: EngineEvent, now: u64) -> (turn: EngineTurn)
        requires
            old(self).well_formed(),
            now + REVOKE_TIMEOUT <= u64::MAX,
        ensures
            final(self).well_formed(),
            match event {
                EngineEvent::Command(command) => turn matches EngineTurn::Continue { reply }
                    && command_effect(old(self)@, command, now, final(self)@, reply),
                EngineEvent::Elapsed => turn matches EngineTurn::Continue { reply } && reply is None
                    && expire_effect(old(self)@, now, final(self)@),
                EngineEvent::Closed => turn is Stop && final(self)@ == old(self)@,
            },
    {
        match event {
            EngineEvent::Command(command) => {
                let reply = self.handle_command(command, now);
                EngineTurn::Continue { reply }
            },
            EngineEvent::Closed => EngineTurn::Stop,
            EngineEvent::Elapsed => {
                self.expire(now);
                EngineTurn::Continue { reply: None }
            },
        }
    }
}

/// Every state that an engine is in is well formed: in each slot nobody waits
/// twice, and the owner does not wait.
pub proof fn engine_state_is_well_formed(engine: PolicyEngine)
    requires
        engine.well_formed(),
    ensures
        engine@.well_formed(),
{
}

/// What an acquire comes to where the engine may not have answered: its
/// answer, or a denial.
pub fn answered(reply: Option<AcquireOutcome>) -> (outcome: AcquireOutcome)
    ensures
        match reply {
            Some(given) => outcome == given,
            None => denied(outcome, "policy engine unavailable"@),
        },
{
    match reply {
        Some(given) => given,
        None => AcquireOutcome::Denied { reason: "policy engine unavailable".to_string() },
    }
}

} // verus!
