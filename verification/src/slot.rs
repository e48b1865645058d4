//! One resource under arbitration: its owner, its waiters, and the revoke
//! that may be in flight.

use crate::client_id::ClientId;
use crate::control::{Channels, ControlMessage, ControlRegistry, ControlView, Offer};
use crate::message::Resource;
use crate::policy::{Policy, SlotState};
use crate::{control, policy};
use std::collections::VecDeque;
use vstd::prelude::*;

verus! {

/// A client waiting for a resource.
#[derive(Debug, Clone, Copy, PartialEq, Eq, Structural)]
pub struct Waiter {
    pub client: ClientId,
}

/// Per-resource slot: owner, waiters, and revoke bookkeeping.
pub struct Slot {
    pub policy: Policy,
    pub owner: Option<ClientId>,
    pub waiters: VecDeque<Waiter>,
    /// Set while a revoke is in flight: when its grace ends, in
    /// milliseconds.
    pub revoke_deadline: Option<u64>,
}

/// A slot with its waiters as a sequence.
#[verifier::ext_equal]
pub struct SlotView {
    pub policy: Policy,
    pub owner: Option<ClientId>,
    pub waiters: Seq<Waiter>,
    pub revoke_deadline: Option<u64>,
}

impl View for Slot {
    type V = SlotView;

    open spec fn view(&self) -> SlotView {
        SlotView {
            policy: self.policy,
            owner: self.owner,
            waiters: self.waiters@,
            revoke_deadline: self.revoke_deadline,
        }
    }
}

impl SlotView {
    /// A slot that nobody has asked for yet.
    pub open spec fn fresh(policy: Policy) -> SlotView {
        SlotView { policy, owner: None, waiters: Seq::empty(), revoke_deadline: None }
    }

    pub open spec fn state(self) -> SlotState {
        if self.owner is None {
            SlotState::Free
        } else if self.revoke_deadline is None {
            SlotState::Granted
        } else {
            SlotState::Revoking
        }
    }

    /// Is the client waiting here?
    pub open spec fn has_waiter(self, client: ClientId) -> bool {
        self.waiters.contains(Waiter { client })
    }

    /// The slot with nobody owning it and no revoke in flight.
    pub open spec fn freed(self) -> SlotView {
        SlotView { owner: None, revoke_deadline: None, ..self }
    }

    /// The slot without `client` among its waiters.
    pub open spec fn without_waiter(self, client: ClientId) -> SlotView {
        SlotView { waiters: self.waiters.filter(|w: Waiter| w.client != client), ..self }
    }

    /// What holds of every slot, whatever happens to it: nobody waits
    /// twice, the owner does not wait, nobody waits for a free resource, a
    /// revoke is in flight only while somebody owns the resource, and a
    /// `FirstOwner` slot has neither waiters nor revokes.
    pub open spec fn well_formed(self) -> bool {
        &&& self.waiters.no_duplicates()
        &&& self.owner matches Some(owner) ==> !self.has_waiter(owner)
        &&& self.owner is None ==> self.waiters.len() == 0 && self.revoke_deadline is None
        &&& self.policy is FirstOwner ==> self.waiters.len() == 0 && self.revoke_deadline is None
    }
}

/// The waiters left once the first `n` of the service order are gone.
pub open spec fn unserved(policy: Policy, waiters: Seq<Waiter>, n: int) -> Seq<Waiter> {
    match policy {
        Policy::FirstOwner => waiters,
        Policy::LatestOwner => waiters.take(waiters.len() - n),
        Policy::FairQueue => waiters.skip(n),
    }
}

/// A grant of `resource` as it is offered to a channel.
pub open spec fn grant_offer(resource: Resource, taken: bool) -> Offer {
    Offer { message: ControlView::Grant { resources: seq![resource] }, taken }
}

/// A revoke of `resource` as it is offered to a channel.
pub open spec fn revoke_offer(resource: Resource, taken: bool) -> Offer {
    Offer { message: ControlView::Revoke { resources: seq![resource] }, taken }
}

/// The channels once the first `k` of `order` were offered `resource` and
/// none of their channels took it.
pub open spec fn refused(
    channels: Channels,
    resource: Resource,
    order: Seq<Waiter>,
    k: int,
) -> Channels
    decreases k,
{
    if k <= 0 {
        channels
    } else {
        control::offered(
            refused(channels, resource, order, k - 1),
            order[k - 1].client,
            grant_offer(resource, false),
        )
    }
}

/// A hand-over in which the first `k` waiters of the service order were
/// passed over.
pub open spec fn handed_over_after(
    resource: Resource,
    before: SlotView,
    channels: Channels,
    after: SlotView,
    channels_after: Channels,
    k: int,
) -> bool {
    let order = policy::service_order(before.policy, before.waiters);
    let passed = refused(channels, resource, order, k);
    &&& 0 <= k <= order.len()
    &&& if k < order.len() {
        let winner = order[k].client;
        &&& channels.contains_key(winner)
        &&& channels_after == control::offered(passed, winner, grant_offer(resource, true))
        &&& after == SlotView {
            owner: Some(winner),
            waiters: unserved(before.policy, before.waiters, k + 1),
            ..before
        }
    } else {
        &&& channels_after == passed
        &&& after == SlotView { waiters: unserved(before.policy, before.waiters, k), ..before }
    }
}

/// The resource went to the first waiter, in service order, who is
/// registered and whose channel took the grant. Those before were offered
/// it, where they are registered, and are no longer waiting. If there was
/// no taker, nobody waits and nobody owns the resource.
pub open spec fn handed_over(
    resource: Resource,
    before: SlotView,
    channels: Channels,
    after: SlotView,
    channels_after: Channels,
) -> bool {
    exists|k: int|
        #[trigger] handed_over_after(resource, before, channels, after, channels_after, k)
}

proof fn refused_keeps_clients(channels: Channels, resource: Resource, order: Seq<Waiter>, k: int)
    ensures
        refused(channels, resource, order, k).dom() == channels.dom(),
    decreases k,
{
    if k > 0 {
        refused_keeps_clients(channels, resource, order, k - 1);
        assert(refused(channels, resource, order, k).dom() =~= channels.dom());
    }
}

/// A hand-over leaves the set of registered clients as it was.
pub proof fn hand_over_keeps_clients(
    resource: Resource,
    before: SlotView,
    channels: Channels,
    after: SlotView,
    channels_after: Channels,
)
    requires
        handed_over(resource, before, channels, after, channels_after),
    ensures
        channels_after.dom() == channels.dom(),
{
    let k = choose|k: int|
        #[trigger] handed_over_after(resource, before, channels, after, channels_after, k);
    let order = policy::service_order(before.policy, before.waiters);
    refused_keeps_clients(channels, resource, order, k);
    assert(channels_after.dom() =~= channels.dom());
}

/// Handing over a slot that nobody owns leaves a well-formed slot.
pub proof fn hand_over_keeps_slot_well_formed(
    resource: Resource,
    before: SlotView,
    channels: Channels,
    after: SlotView,
    channels_after: Channels,
)
    requires
        handed_over(resource, before, channels, after, channels_after),
        before.owner is None,
        before.revoke_deadline is None,
        before.waiters.no_duplicates(),
        before.policy is FirstOwner ==> before.waiters.len() == 0,
    ensures
        after.well_formed(),
{
    let k = choose|k: int|
        #[trigger] handed_over_after(resource, before, channels, after, channels_after, k);
    let order = policy::service_order(before.policy, before.waiters);
    if k < order.len() {
        let winner = order[k].client;
        assert(order[k] == Waiter { client: winner });
        assert(!after.has_waiter(winner)) by {
            if after.has_waiter(winner) {
                let j = choose|j: int|
                    0 <= j < after.waiters.len() && after.waiters[j] == Waiter { client: winner };
            }
        }
    }
}

/// A hand-over gives nothing to a client that neither owns the resource nor
/// waits for it.
pub proof fn hand_over_invents_no_one(
    resource: Resource,
    before: SlotView,
    channels: Channels,
    after: SlotView,
    channels_after: Channels,
    client: ClientId,
)
    requires
        handed_over(resource, before, channels, after, channels_after),
        before.owner != Some(client),
        !before.has_waiter(client),
    ensures
        after.owner != Some(client),
        !after.has_waiter(client),
{
    let k = choose|k: int|
        #[trigger] handed_over_after(resource, before, channels, after, channels_after, k);
    let order = policy::service_order(before.policy, before.waiters);
    if k < order.len() {
        if order[k].client == client {
            assert(order[k] == Waiter { client });
            if before.policy is LatestOwner {
                assert(before.waiters[before.waiters.len() - 1 - k] == Waiter { client });
            } else {
                assert(before.waiters[k] == Waiter { client });
            }
        }
    }
    if after.has_waiter(client) {
        let j = choose|j: int|
            0 <= j < after.waiters.len() && after.waiters[j] == Waiter { client };
        if before.policy is FairQueue {
            assert(before.waiters[before.waiters.len() - after.waiters.len() + j] == Waiter {
                client,
            });
        } else {
            assert(before.waiters[j] == Waiter { client });
        }
    }
}

impl Slot {
    pub fn new(policy: Policy) -> (slot: Self)
        ensures
            slot@ == SlotView::fresh(policy),
    {
        let slot = Slot { policy, owner: None, waiters: VecDeque::new(), revoke_deadline: None };
        assert(slot@ =~= SlotView::fresh(policy));
        slot
    }

    pub fn state(&self) -> (state: SlotState)
        ensures
            state == self@.state(),
    {
        match (self.owner, self.revoke_deadline) {
            (None, _) => SlotState::Free,
            (Some(_), None) => SlotState::Granted,
            (Some(_), Some(_)) => SlotState::Revoking,
        }
    }

    /// Is this client already waiting?
    pub fn is_queued(&self, client: ClientId) -> (queued: bool)
        ensures
            queued == self@.has_waiter(client),
    {
        let n: usize = self.waiters.len();
        let mut i: usize = 0;
        while i < n
            invariant
                i <= n,
                n == self.waiters@.len(),
                forall|j: int| 0 <= j < i ==> self.waiters@[j] != (Waiter { client }),
            decreases n - i,
        {
            if self.waiters[i].client == client {
                assert(self.waiters@[i as int] == Waiter { client });
                return true;
            }
            i = i + 1;
        }
        false
    }

    /// Takes the next waiter of the slot's policy.
    pub fn pop_waiter(&mut self) -> (waiter: Option<Waiter>)
        ensures
            ({
                let order = policy::service_order(old(self).policy, old(self).waiters@);
                if order.len() == 0 {
                    waiter is None
                } else {
                    waiter == Some(order[0])
                }
            }),
            final(self)@ == (SlotView {
                waiters: policy::without_first(old(self).policy, old(self).waiters@),
                ..old(self)@
            }),
    {
        self.policy.pop_waiter(&mut self.waiters)
    }

    /// Removes a client from the waiters.
    pub fn remove_waiter(&mut self, client: ClientId)
        ensures
            final(self)@ == old(self)@.without_waiter(client),
    {
        let ghost all = self.waiters@;
        let ghost stays = |w: Waiter| w.client != client;
        let mut kept: VecDeque<Waiter> = VecDeque::new();
        let n: usize = self.waiters.len();
        let mut i: usize = 0;
        assert(all.take(0).filter(stays) =~= Seq::<Waiter>::empty()) by {
            reveal(Seq::filter);
        }
        while i < n
            invariant
                i <= n,
                n == self.waiters@.len(),
                self.waiters@ == all,
                stays == (|w: Waiter| w.client != client),
                kept@ == all.take(i as int).filter(stays),
            decreases n - i,
        {
            let waiter = self.waiters[i];
            proof {
                reveal(Seq::filter);
                assert(all.take(i + 1).drop_last() =~= all.take(i as int));
                assert(all.take(i + 1).last() == waiter);
            }
            if waiter.client != client {
                kept.push_back(waiter);
            }
            i = i + 1;
        }
        proof {
            assert(all.take(n as int) =~= all);
        }
        self.waiters = kept;
    }

    /// Hands the resource to the next waiter (per the slot's policy).
    ///
    /// The engine does not own streams: it offers a grant to the winner's
    /// control channel; that connection writes it on the wire. A waiter
    /// whose channel is gone is dropped and the next one is tried.
    pub fn grant_next(&mut self, resource: &Resource, registry: &mut ControlRegistry)
        ensures
            handed_over(*resource, old(self)@, old(registry)@, final(self)@, final(registry)@),
    {
        let ghost before = self@;
        let ghost channels = registry@;
        let ghost order = policy::service_order(before.policy, before.waiters);
        let ghost mut k: int = 0;
        assert(unserved(before.policy, before.waiters, 0) =~= before.waiters);
        loop
            invariant
                before == old(self)@,
                channels == old(registry)@,
                order == policy::service_order(before.policy, before.waiters),
                0 <= k <= order.len(),
                self@ == (SlotView {
                    waiters: unserved(before.policy, before.waiters, k),
                    ..before
                }),
                registry@ == refused(channels, *resource, order, k),
            decreases order.len() - k,
        {
            proof {
                assert(policy::service_order(self.policy, self.waiters@) =~= order.skip(k));
                refused_keeps_clients(channels, *resource, order, k);
            }
            match self.pop_waiter() {
                None => {
                    assert(handed_over_after(
                        *resource,
                        before,
                        channels,
                        self@,
                        registry@,
                        k,
                    ));
                    return ;
                },
                Some(waiter) => {
                    assert(waiter == order[k]);
                    assert(self.waiters@ =~= unserved(before.policy, before.waiters, k + 1));
                    let mut resources: Vec<Resource> = Vec::new();
                    resources.push(*resource);
                    assert(resources@ =~= seq![*resource]);
                    let answer = registry.offer(
                        waiter.client,
                        ControlMessage::Grant { resources },
                    );
                    if let Some(true) = answer {
                        self.owner = Some(waiter.client);
                        assert(handed_over_after(
                            *resource,
                            before,
                            channels,
                            self@,
                            registry@,
                            k,
                        ));
                        return ;
                    }
                    proof {
                        k = k + 1;
                    }
                },
            }
        }
    }

    /// Force-frees a slot whose owner never confirmed the revoke. No
    /// requeue: a wedged client does not get a queue spot.
    pub fn force_reclaim(&mut self, resource: &Resource, registry: &mut ControlRegistry)
        ensures
            handed_over(
                *resource,
                old(self)@.freed(),
                old(registry)@,
                final(self)@,
                final(registry)@,
            ),
    {
        self.owner = None;
        self.revoke_deadline = None;
        self.grant_next(resource, registry);
    }
}

/// A slot shows whether it is free, held, or held by someone who was asked to
/// leave.
pub proof fn state_shows_who_holds(slot: SlotView)
    ensures
        slot.state() is Free <==> slot.owner is None,
        slot.state() is Granted <==> slot.owner is Some && slot.revoke_deadline is None,
        slot.state() is Revoking <==> slot.owner is Some && slot.revoke_deadline is Some,
{
}

} // verus!
