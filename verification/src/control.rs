//! The channels over which the engine tells connections what to write to
//! their clients.

use crate::client_id::ClientId;
use crate::message::Resource;
use std::collections::HashMap;
use tokio::sync::mpsc::UnboundedSender;
use vstd::prelude::*;

verus! {

/// What the engine pushes to a connection, which owns the client's stream.
#[derive(Debug, Clone)]
pub enum ControlMessage {
    /// Ask the client to give the resources back.
    Revoke { resources: Vec<Resource> },
    /// The client is granted the resources, after having waited.
    Grant { resources: Vec<Resource> },
}

/// A control message with its list as a sequence.
pub enum ControlView {
    Revoke { resources: Seq<Resource> },
    Grant { resources: Seq<Resource> },
}

impl View for ControlMessage {
    type V = ControlView;

    open spec fn view(&self) -> ControlView {
        match self {
            ControlMessage::Revoke { resources } => ControlView::Revoke { resources: resources@ },
            ControlMessage::Grant { resources } => ControlView::Grant { resources: resources@ },
        }
    }
}

/// One message handed to a channel, and whether the channel took it.
pub struct Offer {
    pub message: ControlView,
    pub taken: bool,
}

/// The sending half of a tokio channel. Its receiving half belongs to a
/// connection.
#[verifier::external_type_specification]
#[verifier::external_body]
#[verifier::reject_recursive_types(T)]
pub struct ExUnboundedSender<T>(tokio::sync::mpsc::UnboundedSender<T>);

/// The messages handed to the channel through this handle, oldest first,
/// each with whether the channel took it.
pub uninterp spec fn offers(control: UnboundedSender<ControlMessage>) -> Seq<Offer>;

/// Hands a message to a channel, with `UnboundedSender::send`, which never
/// waits. The message joins the handle's offers, marked with what the call
/// answered. Whether the channel takes it is left open: it depends on the
/// receiving half still being there.
#[verifier::external_body]
fn deliver(control: &mut UnboundedSender<ControlMessage>, message: ControlMessage) -> (taken: bool)
    ensures
        offers(*final(control)) == offers(*old(control)).push(Offer { message: message@, taken }),
{
    control.send(message).is_ok()
}

/// The control channels of the registered clients.
pub struct ControlRegistry {
    channels: HashMap<u64, UnboundedSender<ControlMessage>>,
}

/// Which clients are registered, and what each was offered so far.
pub type Channels = Map<ClientId, Seq<Offer>>;

/// The channels once `client`, if it is registered, was offered a message.
pub open spec fn offered(channels: Channels, client: ClientId, offer: Offer) -> Channels {
    if channels.contains_key(client) {
        channels.insert(client, channels[client].push(offer))
    } else {
        channels
    }
}

impl View for ControlRegistry {
    type V = Channels;

    closed spec fn view(&self) -> Channels {
        Map::new(
            |client: ClientId| self.channels@.contains_key(client.0),
            |client: ClientId| offers(self.channels@[client.0]),
        )
    }
}

impl ControlRegistry {
    pub fn new() -> (registry: Self)
        ensures
            registry@ == Channels::empty(),
    {
        let registry = ControlRegistry { channels: HashMap::new() };
        assert(registry@ =~= Channels::empty());
        registry
    }

    /// Registers a client's channel, in place of any earlier one.
    pub fn insert(&mut self, client: ClientId, control: UnboundedSender<ControlMessage>)
        ensures
            final(self)@ == old(self)@.insert(client, offers(control)),
    {
        self.channels.insert(client.0, control);
        assert(self@ =~= old(self)@.insert(client, offers(control)));
    }

    /// Forgets a client's channel.
    pub fn remove(&mut self, client: ClientId)
        ensures
            final(self)@ == old(self)@.remove(client),
    {
        self.channels.remove(&client.0);
        assert(self@ =~= old(self)@.remove(client));
    }

    /// Offers a message to a client; `None` where it is not registered, else
    /// whether its channel took the message.
    pub fn offer(&mut self, client: ClientId, message: ControlMessage) -> (answer: Option<bool>)
        ensures
            answer is Some <==> old(self)@.contains_key(client),
            final(self)@ == offered(
                old(self)@,
                client,
                Offer { message: message@, taken: answer == Some(true) },
            ),
    {
        match self.channels.remove(&client.0) {
            Some(mut control) => {
                let taken = deliver(&mut control, message);
                self.channels.insert(client.0, control);
                assert(self@ =~= offered(
                    old(self)@,
                    client,
                    Offer { message: message@, taken },
                ));
                Some(taken)
            },
            None => {
                assert(self@ =~= old(self)@);
                None
            },
        }
    }
}

} // verus!
