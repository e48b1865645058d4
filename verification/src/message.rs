//! What the server manages and what the two sides say to each other.
//!
//! Every message names exactly one resource; a client that wants a display
//! and a mouse acquires them one at a time.

use crate::text;
use vstd::prelude::*;

verus! {

/// An input device, numbered within its class so that several devices of a
/// class can be managed at once.
#[derive(Debug, Clone, Copy, PartialEq, Eq, Hash, Structural)]
pub enum InputResource {
    Mouse(u8),
    Keyboard(u8),
    Touch(u8),
}

/// A resource that can be managed by the server.
#[derive(Debug, Clone, Copy, PartialEq, Eq, Hash, Structural)]
pub enum Resource {
    /// The framebuffer device.
    Fbdev,
    /// A display card, by its index.
    Drm { card: u8 },
    /// An input device.
    Input(InputResource),
}

/// A request sent from a client to the server.
#[derive(Debug, Clone, PartialEq, Eq)]
pub enum ClientRequest {
    /// Requests ownership of a resource.
    Acquire { resource: Resource },
    /// Gives a resource back; after a `Revoke` it is also the
    /// acknowledgment of that revoke.
    Release { resource: Resource },
    /// Confirms receipt of a grant and its file descriptor.
    Ack,
}

/// A message sent from the server to a client.
#[derive(Debug, Clone, PartialEq, Eq)]
pub enum ServerMessage {
    /// Sent on connect: what can be acquired, best first.
    Advertise { available_resources: Vec<Resource> },
    /// Grants a resource; its file descriptor travels with the message.
    Grant { resource: Resource },
    /// Denies a request.
    Deny { reason: String },
    /// Asks the client to give the resource back.
    Revoke { resource: Resource },
}

/// A server message with its lists and texts as sequences.
pub enum ServerMessageView {
    Advertise { available_resources: Seq<Resource> },
    Grant { resource: Resource },
    Deny { reason: Seq<char> },
    Revoke { resource: Resource },
}

impl View for ServerMessage {
    type V = ServerMessageView;

    open spec fn view(&self) -> ServerMessageView {
        match self {
            ServerMessage::Advertise { available_resources } => ServerMessageView::Advertise {
                available_resources: available_resources@,
            },
            ServerMessage::Grant { resource } => ServerMessageView::Grant { resource: *resource },
            ServerMessage::Deny { reason } => ServerMessageView::Deny { reason: reason@ },
            ServerMessage::Revoke { resource } => ServerMessageView::Revoke { resource: *resource },
        }
    }
}

/// How an input device is written in reasons and logs, such as `Mouse(0)`.
pub open spec fn input_name(input: InputResource) -> Seq<char> {
    match input {
        InputResource::Mouse(i) => "Mouse("@ + text::decimal(i as nat) + ")"@,
        InputResource::Keyboard(i) => "Keyboard("@ + text::decimal(i as nat) + ")"@,
        InputResource::Touch(i) => "Touch("@ + text::decimal(i as nat) + ")"@,
    }
}

/// How a resource is written in reasons and logs: `Fbdev`,
/// `Drm { card: 0 }`, `Input(Mouse(0))`.
pub open spec fn resource_name(resource: Resource) -> Seq<char> {
    match resource {
        Resource::Fbdev => "Fbdev"@,
        Resource::Drm { card } => "Drm { card: "@ + text::decimal(card as nat) + " }"@,
        Resource::Input(input) => "Input("@ + input_name(input) + ")"@,
    }
}

impl InputResource {
    /// The device's name, such as `Mouse(0)`.
    pub fn name(&self) -> (text: String)
        ensures
            text@ == input_name(*self),
    {
        let (class, index) = match self {
            InputResource::Mouse(i) => ("Mouse(", *i),
            InputResource::Keyboard(i) => ("Keyboard(", *i),
            InputResource::Touch(i) => ("Touch(", *i),
        };
        let number = text::decimal_text(index as u64);
        class.to_string().concat(number.as_str()).concat(")")
    }
}

impl Resource {
    /// The resource's name, such as `Drm { card: 0 }`.
    pub fn name(&self) -> (text: String)
        ensures
            text@ == resource_name(*self),
    {
        match self {
            Resource::Fbdev => "Fbdev".to_string(),
            Resource::Drm { card } => {
                let number = text::decimal_text(*card as u64);
                "Drm { card: ".to_string().concat(number.as_str()).concat(" }")
            },
            Resource::Input(input) => {
                let inner = input.name();
                "Input(".to_string().concat(inner.as_str()).concat(")")
            },
        }
    }
}

/// A resource is written with its kind, its class and its number, each in its
/// place.
pub proof fn name_shows_the_resource(resource: Resource)
    ensures
        match resource {
            Resource::Fbdev => resource_name(resource) == "Fbdev"@,
            Resource::Drm { card } => resource_name(resource) == "Drm { card: "@ + text::decimal(
                card as nat,
            ) + " }"@,
            Resource::Input(InputResource::Mouse(i)) => resource_name(resource)
                == "Input(Mouse("@ + text::decimal(i as nat) + "))"@,
            Resource::Input(InputResource::Keyboard(i)) => resource_name(resource)
                == "Input(Keyboard("@ + text::decimal(i as nat) + "))"@,
            Resource::Input(InputResource::Touch(i)) => resource_name(resource)
                == "Input(Touch("@ + text::decimal(i as nat) + "))"@,
        },
{
    if let Resource::Input(input) = resource {
        reveal_strlit("Input(");
        reveal_strlit(")");
        reveal_strlit("))");
        match input {
            InputResource::Mouse(i) => {
                reveal_strlit("Mouse(");
                reveal_strlit("Input(Mouse(");
                assert(resource_name(resource) =~= "Input(Mouse("@ + text::decimal(i as nat)
                    + "))"@);
            },
            InputResource::Keyboard(i) => {
                reveal_strlit("Keyboard(");
                reveal_strlit("Input(Keyboard(");
                assert(resource_name(resource) =~= "Input(Keyboard("@ + text::decimal(i as nat)
                    + "))"@);
            },
            InputResource::Touch(i) => {
                reveal_strlit("Touch(");
                reveal_strlit("Input(Touch(");
                assert(resource_name(resource) =~= "Input(Touch("@ + text::decimal(i as nat)
                    + "))"@);
            },
        }
    }
}

} // verus!
