//! One client's connection: what its requests and the engine's messages
//! lead to. The task that owns the stream reads, writes and asks the
//! engine; what it is to do next is decided here.

use crate::client_id::ClientId;
use crate::control::{ControlMessage, ControlView};
use crate::engine::{AcquireOutcome, EngineCommand};
use crate::frame::{FrameBuffer, FrameTooLarge, Front};
use crate::message::{ClientRequest, Resource, ServerMessage, ServerMessageView};
use crate::registry::{LeasePlan, ResourceRegistries};
use crate::{frame, message, registry};
use vstd::prelude::*;

verus! {

/// How long the server waits for a client to acknowledge a grant before it
/// declares the grant unconfirmed, in milliseconds. A signal of delivery
/// only: it never decides about ownership or the queue.
pub const GRANT_ACK_TIMEOUT: u64 = 5000;

/// What went wrong on a connection.
#[derive(Debug, Clone)]
pub enum ServerError {
    /// A message could not be encoded or decoded.
    Protocol { error: String },
    /// A message could not be written to the client.
    Write { error: String },
    /// Anything else.
    Other { error: String },
}

impl ServerError {
    /// The error in words.
    pub open spec fn said(&self) -> Seq<char> {
        match self {
            ServerError::Protocol { error } => "protocol error: "@ + error@,
            ServerError::Write { error } => "failed to write to client: "@ + error@,
            ServerError::Other { error } => error@,
        }
    }

    /// The error in words.
    pub fn to_text(&self) -> (text: String)
        ensures
            text@ == self.said(),
    {
        match self {
            ServerError::Protocol { error } => "protocol error: ".to_string().concat(
                error.as_str(),
            ),
            ServerError::Write { error } => "failed to write to client: ".to_string().concat(
                error.as_str(),
            ),
            ServerError::Other { error } => error.as_str().to_string(),
        }
    }
}

/// What came of one attempt to read from the client, which never blocks.
pub enum ReadEvent {
    /// The client closed the connection.
    Closed,
    /// Some bytes.
    Bytes(Vec<u8>),
    /// Nothing more for now.
    WouldBlock,
    /// The read failed.
    Failed { error: String },
}

/// What to do after reading.
pub enum ReadStep {
    /// Read again.
    Again,
    /// Take out the frames that are complete.
    Dispatch,
    /// End the connection.
    Stop,
    /// End the connection with an error.
    Fail(ServerError),
}

/// What a request asks for.
pub enum RequestStep {
    /// Ask the engine for the resource.
    Acquire { resource: Resource },
    /// Have the kernel revoke the lease, if there is one, then tell the
    /// engine that the resource is released.
    Release { resource: Resource, lease: Option<u32> },
    /// Nothing more.
    Done,
}

/// What the client is told.
pub enum Reply {
    /// It is granted the resource: the descriptor is to be produced and
    /// sent with the grant.
    Grant { resource: Resource },
    /// A message.
    Send(ServerMessage),
    /// Nothing, for now: a grant arrives later.
    Silence,
}

/// Where the descriptor of a grant comes from.
pub enum GrantSource {
    /// A fresh lease on a card.
    Lease(LeasePlan),
    /// A duplicate of the server's own descriptor.
    Duplicate { fd: i32 },
}

/// What follows from the end of a grant.
pub enum GrantEnd {
    /// It was sent.
    Sent,
    /// It failed: the engine is told that the resource is released, so that
    /// the next waiter can be served, and the client is denied it.
    RolledBack { release: EngineCommand, deny: ServerMessage },
}

/// A connection: whose it is, what it received so far, and when a grant
/// counts as unconfirmed.
pub struct Connection {
    client: ClientId,
    buffer: FrameBuffer,
    ack_deadline: Option<u64>,
}

/// A connection with the bytes it received as a sequence.
#[verifier::ext_equal]
pub struct ConnectionView {
    pub client: ClientId,
    pub received: Seq<u8>,
    pub ack_deadline: Option<u64>,
}

impl View for Connection {
    type V = ConnectionView;

    closed spec fn view(&self) -> ConnectionView {
        ConnectionView {
            client: self.client,
            received: self.buffer@,
            ack_deadline: self.ack_deadline,
        }
    }
}

/// The reason for which a resource cannot be granted that is not registered.
pub open spec fn not_registered(resource: Resource) -> Seq<char> {
    "resource "@ + message::resource_name(resource) + " is not registered"@
}

fn copied(resources: &Vec<Resource>) -> (copy: Vec<Resource>)
    ensures
        copy@ == resources@,
{
    let mut copy: Vec<Resource> = Vec::new();
    let n: usize = resources.len();
    let mut i: usize = 0;
    while i < n
        invariant
            i <= n,
            n == resources@.len(),
            copy@ == resources@.take(i as int),
        decreases n - i,
    {
        copy.push(resources[i]);
        assert(copy@ =~= resources@.take(i + 1));
        i = i + 1;
    }
    assert(resources@.take(n as int) =~= resources@);
    copy
}

/// The messages of a revoke, as they are sent.
pub open spec fn revokes(resources: Seq<Resource>) -> Seq<Reply> {
    resources.map_values(|resource: Resource| Reply::Send(ServerMessage::Revoke { resource }))
}

/// The grants, as they are sent.
pub open spec fn grants(resources: Seq<Resource>) -> Seq<Reply> {
    resources.map_values(|resource: Resource| Reply::Grant { resource })
}

impl Connection {
    /// A new connection, and the first message on it: what can be acquired,
    /// best first.
    pub fn open(client: ClientId, advertised: &Vec<Resource>) -> (opened: (Self, ServerMessage))
        ensures
            opened.0@ == (ConnectionView {
                client,
                received: Seq::<u8>::empty(),
                ack_deadline: None,
            }),
            opened.1@ == (ServerMessageView::Advertise { available_resources: advertised@ }),
    {
        let connection = Connection { client, buffer: FrameBuffer::new(), ack_deadline: None };
        (connection, ServerMessage::Advertise { available_resources: copied(advertised) })
    }

    /// Takes in what came of one attempt to read. A frame that is not
    /// complete waits for the next read, so that the connection never
    /// blocks on it.
    pub fn read(&mut self, event: ReadEvent) -> (step: ReadStep)
        ensures
            match event {
                ReadEvent::Closed => step is Stop && final(self)@ == old(self)@,
                ReadEvent::Bytes(bytes) => step is Again && final(self)@ == (ConnectionView {
                    received: old(self)@.received + bytes@,
                    ..old(self)@
                }),
                ReadEvent::WouldBlock => step is Dispatch && final(self)@ == old(self)@,
                ReadEvent::Failed { error } => {
                    &&& step matches ReadStep::Fail(e) && e is Other && e.said()
                        == "failed to read from client: "@ + error@
                    &&& final(self)@ == old(self)@
                },
            },
    {
        match event {
            ReadEvent::Closed => ReadStep::Stop,
            ReadEvent::Bytes(bytes) => {
                self.buffer.extend(bytes.as_slice());
                ReadStep::Again
            },
            ReadEvent::WouldBlock => ReadStep::Dispatch,
            ReadEvent::Failed { error } => {
                let text = "failed to read from client: ".to_string().concat(error.as_str());
                ReadStep::Fail(ServerError::Other { error: text })
            },
        }
    }

    /// Takes the payload of the first complete frame out; `None` where the
    /// next frame is not complete.
    pub fn next_payload(&mut self) -> (taken: Result<Option<Vec<u8>>, FrameTooLarge>)
        ensures
            match frame::front(old(self)@.received) {
                Front::Partial => {
                    &&& taken == Ok::<Option<Vec<u8>>, FrameTooLarge>(None)
                    &&& final(self)@ == old(self)@
                },
                Front::TooLarge { len } => {
                    &&& taken == Err::<Option<Vec<u8>>, FrameTooLarge>(
                        FrameTooLarge { len: len as usize },
                    )
                    &&& final(self)@ == old(self)@
                },
                Front::Whole { payload, rest } => {
                    &&& taken matches Ok(Some(found)) && found@ == payload
                    &&& final(self)@ == (ConnectionView { received: rest, ..old(self)@ })
                },
            },
    {
        self.buffer.next_frame()
    }

    /// Handles one request. Releasing a card takes its lease back at once:
    /// it must be free before the next grant, whatever the client does with
    /// its descriptor. An acknowledgment confirms a grant.
    pub fn dispatch_request(
        &mut self,
        request: ClientRequest,
        registries: &mut ResourceRegistries,
    ) -> (step: RequestStep)
        ensures
            final(registries).fds@ == old(registries).fds@,
            match request {
                ClientRequest::Acquire { resource } => {
                    &&& step == (RequestStep::Acquire { resource })
                    &&& final(self)@ == old(self)@
                    &&& final(registries).drm@ == old(registries).drm@
                },
                ClientRequest::Release { resource } => {
                    let devices = old(registries).drm@;
                    &&& final(self)@ == old(self)@
                    &&& if resource is Drm && devices.contains_key(resource) {
                        &&& step == RequestStep::Release {
                            resource,
                            lease: devices[resource].active_lease,
                        }
                        &&& final(registries).drm@ == registry::leased(devices, resource, None)
                    } else {
                        &&& step == (RequestStep::Release { resource, lease: None })
                        &&& final(registries).drm@ == devices
                    }
                },
                ClientRequest::Ack => {
                    &&& step is Done
                    &&& final(self)@ == (ConnectionView { ack_deadline: None, ..old(self)@ })
                    &&& final(registries).drm@ == old(registries).drm@
                },
            },
            // No lease is forgotten: it stays, or it is the one to revoke.
            forall|card: Resource| #[trigger]
                old(registries).drm@.contains_key(card) ==> final(registries).drm@.contains_key(
                    card,
                ) && {
                    let lease = old(registries).drm@[card].active_lease;
                    ||| final(registries).drm@[card].active_lease == lease
                    ||| step matches RequestStep::Release { resource, lease: revoked }
                        && resource == card && revoked == lease
                },
    {
        match request {
            ClientRequest::Acquire { resource } => RequestStep::Acquire { resource },
            ClientRequest::Release { resource } => {
                let lease = match resource {
                    Resource::Drm { .. } => registries.drm.revoke_lease(&resource),
                    _ => None,
                };
                RequestStep::Release { resource, lease }
            },
            ClientRequest::Ack => {
                self.ack_deadline = None;
                RequestStep::Done
            },
        }
    }

    /// What the engine is asked for on behalf of the client: to acquire.
    pub fn acquire_command(&self, resource: Resource) -> (command: EngineCommand)
        ensures
            command == (EngineCommand::Acquire { client: self@.client, resource }),
    {
        EngineCommand::Acquire { client: self.client, resource }
    }

    /// What the engine is told on behalf of the client: that it released.
    pub fn release_command(&self, resource: Resource) -> (command: EngineCommand)
        ensures
            command == (EngineCommand::Release { client: self@.client, resource }),
    {
        EngineCommand::Release { client: self.client, resource }
    }

    /// What the engine is told when the connection has ended, whatever
    /// ended it; else the engine would keep a dead client as owner.
    pub fn farewell(&self) -> (command: EngineCommand)
        ensures
            command == (EngineCommand::Disconnected { client: self@.client }),
    {
        EngineCommand::Disconnected { client: self.client }
    }

    /// When the last grant counts as unconfirmed.
    pub fn ack_deadline(&self) -> (deadline: Option<u64>)
        ensures
            deadline == self@.ack_deadline,
    {
        self.ack_deadline
    }

    /// The last grant was not confirmed in time; it stays with the client
    /// all the same.
    pub fn ack_timed_out(&mut self)
        ensures
            final(self)@ == (ConnectionView { ack_deadline: None, ..old(self)@ }),
    {
        self.ack_deadline = None;
    }

    /// What follows from the end of a grant that began at an earlier moment
    /// and ended at `now`.
    pub fn grant_ended(
        &mut self,
        resource: Resource,
        outcome: Result<(), ServerError>,
        now: u64,
    ) -> (end: GrantEnd)
        requires
            now + GRANT_ACK_TIMEOUT <= u64::MAX,
        ensures
            match outcome {
                Ok(_) => {
                    &&& end is Sent
                    &&& final(self)@ == (ConnectionView {
                        ack_deadline: Some((now + GRANT_ACK_TIMEOUT) as u64),
                        ..old(self)@
                    })
                    &&& final(self)@.ack_deadline->0 == now + 5000
                },
                Err(e) => {
                    &&& end matches GrantEnd::RolledBack { release, deny } && release
                        == (EngineCommand::Release { client: old(self)@.client, resource })
                        && deny@ == (ServerMessageView::Deny {
                        reason: "grant failed: "@ + e.said(),
                    })
                    &&& final(self)@ == old(self)@
                },
            },
    {
        match outcome {
            Ok(_) => {
                self.ack_deadline = Some(now + GRANT_ACK_TIMEOUT);
                GrantEnd::Sent
            },
            Err(e) => {
                let text = e.to_text();
                let reason = "grant failed: ".to_string().concat(text.as_str());
                GrantEnd::RolledBack {
                    release: self.release_command(resource),
                    deny: ServerMessage::Deny { reason },
                }
            },
        }
    }
}

/// What the client is told of the engine's answer to an acquire.
pub fn reply_to_acquire(resource: Resource, outcome: AcquireOutcome) -> (reply: Reply)
    ensures
        match outcome {
            AcquireOutcome::Granted => reply == (Reply::Grant { resource }),
            AcquireOutcome::Queued => reply is Silence,
            AcquireOutcome::Denied { reason } => reply matches Reply::Send(said) && said@
                == (ServerMessageView::Deny { reason: reason@ }),
        },
{
    match outcome {
        AcquireOutcome::Granted => Reply::Grant { resource },
        AcquireOutcome::Queued => Reply::Silence,
        AcquireOutcome::Denied { reason } => Reply::Send(ServerMessage::Deny { reason }),
    }
}

/// What the client is told of a message from the engine. A revoke is only
/// asked for: the client keeps a valid descriptor while it finishes.
pub fn process_control_message(control: ControlMessage) -> (replies: Vec<Reply>)
    ensures
        match control@ {
            ControlView::Revoke { resources } => replies@ == revokes(resources),
            ControlView::Grant { resources } => replies@ == grants(resources),
        },
{
    let mut replies: Vec<Reply> = Vec::new();
    match control {
        ControlMessage::Revoke { resources } => {
            let n: usize = resources.len();
            let mut i: usize = 0;
            while i < n
                invariant
                    i <= n,
                    n == resources@.len(),
                    replies@ == revokes(resources@).take(i as int),
                decreases n - i,
            {
                let resource = resources[i];
                replies.push(Reply::Send(ServerMessage::Revoke { resource }));
                assert(replies@ =~= revokes(resources@).take(i + 1));
                i = i + 1;
            }
            assert(replies@ =~= revokes(resources@));
        },
        ControlMessage::Grant { resources } => {
            let n: usize = resources.len();
            let mut i: usize = 0;
            while i < n
                invariant
                    i <= n,
                    n == resources@.len(),
                    replies@ == grants(resources@).take(i as int),
                decreases n - i,
            {
                replies.push(Reply::Grant { resource: resources[i] });
                assert(replies@ =~= grants(resources@).take(i + 1));
                i = i + 1;
            }
            assert(replies@ =~= grants(resources@));
        },
    }
    replies
}

/// Where the descriptor to grant for a resource comes from: a fresh lease
/// for a card, otherwise a duplicate of the server's registered descriptor.
pub fn grant_fd(resource: &Resource, registries: &mut ResourceRegistries) -> (source: Result<
    GrantSource,
    ServerError,
>)
    ensures
        final(registries).fds@ == old(registries).fds@,
        final(registries).drm@ == (if resource is Drm {
            registry::leased(old(registries).drm@, *resource, None)
        } else {
            old(registries).drm@
        }),
        match source {
            Ok(GrantSource::Lease(plan)) => {
                let devices = old(registries).drm@;
                &&& resource is Drm
                &&& devices.contains_key(*resource)
                &&& plan.stale == devices[*resource].active_lease
                &&& plan.objects@ == devices[*resource].objects()
            },
            Ok(GrantSource::Duplicate { fd }) => {
                &&& !(resource is Drm)
                &&& old(registries).fds@.contains_key(*resource)
                &&& fd == old(registries).fds@[*resource]
            },
            Err(e) => {
                &&& if resource is Drm {
                    !old(registries).drm@.contains_key(*resource)
                } else {
                    !old(registries).fds@.contains_key(*resource)
                }
                &&& e is Other
                &&& e.said() == not_registered(*resource)
            },
        },
{
    let source = match resource {
        Resource::Drm { .. } => match registries.drm.begin_lease(resource) {
            Some(plan) => Some(GrantSource::Lease(plan)),
            None => None,
        },
        _ => match registries.fds.get(resource) {
            Some(fd) => Some(GrantSource::Duplicate { fd }),
            None => None,
        },
    };
    match source {
        Some(source) => Ok(source),
        None => {
            let name = resource.name();
            let error = "resource ".to_string().concat(name.as_str()).concat(
                " is not registered",
            );
            Err(ServerError::Other { error })
        },
    }
}

/// What became of producing a descriptor for a grant.
pub enum Produced {
    /// A lease was created: its number.
    Leased { lease: u32 },
    /// The server's descriptor was duplicated.
    Duplicated,
    /// The kernel refused the lease.
    LeaseFailed { error: String },
    /// The descriptor could not be duplicated.
    DuplicateFailed { error: String },
}

/// Records what became of producing a descriptor for a grant: a lease is
/// remembered, a failure is put into words.
pub fn grant_produced(
    resource: &Resource,
    produced: Produced,
    registries: &mut ResourceRegistries,
) -> (outcome: Result<(), ServerError>)
    requires
        produced is Leased ==> (old(registries).drm@.contains_key(*resource) ==> old(
            registries,
        ).drm@[*resource].active_lease is None),
    ensures
        final(registries).fds@ == old(registries).fds@,
        match produced {
            Produced::Leased { lease } => {
                &&& outcome is Ok
                &&& final(registries).drm@ == registry::leased(
                    old(registries).drm@,
                    *resource,
                    Some(lease),
                )
            },
            Produced::Duplicated => {
                &&& outcome is Ok
                &&& final(registries).drm@ == old(registries).drm@
            },
            Produced::LeaseFailed { error } => {
                &&& outcome matches Err(e) && e is Other && e.said() == "failed to lease "@
                    + message::resource_name(*resource) + ": "@ + error@
                &&& final(registries).drm@ == old(registries).drm@
            },
            Produced::DuplicateFailed { error } => {
                &&& outcome matches Err(e) && e is Other && e.said() == "failed to dup fd for "@
                    + message::resource_name(*resource) + ": "@ + error@
                &&& final(registries).drm@ == old(registries).drm@
            },
        },
{
    match produced {
        Produced::Leased { lease } => {
            registries.drm.end_lease(resource, Some(lease));
            Ok(())
        },
        Produced::Duplicated => Ok(()),
        Produced::LeaseFailed { error } => {
            let name = resource.name();
            let text = "failed to lease ".to_string().concat(name.as_str()).concat(": ").concat(
                error.as_str(),
            );
            Err(ServerError::Other { error: text })
        },
        Produced::DuplicateFailed { error } => {
            let name = resource.name();
            let text = "failed to dup fd for ".to_string().concat(name.as_str()).concat(
                ": ",
            ).concat(error.as_str());
            Err(ServerError::Other { error: text })
        },
    }
}

/// Every resource of an engine's message is told of, one by one and in
/// order: a revoke as a revoke, a grant as a grant.
pub proof fn each_resource_is_told_of(resources: Seq<Resource>, i: int)
    requires
        0 <= i < resources.len(),
    ensures
        revokes(resources).len() == resources.len(),
        grants(resources).len() == resources.len(),
        revokes(resources)[i] == Reply::Send(ServerMessage::Revoke { resource: resources[i] }),
        grants(resources)[i] == (Reply::Grant { resource: resources[i] }),
{
}

/// The reason for which a resource cannot be granted that is not registered
/// names that resource.
pub proof fn unregistered_resource_is_named(resource: Resource)
    ensures
        ({
            let name = message::resource_name(resource);
            let reason = not_registered(resource);
            &&& reason.len() == 9 + name.len() + 18
            &&& reason.subrange(9, 9 + name.len() as int) == name
            &&& reason.take(9) == "resource "@
            &&& reason.skip(9 + name.len() as int) == " is not registered"@
        }),
{
    reveal_strlit("resource ");
    reveal_strlit(" is not registered");
    let name = message::resource_name(resource);
    let reason = not_registered(resource);
    assert(reason.subrange(9, 9 + name.len() as int) =~= name);
    assert(reason.take(9) =~= "resource "@);
    assert(reason.skip(9 + name.len() as int) =~= " is not registered"@);
}

/// An error in words ends with what went wrong, as it was reported.
pub proof fn error_says_what_went_wrong(error: ServerError)
    ensures
        ({
            let detail = match error {
                ServerError::Protocol { error } => error@,
                ServerError::Write { error } => error@,
                ServerError::Other { error } => error@,
            };
            let before = error.said().len() - detail.len();
            &&& 0 <= before
            &&& error.said().skip(before) == detail
            &&& error.said().take(before) == match error {
                ServerError::Protocol { .. } => "protocol error: "@,
                ServerError::Write { .. } => "failed to write to client: "@,
                ServerError::Other { .. } => Seq::empty(),
            }
        }),
{
    let detail = match error {
        ServerError::Protocol { error } => error@,
        ServerError::Write { error } => error@,
        ServerError::Other { error } => error@,
    };
    let before = error.said().len() - detail.len();
    assert(error.said().skip(before) =~= detail);
    assert(error.said().take(before) =~= match error {
        ServerError::Protocol { .. } => "protocol error: "@,
        ServerError::Write { .. } => "failed to write to client: "@,
        ServerError::Other { .. } => Seq::empty(),
    });
}

} // verus!
