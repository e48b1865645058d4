//! A client's session with the server.
//!
//! The client holds the granted descriptors, one per resource, and only
//! lends duplicates of them. What it holds is dropped when the resource is
//! revoked or the session ends, so nothing that the application forgot
//! about is leaked.

use crate::message::{ClientRequest, InputResource, Resource, ServerMessage};
use crate::text;
use vstd::prelude::*;

verus! {

/// What can go wrong in a session.
#[derive(Debug, Clone)]
pub enum SgcError {
    /// The server could not be reached.
    ConnectFailed { error: String },
    /// The server refused an acquire.
    Denied { reason: String },
    /// The resource is not held by this session.
    NotHeld { resource: Resource },
    /// The server does not offer the resource.
    NotAvailable { resource: Resource },
    /// A message could not be encoded or decoded.
    Protocol { error: String },
    /// The server sent a message that was not expected at this point.
    UnexpectedMessage(ServerMessage),
    /// The connection failed.
    Io { error: String },
}

/// What the application is told.
#[derive(Debug, Clone, Copy, PartialEq, Eq, Structural)]
pub enum SgcEvent {
    /// The resource was revoked: stop using it.
    Revoked { resource: Resource },
    /// The resource was granted again, after a revoke. The descriptor is
    /// the held one: the application gets a duplicate.
    Granted { resource: Resource, fd: i32 },
}

/// A resource and its descriptor.
#[derive(Debug, Clone, Copy, PartialEq, Eq, Structural)]
pub struct Held {
    pub resource: Resource,
    pub fd: i32,
}

/// What a message from the server leads to.
pub enum ClientStep {
    /// The resource was revoked: close the descriptor, if one was held,
    /// tell the application, and answer the server.
    Revoked { close: Option<i32>, event: SgcEvent, reply: ClientRequest },
    /// The resource was granted again: answer the server, close the
    /// descriptor that the new one replaces, if any, and tell the
    /// application.
    Granted { reply: ClientRequest, close: Option<i32>, event: SgcEvent },
    /// Nothing.
    Ignored,
}

/// A session: what it holds.
pub struct SgcClient {
    held: Vec<Held>,
}

/// Is the entry at `i` for the resource?
pub open spec fn held_at(held: Seq<Held>, resource: Resource, i: int) -> bool {
    0 <= i < held.len() && held[i].resource == resource
}

/// The descriptors of a list of entries.
pub open spec fn fds_of(held: Seq<Held>) -> Map<Resource, i32> {
    Map::new(
        |resource: Resource| exists|i: int| held_at(held, resource, i),
        |resource: Resource| held[choose|i: int| held_at(held, resource, i)].fd,
    )
}

/// No resource has two entries.
pub open spec fn distinct(held: Seq<Held>) -> bool {
    forall|i: int, j: int|
        0 <= i < j < held.len() ==> (#[trigger] held[i]).resource != (#[trigger] held[j]).resource
}

proof fn entry_is_found(held: Seq<Held>, i: int)
    requires
        distinct(held),
        0 <= i < held.len(),
    ensures
        fds_of(held).contains_key(held[i].resource),
        fds_of(held)[held[i].resource] == held[i].fd,
{
    let resource = held[i].resource;
    assert(held_at(held, resource, i));
    let j = choose|j: int| held_at(held, resource, j);
    assert(held_at(held, resource, j));
    if j < i {
        assert(held[j].resource != held[i].resource);
    } else if i < j {
        assert(held[i].resource != held[j].resource);
    }
}

proof fn entry_is_added(held: Seq<Held>, entry: Held)
    requires
        distinct(held),
        !fds_of(held).contains_key(entry.resource),
    ensures
        distinct(held.push(entry)),
        fds_of(held.push(entry)) == fds_of(held).insert(entry.resource, entry.fd),
{
    let longer = held.push(entry);
    assert forall|j: int, k: int| 0 <= j < k < longer.len() implies (
    #[trigger] longer[j]).resource != (#[trigger] longer[k]).resource by {
        assert(held_at(held, held[j].resource, j));
        if k < held.len() {
            assert(held[j].resource != held[k].resource);
        }
    }
    let after = fds_of(longer);
    let expected = fds_of(held).insert(entry.resource, entry.fd);
    assert(longer[held.len() as int] == entry);
    entry_is_found(longer, held.len() as int);
    assert forall|r: Resource|
        #![trigger after.dom().contains(r)]
        #![trigger expected.dom().contains(r)]
        after.dom().contains(r) == expected.dom().contains(r) && (after.dom().contains(r)
            ==> after[r] == expected[r]) by {
        if after.contains_key(r) {
            let j = choose|j: int| held_at(longer, r, j);
            assert(held_at(longer, r, j));
            entry_is_found(longer, j);
            if j < held.len() {
                assert(held_at(held, r, j));
                entry_is_found(held, j);
            }
        }
        if fds_of(held).contains_key(r) {
            let j = choose|j: int| held_at(held, r, j);
            assert(held_at(held, r, j));
            assert(held_at(longer, r, j));
        }
    }
    assert(after =~= expected);
}

proof fn entry_is_removed(held: Seq<Held>, i: int)
    requires
        distinct(held),
        0 <= i < held.len(),
    ensures
        distinct(held.remove(i)),
        fds_of(held.remove(i)) == fds_of(held).remove(held[i].resource),
{
    let shorter = held.remove(i);
    assert forall|j: int, k: int| 0 <= j < k < shorter.len() implies (
    #[trigger] shorter[j]).resource != (#[trigger] shorter[k]).resource by {
        let old_j = if j < i { j } else { j + 1 };
        let old_k = if k < i { k } else { k + 1 };
        assert(held[old_j].resource != held[old_k].resource);
    }
    let after = fds_of(shorter);
    let expected = fds_of(held).remove(held[i].resource);
    assert forall|r: Resource|
        #![trigger after.dom().contains(r)]
        #![trigger expected.dom().contains(r)]
        after.dom().contains(r) == expected.dom().contains(r) && (after.dom().contains(r)
            ==> after[r] == expected[r]) by {
        if after.contains_key(r) {
            let j = choose|j: int| held_at(shorter, r, j);
            assert(held_at(shorter, r, j));
            entry_is_found(shorter, j);
            let old_j = if j < i { j } else { j + 1 };
            assert(held[old_j] == shorter[j]);
            entry_is_found(held, old_j);
            if old_j < i {
                assert(held[old_j].resource != held[i].resource);
            } else {
                assert(held[i].resource != held[old_j].resource);
            }
        }
        if expected.contains_key(r) {
            let j = choose|j: int| held_at(held, r, j);
            assert(held_at(held, r, j));
            let new_j = if j < i { j } else { j - 1 };
            assert(held_at(shorter, r, new_j));
        }
    }
    assert(after =~= expected);
}

impl View for SgcClient {
    type V = Map<Resource, i32>;

    closed spec fn view(&self) -> Map<Resource, i32> {
        fds_of(self.held@)
    }
}

/// The descriptor of a resource, if it is held.
pub open spec fn descriptor(held: Map<Resource, i32>, resource: Resource) -> Option<i32> {
    if held.contains_key(resource) {
        Some(held[resource])
    } else {
        None
    }
}

/// The complaint about a grant with a wrong number of descriptors.
pub open spec fn wrong_count(n: nat) -> Seq<char> {
    "grant carried "@ + text::decimal(n) + " fds, expected 1"@
}

impl SgcClient {
    /// No resource is held twice.
    pub closed spec fn well_formed(&self) -> bool {
        distinct(self.held@)
    }

    /// Begins a session with the first message from the server, which lists
    /// what it offers.
    pub fn connect(greeting: ServerMessage) -> (session: Result<(Self, Vec<Resource>), SgcError>)
        ensures
            match greeting {
                ServerMessage::Advertise { available_resources } => session matches Ok(session)
                    && session.0.well_formed() && session.0@ == Map::<Resource, i32>::empty()
                    && session.1 == available_resources,
                other => session == Err::<(Self, Vec<Resource>), SgcError>(
                    SgcError::UnexpectedMessage(other),
                ),
            },
    {
        match greeting {
            ServerMessage::Advertise { available_resources } => {
                let client = SgcClient { held: Vec::new() };
                assert(client@ =~= Map::<Resource, i32>::empty());
                Ok((client, available_resources))
            },
            other => Err(SgcError::UnexpectedMessage(other)),
        }
    }

    /// The request with which a resource is acquired.
    pub fn acquire_request(&self, resource: Resource) -> (request: ClientRequest)
        ensures
            request == (ClientRequest::Acquire { resource }),
    {
        ClientRequest::Acquire { resource }
    }

    /// What the server's answer to an acquire comes to: the descriptor to
    /// acknowledge and then to keep, or why there is none.
    pub fn acquire(&self, resource: Resource, answer: ServerMessage, fds: &Vec<i32>) -> (outcome:
        Result<Held, SgcError>)
        ensures
            match answer {
                ServerMessage::Grant { resource: granted } => if fds@.len() != 1 {
                    outcome matches Err(SgcError::Io { error }) && error@ == wrong_count(
                        fds@.len(),
                    )
                } else if granted != resource {
                    outcome == Err::<Held, SgcError>(
                        SgcError::UnexpectedMessage(ServerMessage::Grant { resource: granted }),
                    )
                } else {
                    outcome == Ok::<Held, SgcError>(Held { resource, fd: fds@[0] })
                },
                ServerMessage::Deny { reason } => outcome == Err::<Held, SgcError>(
                    SgcError::Denied { reason },
                ),
                other => outcome == Err::<Held, SgcError>(SgcError::UnexpectedMessage(other)),
            },
    {
        match answer {
            ServerMessage::Grant { resource: granted } => {
                if fds.len() != 1 {
                    let number = text::decimal_text(fds.len() as u64);
                    let error = "grant carried ".to_string().concat(number.as_str()).concat(
                        " fds, expected 1",
                    );
                    return Err(SgcError::Io { error });
                }
                if granted != resource {
                    return Err(
                        SgcError::UnexpectedMessage(ServerMessage::Grant { resource: granted }),
                    );
                }
                Ok(Held { resource, fd: fds[0] })
            },
            ServerMessage::Deny { reason } => Err(SgcError::Denied { reason }),
            other => Err(SgcError::UnexpectedMessage(other)),
        }
    }

    /// Keeps a descriptor once the grant has been acknowledged. Returns the
    /// one that it replaces, if any, which is to be closed.
    pub fn keep(&mut self, granted: Held) -> (replaced: Option<i32>)
        requires
            old(self).well_formed(),
        ensures
            final(self).well_formed(),
            replaced == descriptor(old(self)@, granted.resource),
            final(self)@ == old(self)@.insert(granted.resource, granted.fd),
            forall|resource: Resource| #[trigger]
                old(self)@.contains_key(resource) ==> (final(self)@.contains_key(resource)
                    && final(self)@[resource] == old(self)@[resource]) || replaced == Some(
                    old(self)@[resource],
                ),
    {
        let replaced = self.drop_held(&granted.resource);
        proof {
            entry_is_added(self.held@, granted);
        }
        self.held.push(granted);
        assert(self@ =~= old(self)@.insert(granted.resource, granted.fd));
        replaced
    }

    fn find(&self, resource: &Resource) -> (at: Option<usize>)
        requires
            self.well_formed(),
        ensures
            match at {
                Some(i) => {
                    &&& i < self.held@.len()
                    &&& self.held@[i as int].resource == *resource
                    &&& self@.contains_key(*resource)
                    &&& self@[*resource] == self.held@[i as int].fd
                },
                None => !self@.contains_key(*resource),
            },
    {
        let n: usize = self.held.len();
        let mut i: usize = 0;
        while i < n
            invariant
                i <= n,
                n == self.held@.len(),
                self.well_formed(),
                forall|j: int| 0 <= j < i ==> !held_at(self.held@, *resource, j),
            decreases n - i,
        {
            if self.held[i].resource == *resource {
                proof {
                    entry_is_found(self.held@, i as int);
                }
                return Some(i);
            }
            i = i + 1;
        }
        None
    }

    fn drop_held(&mut self, resource: &Resource) -> (dropped: Option<i32>)
        requires
            old(self).well_formed(),
        ensures
            final(self).well_formed(),
            dropped == descriptor(old(self)@, *resource),
            final(self)@ == old(self)@.remove(*resource),
    {
        match self.find(resource) {
            Some(at) => {
                proof {
                    entry_is_removed(self.held@, at as int);
                }
                let entry = self.held.remove(at);
                Some(entry.fd)
            },
            None => {
                assert(self@ =~= old(self)@.remove(*resource));
                None
            },
        }
    }

    /// The descriptor of a held resource, to be lent as a duplicate.
    pub fn fd(&self, resource: &Resource) -> (fd: Result<i32, SgcError>)
        requires
            self.well_formed(),
        ensures
            fd == (if self@.contains_key(*resource) {
                Ok::<i32, SgcError>(self@[*resource])
            } else {
                Err::<i32, SgcError>(SgcError::NotHeld { resource: *resource })
            }),
    {
        match self.find(resource) {
            Some(at) => Ok(self.held[at].fd),
            None => Err(SgcError::NotHeld { resource: *resource }),
        }
    }

    /// The resources that the session holds, each once.
    pub fn held(&self) -> (resources: Vec<Resource>)
        requires
            self.well_formed(),
        ensures
            resources@.no_duplicates(),
            forall|resource: Resource|
                resources@.contains(resource) <==> #[trigger] self@.contains_key(resource),
    {
        let mut resources: Vec<Resource> = Vec::new();
        let n: usize = self.held.len();
        let mut i: usize = 0;
        while i < n
            invariant
                i <= n,
                n == self.held@.len(),
                resources@.len() == i,
                forall|j: int| 0 <= j < i ==> #[trigger] resources@[j] == self.held@[j].resource,
            decreases n - i,
        {
            resources.push(self.held[i].resource);
            i = i + 1;
        }
        proof {
            assert forall|j: int, k: int|
                0 <= j < resources@.len() && 0 <= k < resources@.len() && j
                    != k implies resources@[j] != resources@[k] by {
                if j < k {
                    assert(self.held@[j].resource != self.held@[k].resource);
                } else {
                    assert(self.held@[k].resource != self.held@[j].resource);
                }
            }
            assert forall|resource: Resource|
                resources@.contains(resource) <==> #[trigger] self@.contains_key(resource) by {
                if resources@.contains(resource) {
                    let j = choose|j: int| 0 <= j < resources@.len() && resources@[j] == resource;
                    entry_is_found(self.held@, j);
                }
                if self@.contains_key(resource) {
                    let j = choose|j: int| held_at(self.held@, resource, j);
                    assert(held_at(self.held@, resource, j));
                    assert(resources@[j] == resource);
                }
            }
        }
        resources
    }

    /// Takes in a message that comes unasked. A revoke drops the descriptor
    /// and is answered with a release, which acknowledges it. A grant, which
    /// must bring exactly one descriptor, is acknowledged and kept.
    pub fn handle_message(&mut self, said: ServerMessage, fds: &Vec<i32>) -> (step: ClientStep)
        requires
            old(self).well_formed(),
        ensures
            final(self).well_formed(),
            match said {
                ServerMessage::Revoke { resource } => {
                    &&& step == ClientStep::Revoked {
                        close: descriptor(old(self)@, resource),
                        event: SgcEvent::Revoked { resource },
                        reply: ClientRequest::Release { resource },
                    }
                    &&& final(self)@ == old(self)@.remove(resource)
                },
                ServerMessage::Grant { resource } => if fds@.len() == 1 {
                    &&& step == ClientStep::Granted {
                        reply: ClientRequest::Ack,
                        close: descriptor(old(self)@, resource),
                        event: SgcEvent::Granted { resource, fd: fds@[0] },
                    }
                    &&& final(self)@ == old(self)@.insert(resource, fds@[0])
                } else {
                    step is Ignored && final(self)@ == old(self)@
                },
                _ => step is Ignored && final(self)@ == old(self)@,
            },
            // Nothing leaks: what was held is still held or is to be closed.
            forall|resource: Resource| #[trigger]
                old(self)@.contains_key(resource) ==> {
                    let fd = old(self)@[resource];
                    ||| final(self)@.contains_key(resource) && final(self)@[resource] == fd
                    ||| step matches ClientStep::Revoked { close, .. } && close == Some(fd)
                    ||| step matches ClientStep::Granted { close, .. } && close == Some(fd)
                },
    {
        match said {
            ServerMessage::Revoke { resource } => {
                let close = self.drop_held(&resource);
                ClientStep::Revoked {
                    close,
                    event: SgcEvent::Revoked { resource },
                    reply: ClientRequest::Release { resource },
                }
            },
            ServerMessage::Grant { resource } => {
                if fds.len() != 1 {
                    return ClientStep::Ignored;
                }
                let fd: i32 = fds[0];
                let close = self.keep(Held { resource, fd });
                ClientStep::Granted {
                    reply: ClientRequest::Ack,
                    close,
                    event: SgcEvent::Granted { resource, fd },
                }
            },
            _ => ClientStep::Ignored,
        }
    }

    /// Ends the session: everything that was held, to be closed, each with
    /// the application told that it is revoked.
    pub fn disconnected(&mut self) -> (lost: Vec<Held>)
        requires
            old(self).well_formed(),
        ensures
            final(self).well_formed(),
            final(self)@ == Map::<Resource, i32>::empty(),
            distinct(lost@),
            fds_of(lost@) == old(self)@,
    {
        let mut lost: Vec<Held> = Vec::new();
        let n: usize = self.held.len();
        let mut i: usize = 0;
        while i < n
            invariant
                i <= n,
                n == self.held@.len(),
                lost@ == self.held@.take(i as int),
            decreases n - i,
        {
            lost.push(self.held[i]);
            assert(lost@ =~= self.held@.take(i + 1));
            i = i + 1;
        }
        assert(lost@ =~= self.held@);
        self.held = Vec::new();
        assert(self@ =~= Map::<Resource, i32>::empty());
        lost
    }
}

/// Is the resource among those that the server offers? Asking for one that
/// is not would only be denied, after a round trip.
pub fn check_available(available: &Vec<Resource>, resource: Resource) -> (checked: Result<
    (),
    SgcError,
>)
    ensures
        checked == (if available@.contains(resource) {
            Ok::<(), SgcError>(())
        } else {
            Err::<(), SgcError>(SgcError::NotAvailable { resource })
        }),
{
    let n: usize = available.len();
    let mut i: usize = 0;
    while i < n
        invariant
            i <= n,
            n == available@.len(),
            forall|j: int| 0 <= j < i ==> available@[j] != resource,
        decreases n - i,
    {
        if available[i] == resource {
            assert(available@[i as int] == resource);
            return Ok(());
        }
        i = i + 1;
    }
    Err(SgcError::NotAvailable { resource })
}

/// Is `found` the first resource of a kind in the list, or none where there
/// is none of that kind?
pub open spec fn is_first_of(
    available: Seq<Resource>,
    kind: spec_fn(Resource) -> bool,
    found: Option<Resource>,
) -> bool {
    match found {
        Some(resource) => exists|i: int|
            0 <= i < available.len() && #[trigger] available[i] == resource && kind(resource) && (
            forall|j: int| 0 <= j < i ==> !kind(#[trigger] available[j])),
        None => forall|j: int| 0 <= j < available.len() ==> !kind(#[trigger] available[j]),
    }
}

/// The card to show a picture on: the first that the server offers, which
/// is the best one. Where it offers none, the first card is reported as not
/// available.
pub fn first_card(available: &Vec<Resource>) -> (card: Result<Resource, SgcError>)
    ensures
        match card {
            Ok(resource) => is_first_of(
                available@,
                |r: Resource| r is Drm,
                Some(resource),
            ),
            Err(e) => is_first_of(available@, |r: Resource| r is Drm, None) && e
                == (SgcError::NotAvailable { resource: Resource::Drm { card: 0 } }),
        },
{
    let n: usize = available.len();
    let mut i: usize = 0;
    while i < n
        invariant
            i <= n,
            n == available@.len(),
            forall|j: int| 0 <= j < i ==> !(#[trigger] available@[j] is Drm),
        decreases n - i,
    {
        let resource = available[i];
        if let Resource::Drm { .. } = resource {
            assert(available@[i as int] == resource);
            return Ok(resource);
        }
        i = i + 1;
    }
    Err(SgcError::NotAvailable { resource: Resource::Drm { card: 0 } })
}

/// Is the resource a mouse?
pub open spec fn is_mouse(resource: Resource) -> bool {
    resource matches Resource::Input(input) && input is Mouse
}

/// The first mouse that the server offers, if any.
pub fn first_mouse(available: &Vec<Resource>) -> (mouse: Option<Resource>)
    ensures
        is_first_of(available@, |r: Resource| is_mouse(r), mouse),
{
    let n: usize = available.len();
    let mut i: usize = 0;
    while i < n
        invariant
            i <= n,
            n == available@.len(),
            forall|j: int| 0 <= j < i ==> !is_mouse(#[trigger] available@[j]),
        decreases n - i,
    {
        let resource = available[i];
        if let Resource::Input(input) = resource {
            if let InputResource::Mouse(_) = input {
                assert(available@[i as int] == resource);
                return Some(resource);
            }
        }
        i = i + 1;
    }
    None
}

/// Who is to hear of an event.
#[derive(Debug, Clone, Copy, PartialEq, Eq, Structural)]
pub enum Audience {
    Render,
    Input,
}

/// Events of the mouse go to the input task, all others to the render task.
pub fn audience(event: &SgcEvent, mouse: Option<Resource>) -> (who: Audience)
    ensures
        ({
            let resource = match *event {
                SgcEvent::Revoked { resource } => resource,
                SgcEvent::Granted { resource, fd } => resource,
            };
            who == (if mouse == Some(resource) {
                Audience::Input
            } else {
                Audience::Render
            })
        }),
{
    let resource = match event {
        SgcEvent::Revoked { resource } => *resource,
        SgcEvent::Granted { resource, fd: _ } => *resource,
    };
    if mouse == Some(resource) {
        Audience::Input
    } else {
        Audience::Render
    }
}

/// A revoke and the grant that follows it bring the session back to holding
/// what it held, with the new descriptor; nothing else changes.
pub proof fn regrant_restores(held: Map<Resource, i32>, resource: Resource, fd: i32)
    ensures
        held.remove(resource).insert(resource, fd) == held.insert(resource, fd),
        descriptor(held.remove(resource), resource) is None,
{
    assert(held.remove(resource).insert(resource, fd) =~= held.insert(resource, fd));
}

/// There is one first resource of a kind: no other answer is right.
pub proof fn first_of_a_kind_is_unique(
    available: Seq<Resource>,
    kind: spec_fn(Resource) -> bool,
    a: Option<Resource>,
    b: Option<Resource>,
)
    requires
        is_first_of(available, kind, a),
        is_first_of(available, kind, b),
    ensures
        a == b,
{
    if a is Some && b is Some {
        let i = choose|i: int|
            0 <= i < available.len() && #[trigger] available[i] == a->0 && kind(a->0) && (
            forall|j: int| 0 <= j < i ==> !kind(#[trigger] available[j]));
        let k = choose|i: int|
            0 <= i < available.len() && #[trigger] available[i] == b->0 && kind(b->0) && (
            forall|j: int| 0 <= j < i ==> !kind(#[trigger] available[j]));
        if i < k {
            assert(!kind(available[i]));
        } else if k < i {
            assert(!kind(available[k]));
        }
    }
}

/// The first resource of a kind stands before every other of that kind.
pub proof fn first_of_a_kind_is_first(
    available: Seq<Resource>,
    kind: spec_fn(Resource) -> bool,
    found: Option<Resource>,
    k: int,
)
    requires
        is_first_of(available, kind, found),
        0 <= k < available.len(),
        kind(available[k]),
    ensures
        found is Some,
        kind(found->0),
        exists|i: int| 0 <= i <= k && #[trigger] available[i] == found->0,
{
    if found is Some {
        let i = choose|i: int|
            0 <= i < available.len() && #[trigger] available[i] == found->0 && kind(found->0) && (
            forall|j: int| 0 <= j < i ==> !kind(#[trigger] available[j]));
        if k < i {
            assert(!kind(available[k]));
        }
        assert(available[i] == found->0);
    }
}

/// A mouse is a mouse whatever its number, and nothing else is one.
pub proof fn only_mice_are_mice(resource: Resource)
    ensures
        is_mouse(resource) == match resource {
            Resource::Input(InputResource::Mouse(i)) => true,
            Resource::Input(InputResource::Keyboard(i)) => false,
            Resource::Input(InputResource::Touch(i)) => false,
            Resource::Drm { card } => false,
            Resource::Fbdev => false,
        },
{
}

/// What a list of entries holds is what its entries say: each resource with
/// its own descriptor, and no other.
pub proof fn each_entry_is_held(held: Seq<Held>, i: int)
    requires
        distinct(held),
        0 <= i < held.len(),
    ensures
        fds_of(held).contains_key(held[i].resource),
        fds_of(held)[held[i].resource] == held[i].fd,
        forall|resource: Resource| #[trigger]
            fds_of(held).contains_key(resource) ==> exists|j: int|
                0 <= j < held.len() && (#[trigger] held[j]).resource == resource,
{
    entry_is_found(held, i);
    assert forall|resource: Resource| #[trigger]
        fds_of(held).contains_key(resource) implies exists|j: int|
        0 <= j < held.len() && (#[trigger] held[j]).resource == resource by {
        let j = choose|j: int| held_at(held, resource, j);
        assert(held[j].resource == resource);
    }
}

/// The complaint about a grant says how many descriptors it brought.
pub proof fn complaint_gives_the_count(n: nat)
    ensures
        ({
            let numeral = text::decimal(n);
            &&& wrong_count(n).len() == 14 + numeral.len() + 16
            &&& wrong_count(n).subrange(14, 14 + numeral.len() as int) == numeral
            &&& wrong_count(n).take(14) == "grant carried "@
            &&& wrong_count(n).skip(14 + numeral.len() as int) == " fds, expected 1"@
        }),
{
    reveal_strlit("grant carried ");
    reveal_strlit(" fds, expected 1");
    let numeral = text::decimal(n);
    assert(wrong_count(n).subrange(14, 14 + numeral.len() as int) =~= numeral);
    assert(wrong_count(n).take(14) =~= "grant carried "@);
    assert(wrong_count(n).skip(14 + numeral.len() as int) =~= " fds, expected 1"@);
}

/// A descriptor is found for what is held, and for nothing else.
pub proof fn held_descriptor_is_found(held: Map<Resource, i32>, resource: Resource, fd: i32)
    ensures
        descriptor(held, resource) == Some(fd) <==> held.contains_key(resource) && held[resource]
            == fd,
        descriptor(held.insert(resource, fd), resource) == Some(fd),
{
}

} // verus!
