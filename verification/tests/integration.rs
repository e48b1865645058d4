//! The server's parts put together in memory: engine, connections and
//! registries, with messages and descriptors handed over directly.

use simple_graphics_controller::client_id::{ClientId, ClientIds};
use simple_graphics_controller::connection::{
    grant_fd, grant_produced, process_control_message, reply_to_acquire, Connection, GrantEnd,
    GrantSource, Produced, Reply, RequestStep,
};
use simple_graphics_controller::control::ControlMessage;
use simple_graphics_controller::engine::{answered, EngineCommand, PolicyEngine, REVOKE_TIMEOUT};
use simple_graphics_controller::message::{ClientRequest, Resource, ServerMessage};
use simple_graphics_controller::policy::Policy;
use simple_graphics_controller::registry::OpenedResources;
use simple_graphics_controller::resources::{policies_for, query_resource};
use tokio::sync::mpsc::{unbounded_channel, UnboundedReceiver};

const FBDEV_FD: i32 = 33;

struct Peer {
    client: ClientId,
    connection: Connection,
    control: UnboundedReceiver<ControlMessage>,
    inbox: Vec<(ServerMessage, Vec<i32>)>,
}

struct Server {
    engine: PolicyEngine,
    resources: OpenedResources,
    ids: ClientIds,
    peers: Vec<Peer>,
    now: u64,
}

impl Server {
    fn new(policy: Policy) -> Self {
        let resources = query_resource(Some(FBDEV_FD), &vec![], &vec![]);
        let engine = PolicyEngine::spawn(policies_for(&resources.advertised, policy));
        Server { engine, resources, ids: ClientIds::new(), peers: Vec::new(), now: 0 }
    }

    fn connect(&mut self) -> ClientId {
        let client = self.ids.allocate();
        let (tx, control) = unbounded_channel();
        self.engine.handle_command(EngineCommand::Register { client, control: tx }, self.now);
        let (connection, greeting) = Connection::open(client, &self.resources.advertised);
        self.peers.push(Peer { client, connection, control, inbox: vec![(greeting, vec![])] });
        client
    }

    fn at(&self, client: ClientId) -> usize {
        self.peers.iter().position(|peer| peer.client == client).expect("connected")
    }

    fn deliver(&mut self, client: ClientId, reply: Reply) {
        let at = self.at(client);
        match reply {
            Reply::Silence => {}
            Reply::Send(message) => self.peers[at].inbox.push((message, vec![])),
            Reply::Grant { resource } => {
                let outcome = match grant_fd(&resource, &mut self.resources.registries) {
                    Ok(GrantSource::Duplicate { fd }) => {
                        self.peers[at].inbox.push((ServerMessage::Grant { resource }, vec![fd]));
                        grant_produced(
                            &resource,
                            Produced::Duplicated,
                            &mut self.resources.registries,
                        )
                    }
                    Ok(GrantSource::Lease(_)) => panic!("no cards here"),
                    Err(e) => Err(e),
                };
                match self.peers[at].connection.grant_ended(resource, outcome, self.now) {
                    GrantEnd::Sent => {}
                    GrantEnd::RolledBack { release, deny } => {
                        self.engine.handle_command(release, self.now);
                        self.peers[at].inbox.push((deny, vec![]));
                    }
                }
            }
        }
    }

    fn pump(&mut self) {
        let mut pending = Vec::new();
        for peer in &mut self.peers {
            while let Ok(message) = peer.control.try_recv() {
                pending.push((peer.client, message));
            }
        }
        for (client, message) in pending {
            for reply in process_control_message(message) {
                self.deliver(client, reply);
            }
        }
    }

    fn send(&mut self, client: ClientId, request: ClientRequest) {
        let at = self.at(client);
        let step =
            self.peers[at].connection.dispatch_request(request, &mut self.resources.registries);
        match step {
            RequestStep::Done => {}
            RequestStep::Acquire { resource } => {
                let command = self.peers[at].connection.acquire_command(resource);
                let outcome = answered(self.engine.handle_command(command, self.now));
                self.deliver(client, reply_to_acquire(resource, outcome));
            }
            RequestStep::Release { resource, lease } => {
                assert_eq!(lease, None);
                let command = self.peers[at].connection.release_command(resource);
                self.engine.handle_command(command, self.now);
            }
        }
        self.pump();
    }

    fn disconnect(&mut self, client: ClientId) {
        let at = self.at(client);
        let peer = self.peers.remove(at);
        self.engine.handle_command(peer.connection.farewell(), self.now);
        self.pump();
    }

    fn advance(&mut self, by: u64) {
        self.now += by;
        if self.engine.next_deadline().is_some_and(|deadline| deadline <= self.now) {
            self.engine.expire(self.now);
        }
        self.pump();
    }

    fn recv(&mut self, client: ClientId) -> (ServerMessage, Vec<i32>) {
        let at = self.at(client);
        assert!(!self.peers[at].inbox.is_empty(), "expected a message");
        self.peers[at].inbox.remove(0)
    }

    fn expect_advertise(&mut self, client: ClientId) -> Vec<Resource> {
        match self.recv(client).0 {
            ServerMessage::Advertise { available_resources } => available_resources,
            other => panic!("expected Advertise, got {other:?}"),
        }
    }

    fn expect_grant(&mut self, client: ClientId) -> Vec<i32> {
        let (message, fds) = self.recv(client);
        assert!(matches!(message, ServerMessage::Grant { .. }), "expected Grant, got {message:?}");
        assert!(!fds.is_empty(), "Grant must carry fds");
        fds
    }

    fn expect_revoke(&mut self, client: ClientId) {
        let (message, _) = self.recv(client);
        assert!(matches!(message, ServerMessage::Revoke { .. }), "expected Revoke, got {message:?}");
    }

    fn expect_deny(&mut self, client: ClientId) -> String {
        match self.recv(client).0 {
            ServerMessage::Deny { reason } => reason,
            other => panic!("expected Deny, got {other:?}"),
        }
    }

    fn expect_silence(&self, client: ClientId) {
        assert!(self.peers[self.at(client)].inbox.is_empty(), "expected silence");
    }
}

fn acquire() -> ClientRequest {
    ClientRequest::Acquire { resource: Resource::Fbdev }
}

fn release() -> ClientRequest {
    ClientRequest::Release { resource: Resource::Fbdev }
}

#[test]
fn first_client_is_granted() {
    let mut server = Server::new(Policy::FairQueue);
    let a = server.connect();
    assert_eq!(server.expect_advertise(a), vec![Resource::Fbdev]);
    server.send(a, acquire());
    let fds = server.expect_grant(a);
    assert_eq!(fds.len(), 1);
    assert_eq!(fds, vec![FBDEV_FD]);
}

#[test]
fn second_client_preempts_and_handoff_completes() {
    let mut server = Server::new(Policy::FairQueue);
    let a = server.connect();
    let b = server.connect();
    let _ = server.expect_advertise(a);
    let _ = server.expect_advertise(b);
    server.send(a, acquire());
    server.expect_grant(a);

    // B acquires and is queued (silence); A is told to leave.
    server.send(b, acquire());
    server.advance(200);
    server.expect_silence(b);
    server.expect_revoke(a);

    // A's release hands the resource to B.
    server.send(a, release());
    server.expect_grant(b);
}

#[test]
fn revoked_client_is_requeued_for_one_more_turn() {
    let mut server = Server::new(Policy::FairQueue);
    let a = server.connect();
    let b = server.connect();
    let _ = server.expect_advertise(a);
    let _ = server.expect_advertise(b);
    server.send(a, acquire());
    server.expect_grant(a);
    server.send(b, acquire());
    server.expect_revoke(a);
    server.send(a, release());
    server.expect_grant(b);

    // B releases voluntarily, and A, which waits again, gets it unasked.
    server.send(b, release());
    server.expect_grant(a);
}

#[test]
fn integration_tests_first_owner_denies_new_acquires() {
    let mut server = Server::new(Policy::FirstOwner);
    let a = server.connect();
    let b = server.connect();
    let _ = server.expect_advertise(a);
    let _ = server.expect_advertise(b);
    server.send(a, acquire());
    server.expect_grant(a);
    server.send(b, acquire());
    let reason = server.expect_deny(b);
    assert!(reason.contains("owned"), "deny reason: {reason}");
}

#[test]
fn queued_client_disconnect_does_not_wedge_queue() {
    let mut server = Server::new(Policy::FairQueue);
    let a = server.connect();
    let b = server.connect();
    let c = server.connect();
    let _ = server.expect_advertise(a);
    let _ = server.expect_advertise(b);
    let _ = server.expect_advertise(c);
    server.send(a, acquire());
    server.expect_grant(a);

    // B queues, then gives up and disconnects.
    server.send(b, acquire());
    server.expect_revoke(a);
    server.disconnect(b);

    // A releases; the queue is empty, so C's fresh acquire is granted.
    server.send(a, release());
    server.send(c, acquire());
    server.expect_grant(c);
}

#[test]
fn integration_tests_silent_owner_is_force_reclaimed_after_timeout() {
    let mut server = Server::new(Policy::FairQueue);
    let a = server.connect();
    let b = server.connect();
    let _ = server.expect_advertise(a);
    let _ = server.expect_advertise(b);
    server.send(a, acquire());
    server.expect_grant(a);
    server.send(b, acquire());
    server.expect_revoke(a);

    // A never releases; time goes past the revoke deadline.
    server.advance(REVOKE_TIMEOUT + 1000);
    server.expect_grant(b);
}

#[test]
fn unconfirmed_grant_stays_with_the_client() {
    let mut server = Server::new(Policy::FirstOwner);
    let a = server.connect();
    let b = server.connect();
    let _ = server.expect_advertise(a);
    let _ = server.expect_advertise(b);
    server.send(a, acquire());
    server.expect_grant(a);
    server.advance(10_000);
    let at = server.at(a);
    assert_eq!(server.peers[at].connection.ack_deadline(), Some(5000));
    server.peers[at].connection.ack_timed_out();
    server.send(b, acquire());
    assert_eq!(server.expect_deny(b), "Fbdev is owned by client 1");
}
