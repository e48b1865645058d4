use simple_graphics_controller::cards::OpenedCard;
use simple_graphics_controller::client_id::{ClientId, ClientIds};
use simple_graphics_controller::connection::{
    grant_fd, grant_produced, process_control_message, reply_to_acquire, Connection, GrantEnd,
    GrantSource, Produced, ReadEvent, ReadStep, Reply, RequestStep, ServerError,
    GRANT_ACK_TIMEOUT,
};
use simple_graphics_controller::control::ControlMessage;
use simple_graphics_controller::engine::{AcquireOutcome, EngineCommand, PolicyEngine};
use simple_graphics_controller::frame::{frame, FrameTooLarge};
use simple_graphics_controller::message::{ClientRequest, InputResource, Resource, ServerMessage};
use simple_graphics_controller::policy::Policy;
use simple_graphics_controller::registry::ResourceRegistries;
use simple_graphics_controller::resources::{query_resource, OpenedInput};

fn card() -> Resource {
    Resource::Drm { card: 0 }
}

fn mouse() -> Resource {
    Resource::Input(InputResource::Mouse(0))
}

fn registries() -> ResourceRegistries {
    let cards = vec![OpenedCard {
        index: 0,
        crtcs: vec![1],
        connectors: vec![2],
        planes: vec![3],
        any_connected: true,
    }];
    let inputs = vec![OpenedInput { resource: InputResource::Mouse(0), fd: Some(9) }];
    query_resource(None, &cards, &inputs).registries
}

fn connection() -> Connection {
    Connection::open(ClientId::new(4), &vec![card()]).0
}

#[test]
fn identities_count_up_from_one() {
    let mut ids = ClientIds::new();
    assert_eq!(ids.allocate(), ClientId(1));
    assert_eq!(ids.allocate(), ClientId(2));
    assert_eq!(ids.allocate().to_text(), "3");
    assert_eq!(ClientId::new(1234567890).to_text(), "1234567890");
}

#[test]
fn connection_begins_with_the_advertised_list() {
    let (connection, greeting) = Connection::open(ClientId::new(4), &vec![card(), mouse()]);
    assert_eq!(
        greeting,
        ServerMessage::Advertise { available_resources: vec![card(), mouse()] }
    );
    assert_eq!(connection.ack_deadline(), None);
}

#[test]
fn reads_lead_to_dispatch_end_or_error() {
    let mut connection = connection();
    assert!(matches!(connection.read(ReadEvent::Bytes(vec![0, 0])), ReadStep::Again));
    assert!(matches!(connection.read(ReadEvent::WouldBlock), ReadStep::Dispatch));
    assert_eq!(connection.next_payload(), Ok(None));
    assert!(matches!(connection.read(ReadEvent::Closed), ReadStep::Stop));
    match connection.read(ReadEvent::Failed { error: "broken".to_string() }) {
        ReadStep::Fail(e) => assert_eq!(e.to_text(), "failed to read from client: broken"),
        _ => panic!("a failed read is an error"),
    }
    connection.read(ReadEvent::Bytes(vec![0, 1, 7]));
    assert_eq!(connection.next_payload(), Ok(Some(vec![7])));
    connection.read(ReadEvent::Bytes(frame(&[1, 2]).unwrap()));
    connection.read(ReadEvent::Bytes(vec![9, 0, 0, 0]));
    assert_eq!(connection.next_payload(), Ok(Some(vec![1, 2])));
    assert_eq!(connection.next_payload(), Err(FrameTooLarge { len: 150994944 }));
}

#[test]
fn requests_are_told_apart() {
    let mut connection = connection();
    let mut registries = registries();
    assert!(matches!(
        connection.dispatch_request(ClientRequest::Acquire { resource: card() }, &mut registries),
        RequestStep::Acquire { resource } if resource == card()
    ));
    assert!(matches!(
        connection.acquire_command(card()),
        EngineCommand::Acquire { client: ClientId(4), resource } if resource == card()
    ));
    assert!(matches!(
        connection.dispatch_request(ClientRequest::Release { resource: mouse() }, &mut registries),
        RequestStep::Release { resource, lease: None } if resource == mouse()
    ));
    assert!(matches!(
        connection.release_command(mouse()),
        EngineCommand::Release { client: ClientId(4), resource } if resource == mouse()
    ));
    assert!(matches!(
        connection.farewell(),
        EngineCommand::Disconnected { client: ClientId(4) }
    ));
}

#[test]
fn released_card_gives_its_lease_back() {
    let mut connection = connection();
    let mut registries = registries();
    assert!(grant_fd(&card(), &mut registries).is_ok());
    assert!(grant_produced(&card(), Produced::Leased { lease: 21 }, &mut registries).is_ok());
    assert!(matches!(
        connection.dispatch_request(ClientRequest::Release { resource: card() }, &mut registries),
        RequestStep::Release { lease: Some(21), .. }
    ));
    assert!(matches!(
        connection.dispatch_request(ClientRequest::Release { resource: card() }, &mut registries),
        RequestStep::Release { lease: None, .. }
    ));
}

#[test]
fn ack_confirms_and_silence_expires() {
    let mut connection = connection();
    let mut registries = registries();
    assert!(matches!(connection.grant_ended(mouse(), Ok(()), 100), GrantEnd::Sent));
    assert_eq!(connection.ack_deadline(), Some(100 + GRANT_ACK_TIMEOUT));
    assert!(matches!(
        connection.dispatch_request(ClientRequest::Ack, &mut registries),
        RequestStep::Done
    ));
    assert_eq!(connection.ack_deadline(), None);
    connection.grant_ended(mouse(), Ok(()), 7);
    assert_eq!(connection.ack_deadline(), Some(5007));
    connection.ack_timed_out();
    assert_eq!(connection.ack_deadline(), None);
}

#[test]
fn grants_come_from_leases_or_registered_descriptors() {
    let mut registries = registries();
    match grant_fd(&card(), &mut registries) {
        Ok(GrantSource::Lease(plan)) => {
            assert_eq!(plan.objects, vec![1, 2, 3]);
            assert_eq!(plan.stale, None);
        }
        _ => panic!("a card is leased"),
    }
    assert!(grant_produced(&card(), Produced::Leased { lease: 5 }, &mut registries).is_ok());
    match grant_fd(&card(), &mut registries) {
        Ok(GrantSource::Lease(plan)) => assert_eq!(plan.stale, Some(5)),
        _ => panic!("a card is leased"),
    }
    assert!(matches!(
        grant_fd(&mouse(), &mut registries),
        Ok(GrantSource::Duplicate { fd: 9 })
    ));
    assert!(grant_produced(&mouse(), Produced::Duplicated, &mut registries).is_ok());
    for resource in [Resource::Fbdev, Resource::Drm { card: 3 }] {
        match grant_fd(&resource, &mut registries) {
            Err(e) => {
                assert_eq!(e.to_text(), format!("resource {resource:?} is not registered"))
            }
            Ok(_) => panic!("not registered"),
        }
    }
}

#[test]
fn failed_grant_is_rolled_back_and_denied() {
    let mut connection = connection();
    let mut registries = registries();
    let failed = grant_produced(
        &card(),
        Produced::LeaseFailed { error: "busy".to_string() },
        &mut registries,
    );
    match connection.grant_ended(card(), failed, 0) {
        GrantEnd::RolledBack { release, deny } => {
            assert!(matches!(
                release,
                EngineCommand::Release { client: ClientId(4), resource } if resource == card()
            ));
            assert_eq!(
                deny,
                ServerMessage::Deny {
                    reason: "grant failed: failed to lease Drm { card: 0 }: busy".to_string()
                }
            );
        }
        GrantEnd::Sent => panic!("the grant failed"),
    }
    assert_eq!(connection.ack_deadline(), None);
    let failed = grant_produced(
        &mouse(),
        Produced::DuplicateFailed { error: "none left".to_string() },
        &mut registries,
    );
    assert_eq!(
        failed.unwrap_err().to_text(),
        "failed to dup fd for Input(Mouse(0)): none left"
    );
    let wrote = ServerError::Write { error: "EPIPE".to_string() };
    assert_eq!(wrote.to_text(), "failed to write to client: EPIPE");
    let coded = ServerError::Protocol { error: "odd".to_string() };
    assert_eq!(coded.to_text(), "protocol error: odd");
}

#[test]
fn rolled_back_grant_frees_the_resource() {
    let mut engine = PolicyEngine::spawn(vec![(card(), Policy::FairQueue)]);
    let mut connection = connection();
    let granted = engine.handle_command(connection.acquire_command(card()), 0);
    assert!(matches!(granted, Some(AcquireOutcome::Granted)));
    let error = ServerError::Write { error: "EPIPE".to_string() };
    match connection.grant_ended(card(), Err(error), 0) {
        GrantEnd::RolledBack { release, .. } => {
            assert!(engine.handle_command(release, 0).is_none());
        }
        GrantEnd::Sent => panic!("the grant failed"),
    }
    assert!(matches!(engine.acquire(ClientId(5), card(), 0), AcquireOutcome::Granted));
}

#[test]
fn acquires_are_answered_by_outcome() {
    assert!(matches!(
        reply_to_acquire(card(), AcquireOutcome::Granted),
        Reply::Grant { resource } if resource == card()
    ));
    assert!(matches!(reply_to_acquire(card(), AcquireOutcome::Queued), Reply::Silence));
    assert!(matches!(
        reply_to_acquire(card(), AcquireOutcome::Denied { reason: "no".to_string() }),
        Reply::Send(ServerMessage::Deny { reason }) if reason == "no"
    ));
}

#[test]
fn control_messages_are_passed_on_one_by_one() {
    let both = vec![card(), mouse()];
    let replies = process_control_message(ControlMessage::Revoke { resources: both.clone() });
    assert_eq!(replies.len(), 2);
    assert!(matches!(
        &replies[1],
        Reply::Send(ServerMessage::Revoke { resource }) if *resource == mouse()
    ));
    let replies = process_control_message(ControlMessage::Grant { resources: both });
    assert_eq!(replies.len(), 2);
    assert!(matches!(&replies[0], Reply::Grant { resource } if *resource == card()));
    assert!(process_control_message(ControlMessage::Grant { resources: vec![] }).is_empty());
}
