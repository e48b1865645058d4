use simple_graphics_controller::client::{
    audience, check_available, first_card, first_mouse, Audience, ClientStep, Held, SgcClient,
    SgcError, SgcEvent,
};
use simple_graphics_controller::message::{ClientRequest, InputResource, Resource, ServerMessage};

fn connect() -> SgcClient {
    SgcClient::connect(ServerMessage::Advertise { available_resources: vec![Resource::Fbdev] })
        .expect("connect")
        .0
}

fn mouse(index: u8) -> Resource {
    Resource::Input(InputResource::Mouse(index))
}

#[test]
fn connect_reads_advertise_and_returns_resources() {
    let greeting = ServerMessage::Advertise { available_resources: vec![Resource::Fbdev] };
    let (client, available) = SgcClient::connect(greeting).expect("connect");
    assert_eq!(available, vec![Resource::Fbdev]);
    assert!(client.held().is_empty());
}

#[test]
fn acquire_denied_surfaces_reason() {
    let client = connect();
    assert_eq!(
        client.acquire_request(Resource::Fbdev),
        ClientRequest::Acquire { resource: Resource::Fbdev }
    );
    let answer = ServerMessage::Deny { reason: "first-owner policy".into() };
    let err = client.acquire(Resource::Fbdev, answer, &vec![]).expect_err("must be denied");
    assert!(
        matches!(err, SgcError::Denied { ref reason } if reason == "first-owner policy"),
        "expected Denied, got {err:?}"
    );
    assert!(client.held().is_empty(), "nothing held on deny");
}

#[test]
fn acquire_grant_holds_fd_and_lends_dup() {
    let mut client = connect();
    let answer = ServerMessage::Grant { resource: Resource::Fbdev };
    let granted = client.acquire(Resource::Fbdev, answer, &vec![6]).expect("grant");
    assert_eq!(granted, Held { resource: Resource::Fbdev, fd: 6 });
    // Acknowledged, then kept.
    assert_eq!(client.keep(granted), None);
    assert_eq!(client.held(), vec![Resource::Fbdev]);
    let fd = client.fd(&Resource::Fbdev).expect("lend");
    assert!(fd >= 0, "lent fd must be valid");
    assert_eq!(fd, 6);
}

#[test]
fn session_must_begin_with_an_advertise() {
    let greeting = ServerMessage::Grant { resource: Resource::Fbdev };
    match SgcClient::connect(greeting) {
        Err(SgcError::UnexpectedMessage(said)) => {
            assert_eq!(said, ServerMessage::Grant { resource: Resource::Fbdev })
        }
        _ => panic!("a grant is no greeting"),
    }
}

#[test]
fn grant_must_bring_one_descriptor_for_the_resource() {
    let client = connect();
    for fds in [vec![], vec![1, 2]] {
        let answer = ServerMessage::Grant { resource: Resource::Fbdev };
        match client.acquire(Resource::Fbdev, answer, &fds) {
            Err(SgcError::Io { error }) => {
                assert_eq!(error, format!("grant carried {} fds, expected 1", fds.len()))
            }
            _ => panic!("wrong number of descriptors"),
        }
    }
    let answer = ServerMessage::Grant { resource: mouse(0) };
    assert!(matches!(
        client.acquire(Resource::Fbdev, answer, &vec![1]),
        Err(SgcError::UnexpectedMessage(ServerMessage::Grant { resource })) if resource == mouse(0)
    ));
    let answer = ServerMessage::Revoke { resource: Resource::Fbdev };
    assert!(matches!(
        client.acquire(Resource::Fbdev, answer, &vec![1]),
        Err(SgcError::UnexpectedMessage(ServerMessage::Revoke { .. }))
    ));
}

#[test]
fn revoke_drops_and_regrant_restores() {
    let mut client = connect();
    client.keep(Held { resource: Resource::Fbdev, fd: 6 });
    client.keep(Held { resource: mouse(0), fd: 7 });
    match client.handle_message(ServerMessage::Revoke { resource: Resource::Fbdev }, &vec![]) {
        ClientStep::Revoked { close, event, reply } => {
            assert_eq!(close, Some(6));
            assert_eq!(event, SgcEvent::Revoked { resource: Resource::Fbdev });
            assert_eq!(reply, ClientRequest::Release { resource: Resource::Fbdev });
        }
        _ => panic!("a revoke"),
    }
    assert!(matches!(
        client.fd(&Resource::Fbdev),
        Err(SgcError::NotHeld { resource: Resource::Fbdev })
    ));
    assert_eq!(client.held(), vec![mouse(0)]);
    match client.handle_message(ServerMessage::Grant { resource: Resource::Fbdev }, &vec![8]) {
        ClientStep::Granted { reply, close, event } => {
            assert_eq!(reply, ClientRequest::Ack);
            assert_eq!(close, None);
            assert_eq!(event, SgcEvent::Granted { resource: Resource::Fbdev, fd: 8 });
        }
        _ => panic!("a grant"),
    }
    assert_eq!(client.fd(&Resource::Fbdev).unwrap(), 8);
    assert_eq!(client.fd(&mouse(0)).unwrap(), 7);
}

#[test]
fn unheld_revoke_is_still_acknowledged() {
    let mut client = connect();
    match client.handle_message(ServerMessage::Revoke { resource: mouse(3) }, &vec![]) {
        ClientStep::Revoked { close, reply, .. } => {
            assert_eq!(close, None);
            assert_eq!(reply, ClientRequest::Release { resource: mouse(3) });
        }
        _ => panic!("a revoke"),
    }
}

#[test]
fn odd_messages_are_ignored() {
    let mut client = connect();
    client.keep(Held { resource: mouse(0), fd: 7 });
    let grant = ServerMessage::Grant { resource: mouse(0) };
    assert!(matches!(client.handle_message(grant.clone(), &vec![]), ClientStep::Ignored));
    assert!(matches!(client.handle_message(grant, &vec![1, 2]), ClientStep::Ignored));
    let deny = ServerMessage::Deny { reason: "late".to_string() };
    assert!(matches!(client.handle_message(deny, &vec![]), ClientStep::Ignored));
    assert_eq!(client.fd(&mouse(0)).unwrap(), 7);
}

#[test]
fn second_grant_replaces_the_descriptor() {
    let mut client = connect();
    assert_eq!(client.keep(Held { resource: mouse(0), fd: 7 }), None);
    assert_eq!(client.keep(Held { resource: mouse(0), fd: 9 }), Some(7));
    assert_eq!(client.fd(&mouse(0)).unwrap(), 9);
    assert_eq!(client.held(), vec![mouse(0)]);
}

#[test]
fn lost_connection_gives_everything_up() {
    let mut client = connect();
    client.keep(Held { resource: Resource::Fbdev, fd: 6 });
    client.keep(Held { resource: mouse(0), fd: 7 });
    let mut lost = client.disconnected();
    lost.sort_by_key(|held| held.fd);
    assert_eq!(
        lost,
        vec![Held { resource: Resource::Fbdev, fd: 6 }, Held { resource: mouse(0), fd: 7 }]
    );
    assert!(client.held().is_empty());
    assert!(client.disconnected().is_empty());
}

#[test]
fn offers_are_read_from_the_top() {
    let available = vec![
        Resource::Fbdev,
        Resource::Drm { card: 2 },
        Resource::Drm { card: 0 },
        Resource::Input(InputResource::Keyboard(0)),
        mouse(1),
        mouse(0),
    ];
    assert_eq!(first_card(&available).unwrap(), Resource::Drm { card: 2 });
    assert_eq!(first_mouse(&available), Some(mouse(1)));
    assert!(check_available(&available, Resource::Fbdev).is_ok());
    assert!(matches!(
        check_available(&available, Resource::Drm { card: 1 }),
        Err(SgcError::NotAvailable { resource: Resource::Drm { card: 1 } })
    ));
    assert!(matches!(
        first_card(&vec![Resource::Fbdev]),
        Err(SgcError::NotAvailable { resource: Resource::Drm { card: 0 } })
    ));
    assert_eq!(first_mouse(&vec![Resource::Fbdev]), None);
}

#[test]
fn mouse_events_go_to_the_input_task() {
    let revoked = SgcEvent::Revoked { resource: mouse(1) };
    let granted = SgcEvent::Granted { resource: Resource::Fbdev, fd: 3 };
    assert_eq!(audience(&revoked, Some(mouse(1))), Audience::Input);
    assert_eq!(audience(&revoked, Some(mouse(0))), Audience::Render);
    assert_eq!(audience(&revoked, None), Audience::Render);
    assert_eq!(audience(&granted, Some(mouse(1))), Audience::Render);
}
