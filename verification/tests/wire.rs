use simple_graphics_controller::frame::{FrameBuffer, FrameTooLarge, MAX_FRAME_LEN};
use simple_graphics_controller::message::{ClientRequest, InputResource, Resource, ServerMessage};
use simple_graphics_controller::wire::ProtocolError;
use std::collections::HashMap;

fn hex(bytes: &[u8]) -> String {
    bytes.iter().map(|b| format!("{b:02x}")).collect::<Vec<_>>().join(" ")
}

fn request(request: ClientRequest) -> String {
    hex(&request.serialize().unwrap())
}

fn message(message: ServerMessage) -> String {
    hex(&message.serialize().unwrap())
}

fn card(card: u8) -> Resource {
    Resource::Drm { card }
}

#[test]
fn requests_have_their_documented_bytes() {
    assert_eq!(
        request(ClientRequest::Acquire { resource: Resource::Fbdev }),
        "81 a7 41 63 71 75 69 72 65 81 a8 72 65 73 6f 75 72 63 65 a5 46 62 64 65 76"
    );
    assert_eq!(
        request(ClientRequest::Acquire { resource: card(0) }),
        "81 a7 41 63 71 75 69 72 65 81 a8 72 65 73 6f 75 72 63 65 81 a3 44 72 6d 81 a4 63 61 72 64 00"
    );
    assert_eq!(
        request(ClientRequest::Release { resource: card(0) }),
        "81 a7 52 65 6c 65 61 73 65 81 a8 72 65 73 6f 75 72 63 65 81 a3 44 72 6d 81 a4 63 61 72 64 00"
    );
    assert_eq!(request(ClientRequest::Ack), "a3 41 63 6b");
}

#[test]
fn resources_have_their_documented_bytes() {
    let head = "81 a5 47 72 61 6e 74 81 a8 72 65 73 6f 75 72 63 65 ";
    for (resource, bytes) in [
        (Resource::Fbdev, "a5 46 62 64 65 76"),
        (card(0), "81 a3 44 72 6d 81 a4 63 61 72 64 00"),
        (
            Resource::Input(InputResource::Mouse(1)),
            "81 a5 49 6e 70 75 74 81 a5 4d 6f 75 73 65 01",
        ),
    ] {
        assert_eq!(message(ServerMessage::Grant { resource }), format!("{head}{bytes}"));
    }
}

#[test]
fn messages_have_their_documented_bytes() {
    assert_eq!(
        message(ServerMessage::Advertise {
            available_resources: vec![
                card(0),
                Resource::Fbdev,
                Resource::Input(InputResource::Mouse(0)),
            ]
        }),
        "81 a9 41 64 76 65 72 74 69 73 65 81 b3 61 76 61 69 6c 61 62 6c 65 5f 72 65 73 6f 75 72 63 65 73 93 81 a3 44 72 6d 81 a4 63 61 72 64 00 a5 46 62 64 65 76 81 a5 49 6e 70 75 74 81 a5 4d 6f 75 73 65 00"
    );
    assert_eq!(
        message(ServerMessage::Grant { resource: card(0) }),
        "81 a5 47 72 61 6e 74 81 a8 72 65 73 6f 75 72 63 65 81 a3 44 72 6d 81 a4 63 61 72 64 00"
    );
    assert_eq!(
        message(ServerMessage::Revoke { resource: card(0) }),
        "81 a6 52 65 76 6f 6b 65 81 a8 72 65 73 6f 75 72 63 65 81 a3 44 72 6d 81 a4 63 61 72 64 00"
    );
    assert_eq!(
        message(ServerMessage::Deny { reason: "owned".to_string() }),
        "81 a4 44 65 6e 79 81 a6 72 65 61 73 6f 6e a5 6f 77 6e 65 64"
    );
}

#[test]
fn long_texts_numbers_and_lists_get_longer_heads() {
    let tail = |n: usize| {
        let bytes = ServerMessage::Deny { reason: "x".repeat(n) }.serialize().unwrap();
        hex(&bytes[14..bytes.len() - n])
    };
    assert_eq!(tail(31), "bf");
    assert_eq!(tail(32), "d9 20");
    assert_eq!(tail(255), "d9 ff");
    assert_eq!(tail(256), "da 01 00");
    assert_eq!(tail(65535), "da ff ff");
    assert_eq!(tail(65536), "db 00 01 00 00");
    let grant = |n: u8| {
        let bytes = ServerMessage::Grant { resource: card(n) }.serialize().unwrap();
        hex(&bytes[28..])
    };
    assert_eq!(grant(127), "7f");
    assert_eq!(grant(128), "cc 80");
    assert_eq!(grant(255), "cc ff");
    let list = |n: usize| {
        let offers = ServerMessage::Advertise { available_resources: vec![Resource::Fbdev; n] };
        let bytes = offers.serialize().unwrap();
        hex(&bytes[32..bytes.len() - 6 * n])
    };
    assert_eq!(list(0), "90");
    assert_eq!(list(15), "9f");
    assert_eq!(list(16), "dc 00 10");
    assert_eq!(list(65536), "dd 00 01 00 00");
}

#[test]
fn encoded_values_decode_to_the_same_structure() {
    type Map<V> = HashMap<String, V>;
    let denied = ServerMessage::Deny { reason: "größer \u{1f600}".to_string() };
    let decoded: Map<Map<String>> = rmp_serde::from_slice(&denied.serialize().unwrap()).unwrap();
    assert_eq!(decoded["Deny"]["reason"], "größer \u{1f600}");
    let grant = ServerMessage::Grant { resource: card(200) };
    let decoded: Map<Map<Map<Map<u8>>>> = rmp_serde::from_slice(&grant.serialize().unwrap()).unwrap();
    assert_eq!(decoded["Grant"]["resource"]["Drm"]["card"], 200);
    let released = ClientRequest::Release { resource: Resource::Input(InputResource::Touch(3)) };
    let decoded: Map<Map<Map<Map<u8>>>> =
        rmp_serde::from_slice(&released.serialize().unwrap()).unwrap();
    assert_eq!(decoded["Release"]["resource"]["Input"]["Touch"], 3);
    let offers = ServerMessage::Advertise { available_resources: vec![Resource::Fbdev; 40] };
    let decoded: Map<Map<Vec<String>>> = rmp_serde::from_slice(&offers.serialize().unwrap()).unwrap();
    assert_eq!(decoded["Advertise"]["available_resources"], vec!["Fbdev"; 40]);
    // The same bytes as the encoder gives for the same structure.
    let mut inner = HashMap::new();
    inner.insert("resource", "Fbdev");
    let mut outer = HashMap::new();
    outer.insert("Revoke", inner);
    assert_eq!(
        rmp_serde::to_vec_named(&outer).unwrap(),
        ServerMessage::Revoke { resource: Resource::Fbdev }.serialize().unwrap()
    );
}

#[test]
fn frames_carry_messages() {
    let messages = vec![
        ServerMessage::Grant { resource: card(1) },
        ServerMessage::Deny { reason: "no".to_string() },
    ];
    let mut buffer = FrameBuffer::new();
    for message in &messages {
        buffer.extend(&message.serialize_framed().unwrap());
    }
    buffer.extend(&ClientRequest::Ack.serialize_framed().unwrap());
    for message in &messages {
        assert_eq!(buffer.next_frame().unwrap().unwrap(), message.serialize().unwrap());
    }
    assert_eq!(buffer.next_frame().unwrap().unwrap(), vec![0xa3, 0x41, 0x63, 0x6b]);
    assert_eq!(hex(&ClientRequest::Ack.serialize_framed().unwrap()), "00 00 00 04 a3 41 63 6b");
}

#[test]
fn message_over_the_frame_limit_is_refused() {
    let reason = "x".repeat(MAX_FRAME_LEN);
    let len = ServerMessage::Deny { reason: reason.clone() }.serialize().unwrap().len();
    assert!(matches!(
        ServerMessage::Deny { reason }.serialize_framed(),
        Err(ProtocolError::TooLarge(FrameTooLarge { len: n })) if n == len
    ));
}

#[test]
fn ordinary_messages_can_be_serialized() {
    assert!(ServerMessage::Advertise { available_resources: vec![Resource::Fbdev] }.can_serialize());
    assert!(ServerMessage::Deny { reason: "owned".to_string() }.can_serialize());
    assert!(ServerMessage::Grant { resource: card(255) }.can_serialize());
}
