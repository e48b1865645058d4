//! Messages as bytes: MessagePack, in which a variant with data is a map
//! with one entry, its name to its data, the data is a map from field names
//! to values, and a variant without data is its bare name.

use crate::frame;
use crate::frame::FrameTooLarge;
use crate::message::{ClientRequest, InputResource, Resource, ServerMessage, ServerMessageView};
use vstd::prelude::*;

verus! {

/// An error of the rmp_serde crate on encoding.
#[verifier::external_type_specification]
#[verifier::external_body]
pub struct ExEncodeError(rmp_serde::encode::Error);

/// A message could not be put on the wire.
#[derive(Debug)]
pub enum ProtocolError {
    /// It could not be encoded.
    Encode(rmp_serde::encode::Error),
    /// It is longer than a frame may be.
    TooLarge(FrameTooLarge),
}

/// The two bytes of a length, most significant first.
pub open spec fn two_bytes(n: nat) -> Seq<u8> {
    seq![(n / 0x100 % 256) as u8, (n % 256) as u8]
}

/// The four bytes of a length, most significant first.
pub open spec fn four_bytes(n: nat) -> Seq<u8> {
    two_bytes(n / 0x1_0000) + two_bytes(n % 0x1_0000)
}

/// What stands before a text of so many bytes.
pub open spec fn text_head(len: nat) -> Seq<u8> {
    if len < 32 {
        seq![(0xa0 + len) as u8]
    } else if len < 0x100 {
        seq![0xd9u8, len as u8]
    } else if len < 0x1_0000 {
        seq![0xdau8] + two_bytes(len)
    } else {
        seq![0xdbu8] + four_bytes(len)
    }
}

/// A text.
pub open spec fn packed_text(text: Seq<char>) -> Seq<u8> {
    let bytes = vstd::utf8::encode_utf8(text);
    text_head(bytes.len()) + bytes
}

/// A number that fits in a byte.
pub open spec fn packed_byte(n: u8) -> Seq<u8> {
    if n < 128 {
        seq![n]
    } else {
        seq![0xccu8, n]
    }
}

/// What stands before a list of so many values.
pub open spec fn list_head(len: nat) -> Seq<u8> {
    if len < 16 {
        seq![(0x90 + len) as u8]
    } else if len < 0x1_0000 {
        seq![0xdcu8] + two_bytes(len)
    } else {
        seq![0xddu8] + four_bytes(len)
    }
}

/// A map with one entry.
pub open spec fn packed_entry(key: Seq<char>, value: Seq<u8>) -> Seq<u8> {
    seq![0x81u8] + packed_text(key) + value
}

/// An input device.
pub open spec fn packed_input(input: InputResource) -> Seq<u8> {
    match input {
        InputResource::Mouse(i) => packed_entry("Mouse"@, packed_byte(i)),
        InputResource::Keyboard(i) => packed_entry("Keyboard"@, packed_byte(i)),
        InputResource::Touch(i) => packed_entry("Touch"@, packed_byte(i)),
    }
}

/// A resource.
pub open spec fn packed_resource(resource: Resource) -> Seq<u8> {
    match resource {
        Resource::Fbdev => packed_text("Fbdev"@),
        Resource::Drm { card } => packed_entry("Drm"@, packed_entry("card"@, packed_byte(card))),
        Resource::Input(input) => packed_entry("Input"@, packed_input(input)),
    }
}

/// Resources, one after the other.
pub open spec fn packed_resources(resources: Seq<Resource>) -> Seq<u8>
    decreases resources.len(),
{
    if resources.len() == 0 {
        Seq::empty()
    } else {
        packed_resources(resources.drop_last()) + packed_resource(resources.last())
    }
}

/// A variant that names a resource.
pub open spec fn packed_naming(variant: Seq<char>, resource: Resource) -> Seq<u8> {
    packed_entry(variant, packed_entry("resource"@, packed_resource(resource)))
}

/// A request.
pub open spec fn packed_request(request: ClientRequest) -> Seq<u8> {
    match request {
        ClientRequest::Acquire { resource } => packed_naming("Acquire"@, resource),
        ClientRequest::Release { resource } => packed_naming("Release"@, resource),
        ClientRequest::Ack => packed_text("Ack"@),
    }
}

/// A message from the server.
pub open spec fn packed_message(message: ServerMessageView) -> Seq<u8> {
    match message {
        ServerMessageView::Advertise { available_resources } => packed_entry(
            "Advertise"@,
            packed_entry(
                "available_resources"@,
                list_head(available_resources.len()) + packed_resources(available_resources),
            ),
        ),
        ServerMessageView::Grant { resource } => packed_naming("Grant"@, resource),
        ServerMessageView::Deny { reason } => packed_entry(
            "Deny"@,
            packed_entry("reason"@, packed_text(reason)),
        ),
        ServerMessageView::Revoke { resource } => packed_naming("Revoke"@, resource),
    }
}

/// Can the text be encoded? Its length must fit in 32 bits.
pub open spec fn text_fits(text: Seq<char>) -> bool {
    vstd::utf8::encode_utf8(text).len() <= u32::MAX
}

/// Can the message be encoded? Lengths must fit in 32 bits.
pub open spec fn message_fits(message: ServerMessageView) -> bool {
    match message {
        ServerMessageView::Advertise { available_resources } => available_resources.len()
            <= u32::MAX,
        ServerMessageView::Deny { reason } => text_fits(reason),
        _ => true,
    }
}

/// How many values a message lists, or how many bytes its text has.
pub open spec fn bulk(message: ServerMessageView) -> nat {
    match message {
        ServerMessageView::Advertise { available_resources } => available_resources.len(),
        ServerMessageView::Deny { reason } => vstd::utf8::encode_utf8(reason).len(),
        _ => 0,
    }
}

/// `rmp_serde::encode::write_named` on a text appends its length and its
/// bytes. Appending to a vector does not fail.
#[verifier::external_body]
fn put_text(buffer: &mut Vec<u8>, text: &str) -> (done: Result<(), rmp_serde::encode::Error>)
    requires
        text_fits(text@),
    ensures
        done is Ok,
        final(buffer)@ == old(buffer)@ + packed_text(text@),
{
    rmp_serde::encode::write_named(buffer, text)
}

/// `rmp_serde::encode::write_named` on a byte appends it, marked where it is
/// not below 128. Appending to a vector does not fail.
#[verifier::external_body]
fn put_byte(buffer: &mut Vec<u8>, n: u8) -> (done: Result<(), rmp_serde::encode::Error>)
    ensures
        done is Ok,
        final(buffer)@ == old(buffer)@ + packed_byte(n),
{
    rmp_serde::encode::write_named(buffer, &n)
}

/// `serialize_map` of the rmp_serde serializer, told of one entry, appends
/// the head of a map with one entry. Appending to a vector does not fail.
#[verifier::external_body]
fn put_entry_head(buffer: &mut Vec<u8>) -> (done: Result<(), rmp_serde::encode::Error>)
    ensures
        done is Ok,
        final(buffer)@ == old(buffer)@.push(0x81u8),
{
    let mut serializer = rmp_serde::Serializer::new(buffer);
    serde::Serializer::serialize_map(&mut serializer, Some(1)).map(|_| ())
}

/// `serialize_seq` of the rmp_serde serializer, told of so many values,
/// appends the head of a list. Appending to a vector does not fail.
#[verifier::external_body]
fn put_list_head(buffer: &mut Vec<u8>, len: usize) -> (done: Result<(), rmp_serde::encode::Error>)
    requires
        len <= u32::MAX,
    ensures
        done is Ok,
        final(buffer)@ == old(buffer)@ + list_head(len as nat),
{
    let mut serializer = rmp_serde::Serializer::new(buffer);
    serde::Serializer::serialize_seq(&mut serializer, Some(len)).map(|_| ())
}

/// The names that messages are made of are short.
pub(crate) proof fn names_fit()
    ensures
        text_fits("Mouse"@),
        text_fits("Keyboard"@),
        text_fits("Touch"@),
        text_fits("Fbdev"@),
        text_fits("Drm"@),
        text_fits("card"@),
        text_fits("Input"@),
        text_fits("resource"@),
        text_fits("Acquire"@),
        text_fits("Release"@),
        text_fits("Ack"@),
        text_fits("Advertise"@),
        text_fits("available_resources"@),
        text_fits("Grant"@),
        text_fits("Deny"@),
        text_fits("reason"@),
        text_fits("Revoke"@),
{
    reveal_strlit("Mouse");
    vstd::utf8::is_ascii_chars_encode_utf8("Mouse"@);
    reveal_strlit("Keyboard");
    vstd::utf8::is_ascii_chars_encode_utf8("Keyboard"@);
    reveal_strlit("Touch");
    vstd::utf8::is_ascii_chars_encode_utf8("Touch"@);
    reveal_strlit("Fbdev");
    vstd::utf8::is_ascii_chars_encode_utf8("Fbdev"@);
    reveal_strlit("Drm");
    vstd::utf8::is_ascii_chars_encode_utf8("Drm"@);
    reveal_strlit("card");
    vstd::utf8::is_ascii_chars_encode_utf8("card"@);
    reveal_strlit("Input");
    vstd::utf8::is_ascii_chars_encode_utf8("Input"@);
    reveal_strlit("resource");
    vstd::utf8::is_ascii_chars_encode_utf8("resource"@);
    reveal_strlit("Acquire");
    vstd::utf8::is_ascii_chars_encode_utf8("Acquire"@);
    reveal_strlit("Release");
    vstd::utf8::is_ascii_chars_encode_utf8("Release"@);
    reveal_strlit("Ack");
    vstd::utf8::is_ascii_chars_encode_utf8("Ack"@);
    reveal_strlit("Advertise");
    vstd::utf8::is_ascii_chars_encode_utf8("Advertise"@);
    reveal_strlit("available_resources");
    vstd::utf8::is_ascii_chars_encode_utf8("available_resources"@);
    reveal_strlit("Grant");
    vstd::utf8::is_ascii_chars_encode_utf8("Grant"@);
    reveal_strlit("Deny");
    vstd::utf8::is_ascii_chars_encode_utf8("Deny"@);
    reveal_strlit("reason");
    vstd::utf8::is_ascii_chars_encode_utf8("reason"@);
    reveal_strlit("Revoke");
    vstd::utf8::is_ascii_chars_encode_utf8("Revoke"@);
}

/// How long the names are on the wire.
proof fn names_are_short()
    ensures
        packed_text("Mouse"@).len() == 6,
        packed_text("Keyboard"@).len() == 9,
        packed_text("Touch"@).len() == 6,
        packed_text("Fbdev"@).len() == 6,
        packed_text("Drm"@).len() == 4,
        packed_text("card"@).len() == 5,
        packed_text("Input"@).len() == 6,
        packed_text("resource"@).len() == 9,
        packed_text("Acquire"@).len() == 8,
        packed_text("Release"@).len() == 8,
        packed_text("Ack"@).len() == 4,
{
    reveal_strlit("Mouse");
    vstd::utf8::is_ascii_chars_encode_utf8("Mouse"@);
    reveal_strlit("Keyboard");
    vstd::utf8::is_ascii_chars_encode_utf8("Keyboard"@);
    reveal_strlit("Touch");
    vstd::utf8::is_ascii_chars_encode_utf8("Touch"@);
    reveal_strlit("Fbdev");
    vstd::utf8::is_ascii_chars_encode_utf8("Fbdev"@);
    reveal_strlit("Drm");
    vstd::utf8::is_ascii_chars_encode_utf8("Drm"@);
    reveal_strlit("card");
    vstd::utf8::is_ascii_chars_encode_utf8("card"@);
    reveal_strlit("Input");
    vstd::utf8::is_ascii_chars_encode_utf8("Input"@);
    reveal_strlit("resource");
    vstd::utf8::is_ascii_chars_encode_utf8("resource"@);
    reveal_strlit("Acquire");
    vstd::utf8::is_ascii_chars_encode_utf8("Acquire"@);
    reveal_strlit("Release");
    vstd::utf8::is_ascii_chars_encode_utf8("Release"@);
    reveal_strlit("Ack");
    vstd::utf8::is_ascii_chars_encode_utf8("Ack"@);
}

fn put_entry(buffer: &mut Vec<u8>, key: &str) -> (done: Result<(), ProtocolError>)
    requires
        text_fits(key@),
    ensures
        done is Ok,
        final(buffer)@ == old(buffer)@ + packed_entry(key@, Seq::empty()),
{
    let ghost before = buffer@;
    if let Err(e) = put_entry_head(buffer) {
        return Err(ProtocolError::Encode(e));
    }
    if let Err(e) = put_text(buffer, key) {
        return Err(ProtocolError::Encode(e));
    }
    assert(buffer@ =~= before + packed_entry(key@, Seq::empty()));
    Ok(())
}

fn put_input(buffer: &mut Vec<u8>, input: &InputResource) -> (done: Result<(), ProtocolError>)
    ensures
        done is Ok,
        final(buffer)@ == old(buffer)@ + packed_input(*input),
{
    proof {
        names_fit();
    }
    let ghost before = buffer@;
    let (class, index) = match input {
        InputResource::Mouse(i) => ("Mouse", *i),
        InputResource::Keyboard(i) => ("Keyboard", *i),
        InputResource::Touch(i) => ("Touch", *i),
    };
    put_entry(buffer, class)?;
    if let Err(e) = put_byte(buffer, index) {
        return Err(ProtocolError::Encode(e));
    }
    assert(buffer@ =~= before + packed_input(*input));
    Ok(())
}

fn put_resource(buffer: &mut Vec<u8>, resource: &Resource) -> (done: Result<(), ProtocolError>)
    ensures
        done is Ok,
        final(buffer)@ == old(buffer)@ + packed_resource(*resource),
{
    proof {
        names_fit();
    }
    let ghost before = buffer@;
    match resource {
        Resource::Fbdev => {
            if let Err(e) = put_text(buffer, "Fbdev") {
                return Err(ProtocolError::Encode(e));
            }
        },
        Resource::Drm { card } => {
            put_entry(buffer, "Drm")?;
            put_entry(buffer, "card")?;
            if let Err(e) = put_byte(buffer, *card) {
                return Err(ProtocolError::Encode(e));
            }
        },
        Resource::Input(input) => {
            put_entry(buffer, "Input")?;
            put_input(buffer, input)?;
        },
    }
    assert(buffer@ =~= before + packed_resource(*resource));
    Ok(())
}

fn put_naming(buffer: &mut Vec<u8>, variant: &str, resource: &Resource) -> (done: Result<
    (),
    ProtocolError,
>)
    requires
        text_fits(variant@),
    ensures
        done is Ok,
        final(buffer)@ == old(buffer)@ + packed_naming(variant@, *resource),
{
    proof {
        names_fit();
    }
    let ghost before = buffer@;
    put_entry(buffer, variant)?;
    put_entry(buffer, "resource")?;
    put_resource(buffer, resource)?;
    assert(buffer@ =~= before + packed_naming(variant@, *resource));
    Ok(())
}

impl ClientRequest {
    /// The request as bytes.
    pub fn serialize(&self) -> (bytes: Result<Vec<u8>, ProtocolError>)
        ensures
            bytes matches Ok(bytes) && bytes@ == packed_request(*self),
    {
        proof {
            names_fit();
        }
        let mut buffer: Vec<u8> = Vec::new();
        match self {
            ClientRequest::Acquire { resource } => {
                put_naming(&mut buffer, "Acquire", resource)?;
            },
            ClientRequest::Release { resource } => {
                put_naming(&mut buffer, "Release", resource)?;
            },
            ClientRequest::Ack => {
                if let Err(e) = put_text(&mut buffer, "Ack") {
                    return Err(ProtocolError::Encode(e));
                }
            },
        }
        assert(buffer@ =~= packed_request(*self));
        Ok(buffer)
    }

    /// The request as a frame. Every request fits in one.
    pub fn serialize_framed(&self) -> (bytes: Result<Vec<u8>, ProtocolError>)
        ensures
            bytes matches Ok(bytes) && bytes@ == frame::framed(packed_request(*self)),
    {
        let payload = self.serialize()?;
        proof {
            requests_fit_in_frames(*self);
        }
        match frame::frame(payload.as_slice()) {
            Ok(bytes) => Ok(bytes),
            Err(e) => Err(ProtocolError::TooLarge(e)),
        }
    }
}

impl ServerMessage {
    /// Can the message be encoded?
    pub fn can_serialize(&self) -> (yes: bool)
        ensures
            yes == message_fits(self@),
    {
        match self {
            ServerMessage::Advertise { available_resources } => available_resources.len() as u64
                <= u32::MAX as u64,
            ServerMessage::Deny { reason } => {
                let bytes = reason.as_str().as_bytes();
                bytes.len() as u64 <= u32::MAX as u64
            },
            _ => true,
        }
    }

    /// The message as bytes.
    pub fn serialize(&self) -> (bytes: Result<Vec<u8>, ProtocolError>)
        requires
            message_fits(self@),
        ensures
            bytes matches Ok(bytes) && bytes@ == packed_message(self@),
    {
        proof {
            names_fit();
        }
        let mut buffer: Vec<u8> = Vec::new();
        match self {
            ServerMessage::Advertise { available_resources } => {
                put_entry(&mut buffer, "Advertise")?;
                put_entry(&mut buffer, "available_resources")?;
                let n: usize = available_resources.len();
                if let Err(e) = put_list_head(&mut buffer, n) {
                    return Err(ProtocolError::Encode(e));
                }
                let ghost head = buffer@;
                let mut i: usize = 0;
                assert(available_resources@.take(0) =~= Seq::<Resource>::empty());
                while i < n
                    invariant
                        i <= n,
                        n == available_resources@.len(),
                        buffer@ == head + packed_resources(available_resources@.take(i as int)),
                    decreases n - i,
                {
                    let ghost before = buffer@;
                    put_resource(&mut buffer, &available_resources[i])?;
                    proof {
                        let longer = available_resources@.take(i + 1);
                        assert(longer.drop_last() =~= available_resources@.take(i as int));
                        assert(longer.last() == available_resources@[i as int]);
                        assert(buffer@ =~= head + packed_resources(longer));
                    }
                    i = i + 1;
                }
                assert(available_resources@.take(n as int) =~= available_resources@);
            },
            ServerMessage::Grant { resource } => {
                put_naming(&mut buffer, "Grant", resource)?;
            },
            ServerMessage::Deny { reason } => {
                put_entry(&mut buffer, "Deny")?;
                put_entry(&mut buffer, "reason")?;
                if let Err(e) = put_text(&mut buffer, reason.as_str()) {
                    return Err(ProtocolError::Encode(e));
                }
            },
            ServerMessage::Revoke { resource } => {
                put_naming(&mut buffer, "Revoke", resource)?;
            },
        }
        assert(buffer@ =~= packed_message(self@));
        Ok(buffer)
    }

    /// How many values or bytes the message holds.
    fn count_bulk(&self) -> (n: usize)
        ensures
            n == bulk(self@),
    {
        match self {
            ServerMessage::Advertise { available_resources } => available_resources.len(),
            ServerMessage::Deny { reason } => {
                let bytes = reason.as_str().as_bytes();
                bytes.len()
            },
            _ => 0,
        }
    }

    /// The message as a frame, if it fits in one. One that is too long even
    /// to be encoded is refused by how much it holds.
    pub fn serialize_framed(&self) -> (bytes: Result<Vec<u8>, ProtocolError>)
        ensures
            if frame::fits_in_frame(packed_message(self@)) {
                bytes matches Ok(bytes) && bytes@ == frame::framed(packed_message(self@))
            } else {
                bytes matches Err(ProtocolError::TooLarge(e)) && e.len == (if message_fits(self@) {
                    packed_message(self@).len()
                } else {
                    bulk(self@)
                })
            },
    {
        if !self.can_serialize() {
            proof {
                bulk_is_carried(self@);
            }
            return Err(ProtocolError::TooLarge(FrameTooLarge { len: self.count_bulk() }));
        }
        let payload = self.serialize()?;
        assert(payload@.len() == payload.len());
        match frame::frame(payload.as_slice()) {
            Ok(bytes) => Ok(bytes),
            Err(e) => Err(ProtocolError::TooLarge(e)),
        }
    }
}

/// From `a + x == b + y` with parts of the same length follows that the
/// parts are the same.
proof fn same_parts(a: Seq<u8>, x: Seq<u8>, b: Seq<u8>, y: Seq<u8>)
    requires
        a + x == b + y,
        a.len() == b.len(),
    ensures
        a == b,
        x == y,
{
    let n = a.len() as int;
    assert(a =~= (a + x).take(n));
    assert(b =~= (b + y).take(n));
    assert(x =~= (a + x).skip(n));
    assert(y =~= (b + y).skip(n));
}

proof fn text_length_is_readable(m: nat, x: Seq<u8>, n: nat, y: Seq<u8>)
    requires
        m <= u32::MAX,
        n <= u32::MAX,
        text_head(m) + x == text_head(n) + y,
    ensures
        m == n,
        x == y,
{
    let a = text_head(m);
    let b = text_head(n);
    assert((a + x)[0] == a[0]);
    assert((b + y)[0] == b[0]);
    assert(a.len() == b.len());
    same_parts(a, x, b, y);
    if 32 <= m < 0x100 {
        assert(a[1] == b[1]);
    } else if 0x100 <= m < 0x1_0000 {
        assert(a[1] == b[1] && a[2] == b[2]);
    } else if m >= 0x1_0000 {
        assert(a[1] == b[1] && a[2] == b[2] && a[3] == b[3] && a[4] == b[4]);
    }
}

proof fn text_is_readable(a: Seq<char>, x: Seq<u8>, b: Seq<char>, y: Seq<u8>)
    requires
        text_fits(a),
        text_fits(b),
        packed_text(a) + x == packed_text(b) + y,
    ensures
        a == b,
        x == y,
{
    let p = vstd::utf8::encode_utf8(a);
    let q = vstd::utf8::encode_utf8(b);
    assert(packed_text(a) + x =~= text_head(p.len()) + (p + x));
    assert(packed_text(b) + y =~= text_head(q.len()) + (q + y));
    text_length_is_readable(p.len(), p + x, q.len(), q + y);
    same_parts(p, x, q, y);
    vstd::utf8::encode_utf8_decode_utf8(a);
    vstd::utf8::encode_utf8_decode_utf8(b);
}

proof fn byte_is_readable(m: u8, x: Seq<u8>, n: u8, y: Seq<u8>)
    requires
        packed_byte(m) + x == packed_byte(n) + y,
    ensures
        m == n,
        x == y,
{
    let a = packed_byte(m);
    let b = packed_byte(n);
    assert((a + x)[0] == a[0]);
    assert((b + y)[0] == b[0]);
    assert(a.len() == b.len());
    same_parts(a, x, b, y);
    if m >= 128 {
        assert(a[1] == b[1]);
    }
}

proof fn entry_is_readable(
    k: Seq<char>,
    v: Seq<u8>,
    x: Seq<u8>,
    l: Seq<char>,
    w: Seq<u8>,
    y: Seq<u8>,
)
    requires
        text_fits(k),
        text_fits(l),
        packed_entry(k, v) + x == packed_entry(l, w) + y,
    ensures
        k == l,
        v + x == w + y,
{
    assert(packed_entry(k, v) + x =~= seq![0x81u8] + (packed_text(k) + (v + x)));
    assert(packed_entry(l, w) + y =~= seq![0x81u8] + (packed_text(l) + (w + y)));
    same_parts(
        seq![0x81u8],
        packed_text(k) + (v + x),
        seq![0x81u8],
        packed_text(l) + (w + y),
    );
    text_is_readable(k, v + x, l, w + y);
}

/// A map and a text begin differently.
proof fn entry_is_no_text(k: Seq<char>, v: Seq<u8>, x: Seq<u8>, t: Seq<char>, y: Seq<u8>)
    requires
        text_fits(t),
    ensures
        packed_entry(k, v) + x != packed_text(t) + y,
{
    let n = vstd::utf8::encode_utf8(t).len();
    assert((packed_entry(k, v) + x)[0] == 0x81u8);
    assert((packed_text(t) + y)[0] == text_head(n)[0]);
}

proof fn input_is_readable(a: InputResource, x: Seq<u8>, b: InputResource, y: Seq<u8>)
    requires
        packed_input(a) + x == packed_input(b) + y,
    ensures
        a == b,
        x == y,
{
    names_fit();
    reveal_strlit("Mouse");
    reveal_strlit("Keyboard");
    reveal_strlit("Touch");
    let (k, m) = match a {
        InputResource::Mouse(i) => ("Mouse"@, i),
        InputResource::Keyboard(i) => ("Keyboard"@, i),
        InputResource::Touch(i) => ("Touch"@, i),
    };
    let (l, n) = match b {
        InputResource::Mouse(i) => ("Mouse"@, i),
        InputResource::Keyboard(i) => ("Keyboard"@, i),
        InputResource::Touch(i) => ("Touch"@, i),
    };
    entry_is_readable(k, packed_byte(m), x, l, packed_byte(n), y);
    byte_is_readable(m, x, n, y);
    assert("Mouse"@[0] != "Touch"@[0]);
    assert("Mouse"@.len() != "Keyboard"@.len());
    assert("Touch"@.len() != "Keyboard"@.len());
}

/// A resource can be read off the front of any bytes that begin with it, in
/// one way only.
pub proof fn resource_is_readable(a: Resource, x: Seq<u8>, b: Resource, y: Seq<u8>)
    requires
        packed_resource(a) + x == packed_resource(b) + y,
    ensures
        a == b,
        x == y,
{
    names_fit();
    reveal_strlit("Drm");
    reveal_strlit("Input");
    assert("Drm"@.len() != "Input"@.len());
    match (a, b) {
        (Resource::Fbdev, Resource::Fbdev) => {
            same_parts(packed_text("Fbdev"@), x, packed_text("Fbdev"@), y);
        },
        (Resource::Fbdev, Resource::Drm { card }) => {
            entry_is_no_text("Drm"@, packed_entry("card"@, packed_byte(card)), y, "Fbdev"@, x);
        },
        (Resource::Fbdev, Resource::Input(input)) => {
            entry_is_no_text("Input"@, packed_input(input), y, "Fbdev"@, x);
        },
        (Resource::Drm { card }, Resource::Fbdev) => {
            entry_is_no_text("Drm"@, packed_entry("card"@, packed_byte(card)), x, "Fbdev"@, y);
        },
        (Resource::Input(input), Resource::Fbdev) => {
            entry_is_no_text("Input"@, packed_input(input), x, "Fbdev"@, y);
        },
        (Resource::Drm { card: c }, Resource::Drm { card: d }) => {
            let v = packed_entry("card"@, packed_byte(c));
            let w = packed_entry("card"@, packed_byte(d));
            entry_is_readable("Drm"@, v, x, "Drm"@, w, y);
            entry_is_readable("card"@, packed_byte(c), x, "card"@, packed_byte(d), y);
            byte_is_readable(c, x, d, y);
        },
        (Resource::Input(i), Resource::Input(j)) => {
            entry_is_readable("Input"@, packed_input(i), x, "Input"@, packed_input(j), y);
            input_is_readable(i, x, j, y);
        },
        (Resource::Drm { card }, Resource::Input(input)) => {
            let v = packed_entry("card"@, packed_byte(card));
            entry_is_readable("Drm"@, v, x, "Input"@, packed_input(input), y);
        },
        (Resource::Input(input), Resource::Drm { card }) => {
            let w = packed_entry("card"@, packed_byte(card));
            entry_is_readable("Input"@, packed_input(input), x, "Drm"@, w, y);
        },
    }
}

proof fn naming_is_readable(k: Seq<char>, a: Resource, l: Seq<char>, b: Resource)
    requires
        text_fits(k),
        text_fits(l),
        packed_naming(k, a) == packed_naming(l, b),
    ensures
        k == l,
        a == b,
{
    names_fit();
    let e = Seq::<u8>::empty();
    let v = packed_entry("resource"@, packed_resource(a));
    let w = packed_entry("resource"@, packed_resource(b));
    assert(packed_naming(k, a) + e =~= packed_naming(l, b) + e);
    entry_is_readable(k, v, e, l, w, e);
    entry_is_readable("resource"@, packed_resource(a), e, "resource"@, packed_resource(b), e);
    resource_is_readable(a, e, b, e);
}

/// No two requests are the same on the wire.
pub proof fn requests_are_unambiguous(a: ClientRequest, b: ClientRequest)
    requires
        packed_request(a) == packed_request(b),
    ensures
        a == b,
{
    names_fit();
    reveal_strlit("Acquire");
    reveal_strlit("Release");
    assert("Acquire"@[0] != "Release"@[0]);
    let e = Seq::<u8>::empty();
    assert(packed_request(a) + e =~= packed_request(b) + e);
    match (a, b) {
        (ClientRequest::Ack, ClientRequest::Ack) => {},
        (ClientRequest::Ack, ClientRequest::Acquire { resource }) => {
            let v = packed_entry("resource"@, packed_resource(resource));
            entry_is_no_text("Acquire"@, v, e, "Ack"@, e);
        },
        (ClientRequest::Ack, ClientRequest::Release { resource }) => {
            let v = packed_entry("resource"@, packed_resource(resource));
            entry_is_no_text("Release"@, v, e, "Ack"@, e);
        },
        (ClientRequest::Acquire { resource }, ClientRequest::Ack) => {
            let v = packed_entry("resource"@, packed_resource(resource));
            entry_is_no_text("Acquire"@, v, e, "Ack"@, e);
        },
        (ClientRequest::Release { resource }, ClientRequest::Ack) => {
            let v = packed_entry("resource"@, packed_resource(resource));
            entry_is_no_text("Release"@, v, e, "Ack"@, e);
        },
        (ClientRequest::Acquire { resource: r }, ClientRequest::Acquire { resource: q }) => {
            naming_is_readable("Acquire"@, r, "Acquire"@, q);
        },
        (ClientRequest::Release { resource: r }, ClientRequest::Release { resource: q }) => {
            naming_is_readable("Release"@, r, "Release"@, q);
        },
        (ClientRequest::Acquire { resource: r }, ClientRequest::Release { resource: q }) => {
            naming_is_readable("Acquire"@, r, "Release"@, q);
        },
        (ClientRequest::Release { resource: r }, ClientRequest::Acquire { resource: q }) => {
            naming_is_readable("Release"@, r, "Acquire"@, q);
        },
    }
}

proof fn list_length_is_readable(m: nat, x: Seq<u8>, n: nat, y: Seq<u8>)
    requires
        m <= u32::MAX,
        n <= u32::MAX,
        list_head(m) + x == list_head(n) + y,
    ensures
        m == n,
        x == y,
{
    let a = list_head(m);
    let b = list_head(n);
    assert((a + x)[0] == a[0]);
    assert((b + y)[0] == b[0]);
    assert(a.len() == b.len());
    same_parts(a, x, b, y);
    if 16 <= m < 0x1_0000 {
        assert(a[1] == b[1] && a[2] == b[2]);
    } else if m >= 0x1_0000 {
        assert(a[1] == b[1] && a[2] == b[2] && a[3] == b[3] && a[4] == b[4]);
    }
}

proof fn first_resource_comes_first(resources: Seq<Resource>)
    requires
        resources.len() > 0,
    ensures
        packed_resources(resources) == packed_resource(resources[0]) + packed_resources(
            resources.drop_first(),
        ),
    decreases resources.len(),
{
    if resources.len() == 1 {
        assert(resources.drop_last() =~= Seq::<Resource>::empty());
        assert(resources.drop_first() =~= Seq::<Resource>::empty());
        assert(packed_resources(resources) =~= packed_resource(resources[0]) + packed_resources(
            resources.drop_first(),
        ));
    } else {
        let shorter = resources.drop_last();
        first_resource_comes_first(shorter);
        assert(shorter.drop_first() =~= resources.drop_first().drop_last());
        assert(packed_resources(resources) =~= packed_resource(resources[0]) + packed_resources(
            resources.drop_first(),
        ));
    }
}

proof fn resources_are_readable(a: Seq<Resource>, b: Seq<Resource>)
    requires
        a.len() == b.len(),
        packed_resources(a) == packed_resources(b),
    ensures
        a == b,
    decreases a.len(),
{
    if a.len() > 0 {
        first_resource_comes_first(a);
        first_resource_comes_first(b);
        resource_is_readable(
            a[0],
            packed_resources(a.drop_first()),
            b[0],
            packed_resources(b.drop_first()),
        );
        resources_are_readable(a.drop_first(), b.drop_first());
        assert(a =~= seq![a[0]] + a.drop_first());
        assert(b =~= seq![b[0]] + b.drop_first());
    } else {
        assert(a =~= b);
    }
}

/// The name of a message's variant, and what follows it.
spec fn message_parts(message: ServerMessageView) -> (Seq<char>, Seq<char>, Seq<u8>) {
    match message {
        ServerMessageView::Advertise { available_resources } => (
            "Advertise"@,
            "available_resources"@,
            list_head(available_resources.len()) + packed_resources(available_resources),
        ),
        ServerMessageView::Grant { resource } => (
            "Grant"@,
            "resource"@,
            packed_resource(resource),
        ),
        ServerMessageView::Deny { reason } => ("Deny"@, "reason"@, packed_text(reason)),
        ServerMessageView::Revoke { resource } => (
            "Revoke"@,
            "resource"@,
            packed_resource(resource),
        ),
    }
}

/// No two messages are the same on the wire.
pub proof fn messages_are_unambiguous(a: ServerMessageView, b: ServerMessageView)
    requires
        message_fits(a),
        message_fits(b),
        packed_message(a) == packed_message(b),
    ensures
        a == b,
{
    names_fit();
    reveal_strlit("Advertise");
    reveal_strlit("Grant");
    reveal_strlit("Deny");
    reveal_strlit("Revoke");
    let e = Seq::<u8>::empty();
    let (k, f, v) = message_parts(a);
    let (l, g, w) = message_parts(b);
    assert(packed_message(a) == packed_entry(k, packed_entry(f, v)));
    assert(packed_message(b) == packed_entry(l, packed_entry(g, w)));
    assert(packed_entry(k, packed_entry(f, v)) + e =~= packed_entry(l, packed_entry(g, w)) + e);
    entry_is_readable(k, packed_entry(f, v), e, l, packed_entry(g, w), e);
    entry_is_readable(f, v, e, g, w, e);
    assert(v + e =~= v);
    assert(w + e =~= w);
    assert("Advertise"@.len() == 9 && "Grant"@.len() == 5 && "Deny"@.len() == 4
        && "Revoke"@.len() == 6);
    match (a, b) {
        (
            ServerMessageView::Advertise { available_resources: r },
            ServerMessageView::Advertise { available_resources: q },
        ) => {
            list_length_is_readable(
                r.len(),
                packed_resources(r),
                q.len(),
                packed_resources(q),
            );
            resources_are_readable(r, q);
        },
        (ServerMessageView::Grant { resource: r }, ServerMessageView::Grant { resource: q }) => {
            resource_is_readable(r, e, q, e);
        },
        (ServerMessageView::Revoke { resource: r }, ServerMessageView::Revoke { resource: q }) => {
            resource_is_readable(r, e, q, e);
        },
        (ServerMessageView::Deny { reason: r }, ServerMessageView::Deny { reason: q }) => {
            text_is_readable(r, e, q, e);
        },
        _ => {},
    }
}

/// A message is at least as long as what it holds, so that one which is too
/// long to be encoded fits in no frame.
pub proof fn bulk_is_carried(message: ServerMessageView)
    ensures
        packed_message(message).len() >= bulk(message),
        !message_fits(message) ==> !frame::fits_in_frame(packed_message(message)),
{
    if let ServerMessageView::Advertise { available_resources } = message {
        resources_take_bytes(available_resources);
    }
}

proof fn resources_take_bytes(resources: Seq<Resource>)
    ensures
        packed_resources(resources).len() >= resources.len(),
    decreases resources.len(),
{
    if resources.len() > 0 {
        resources_take_bytes(resources.drop_last());
    }
}

/// Every request fits in a frame.
pub proof fn requests_fit_in_frames(request: ClientRequest)
    ensures
        frame::fits_in_frame(packed_request(request)),
{
    names_are_short();
}

/// The payloads of some messages.
pub open spec fn packed_messages(messages: Seq<ServerMessageView>) -> Seq<Seq<u8>> {
    messages.map_values(|message: ServerMessageView| packed_message(message))
}

/// What the server writes can be understood in one way only: two lists of
/// messages give the same bytes only if they are the same.
pub proof fn stream_is_unambiguous(a: Seq<ServerMessageView>, b: Seq<ServerMessageView>)
    requires
        forall|i: int|
            0 <= i < a.len() ==> message_fits(#[trigger] a[i]) && frame::fits_in_frame(
                packed_message(a[i]),
            ),
        forall|i: int|
            0 <= i < b.len() ==> message_fits(#[trigger] b[i]) && frame::fits_in_frame(
                packed_message(b[i]),
            ),
        frame::all_framed(packed_messages(a)) == frame::all_framed(packed_messages(b)),
    ensures
        a == b,
{
    let p = packed_messages(a);
    let q = packed_messages(b);
    let e = Seq::<u8>::empty();
    assert forall|i: int| 0 <= i < p.len() implies frame::fits_in_frame(#[trigger] p[i]) by {
        assert(message_fits(a[i]));
    }
    assert forall|i: int| 0 <= i < q.len() implies frame::fits_in_frame(#[trigger] q[i]) by {
        assert(message_fits(b[i]));
    }
    frame::frames_are_read_back(p, e);
    frame::frames_are_read_back(q, e);
    assert(frame::payloads_in(e) =~= Seq::<Seq<u8>>::empty());
    assert(p + frame::payloads_in(e) =~= p);
    assert(q + frame::payloads_in(e) =~= q);
    assert(p == q);
    assert(a.len() == p.len() && b.len() == q.len());
    assert forall|i: int| 0 <= i < a.len() implies a[i] == b[i] by {
        assert(p[i] == packed_message(a[i]));
        assert(q[i] == packed_message(b[i]));
        messages_are_unambiguous(a[i], b[i]);
    }
    assert(a =~= b);
}

} // verus!
