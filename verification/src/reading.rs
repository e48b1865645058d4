//! How the bytes of a message read, by the rules of MessagePack alone: what
//! someone who knows nothing of this library finds in them.

use crate::message::{ClientRequest, InputResource, Resource, ServerMessageView};
use crate::wire;
use vstd::prelude::*;

verus! {

/// What stands at one place in a message: a number, a text, or the head of a
/// map or a list, which says how many entries or values follow.
pub enum Token {
    Number(nat),
    Text(Seq<char>),
    MapOf(nat),
    ListOf(nat),
}

/// The number that some bytes spell, the most significant one first.
pub open spec fn spelled(bytes: Seq<u8>) -> nat
    decreases bytes.len(),
{
    if bytes.len() == 0 {
        0
    } else {
        0x100 * spelled(bytes.drop_last()) + bytes.last() as nat
    }
}

/// The text of `len` bytes that stands behind a head, and where it ends.
pub open spec fn text_behind(bytes: Seq<u8>, head: int, len: nat) -> Option<(Token, int)> {
    if head + len <= bytes.len() && vstd::utf8::valid_utf8(bytes.subrange(head, head + len)) {
        Some(
            (
                Token::Text(vstd::utf8::decode_utf8(bytes.subrange(head, head + len))),
                head + len,
            ),
        )
    } else {
        None
    }
}

/// The first token of some bytes, and where it ends. Of the formats of
/// MessagePack these are a positive fixint and a uint 8, a fixstr, str 8,
/// str 16 and str 32, a fixmap, and a fixarray, array 16 and array 32.
#[verifier::opaque]
pub open spec fn first_token(bytes: Seq<u8>) -> Option<(Token, int)> {
    if bytes.len() == 0 {
        None
    } else if bytes[0] < 0x80 {
        Some((Token::Number(bytes[0] as nat), 1))
    } else if bytes[0] < 0x90 {
        Some((Token::MapOf((bytes[0] - 0x80) as nat), 1))
    } else if bytes[0] < 0xa0 {
        Some((Token::ListOf((bytes[0] - 0x90) as nat), 1))
    } else if bytes[0] < 0xc0 {
        text_behind(bytes, 1, (bytes[0] - 0xa0) as nat)
    } else if bytes[0] == 0xcc && bytes.len() >= 2 {
        Some((Token::Number(bytes[1] as nat), 2))
    } else if bytes[0] == 0xd9 && bytes.len() >= 2 {
        text_behind(bytes, 2, spelled(bytes.subrange(1, 2)))
    } else if bytes[0] == 0xda && bytes.len() >= 3 {
        text_behind(bytes, 3, spelled(bytes.subrange(1, 3)))
    } else if bytes[0] == 0xdb && bytes.len() >= 5 {
        text_behind(bytes, 5, spelled(bytes.subrange(1, 5)))
    } else if bytes[0] == 0xdc && bytes.len() >= 3 {
        Some((Token::ListOf(spelled(bytes.subrange(1, 3))), 3))
    } else if bytes[0] == 0xdd && bytes.len() >= 5 {
        Some((Token::ListOf(spelled(bytes.subrange(1, 5))), 5))
    } else {
        None
    }
}

/// The tokens of some bytes, if they are made of nothing else.
#[verifier::opaque]
pub open spec fn tokens(bytes: Seq<u8>) -> Option<Seq<Token>>
    decreases bytes.len(),
{
    if bytes.len() == 0 {
        Some(Seq::empty())
    } else {
        match first_token(bytes) {
            Some((token, end)) if 0 < end <= bytes.len() => match tokens(bytes.skip(end)) {
                Some(more) => Some(seq![token] + more),
                None => None,
            },
            _ => None,
        }
    }
}

proof fn two_bytes_spell(n: nat)
    requires
        n < 0x1_0000,
    ensures
        spelled(wire::two_bytes(n)) == n,
{
    let bytes = wire::two_bytes(n);
    reveal_with_fuel(spelled, 3);
    assert(bytes.drop_last() =~= seq![bytes[0]]);
    assert(seq![bytes[0]].drop_last().len() == 0);
    assert(n / 0x100 % 256 == n / 0x100);
}

proof fn spelling_goes_on(a: Seq<u8>, b: u8, c: u8)
    ensures
        spelled(a.push(b).push(c)) == 0x1_0000 * spelled(a) + 0x100 * b + c,
{
    assert(a.push(b).push(c).drop_last() =~= a.push(b));
    assert(a.push(b).drop_last() =~= a);
    assert(spelled(a.push(b)) == 0x100 * spelled(a) + b);
    assert(spelled(a.push(b).push(c)) == 0x100 * spelled(a.push(b)) + c);
}

proof fn four_bytes_spell(n: nat)
    requires
        n <= u32::MAX,
    ensures
        spelled(wire::four_bytes(n)) == n,
{
    let high = wire::two_bytes(n / 0x1_0000);
    let low = wire::two_bytes(n % 0x1_0000);
    two_bytes_spell(n / 0x1_0000);
    spelling_goes_on(high, low[0], low[1]);
    assert(wire::four_bytes(n) =~= high.push(low[0]).push(low[1]));
}

proof fn text_reads(text: Seq<char>, rest: Seq<u8>)
    requires
        wire::text_fits(text),
    ensures
        ({
            let packed = wire::packed_text(text);
            &&& packed.len() > 0
            &&& first_token(packed + rest) == Some((Token::Text(text), packed.len() as int))
        }),
{
    reveal(first_token);
    let bytes = vstd::utf8::encode_utf8(text);
    let len = bytes.len();
    let packed = wire::packed_text(text);
    let all = packed + rest;
    let head = wire::text_head(len).len() as int;
    vstd::utf8::encode_utf8_valid_utf8(text);
    vstd::utf8::encode_utf8_decode_utf8(text);
    assert(all.subrange(head, head + len) =~= bytes);
    if len < 32 {
        assert(all[0] == 0xa0 + len);
    } else if len < 0x100 {
        assert(all.subrange(1, 2) =~= seq![len as u8]);
        reveal_with_fuel(spelled, 2);
        assert(spelled(all.subrange(1, 2)) == len);
    } else if len < 0x1_0000 {
        assert(all.subrange(1, 3) =~= wire::two_bytes(len));
        two_bytes_spell(len);
    } else {
        assert(all.subrange(1, 5) =~= wire::four_bytes(len));
        four_bytes_spell(len);
    }
}

proof fn list_head_reads(len: nat, rest: Seq<u8>)
    requires
        len <= u32::MAX,
    ensures
        ({
            let head = wire::list_head(len);
            &&& head.len() > 0
            &&& first_token(head + rest) == Some((Token::ListOf(len), head.len() as int))
        }),
{
    reveal(first_token);
    let all = wire::list_head(len) + rest;
    if len < 16 {
        assert(all[0] == 0x90 + len);
        assert(first_token(all) == Some((Token::ListOf(len), 1int)));
    } else if len < 0x1_0000 {
        assert(all[0] == 0xdc);
        assert(all.subrange(1, 3) =~= wire::two_bytes(len));
        two_bytes_spell(len);
        assert(first_token(all) == Some((Token::ListOf(len), 3int)));
    } else {
        assert(all[0] == 0xdd);
        assert(all.subrange(1, 5) =~= wire::four_bytes(len));
        four_bytes_spell(len);
        assert(first_token(all) == Some((Token::ListOf(len), 5int)));
    }
}

proof fn token_is_followed(bytes: Seq<u8>, token: Token, rest: Seq<u8>)
    requires
        bytes.len() > 0,
        first_token(bytes + rest) == Some((token, bytes.len() as int)),
        tokens(rest) is Some,
    ensures
        tokens(bytes + rest) == Some(seq![token] + tokens(rest)->0),
{
    reveal_with_fuel(tokens, 1);
    assert((bytes + rest).skip(bytes.len() as int) =~= rest);
}

proof fn nothing_reads()
    ensures
        tokens(Seq::<u8>::empty()) == Some(Seq::<Token>::empty()),
{
    reveal_with_fuel(tokens, 1);
}

proof fn text_is_followed(text: Seq<char>, rest: Seq<u8>)
    requires
        wire::text_fits(text),
        tokens(rest) is Some,
    ensures
        tokens(wire::packed_text(text) + rest) == Some(seq![Token::Text(text)] + tokens(rest)->0),
{
    text_reads(text, rest);
    token_is_followed(wire::packed_text(text), Token::Text(text), rest);
}

proof fn entry_reads(key: Seq<char>, value: Seq<u8>, rest: Seq<u8>)
    requires
        wire::text_fits(key),
        tokens(value + rest) is Some,
    ensures
        tokens(wire::packed_entry(key, value) + rest) == Some(
            seq![Token::MapOf(1), Token::Text(key)] + tokens(value + rest)->0,
        ),
{
    let behind = wire::packed_text(key) + (value + rest);
    text_is_followed(key, value + rest);
    let all = seq![0x81u8] + behind;
    assert(all[0] == 0x81);
    assert(first_token(all) == Some((Token::MapOf(1), 1int))) by {
        reveal(first_token);
    }
    token_is_followed(seq![0x81u8], Token::MapOf(1), behind);
    assert(wire::packed_entry(key, value) + rest =~= all);
    assert(tokens(all)->0 =~= seq![Token::MapOf(1), Token::Text(key)] + tokens(value + rest)->0);
}

proof fn byte_reads(n: u8, rest: Seq<u8>)
    requires
        tokens(rest) is Some,
    ensures
        tokens(wire::packed_byte(n) + rest) == Some(
            seq![Token::Number(n as nat)] + tokens(rest)->0,
        ),
{
    reveal(first_token);
    let all = wire::packed_byte(n) + rest;
    if n < 128 {
        assert(all[0] == n);
    } else {
        assert(all[0] == 0xcc);
        assert(all[1] == n);
    }
    token_is_followed(wire::packed_byte(n), Token::Number(n as nat), rest);
}

/// Whatever follows it, an input device reads as a map from the name of its
/// class to its number in that class.
pub proof fn input_reads_as_its_class_and_number(input: InputResource, rest: Seq<u8>)
    requires
        tokens(rest) is Some,
    ensures
        tokens(wire::packed_input(input) + rest) == Some(
            (match input {
                InputResource::Mouse(i) => seq![
                    Token::MapOf(1),
                    Token::Text("Mouse"@),
                    Token::Number(i as nat),
                ],
                InputResource::Keyboard(i) => seq![
                    Token::MapOf(1),
                    Token::Text("Keyboard"@),
                    Token::Number(i as nat),
                ],
                InputResource::Touch(i) => seq![
                    Token::MapOf(1),
                    Token::Text("Touch"@),
                    Token::Number(i as nat),
                ],
            }) + tokens(rest)->0,
        ),
{
    wire::names_fit();
    let (key, i) = match input {
        InputResource::Mouse(i) => ("Mouse"@, i),
        InputResource::Keyboard(i) => ("Keyboard"@, i),
        InputResource::Touch(i) => ("Touch"@, i),
    };
    byte_reads(i, rest);
    entry_reads(key, wire::packed_byte(i), rest);
    assert(tokens(wire::packed_input(input) + rest)->0 =~= seq![
        Token::MapOf(1),
        Token::Text(key),
        Token::Number(i as nat),
    ] + tokens(rest)->0);
}

/// Whatever follows it, a resource reads as its bare name, as a map from its
/// name to a map from `card` to the card's number, or as a map from its name
/// to its class and number.
pub proof fn resource_reads_as_itself(resource: Resource, rest: Seq<u8>)
    requires
        tokens(rest) is Some,
    ensures
        tokens(wire::packed_resource(resource) + rest) == Some(
            (match resource {
                Resource::Fbdev => seq![Token::Text("Fbdev"@)],
                Resource::Drm { card } => seq![
                    Token::MapOf(1),
                    Token::Text("Drm"@),
                    Token::MapOf(1),
                    Token::Text("card"@),
                    Token::Number(card as nat),
                ],
                Resource::Input(InputResource::Mouse(i)) => seq![
                    Token::MapOf(1),
                    Token::Text("Input"@),
                    Token::MapOf(1),
                    Token::Text("Mouse"@),
                    Token::Number(i as nat),
                ],
                Resource::Input(InputResource::Keyboard(i)) => seq![
                    Token::MapOf(1),
                    Token::Text("Input"@),
                    Token::MapOf(1),
                    Token::Text("Keyboard"@),
                    Token::Number(i as nat),
                ],
                Resource::Input(InputResource::Touch(i)) => seq![
                    Token::MapOf(1),
                    Token::Text("Input"@),
                    Token::MapOf(1),
                    Token::Text("Touch"@),
                    Token::Number(i as nat),
                ],
            }) + tokens(rest)->0,
        ),
{
    match resource {
        Resource::Fbdev => {
            wire::names_fit();
            text_is_followed("Fbdev"@, rest);
        },
        Resource::Drm { card } => {
            card_reads(card, rest);
        },
        Resource::Input(input) => {
            wire::names_fit();
            input_reads_as_its_class_and_number(input, rest);
            entry_reads("Input"@, wire::packed_input(input), rest);
            let (key, i) = match input {
                InputResource::Mouse(i) => ("Mouse"@, i),
                InputResource::Keyboard(i) => ("Keyboard"@, i),
                InputResource::Touch(i) => ("Touch"@, i),
            };
            five_tokens(
                Token::MapOf(1),
                Token::Text("Input"@),
                Token::MapOf(1),
                Token::Text(key),
                Token::Number(i as nat),
                tokens(rest)->0,
            );
        },
    }
}

proof fn five_tokens(a: Token, b: Token, c: Token, d: Token, e: Token, rest: Seq<Token>)
    ensures
        seq![a, b] + (seq![c, d, e] + rest) == seq![a, b, c, d, e] + rest,
        seq![a, b] + (seq![c, d] + (seq![e] + rest)) == seq![a, b, c, d, e] + rest,
{
    assert(seq![a, b] + (seq![c, d, e] + rest) =~= seq![a, b, c, d, e] + rest);
    assert(seq![a, b] + (seq![c, d] + (seq![e] + rest)) =~= seq![a, b, c, d, e] + rest);
}

proof fn card_reads(card: u8, rest: Seq<u8>)
    requires
        tokens(rest) is Some,
    ensures
        tokens(wire::packed_resource(Resource::Drm { card }) + rest) == Some(
            seq![
                Token::MapOf(1),
                Token::Text("Drm"@),
                Token::MapOf(1),
                Token::Text("card"@),
                Token::Number(card as nat),
            ] + tokens(rest)->0,
        ),
{
    wire::names_fit();
    byte_reads(card, rest);
    entry_reads("card"@, wire::packed_byte(card), rest);
    entry_reads("Drm"@, wire::packed_entry("card"@, wire::packed_byte(card)), rest);
    five_tokens(
        Token::MapOf(1),
        Token::Text("Drm"@),
        Token::MapOf(1),
        Token::Text("card"@),
        Token::Number(card as nat),
        tokens(rest)->0,
    );
}

proof fn resource_alone_reads(resource: Resource)
    ensures
        tokens(wire::packed_resource(resource)) is Some,
{
    nothing_reads();
    resource_reads_as_itself(resource, Seq::empty());
    assert(wire::packed_resource(resource) + Seq::empty() =~= wire::packed_resource(resource));
}

proof fn naming_reads(variant: Seq<char>, resource: Resource)
    requires
        wire::text_fits(variant),
    ensures
        tokens(wire::packed_resource(resource)) is Some,
        tokens(wire::packed_naming(variant, resource)) == Some(
            seq![
                Token::MapOf(1),
                Token::Text(variant),
                Token::MapOf(1),
                Token::Text("resource"@),
            ] + tokens(wire::packed_resource(resource))->0,
        ),
{
    wire::names_fit();
    let none = Seq::<u8>::empty();
    nothing_reads();
    let packed = wire::packed_resource(resource);
    let inner = wire::packed_entry("resource"@, packed);
    resource_alone_reads(resource);
    assert(packed + none =~= packed);
    entry_reads("resource"@, packed, none);
    assert(inner + none =~= inner);
    entry_reads(variant, inner, none);
    assert(wire::packed_naming(variant, resource) + none =~= wire::packed_naming(
        variant,
        resource,
    ));
    assert(tokens(wire::packed_naming(variant, resource))->0 =~= seq![
        Token::MapOf(1),
        Token::Text(variant),
        Token::MapOf(1),
        Token::Text("resource"@),
    ] + tokens(packed)->0);
}

/// A request reads as what it asks: a map from `Acquire` or `Release` to a
/// map from `resource` to the resource, or the bare name `Ack`.
pub proof fn request_reads_as_asked(request: ClientRequest)
    ensures
        tokens(wire::packed_request(request)) == Some(
            match request {
                ClientRequest::Acquire { resource } => seq![
                    Token::MapOf(1),
                    Token::Text("Acquire"@),
                    Token::MapOf(1),
                    Token::Text("resource"@),
                ] + tokens(wire::packed_resource(resource))->0,
                ClientRequest::Release { resource } => seq![
                    Token::MapOf(1),
                    Token::Text("Release"@),
                    Token::MapOf(1),
                    Token::Text("resource"@),
                ] + tokens(wire::packed_resource(resource))->0,
                ClientRequest::Ack => seq![Token::Text("Ack"@)],
            },
        ),
{
    wire::names_fit();
    match request {
        ClientRequest::Acquire { resource } => {
            naming_reads("Acquire"@, resource);
        },
        ClientRequest::Release { resource } => {
            naming_reads("Release"@, resource);
        },
        ClientRequest::Ack => {
            let none = Seq::<u8>::empty();
            nothing_reads();
            text_is_followed("Ack"@, none);
            assert(wire::packed_text("Ack"@) + none =~= wire::packed_text("Ack"@));
            assert(tokens(wire::packed_text("Ack"@))->0 =~= seq![Token::Text("Ack"@)]);
        },
    }
}

/// Resources that stand one after the other read as each of them reads, in
/// their order.
pub proof fn resources_read_one_after_another(resources: Seq<Resource>)
    ensures
        tokens(wire::packed_resources(resources)) == Some(
            resources.map_values(
                |resource: Resource| tokens(wire::packed_resource(resource))->0,
            ).flatten(),
        ),
    decreases resources.len(),
{
    let each = |resource: Resource| tokens(wire::packed_resource(resource))->0;
    let parts = resources.map_values(each);
    if resources.len() > 0 {
        let earlier = resources.drop_last();
        let last = resources.last();
        resources_read_one_after_another(earlier);
        resource_alone_reads(last);
        reading_goes_on(wire::packed_resources(earlier), wire::packed_resource(last));
        assert(parts =~= earlier.map_values(each).push(each(last)));
        earlier.map_values(each).lemma_flatten_push(each(last));
    } else {
        nothing_reads();
        assert(wire::packed_resources(resources) =~= Seq::<u8>::empty());
        assert(parts.flatten() =~= Seq::<Token>::empty());
    }
}

proof fn reading_goes_on(first: Seq<u8>, second: Seq<u8>)
    requires
        tokens(first) is Some,
        tokens(second) is Some,
    ensures
        tokens(first + second) == Some(tokens(first)->0 + tokens(second)->0),
    decreases first.len(),
{
    reveal_with_fuel(tokens, 1);
    let both = first + second;
    if first.len() == 0 {
        assert(both =~= second);
        assert(tokens(first)->0 + tokens(second)->0 =~= tokens(second)->0);
    } else {
        let (token, end) = first_token(first)->0;
        token_keeps_its_place(first, second);
        assert(first_token(both) == Some((token, end)));
        reading_goes_on(first.skip(end), second);
        assert(both.skip(end) =~= first.skip(end) + second);
        assert(tokens(both)->0 =~= tokens(first)->0 + tokens(second)->0);
    }
}

proof fn token_keeps_its_place(first: Seq<u8>, second: Seq<u8>)
    requires
        first_token(first) is Some,
    ensures
        first_token(first + second) == first_token(first),
        0 < (first_token(first)->0).1 <= first.len(),
{
    reveal(first_token);
    let both = first + second;
    if first.len() >= 2 {
        assert(both.subrange(1, 2) =~= first.subrange(1, 2));
    }
    if first.len() >= 3 {
        assert(both.subrange(1, 3) =~= first.subrange(1, 3));
    }
    if first.len() >= 5 {
        assert(both.subrange(1, 5) =~= first.subrange(1, 5));
    }
    assert forall|head: int, end: int| 0 <= head <= end <= first.len() implies
        #[trigger] both.subrange(head, end) == first.subrange(head, end) by {
        assert(both.subrange(head, end) =~= first.subrange(head, end));
    }
}

/// A message reads as what it says: a map from the name of what it is to a
/// map from the name of its one field to that field's value.
pub proof fn message_reads_as_said(message: ServerMessageView)
    requires
        match message {
            ServerMessageView::Advertise { available_resources } => available_resources.len()
                <= u32::MAX,
            ServerMessageView::Deny { reason } => vstd::utf8::encode_utf8(reason).len() <= u32::MAX,
            _ => true,
        },
    ensures
        tokens(wire::packed_message(message)) == Some(
            match message {
                ServerMessageView::Advertise { available_resources } => seq![
                    Token::MapOf(1),
                    Token::Text("Advertise"@),
                    Token::MapOf(1),
                    Token::Text("available_resources"@),
                    Token::ListOf(available_resources.len()),
                ] + available_resources.map_values(
                    |resource: Resource| tokens(wire::packed_resource(resource))->0,
                ).flatten(),
                ServerMessageView::Grant { resource } => seq![
                    Token::MapOf(1),
                    Token::Text("Grant"@),
                    Token::MapOf(1),
                    Token::Text("resource"@),
                ] + tokens(wire::packed_resource(resource))->0,
                ServerMessageView::Deny { reason } => seq![
                    Token::MapOf(1),
                    Token::Text("Deny"@),
                    Token::MapOf(1),
                    Token::Text("reason"@),
                    Token::Text(reason),
                ],
                ServerMessageView::Revoke { resource } => seq![
                    Token::MapOf(1),
                    Token::Text("Revoke"@),
                    Token::MapOf(1),
                    Token::Text("resource"@),
                ] + tokens(wire::packed_resource(resource))->0,
            },
        ),
{
    wire::names_fit();
    match message {
        ServerMessageView::Advertise { available_resources } => {
            advertisement_reads(available_resources);
        },
        ServerMessageView::Grant { resource } => {
            naming_reads("Grant"@, resource);
        },
        ServerMessageView::Deny { reason } => {
            denial_reads(reason);
        },
        ServerMessageView::Revoke { resource } => {
            naming_reads("Revoke"@, resource);
        },
    }
}

proof fn advertisement_reads(resources: Seq<Resource>)
    requires
        resources.len() <= u32::MAX,
    ensures
        tokens(
            wire::packed_message(
                ServerMessageView::Advertise { available_resources: resources },
            ),
        ) == Some(
            seq![
                Token::MapOf(1),
                Token::Text("Advertise"@),
                Token::MapOf(1),
                Token::Text("available_resources"@),
                Token::ListOf(resources.len()),
            ] + resources.map_values(
                |resource: Resource| tokens(wire::packed_resource(resource))->0,
            ).flatten(),
        ),
{
    wire::names_fit();
    let none = Seq::<u8>::empty();
    let packed = wire::packed_message(
        ServerMessageView::Advertise { available_resources: resources },
    );
    let listed = wire::packed_resources(resources);
    let head = wire::list_head(resources.len());
    let inner = wire::packed_entry("available_resources"@, head + listed);
    resources_read_one_after_another(resources);
    list_head_reads(resources.len(), listed);
    token_is_followed(head, Token::ListOf(resources.len()), listed);
    assert(head + listed + none =~= head + listed);
    entry_reads("available_resources"@, head + listed, none);
    assert(inner + none =~= inner);
    entry_reads("Advertise"@, inner, none);
    assert(packed + none =~= packed);
    assert(tokens(packed)->0 =~= seq![
        Token::MapOf(1),
        Token::Text("Advertise"@),
        Token::MapOf(1),
        Token::Text("available_resources"@),
        Token::ListOf(resources.len()),
    ] + tokens(listed)->0);
}

proof fn denial_reads(reason: Seq<char>)
    requires
        wire::text_fits(reason),
    ensures
        tokens(wire::packed_message(ServerMessageView::Deny { reason })) == Some(
            seq![
                Token::MapOf(1),
                Token::Text("Deny"@),
                Token::MapOf(1),
                Token::Text("reason"@),
                Token::Text(reason),
            ],
        ),
{
    wire::names_fit();
    let none = Seq::<u8>::empty();
    let packed = wire::packed_message(ServerMessageView::Deny { reason });
    let text = wire::packed_text(reason);
    let inner = wire::packed_entry("reason"@, text);
    nothing_reads();
    text_is_followed(reason, none);
    assert(text + none =~= text);
    entry_reads("reason"@, text, none);
    assert(inner + none =~= inner);
    entry_reads("Deny"@, inner, none);
    assert(packed + none =~= packed);
    assert(tokens(packed)->0 =~= seq![
        Token::MapOf(1),
        Token::Text("Deny"@),
        Token::MapOf(1),
        Token::Text("reason"@),
        Token::Text(reason),
    ]);
}

} // verus!
