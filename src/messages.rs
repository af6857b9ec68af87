//! The two messages exchanged with clients, and their encoding.
use vstd::prelude::*;

use crate::bytes::{occurs_at, push_u32, read_u32, u32_le};
use crate::codec::{
    lemma_inputs_unique, lemma_planets_unique, lemma_ships_unique, push_inputs, push_planets,
    push_ships, read_inputs, read_planets, read_ships,
};
use crate::model::{NavMode, State, StateView};
use crate::wire::{inputs_wire, lemma_occurs_concat, navmode_wire, planets_wire, ships_wire, state_wire};

verus! {

/// A message from a client to the server.
#[derive(Clone, Copy, Debug, PartialEq, Eq, Structural)]
pub enum FromClientMessage {
    /// Replaces the navigation mode.
    NavMode(NavMode),
    /// Replaces the throttle, given as the bits of a binary32.
    Throttle(u32),
}

/// A message from the server to its clients.
#[derive(Clone, Debug)]
pub enum FromServerMessage {
    /// The current world and inputs.
    Update(State),
}

/// What a [`FromServerMessage`] holds.
pub ghost enum ServerMessageView {
    Update(StateView),
}

impl View for FromServerMessage {
    type V = ServerMessageView;

    open spec fn view(&self) -> ServerMessageView {
        match self {
            FromServerMessage::Update(s) => ServerMessageView::Update(s@),
        }
    }
}

/// The bytes of a client message: the variant's index, then its field.
pub open spec fn client_message_wire(m: FromClientMessage) -> Seq<u8> {
    match m {
        FromClientMessage::NavMode(n) => u32_le(0) + navmode_wire(n),
        FromClientMessage::Throttle(t) => u32_le(1) + u32_le(t),
    }
}

/// The bytes of a server message: the variant's index, then its field.
pub open spec fn server_message_wire(m: ServerMessageView) -> Seq<u8> {
    match m {
        ServerMessageView::Update(s) => u32_le(0) + state_wire(s),
    }
}

proof fn lemma_prefix_is_occurrence(w: Seq<u8>, b: Seq<u8>)
    ensures
        w.is_prefix_of(b) <==> occurs_at(w, b, 0),
{
    if occurs_at(w, b, 0) {
        assert(w =~= b.subrange(0, w.len() as int));
    }
}

/// Appends the encoding of a client message.
pub fn push_client_message(out: &mut Vec<u8>, m: &FromClientMessage)
    ensures
        final(out)@ == old(out)@ + client_message_wire(*m),
{
    match m {
        FromClientMessage::NavMode(n) => {
            push_u32(out, 0);
            match n {
                NavMode::MAN => push_u32(out, 0),
            }
        },
        FromClientMessage::Throttle(t) => {
            push_u32(out, 1);
            push_u32(out, *t);
        },
    }
    assert(final(out)@ =~= old(out)@ + client_message_wire(*m));
}

/// Appends the encoding of a server message.
pub fn push_server_message(out: &mut Vec<u8>, m: &FromServerMessage)
    ensures
        final(out)@ == old(out)@ + server_message_wire(m@),
{
    match m {
        FromServerMessage::Update(s) => {
            push_u32(out, 0);
            push_ships(out, &s.ships);
            push_planets(out, &s.planets);
            push_inputs(out, &s.inputs);
        },
    }
    assert(final(out)@ =~= old(out)@ + server_message_wire(m@));
}

/// The encoding of a client message.
pub fn encode_client_message(m: &FromClientMessage) -> (r: Vec<u8>)
    ensures
        r@ == client_message_wire(*m),
{
    let mut r: Vec<u8> = Vec::new();
    push_client_message(&mut r, m);
    assert(r@ =~= client_message_wire(*m));
    r
}

/// The encoding of a server message.
pub fn encode_server_message(m: &FromServerMessage) -> (r: Vec<u8>)
    ensures
        r@ == server_message_wire(m@),
{
    let mut r: Vec<u8> = Vec::new();
    push_server_message(&mut r, m);
    assert(r@ =~= server_message_wire(m@));
    r
}

/// Decodes the client message that `b` starts with; bytes after it are ignored.
/// `None` when `b` starts with the encoding of no client message.
pub fn decode_client_message(b: &[u8]) -> (r: Option<FromClientMessage>)
    ensures
        forall|m: FromClientMessage| client_message_wire(m).is_prefix_of(b@) <==> r == Some(m),
{
    if b.len() < 8 {
        proof {
            assert forall|m: FromClientMessage| !client_message_wire(m).is_prefix_of(b@) by {}
        }
        return None;
    }
    let tag = read_u32(b, 0);
    let field = read_u32(b, 4);
    let r = if tag == 0 && field == 0 {
        Some(FromClientMessage::NavMode(NavMode::MAN))
    } else if tag == 1 {
        Some(FromClientMessage::Throttle(field))
    } else {
        None
    };
    proof {
        assert forall|m: FromClientMessage| client_message_wire(m).is_prefix_of(b@) <==> r == Some(
            m,
        ) by {
            lemma_prefix_is_occurrence(client_message_wire(m), b@);
            match m {
                FromClientMessage::NavMode(n) => {
                    lemma_occurs_concat(u32_le(0), navmode_wire(n), b@, 0);
                },
                FromClientMessage::Throttle(t) => {
                    lemma_occurs_concat(u32_le(1), u32_le(t), b@, 0);
                },
            }
        }
    }
    r
}

/// Decodes the server message that `b` starts with; bytes after it are ignored.
/// `None` when `b` starts with the encoding of no server message.
pub fn decode_server_message(b: &[u8]) -> (r: Option<FromServerMessage>)
    ensures
        forall|v: ServerMessageView|
            server_message_wire(v).is_prefix_of(b@) <==> (r matches Some(m) && m@ == v),
{
    if b.len() < 4 {
        proof {
            assert forall|v: ServerMessageView| !server_message_wire(v).is_prefix_of(b@) by {}
        }
        return None;
    }
    let tag = read_u32(b, 0);
    if tag != 0 {
        proof {
            assert forall|v: ServerMessageView| !server_message_wire(v).is_prefix_of(b@) by {
                lemma_server_layout(v, b@);
            }
        }
        return None;
    }
    let ships_read = read_ships(b, 4);
    let (ships, p1) = match ships_read {
        Some(x) => x,
        None => {
            proof {
                assert forall|v: ServerMessageView| !server_message_wire(v).is_prefix_of(b@) by {
                    lemma_server_layout(v, b@);
                }
            }
            return None;
        },
    };
    let planets_read = read_planets(b, p1);
    let (planets, p2) = match planets_read {
        Some(x) => x,
        None => {
            proof {
                assert forall|v: ServerMessageView| !server_message_wire(v).is_prefix_of(b@) by {
                    lemma_server_layout(v, b@);
                }
            }
            return None;
        },
    };
    if b.len() - p2 < 8 {
        proof {
            assert forall|v: ServerMessageView| !server_message_wire(v).is_prefix_of(b@) by {
                lemma_server_layout(v, b@);
            }
        }
        return None;
    }
    let inputs = match read_inputs(b, p2) {
        Some(x) => x,
        None => {
            proof {
                assert forall|v: ServerMessageView| !server_message_wire(v).is_prefix_of(b@) by {
                    lemma_server_layout(v, b@);
                }
            }
            return None;
        },
    };
    let r = FromServerMessage::Update(State { ships, planets, inputs });
    proof {
        assert forall|v: ServerMessageView|
            server_message_wire(v).is_prefix_of(b@) <==> r@ == v by {
            lemma_server_layout(v, b@);
            let ServerMessageView::Update(s) = v;
            assert(occurs_at(ships_wire(ships@), b@, 4));
            assert(occurs_at(planets_wire(planets@), b@, p1 as int));
            assert(occurs_at(inputs_wire(inputs), b@, p2 as int));
            if occurs_at(ships_wire(s.ships), b@, 4) {
                assert(s.ships == ships@);
                if occurs_at(planets_wire(s.planets), b@, p1 as int) {
                    assert(s.planets == planets@);
                }
            }
        }
    }
    Some(r)
}

/// A server message occurs at the start of `b` exactly where its parts occur
/// one after the other.
proof fn lemma_server_layout(v: ServerMessageView, b: Seq<u8>)
    ensures
        match v {
            ServerMessageView::Update(s) => {
                &&& server_message_wire(v).is_prefix_of(b) <==> {
                    &&& occurs_at(u32_le(0), b, 0)
                    &&& occurs_at(ships_wire(s.ships), b, 4)
                    &&& occurs_at(planets_wire(s.planets), b, 4 + ships_wire(s.ships).len() as int)
                    &&& occurs_at(
                        inputs_wire(s.inputs),
                        b,
                        4 + ships_wire(s.ships).len() as int + planets_wire(s.planets).len() as int,
                    )
                }
                &&& inputs_wire(s.inputs).len() == 8
            },
        },
{
    lemma_prefix_is_occurrence(server_message_wire(v), b);
    match v {
        ServerMessageView::Update(s) => {
            lemma_occurs_concat(u32_le(0), state_wire(s), b, 0);
            lemma_occurs_concat(
                ships_wire(s.ships) + planets_wire(s.planets),
                inputs_wire(s.inputs),
                b,
                4,
            );
            lemma_occurs_concat(ships_wire(s.ships), planets_wire(s.planets), b, 4);
        },
    }
}

/// A client message is read back from its encoding, whatever follows it: the
/// encoding starts the bytes, and no other client message's encoding does.
pub proof fn lemma_client_message_round_trip(
    m: FromClientMessage,
    rest: Seq<u8>,
    other: FromClientMessage,
)
    ensures
        client_message_wire(m).is_prefix_of(client_message_wire(m) + rest),
        client_message_wire(other).is_prefix_of(client_message_wire(m) + rest) ==> other == m,
{
    let b = client_message_wire(m) + rest;
    lemma_prefix_is_occurrence(client_message_wire(m), b);
    lemma_prefix_is_occurrence(client_message_wire(other), b);
    assert(b.subrange(0, client_message_wire(m).len() as int) =~= client_message_wire(m));
    if occurs_at(client_message_wire(other), b, 0) {
        let tag = |x: FromClientMessage|
            match x {
                FromClientMessage::NavMode(_) => 0u32,
                FromClientMessage::Throttle(_) => 1u32,
            };
        let field = |x: FromClientMessage|
            match x {
                FromClientMessage::NavMode(NavMode::MAN) => 0u32,
                FromClientMessage::Throttle(t) => t,
            };
        assert forall|x: FromClientMessage| #[trigger] client_message_wire(x) == u32_le(tag(x)) + u32_le(field(x)) by {}
        lemma_occurs_concat(u32_le(tag(m)), u32_le(field(m)), b, 0);
        lemma_occurs_concat(u32_le(tag(other)), u32_le(field(other)), b, 0);
        crate::bytes::lemma_u32_le_inverse(tag(m));
        crate::bytes::lemma_u32_le_inverse(tag(other));
        crate::bytes::lemma_u32_le_inverse(field(m));
        crate::bytes::lemma_u32_le_inverse(field(other));
        assert(b.subrange(0, 4) == u32_le(tag(m)));
        assert(b.subrange(0, 4) == u32_le(tag(other)));
        assert(b.subrange(4, 8) == u32_le(field(m)));
        assert(b.subrange(4, 8) == u32_le(field(other)));
    }
}

/// A server message whose sequences a `Vec` can hold is read back from its
/// encoding, whatever follows it: the encoding starts the bytes, and no other
/// such message's encoding does.
pub proof fn lemma_server_message_round_trip(
    v: ServerMessageView,
    rest: Seq<u8>,
    other: ServerMessageView,
)
    requires
        v->Update_0.fits(),
        other->Update_0.fits(),
    ensures
        server_message_wire(v).is_prefix_of(server_message_wire(v) + rest),
        server_message_wire(other).is_prefix_of(server_message_wire(v) + rest) ==> other == v,
{
    let b = server_message_wire(v) + rest;
    assert(b.subrange(0, server_message_wire(v).len() as int) =~= server_message_wire(v));
    lemma_server_layout(v, b);
    lemma_server_layout(other, b);
    if server_message_wire(other).is_prefix_of(b) {
        let (ServerMessageView::Update(s), ServerMessageView::Update(t)) = (v, other);
        lemma_ships_unique(s.ships, t.ships, b, 4);
        lemma_planets_unique(s.planets, t.planets, b, 4 + ships_wire(s.ships).len() as int);
        lemma_inputs_unique(
            s.inputs,
            t.inputs,
            b,
            4 + ships_wire(s.ships).len() as int + planets_wire(s.planets).len() as int,
        );
    }
}

/// Encodes server messages into a buffer that it reuses from one message to
/// the next, and decodes client messages.
pub struct BincodeEncoder {
    output_buffer: Vec<u8>,
}

impl BincodeEncoder {
    /// The bytes of the last message encoded.
    pub closed spec fn buffer(&self) -> Seq<u8> {
        self.output_buffer@
    }

    pub fn new() -> (r: BincodeEncoder)
        ensures
            r.buffer().len() == 0,
    {
        BincodeEncoder { output_buffer: Vec::new() }
    }

    /// Encodes `message`, replacing what the buffer held.
    pub fn encode(&mut self, message: &FromServerMessage) -> (r: &[u8])
        ensures
            r@ == server_message_wire(message@),
            final(self).buffer() == server_message_wire(message@),
    {
        self.output_buffer.clear();
        push_server_message(&mut self.output_buffer, message);
        assert(self.output_buffer@ =~= server_message_wire(message@));
        self.output_buffer.as_slice()
    }

    /// Decodes the client message that `message_bin` starts with.
    pub fn decode(message_bin: &[u8]) -> (r: Option<FromClientMessage>)
        ensures
            forall|m: FromClientMessage|
                client_message_wire(m).is_prefix_of(message_bin@) <==> r == Some(m),
    {
        decode_client_message(message_bin)
    }
}

} // verus!
