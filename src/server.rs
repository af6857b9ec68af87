//! The decisions of the broadcast and command server: which connections are
//! subscribed, what a tick sends them, and how a client message changes the
//! inputs. The transport itself, the timer and the locks belong to the caller.
use vstd::prelude::*;

use crate::messages::{
    client_message_wire, decode_client_message, server_message_wire, BincodeEncoder,
    FromClientMessage, FromServerMessage, ServerMessageView,
};
use crate::model::{Inputs, State};

verus! {

/// Where the server listens.
#[derive(Clone, Debug)]
pub struct Config {
    pub network_interface: String,
    pub network_port: u16,
}

/// No connection id occurs twice.
pub open spec fn keys_unique<E>(s: Seq<(u64, E)>) -> bool {
    forall|i: int, j: int| 0 <= i < j < s.len() ==> s[i].0 != s[j].0
}

pub open spec fn has_key<E>(s: Seq<(u64, E)>, id: u64) -> bool {
    exists|i: int| 0 <= i < s.len() && s[i].0 == id
}

pub open spec fn index_of_key<E>(s: Seq<(u64, E)>, id: u64) -> int {
    choose|i: int| 0 <= i < s.len() && s[i].0 == id
}

/// The subscribers after connection `id` is accepted: it is added unless it is
/// already there.
pub open spec fn accepted<E>(s: Seq<(u64, E)>, id: u64, endpoint: E) -> Seq<(u64, E)> {
    if has_key(s, id) {
        s
    } else {
        s.push((id, endpoint))
    }
}

/// The subscribers after connection `id` is lost: it is removed, the others
/// keep their order.
pub open spec fn disconnected<E>(s: Seq<(u64, E)>, id: u64) -> Seq<(u64, E)> {
    if has_key(s, id) {
        s.remove(index_of_key(s, id))
    } else {
        s
    }
}

/// The endpoints of the subscribers.
pub open spec fn endpoints<E>(s: Seq<(u64, E)>) -> Seq<E> {
    s.map_values(|p: (u64, E)| p.1)
}

/// The inputs after a client message is applied: the field it names is
/// replaced, the other kept.
pub open spec fn applied(i: Inputs, m: FromClientMessage) -> Inputs {
    match m {
        FromClientMessage::NavMode(n) => Inputs { navmode: n, ..i },
        FromClientMessage::Throttle(t) => Inputs { throttle: t, ..i },
    }
}

/// Two new connections are accepted and the first is then lost: the second
/// stays subscribed, the first is gone, and a broadcast reaches the earlier
/// subscribers and the second connection's endpoint, nothing else.
pub proof fn lemma_accept_accept_disconnect<E>(
    s: Seq<(u64, E)>,
    a: u64,
    ea: E,
    b: u64,
    eb: E,
)
    requires
        keys_unique(s),
        !has_key(s, a),
        !has_key(s, b),
        a != b,
    ensures
        ({
            let t = disconnected(accepted(accepted(s, a, ea), b, eb), a);
            &&& keys_unique(t)
            &&& has_key(t, b)
            &&& !has_key(t, a)
            &&& endpoints(t) == endpoints(s).push(eb)
        }),
{
    let s1 = accepted(s, a, ea);
    assert(s1 == s.push((a, ea)));
    assert(!has_key(s1, b)) by {
        if has_key(s1, b) {
            let i = choose|i: int| 0 <= i < s1.len() && s1[i].0 == b;
            if i < s.len() {
                assert(s[i].0 == b);
            }
        }
    }
    let s2 = accepted(s1, b, eb);
    assert(s2 == s1.push((b, eb)));
    assert(s2[s.len() as int].0 == a);
    assert(has_key(s2, a));
    let k = index_of_key(s2, a);
    assert(k == s.len()) by {
        if k < s.len() {
            assert(s[k].0 == a);
        }
    }
    let t = disconnected(s2, a);
    assert(t =~= s.push((b, eb)));
    assert(t[s.len() as int].0 == b);
    assert(!has_key(t, a)) by {
        if has_key(t, a) {
            let i = choose|i: int| 0 <= i < t.len() && t[i].0 == a;
            if i < s.len() {
                assert(s[i].0 == a);
            }
        }
    }
    assert(endpoints(t) =~= endpoints(s).push(eb));
}

/// The server's subscriber set, keyed by connection id, with the endpoint to
/// send to, and the encoder of its broadcasts.
pub struct Server<E> {
    encoder: BincodeEncoder,
    subscriptions: Vec<(u64, E)>,
}

impl<E: Copy> Server<E> {
    /// The subscribers, in the order they were accepted.
    pub closed spec fn subscribers(&self) -> Seq<(u64, E)> {
        self.subscriptions@
    }

    pub open spec fn wf(&self) -> bool {
        keys_unique(self.subscribers())
    }

    pub fn new() -> (r: Server<E>)
        ensures
            r.wf(),
            r.subscribers() == Seq::<(u64, E)>::empty(),
    {
        Server { encoder: BincodeEncoder::new(), subscriptions: Vec::new() }
    }

    fn find(&self, id: u64) -> (r: Option<usize>)
        ensures
            match r {
                Some(i) => i < self.subscribers().len() && self.subscribers()[i as int].0 == id,
                None => !has_key(self.subscribers(), id),
            },
    {
        let mut i: usize = 0;
        while i < self.subscriptions.len()
            invariant
                i <= self.subscriptions@.len(),
                forall|j: int| 0 <= j < i ==> self.subscriptions@[j].0 != id,
            decreases self.subscriptions@.len() - i,
        {
            if self.subscriptions[i].0 == id {
                return Some(i);
            }
            i += 1;
        }
        None
    }

    /// Whether connection `id` is subscribed.
    pub fn is_subscribed(&self, id: u64) -> (r: bool)
        ensures
            r == has_key(self.subscribers(), id),
    {
        self.find(id).is_some()
    }

    /// A connection was accepted: it subscribes.
    pub fn accept(&mut self, id: u64, endpoint: E)
        requires
            old(self).wf(),
        ensures
            final(self).wf(),
            final(self).subscribers() == accepted(old(self).subscribers(), id, endpoint),
    {
        if self.find(id).is_none() {
            self.subscriptions.push((id, endpoint));
        }
    }

    /// A connection was lost: it no longer subscribes.
    pub fn disconnect(&mut self, id: u64)
        requires
            old(self).wf(),
        ensures
            final(self).wf(),
            final(self).subscribers() == disconnected(old(self).subscribers(), id),
    {
        match self.find(id) {
            Some(i) => {
                let ghost s = self.subscriptions@;
                proof {
                    let k = index_of_key(s, id);
                    assert(0 <= k < s.len() && s[k].0 == id);
                    assert(k == i);
                }
                self.subscriptions.remove(i);
            },
            None => {},
        }
    }

    /// The endpoints that a broadcast goes to: every subscriber's, once.
    pub fn targets(&self) -> (r: Vec<E>)
        ensures
            r@ == endpoints(self.subscribers()),
    {
        let mut r: Vec<E> = Vec::new();
        let mut i: usize = 0;
        while i < self.subscriptions.len()
            invariant
                i <= self.subscriptions@.len(),
                r@ == endpoints(self.subscriptions@.subrange(0, i as int)),
            decreases self.subscriptions@.len() - i,
        {
            r.push(self.subscriptions[i].1);
            i += 1;
            assert(r@ =~= endpoints(self.subscriptions@.subrange(0, i as int)));
        }
        assert(self.subscriptions@.subrange(0, i as int) =~= self.subscriptions@);
        r
    }

    /// Encodes the update that a tick sends, once for all subscribers.
    pub fn encode_update(&mut self, state: State) -> (r: &[u8])
        ensures
            r@ == server_message_wire(ServerMessageView::Update(state@)),
            final(self).subscribers() == old(self).subscribers(),
    {
        let message = FromServerMessage::Update(state);
        self.encoder.encode(&message)
    }

    /// A client sent `data`. When it starts with a client message, the message
    /// is applied to the inputs and `true` returned; otherwise nothing changes.
    /// The subscribers are left as they are either way.
    pub fn on_message(&self, inputs: &mut Inputs, data: &[u8]) -> (r: bool)
        ensures
            forall|m: FromClientMessage|
                client_message_wire(m).is_prefix_of(data@) ==> r && *final(inputs) == applied(
                    *old(inputs),
                    m,
                ),
            !r <==> forall|m: FromClientMessage| !client_message_wire(m).is_prefix_of(data@),
            !r ==> *final(inputs) == *old(inputs),
    {
        match decode_client_message(data) {
            Some(m) => {
                assert(client_message_wire(m).is_prefix_of(data@));
                match m {
                    FromClientMessage::NavMode(n) => inputs.navmode = n,
                    FromClientMessage::Throttle(t) => inputs.throttle = t,
                }
                true
            },
            None => false,
        }
    }
}

} // verus!
