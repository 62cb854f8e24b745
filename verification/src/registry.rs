//! The client registry: the peers that are served at present. Control messages put peers in and
//! take them out; a delivery sweep takes out the peers that it could not reach.

use crate::comm::Actions;
use vstd::prelude::*;

verus! {

/// The network address of a peer, as plain numbers: an IPv6 address (an IPv4 address in its
/// IPv6-mapped form) and a port.
#[derive(Clone, Copy, Debug, PartialEq, Eq, Structural)]
pub struct Peer {
    pub host: u128,
    pub port: u16,
}

/// The clients without this peer.
pub open spec fn without(clients: Seq<Peer>, peer: Peer) -> Seq<Peer> {
    if clients.contains(peer) {
        clients.remove(clients.index_of(peer))
    } else {
        clients
    }
}

/// The clients with this peer: one that is there is not added again.
pub open spec fn with(clients: Seq<Peer>, peer: Peer) -> Seq<Peer> {
    if clients.contains(peer) {
        clients
    } else {
        clients.push(peer)
    }
}

/// What a control message from a peer does to the clients: `NewConnection` puts the peer in,
/// `Disconnection` takes it out, and every other message leaves them as they are.
pub open spec fn control_spec(clients: Seq<Peer>, action: Actions, from: Peer) -> Seq<Peer> {
    match action {
        Actions::NewConnection => with(clients, from),
        Actions::Disconnection => without(clients, from),
        _ => clients,
    }
}

/// The peers that are served at present, each once.
pub struct ClientRegistry {
    clients: Vec<Peer>,
}

impl View for ClientRegistry {
    type V = Seq<Peer>;

    /// The clients in the order in which they came.
    closed spec fn view(&self) -> Seq<Peer> {
        self.clients@
    }
}

impl ClientRegistry {
    /// The registry's invariant: no peer is in it twice.
    pub open spec fn wf(&self) -> bool {
        self@.no_duplicates()
    }

    /// A registry without clients.
    pub fn new() -> (registry: ClientRegistry)
        ensures
            registry.wf(),
            registry@ == Seq::<Peer>::empty(),
    {
        ClientRegistry { clients: Vec::new() }
    }

    /// The number of clients.
    pub fn len(&self) -> (count: usize)
        ensures
            count == self@.len(),
    {
        self.clients.len()
    }

    /// Whether there is no client.
    pub fn is_empty(&self) -> (empty: bool)
        ensures
            empty == (self@.len() == 0),
    {
        self.clients.len() == 0
    }

    /// Where the peer stands among the clients, if it is one.
    fn position(&self, peer: Peer) -> (place: Option<usize>)
        ensures
            match place {
                Some(at) => at < self@.len() && self@[at as int] == peer,
                None => !self@.contains(peer),
            },
    {
        let mut at: usize = 0;
        while at < self.clients.len()
            invariant
                0 <= at <= self.clients@.len(),
                forall|i: int| 0 <= i < at ==> self.clients@[i] != peer,
            decreases self.clients@.len() - at,
        {
            if self.clients[at] == peer {
                return Some(at);
            }
            at += 1;
        }
        None
    }

    /// Whether the peer is a client.
    pub fn contains(&self, peer: Peer) -> (found: bool)
        ensures
            found == self@.contains(peer),
    {
        self.position(peer).is_some()
    }

    /// The clients, in the order in which they came.
    pub fn clients(&self) -> (clients: Vec<Peer>)
        ensures
            clients@ == self@,
    {
        self.clients.clone()
    }

    /// Puts a peer among the clients, unless it is one already.
    pub fn add(&mut self, peer: Peer)
        requires
            old(self).wf(),
        ensures
            final(self).wf(),
            final(self)@ == with(old(self)@, peer),
    {
        if self.position(peer).is_none() {
            self.clients.push(peer);
            proof {
                lemma_with(old(self)@, peer);
            }
        }
    }

    /// Takes a peer out of the clients, if it is one.
    pub fn remove(&mut self, peer: Peer)
        requires
            old(self).wf(),
        ensures
            final(self).wf(),
            final(self)@ == without(old(self)@, peer),
    {
        match self.position(peer) {
            Some(at) => {
                proof {
                    lemma_without(old(self)@, peer);
                    let chosen = old(self)@.index_of(peer);
                    if chosen != at {
                        assert(old(self)@[chosen] == old(self)@[at as int]);
                    }
                }
                self.clients.remove(at);
            },
            None => {},
        }
    }

    /// Applies a control message that came from a peer: `NewConnection` puts the peer among
    /// the clients, `Disconnection` takes it out, any other message changes nothing.
    pub fn apply(&mut self, action: Actions, from: Peer)
        requires
            old(self).wf(),
        ensures
            final(self).wf(),
            final(self)@ == control_spec(old(self)@, action, from),
    {
        match action {
            Actions::NewConnection => self.add(from),
            Actions::Disconnection => self.remove(from),
            _ => {},
        }
    }

    /// Reads a control byte that came from a peer and applies it. Hands back the message that
    /// the byte stands for; a byte that names no message changes nothing.
    pub fn on_control(&mut self, byte: u8, from: Peer) -> (action: Actions)
        requires
            old(self).wf(),
        ensures
            final(self).wf(),
            action == Actions::decode(byte),
            final(self)@ == control_spec(old(self)@, Actions::decode(byte), from),
    {
        let action = Actions::from(byte);
        self.apply(action, from);
        action
    }
}

/// Putting a peer among clients without duplicates leaves them without duplicates, with the
/// peer among them and every earlier client still there.
pub proof fn lemma_with(clients: Seq<Peer>, peer: Peer)
    requires
        clients.no_duplicates(),
    ensures
        with(clients, peer).no_duplicates(),
        with(clients, peer).contains(peer),
        forall|other: Peer| with(clients, peer).contains(other) <==> other == peer || clients.contains(other),
{
    let after = with(clients, peer);
    if !clients.contains(peer) {
        assert(after[after.len() - 1] == peer);
        assert forall|other: Peer| after.contains(other) <==> other == peer || clients.contains(
            other,
        ) by {
            if clients.contains(other) {
                let i = clients.index_of(other);
                assert(after[i] == other);
            }
        }
    }
}

/// Taking a peer out of clients without duplicates leaves them without duplicates and without
/// the peer, and every other client still there.
pub proof fn lemma_without(clients: Seq<Peer>, peer: Peer)
    requires
        clients.no_duplicates(),
    ensures
        without(clients, peer).no_duplicates(),
        !without(clients, peer).contains(peer),
        forall|other: Peer| without(clients, peer).contains(other) <==> other != peer && clients.contains(other),
{
    let after = without(clients, peer);
    if clients.contains(peer) {
        let at = clients.index_of(peer);
        assert forall|i: int| 0 <= i < after.len() implies after[i] == clients[if i < at {
            i
        } else {
            i + 1
        }] by {}
        assert forall|other: Peer| after.contains(other) <==> other != peer && clients.contains(
            other,
        ) by {
            if after.contains(other) {
                let i = after.index_of(other);
                let j = if i < at { i } else { i + 1 };
                assert(clients[j] == other);
            }
            if other != peer && clients.contains(other) {
                let j = clients.index_of(other);
                let i = if j < at { j } else { j - 1 };
                assert(after[i] == other);
            }
        }
    }
}

/// A peer that announces itself twice is one client, and a peer that has left is none: the
/// registry is a set.
pub proof fn lemma_control_idempotent(clients: Seq<Peer>, action: Actions, from: Peer)
    requires
        clients.no_duplicates(),
    ensures
        control_spec(clients, action, from).no_duplicates(),
        control_spec(control_spec(clients, action, from), action, from) == control_spec(
            clients,
            action,
            from,
        ),
{
    lemma_with(clients, from);
    lemma_without(clients, from);
}

} // verus!
