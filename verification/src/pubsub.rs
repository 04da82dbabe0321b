//! The publish/subscribe registry.
//!
//! A channel name maps to the sending half of a broadcast queue. A
//! subscriber takes a receiving half; a publisher hands the message to
//! every live receiver and never blocks — a receiver that lags more than
//! the backlog loses the oldest messages instead.

use crate::bytes_util::bytes_eq;
use tokio::sync::broadcast;
use vstd::prelude::*;

verus! {

/// How many undelivered messages a channel keeps for its slowest
/// subscriber before the oldest are dropped.
pub const BACKLOG: usize = 1024;

#[verifier::external_type_specification]
#[verifier::external_body]
#[verifier::reject_recursive_types(T)]
pub struct ExSender<T>(broadcast::Sender<T>);

#[verifier::external_type_specification]
#[verifier::external_body]
#[verifier::reject_recursive_types(T)]
pub struct ExReceiver<T>(broadcast::Receiver<T>);

/// Relies on tokio's `broadcast::channel`: a fan-out queue of at least
/// `cap` slots, handed back as its send and receive halves. It panics
/// only on a capacity of zero or above `usize::MAX / 2`, which the
/// precondition rules out.
#[verifier::external_body]
fn new_channel(cap: usize) -> (r: (broadcast::Sender<Vec<u8>>, broadcast::Receiver<Vec<u8>>))
    requires
        1 <= cap <= usize::MAX / 2,
{
    broadcast::channel(cap)
}

/// Relies on tokio's `Sender::subscribe`: a fresh receiver that sees
/// what is sent from this call on.
#[verifier::external_body]
fn sender_subscribe(tx: &broadcast::Sender<Vec<u8>>) -> (r: broadcast::Receiver<Vec<u8>>) {
    tx.subscribe()
}

/// Relies on tokio's `Sender::send`: the message is queued for every
/// live receiver and the call never blocks. The count of live receivers
/// comes back when there is at least one; nothing when there is none.
#[verifier::external_body]
fn sender_send(tx: &broadcast::Sender<Vec<u8>>, value: Vec<u8>) -> (r: Option<usize>)
    ensures
        r matches Some(n) ==> n >= 1,
{
    match tx.send(value) {
        Ok(n) => Some(n),
        Err(_) => None,
    }
}

/// The channel registry: one broadcast sender per channel name, made
/// lazily on first subscribe.
pub struct PubSub {
    channels: Vec<(Vec<u8>, broadcast::Sender<Vec<u8>>)>,
}

impl PubSub {
    /// The names of the channels that exist, in creation order.
    pub closed spec fn names(self) -> Seq<Seq<u8>> {
        self.channels@.map_values(|c: (Vec<u8>, broadcast::Sender<Vec<u8>>)| c.0@)
    }

    /// True when a channel of this name exists.
    pub open spec fn has_channel(self, name: Seq<u8>) -> bool {
        self.names().contains(name)
    }

    /// Each name maps to one channel.
    pub closed spec fn inv(self) -> bool {
        forall|i: int, j: int|
            0 <= i < j < self.channels@.len() ==> (#[trigger] self.channels@[i]).0@ != (
            #[trigger] self.channels@[j]).0@
    }

    /// An empty registry.
    pub fn new() -> (r: PubSub)
        ensures
            r.inv(),
            r.names().len() == 0,
    {
        PubSub { channels: Vec::new() }
    }

    /// The position of the channel called `name`, if it exists.
    fn find(&self, name: &[u8]) -> (r: Option<usize>)
        ensures
            match r {
                Some(i) => i < self.channels@.len() && self.channels@[i as int].0@
                    == name@,
                None => forall|i: int|
                    0 <= i < self.channels@.len() ==> (#[trigger] self.channels@[i]).0@
                        != name@,
            },
    {
        let mut i: usize = 0;
        while i < self.channels.len()
            invariant
                0 <= i <= self.channels@.len(),
                forall|j: int| 0 <= j < i ==> (#[trigger] self.channels@[j]).0@ != name@,
            decreases self.channels@.len() - i,
        {
            if bytes_eq(self.channels[i].0.as_slice(), name) {
                return Some(i);
            }
            i = i + 1;
        }
        None
    }

    /// A receiver bound to the channel called `name`, creating the
    /// channel on first use. Messages published before this call are not
    /// seen by the returned receiver.
    pub fn subscribe(&mut self, name: Vec<u8>) -> (r: broadcast::Receiver<Vec<u8>>)
        requires
            old(self).inv(),
        ensures
            final(self).inv(),
            final(self).has_channel(name@),
            forall|c: Seq<u8>|
                final(self).has_channel(c) <==> old(self).has_channel(c) || c == name@,
    {
        let ghost nv = name@;
        match self.find(name.as_slice()) {
            Some(i) => {
                let rx = sender_subscribe(&self.channels[i].1);
                proof {
                    assert(self.names()[i as int] == nv);
                    assert(self.has_channel(nv));
                }
                rx
            },
            None => {
                let (tx, rx) = new_channel(BACKLOG);
                let ghost prev = self.channels@;
                self.channels.push((name, tx));
                proof {
                    let cur = self.channels@;
                    assert(cur[cur.len() - 1].0@ == nv);
                    assert(forall|j: int| 0 <= j < prev.len() ==> cur[j] == prev[j]);
                    assert(self.names()[cur.len() - 1] == nv);
                    assert(self.has_channel(nv));
                    assert forall|c: Seq<u8>|
                        old(self).has_channel(c) implies self.has_channel(c) by {
                        let j = choose|j: int|
                            0 <= j < old(self).names().len() && old(self).names()[j]
                                == c;
                        assert(self.names()[j] == c);
                    }
                    assert forall|c: Seq<u8>|
                        self.has_channel(c) implies old(self).has_channel(c) || c
                        == nv by {
                        let j = choose|j: int|
                            0 <= j < self.names().len() && self.names()[j] == c;
                        if j < prev.len() {
                            assert(old(self).names()[j] == c);
                        }
                    }
                }
                rx
            },
        }
    }

    /// Publishes `value` on the channel called `name`: every live
    /// subscriber's queue takes it, and their count comes back. Zero
    /// when the channel does not exist or nobody subscribes to it; the
    /// registry itself never changes, and the call never blocks.
    pub fn publish(&self, name: &[u8], value: Vec<u8>) -> (r: usize)
        requires
            self.inv(),
        ensures
            !self.has_channel(name@) ==> r == 0,
            r >= 1 ==> self.has_channel(name@),
    {
        match self.find(name) {
            Some(i) => {
                proof {
                    assert(self.names()[i as int] == name@);
                }
                match sender_send(&self.channels[i].1, value) {
                    Some(n) => n,
                    None => 0,
                }
            },
            None => {
                proof {
                    assert forall|j: int|
                        0 <= j < self.names().len() implies self.names()[j] != name@ by {
                        assert(self.names()[j] == self.channels@[j].0@);
                    }
                }
                0
            },
        }
    }
}

} // verus!
