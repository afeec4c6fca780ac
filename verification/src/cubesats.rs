//! A ground station that relays messages to small satellites through a
//! shared mailbox.

use vstd::prelude::*;

verus! {

/// A message for the satellite whose identifier is `to`.
#[derive(Debug)]
pub struct Message {
    pub to: u64,
    pub content: String,
}

/// The messages that wait for their satellites, oldest first.
#[derive(Debug)]
pub struct Mailbox {
    pub messages: Vec<Message>,
}

/// A satellite.
#[derive(Debug)]
pub struct CubeSat {
    pub id: u64,
}

/// The station on the ground.
#[derive(Debug)]
pub struct GroundStation;

/// The identifiers of the satellites that are in orbit.
pub open spec fn sat_ids() -> Seq<u64> {
    seq![1u64, 2u64, 3u64]
}

/// Whether the message at `i` is the oldest of `messages` that is addressed
/// to `id`.
pub open spec fn is_oldest_for(messages: Seq<Message>, id: u64, i: int) -> bool {
    &&& 0 <= i < messages.len()
    &&& messages[i].to == id
    &&& forall|j: int| 0 <= j < i ==> messages[j].to != id
}

/// Whether `delivered` and `after` are what a delivery to `id` makes of the
/// messages `before`: the oldest message for `id` leaves the mailbox and is
/// handed over, the others keep their order; where there is none for `id`,
/// nothing is handed over and nothing changes.
pub open spec fn delivers(
    before: Seq<Message>,
    id: u64,
    delivered: Option<Message>,
    after: Seq<Message>,
) -> bool {
    match delivered {
        Some(message) => exists|i: int|
            #![trigger before[i]]
            is_oldest_for(before, id, i) && message == before[i] && after == before.remove(i),
        None => after == before && forall|j: int| 0 <= j < before.len() ==> before[j].to != id,
    }
}

impl Mailbox {
    /// Puts `message` behind the messages that wait already.
    pub fn post(&mut self, message: Message)
        ensures
            final(self).messages@ == old(self).messages@.push(message),
    {
        self.messages.push(message)
    }

    /// Takes the oldest message for `recipient` out of the mailbox.
    pub fn deliver(&mut self, recipient: &CubeSat) -> (delivered: Option<Message>)
        ensures
            delivers(old(self).messages@, recipient.id, delivered, final(self).messages@),
    {
        let mut i: usize = 0;
        while i < self.messages.len()
            invariant
                self.messages@ == old(self).messages@,
                i <= self.messages@.len(),
                forall|j: int| 0 <= j < i ==> self.messages@[j].to != recipient.id,
            decreases self.messages@.len() - i,
        {
            if self.messages[i].to == recipient.id {
                let message = self.messages.remove(i);
                assert(is_oldest_for(old(self).messages@, recipient.id, i as int));
                assert(message == old(self).messages@[i as int]);
                return Some(message);
            }
            i += 1;
        }
        None
    }
}

impl CubeSat {
    /// Receives the oldest message that waits for this satellite in
    /// `mailbox`.
    pub fn recv(&self, mailbox: &mut Mailbox) -> (received: Option<Message>)
        ensures
            delivers(old(mailbox).messages@, self.id, received, final(mailbox).messages@),
    {
        mailbox.deliver(self)
    }
}

impl GroundStation {
    /// The satellite with the identifier `sat_id`.
    pub fn connect(&self, sat_id: u64) -> (sat: CubeSat)
        ensures
            sat.id == sat_id,
    {
        CubeSat { id: sat_id }
    }

    /// Leaves `msg` in `mailbox` for its satellite.
    pub fn send(&self, mailbox: &mut Mailbox, msg: Message)
        ensures
            final(mailbox).messages@ == old(mailbox).messages@.push(msg),
    {
        mailbox.post(msg);
    }
}

/// Returns the identifiers of the satellites that are in orbit.
pub fn fetch_sat_ids() -> (ids: Vec<u64>)
    ensures
        ids@ == sat_ids(),
{
    let mut ids: Vec<u64> = Vec::new();
    ids.push(1);
    ids.push(2);
    ids.push(3);
    ids
}

} // verus!
