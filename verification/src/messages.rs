//! The chat data carried by request and response payloads: a chat
//! between two participants, and a timestamped message.

use vstd::prelude::*;

verus! {

/// A chat: its identifier and its two participants. The participant
/// order is the order given at creation.
#[derive(Clone, Copy, Debug)]
pub struct Chat {
    pub id: u64,
    pub participant_ids: [u64; 2],
}

/// One chat message. `id` and `message` are opaque payload text.
#[derive(Debug)]
pub struct Message {
    pub id: String,
    pub source_user_id: u64,
    pub destination_user_id: u64,
    pub timestamp: u64,
    pub message: String,
}

impl Clone for Message {
    fn clone(&self) -> (r: Self)
        ensures
            r == *self,
    {
        Message {
            id: self.id.clone(),
            source_user_id: self.source_user_id,
            destination_user_id: self.destination_user_id,
            timestamp: self.timestamp,
            message: self.message.clone(),
        }
    }
}

impl Message {
    /// Stamps the message with the current wall-clock time; every other
    /// field is kept.
    pub fn update_timestamp(&mut self)
        ensures
            final(self).id == old(self).id,
            final(self).source_user_id == old(self).source_user_id,
            final(self).destination_user_id == old(self).destination_user_id,
            final(self).message == old(self).message,
    {
        self.timestamp = crate::chat_service::timestamp();
    }
}

} // verus!
