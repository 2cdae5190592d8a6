//! Messages as stored.

use vstd::prelude::*;

use crate::storage::contact::{operated, ContactChange, ContactOperation};
use crate::storage::{parse_error, parse_error_text, Data, Jid, Time};

verus! {

/// A stored message.
#[derive(Debug)]
pub struct MsgData {
    pub msg_id: String,
    pub content: String,
    /// The chat: group id, or the other party.
    pub source: String,
    /// The sender if in a group, else the same as `source`.
    pub sender: String,
    /// UNIX milliseconds.
    pub timestamp: Time,
    pub is_edited: bool,
    pub is_read: bool,
    pub from_me: bool,
    /// The id of the message this one replies to.
    pub replying_to: Option<String>,
}

impl Clone for MsgData {
    fn clone(&self) -> (r: Self)
        ensures
            r == *self,
    {
        MsgData {
            msg_id: self.msg_id.clone(),
            content: self.content.clone(),
            source: self.source.clone(),
            sender: self.sender.clone(),
            timestamp: self.timestamp,
            is_edited: self.is_edited,
            is_read: self.is_read,
            from_me: self.from_me,
            replying_to: match &self.replying_to {
                Some(id) => Some(id.clone()),
                None => None,
            },
        }
    }
}

/// A stored reaction to a message.
#[derive(Debug)]
pub struct ReactionData {
    pub message_id: String,
    pub sender_id: String,
    pub emoji: String,
    pub from_me: bool,
}

impl Clone for ReactionData {
    fn clone(&self) -> (r: Self)
        ensures
            r == *self,
    {
        ReactionData {
            message_id: self.message_id.clone(),
            sender_id: self.sender_id.clone(),
            emoji: self.emoji.clone(),
            from_me: self.from_me,
        }
    }
}

/// The change a message makes to the contact of its chat.
pub open spec fn message_op(msg: MsgData) -> ContactOperation {
    ContactOperation::Message { time: msg.timestamp, content: msg.content, sender: msg.sender, is_read: msg.is_read }
}

impl Data {
    /// Records a new message of chat `source` (the address read from
    /// `msg.source`, `None` when it could not be read): the chat list is to be
    /// sorted again, and the chat's contact takes the message as its last
    /// one (and as read, if it is) when it is later than what it has. An
    /// unreadable chat address gives the [`parse_error`] for its text.
    pub fn add_message(&mut self, msg: &MsgData, source: Option<Jid>) -> (r: Result<Option<ContactChange>, String>)
        ensures
            final(self).contacts_sort_free,
            final(self).order == old(self).order,
            final(self).config == old(self).config,
            final(self).contacts_lid == old(self).contacts_lid,
            final(self).config_autosave_free == old(self).config_autosave_free,
            final(self).latest_timestamp == old(self).latest_timestamp,
            match source {
                Some(jid) => match r {
                    Ok(change) => operated(*old(self), *final(self), jid, message_op(*msg), change),
                    Err(_) => false,
                },
                None => match r {
                    Ok(_) => false,
                    Err(e) => e@ == parse_error_text(msg.source@) && final(self).contacts == old(self).contacts,
                },
            },
    {
        self.contacts_sort_free = true;
        match source {
            Some(jid) => {
                let op = ContactOperation::Message {
                    time: msg.timestamp,
                    content: msg.content.clone(),
                    sender: msg.sender.clone(),
                    is_read: msg.is_read,
                };
                Ok(self.operate_on_contact(&jid, op))
            },
            None => Err(parse_error(&msg.source)),
        }
    }
}

} // verus!
