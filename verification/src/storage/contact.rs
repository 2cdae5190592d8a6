//! Contacts and how events update them.

use vstd::prelude::*;

use crate::storage::config::{order_after, pins_after};
use crate::storage::{by_recency, contains_jid, parse_error, parse_error_text, entry_of, find_entry, ids, lemma_entry_push, lemma_entry_update, lid_target, put_entry, Data, Jid, Time};

verus! {

/// What is known about a contact or chat.
pub struct Contact {
    /// The address id of the contact.
    pub jid: String,
    /// The saved contact name, else the profile name, else the number.
    pub name: String,
    pub muted: bool,
    pub chatted: bool,
    pub is_group: bool,
    /// Made up from an address alone, to be completed when the contact list
    /// arrives.
    pub is_incomplete: bool,
    pub last_msg_id: Option<String>,
    pub last_msg_contents: Option<String>,
    pub last_msg_sender: Option<String>,
    /// UNIX seconds.
    pub last_read_message_time: Time,
    /// UNIX seconds.
    pub last_message_time: Time,
}

impl Clone for Contact {
    fn clone(&self) -> (r: Self)
        ensures
            r == *self,
    {
        Contact {
            jid: self.jid.clone(),
            name: self.name.clone(),
            muted: self.muted,
            chatted: self.chatted,
            is_group: self.is_group,
            is_incomplete: self.is_incomplete,
            last_msg_id: match &self.last_msg_id {
                Some(t) => Some(t.clone()),
                None => None,
            },
            last_msg_contents: match &self.last_msg_contents {
                Some(t) => Some(t.clone()),
                None => None,
            },
            last_msg_sender: match &self.last_msg_sender {
                Some(t) => Some(t.clone()),
                None => None,
            },
            last_read_message_time: self.last_read_message_time,
            last_message_time: self.last_message_time,
        }
    }
}

/// A change to make to a contact.
pub enum ContactOperation {
    /// A message sent at `time` arrived in the chat.
    Message { time: Time, content: String, sender: String, is_read: bool },
    /// The chat list reported the chat, last active at `time`.
    ChatNotify { is_unread: bool, is_muted: bool, time: Time },
}

/// What an operation changed, so that the stored copy can follow.
#[derive(Clone, Copy, Debug, PartialEq, Eq, Structural)]
pub struct ContactChange {
    /// The contact did not exist and was made up from its address.
    pub created: bool,
    /// The last message time (and, for a message, its text and sender) moved.
    pub last_message_moved: bool,
    /// The last read time moved.
    pub last_read_moved: bool,
}

/// The contact after `op`: a later message or chat time becomes the last
/// message time (a message also records its text and sender), and a later
/// time read (a read message, or a chat with nothing unread) becomes the last
/// read time. A chat report also marks the chat as chatted and sets muting.
pub open spec fn applied(c: Contact, op: ContactOperation) -> Contact {
    match op {
        ContactOperation::Message { time, content, sender, is_read } => {
            let moved = c.last_message_time.0 < time.0;
            let read = is_read && c.last_read_message_time.0 < time.0;
            Contact {
                last_message_time: if moved { time } else { c.last_message_time },
                last_msg_contents: if moved { Some(content) } else { c.last_msg_contents },
                last_msg_sender: if moved { Some(sender) } else { c.last_msg_sender },
                last_read_message_time: if read { time } else { c.last_read_message_time },
                ..c
            }
        },
        ContactOperation::ChatNotify { is_unread, is_muted, time } => {
            let moved = c.last_message_time.0 < time.0;
            let read = c.last_read_message_time.0 < time.0 && !is_unread;
            Contact {
                chatted: true,
                muted: is_muted,
                last_message_time: if moved { time } else { c.last_message_time },
                last_read_message_time: if read { time } else { c.last_read_message_time },
                ..c
            }
        },
    }
}

/// Which times `op` moves on contact `c`: (last message, last read).
pub open spec fn moved_times(c: Contact, op: ContactOperation) -> (bool, bool) {
    match op {
        ContactOperation::Message { time, is_read, .. } => (
            c.last_message_time.0 < time.0,
            is_read && c.last_read_message_time.0 < time.0,
        ),
        ContactOperation::ChatNotify { is_unread, time, .. } => (
            c.last_message_time.0 < time.0,
            c.last_read_message_time.0 < time.0 && !is_unread,
        ),
    }
}

/// Applies `op` to a contact; returns which times moved.
pub fn apply_operation(c: &mut Contact, op: &ContactOperation) -> (r: (bool, bool))
    ensures
        *final(c) == applied(*old(c), *op),
        r == moved_times(*old(c), *op),
{
    match op {
        ContactOperation::Message { time, content, sender, is_read } => {
            let moved = c.last_message_time.0 < time.0;
            let read = *is_read && c.last_read_message_time.0 < time.0;
            if moved {
                c.last_message_time = *time;
                c.last_msg_contents = Some(content.clone());
                c.last_msg_sender = Some(sender.clone());
            }
            if read {
                c.last_read_message_time = *time;
            }
            (moved, read)
        },
        ContactOperation::ChatNotify { is_unread, is_muted, time } => {
            c.chatted = true;
            c.muted = *is_muted;
            let moved = c.last_message_time.0 < time.0;
            let read = c.last_read_message_time.0 < time.0 && !*is_unread;
            if moved {
                c.last_message_time = *time;
            }
            if read {
                c.last_read_message_time = *time;
            }
            (moved, read)
        },
    }
}

/// The contact made up for an address that has none: named by its number,
/// marked as chatted and incomplete.
pub open spec fn fallback_contact(jid: Jid) -> Contact {
    Contact {
        name: jid.number,
        jid: jid.id,
        muted: false,
        is_group: false,
        chatted: true,
        last_message_time: Time(0),
        last_read_message_time: Time(0),
        is_incomplete: true,
        last_msg_id: None,
        last_msg_contents: None,
        last_msg_sender: None,
    }
}

/// The server of hidden-number addresses.
pub open spec fn lid_server(server: Seq<char>) -> bool {
    server == seq!['l', 'i', 'd']
}

/// Whether `s` is the server of hidden-number addresses.
pub fn is_lid_server(s: &str) -> (r: bool)
    ensures
        r == lid_server(s@),
{
    let n = s.unicode_len();
    if n != 3 {
        return false;
    }
    let r = s.get_char(0) == 'l' && s.get_char(1) == 'i' && s.get_char(2) == 'd';
    assert(r ==> s@ =~= seq!['l', 'i', 'd']);
    r
}

/// The text form ends in `@lid`.
pub open spec fn lid_address(text: Seq<char>) -> bool {
    text.len() >= 4 && text.subrange(text.len() - 4, text.len() as int) == seq!['@', 'l', 'i', 'd']
}

/// Whether a contact's address is a hidden-number address.
pub fn is_lid_address(text: &str) -> (r: bool)
    ensures
        r == lid_address(text@),
{
    let n = text.unicode_len();
    if n < 4 {
        return false;
    }
    let r = text.get_char(n - 4) == '@' && text.get_char(n - 3) == 'l' && text.get_char(n - 2) == 'i'
        && text.get_char(n - 1) == 'd';
    assert(r <==> text@.subrange(n - 4, n as int) =~= seq!['@', 'l', 'i', 'd']);
    r
}

/// The dot with which the service masks hidden phone numbers.
pub open spec fn masked(text: Seq<char>) -> bool {
    text.contains('\u{2219}')
}

/// Whether a hidden number is masked (its contact cannot be resolved).
pub fn is_masked(text: &str) -> (r: bool)
    ensures
        r == masked(text@),
{
    let n = text.unicode_len();
    let mut i: usize = 0;
    while i < n
        invariant
            n == text@.len(),
            i <= n,
            forall|k: int| 0 <= k < i ==> text@[k] != '\u{2219}',
        decreases n - i,
    {
        if text.get_char(i) == '\u{2219}' {
            return true;
        }
        i += 1;
    }
    false
}

/// `after`'s contacts are `before`'s with `operation` applied to the contact
/// of `jid`; when there is none, a contact is made up from the address and
/// then changed, except for a hidden-number address, which is left alone.
/// `r` reports what changed (`None` when nothing was done).
pub open spec fn operated(
    before: Data,
    after: Data,
    jid: Jid,
    operation: ContactOperation,
    r: Option<ContactChange>,
) -> bool {
    &&& forall|id: Seq<char>| id != jid.id@ ==> #[trigger] after.contact(id) == before.contact(id)
    &&& match before.contact(jid.id@) {
        Some(c) => {
            &&& after.contact(jid.id@) == Some(applied(c, operation))
            &&& r == Some(
                ContactChange {
                    created: false,
                    last_message_moved: moved_times(c, operation).0,
                    last_read_moved: moved_times(c, operation).1,
                },
            )
        },
        None => if lid_server(jid.server@) {
            &&& r is None
            &&& after.contact(jid.id@) is None
        } else {
            &&& after.contact(jid.id@) == Some(applied(fallback_contact(jid), operation))
            &&& r == Some(
                ContactChange {
                    created: true,
                    last_message_moved: moved_times(fallback_contact(jid), operation).0,
                    last_read_moved: moved_times(fallback_contact(jid), operation).1,
                },
            )
        },
    }
}

/// `after` is `before` with `contact` stored for `jid`, and the chat listed
/// at the end of the chat order unless it is pinned or listed already.
pub open spec fn stored(before: Data, after: Data, jid: Jid, contact: Contact) -> bool {
    &&& after.contact(jid.id@) == Some(contact)
    &&& forall|id: Seq<char>| id != jid.id@ ==> #[trigger] after.contact(id) == before.contact(id)
    &&& after.order@ == if ids(before.config.pins@).contains(jid.id@) || ids(before.order@).contains(jid.id@) {
        before.order@
    } else {
        before.order@.push(jid)
    }
}

/// What adding a contact did.
#[derive(Clone, Copy, Debug, PartialEq, Eq, Structural)]
pub enum ContactAdded {
    /// The contact was stored.
    Stored,
    /// The hidden-number address was recorded as standing for the number.
    LidMapped,
    /// The hidden number is masked; nothing was done.
    Masked,
}

impl Data {
    /// Applies `operation` to the contact of `jid`. When there is none, a
    /// contact is made up from the address and then changed, except for a
    /// hidden-number address, which is left alone (`None`).
    pub fn operate_on_contact(&mut self, jid: &Jid, operation: ContactOperation) -> (r: Option<ContactChange>)
        ensures
            final(self).order == old(self).order,
            final(self).config == old(self).config,
            final(self).contacts_lid == old(self).contacts_lid,
            final(self).config_autosave_free == old(self).config_autosave_free,
            final(self).contacts_sort_free == old(self).contacts_sort_free,
            final(self).latest_timestamp == old(self).latest_timestamp,
            operated(*old(self), *final(self), *jid, operation, r),
    {
        match find_entry(&self.contacts, jid) {
            Some(idx) => {
                let ghost before = self.contacts@;
                let (key, mut contact) = self.contacts.remove(idx);
                let moved = apply_operation(&mut contact, &operation);
                self.contacts.insert(idx, (key, contact));
                proof {
                    assert(self.contacts@ =~= before.update(idx as int, (before[idx as int].0, contact)));
                    assert forall|id: Seq<char>| true implies #[trigger] entry_of(self.contacts@, id) == if id
                        == before[idx as int].0.id@ {
                        Some(contact)
                    } else {
                        entry_of(before, id)
                    } by {
                        lemma_entry_update(before, idx as int, contact, id);
                    }
                }
                Some(ContactChange { created: false, last_message_moved: moved.0, last_read_moved: moved.1 })
            },
            None => {
                if is_lid_server(jid.server.as_str()) {
                    return None;
                }
                let mut contact = Contact {
                    name: jid.number.clone(),
                    jid: jid.id.clone(),
                    muted: false,
                    is_group: false,
                    chatted: true,
                    last_message_time: Time(0),
                    last_read_message_time: Time(0),
                    is_incomplete: true,
                    last_msg_id: None,
                    last_msg_contents: None,
                    last_msg_sender: None,
                };
                assert(contact == fallback_contact(*jid));
                let moved = apply_operation(&mut contact, &operation);
                let ghost before = self.contacts@;
                let ghost made = contact;
                self.contacts.push((jid.clone(), contact));
                proof {
                    assert forall|id: Seq<char>| true implies #[trigger] entry_of(self.contacts@, id) == if entry_of(
                        before,
                        id,
                    ) is Some {
                        entry_of(before, id)
                    } else if id == jid.id@ {
                        Some(made)
                    } else {
                        None
                    } by {
                        lemma_entry_push(before, *jid, made, id);
                    }
                }
                Some(ContactChange { created: true, last_message_moved: moved.0, last_read_moved: moved.1 })
            },
        }
    }

    /// Records what the chat list reports of chat `jid`: its contact is
    /// marked as chatted, takes the muting and, when later, the last message
    /// time (and the read time, when nothing is unread); the chat order is
    /// sorted again, and the chat pinned or unpinned.
    pub fn note_chat(
        &mut self,
        jid: &Jid,
        is_unread: bool,
        is_muted: bool,
        is_pinned: bool,
        last_message_time: isize,
    ) -> (r: Option<ContactChange>)
        ensures
            operated(
                *old(self),
                *final(self),
                *jid,
                ContactOperation::ChatNotify {
                    is_unread,
                    is_muted,
                    time: Time(#[verifier::truncate] (last_message_time as u64)),
                },
                r,
            ),
            final(self).contacts_lid == old(self).contacts_lid,
            final(self).contacts_sort_free == old(self).contacts_sort_free,
            final(self).latest_timestamp == old(self).latest_timestamp,
            final(self).config_autosave_free,
            final(self).config.self_jid == old(self).config.self_jid,
            final(self).config.pins@ == pins_after(old(self).config.pins@, *jid, is_pinned),
            exists|mid: Seq<Jid>|
                #[trigger] by_recency(mid, final(self).contacts@) && mid.to_multiset() == old(
                    self,
                ).order@.to_multiset() && final(self).order@ == order_after(
                    mid,
                    old(self).config.pins@,
                    *jid,
                    is_pinned,
                ),
            old(self).well_listed() ==> final(self).well_listed(),
    {
        let time = Time(#[verifier::truncate] (last_message_time as u64));
        let op = ContactOperation::ChatNotify { is_unread, is_muted, time };
        let r = self.operate_on_contact(jid, op);
        let ghost after_op = *self;
        self.sort_contacts();
        let ghost mid = self.order@;
        self.add_pin(jid.clone(), is_pinned);
        assert(by_recency(mid, self.contacts@));
        assert(self.contacts == after_op.contacts);
        assert forall|id: Seq<char>| #[trigger] self.contact(id) == after_op.contact(id) by {}
        r
    }

    /// Stores `contact` as the contact of `jid`, and lists the chat at the end
    /// of the chat order unless it is pinned or listed already.
    pub fn store_contact(&mut self, jid: Jid, contact: Contact)
        ensures
            stored(*old(self), *final(self), jid, contact),
            final(self).config == old(self).config,
            final(self).contacts_lid == old(self).contacts_lid,
            final(self).config_autosave_free == old(self).config_autosave_free,
            final(self).contacts_sort_free == old(self).contacts_sort_free,
            final(self).latest_timestamp == old(self).latest_timestamp,
            old(self).well_listed() ==> final(self).well_listed(),
    {
        let ghost order0 = self.order@;
        if !contains_jid(&self.config.pins, &jid) && !contains_jid(&self.order, &jid) {
            self.order.push(jid.clone());
            proof {
                if old(self).well_listed() {
                    let no = ids(self.order@);
                    assert(no =~= ids(order0).push(jid.id@));
                    assert forall|i: int, j: int| 0 <= i < j < no.len() implies no[i] != no[j] by {
                        if j == no.len() - 1 {
                            assert(ids(order0)[i] == no[i]);
                        } else {
                            assert(ids(order0)[i] == no[i] && ids(order0)[j] == no[j]);
                        }
                    }
                    assert forall|y: Seq<char>| #[trigger] ids(self.config.pins@).contains(y) implies !no.contains(
                        y,
                    ) by {
                        if no.contains(y) {
                            let k = choose|k: int| 0 <= k < no.len() && no[k] == y;
                            if k < ids(order0).len() {
                                assert(ids(order0)[k] == y);
                            }
                        }
                    }
                }
            }
        }
        self.set_entry(&jid, contact);
    }

    /// Stores `contact` under `jid`, replacing the stored one if any.
    fn set_entry(&mut self, jid: &Jid, contact: Contact)
        ensures
            final(self).contact(jid.id@) == Some(contact),
            forall|id: Seq<char>| id != jid.id@ ==> #[trigger] final(self).contact(id) == old(self).contact(id),
            final(self).order == old(self).order,
            final(self).config == old(self).config,
            final(self).contacts_lid == old(self).contacts_lid,
            final(self).config_autosave_free == old(self).config_autosave_free,
            final(self).contacts_sort_free == old(self).contacts_sort_free,
            final(self).latest_timestamp == old(self).latest_timestamp,
    {
        put_entry(&mut self.contacts, jid, contact);
    }

    /// Records that hidden-number address `from` stands for `to`.
    fn add_contact_lid(&mut self, from: &Jid, to: Jid)
        ensures
            lid_target(final(self).contacts_lid@, from.id@) == Some(to),
            forall|id: Seq<char>|
                id != from.id@ ==> #[trigger] lid_target(final(self).contacts_lid@, id) == lid_target(
                    old(self).contacts_lid@,
                    id,
                ),
            final(self).contacts == old(self).contacts,
            final(self).order == old(self).order,
            final(self).config == old(self).config,
            final(self).config_autosave_free == old(self).config_autosave_free,
            final(self).contacts_sort_free == old(self).contacts_sort_free,
            final(self).latest_timestamp == old(self).latest_timestamp,
    {
        put_entry(&mut self.contacts_lid, from, to);
    }

    /// Adds a contact from the contact list. `address` is the address read
    /// from `contact.jid` (`None` when it cannot be read, which gives the
    /// [`parse_error`] for that text), and `number` the address of the phone number in
    /// `contact.name`. A hidden-number contact only records which number its
    /// address stands for, unless the number is masked; any other contact is
    /// stored as [`Data::store_contact`] does.
    pub fn add_contact(&mut self, contact: Contact, address: Option<Jid>, number: Jid) -> (r: Result<
        ContactAdded,
        String,
    >)
        ensures
            final(self).config == old(self).config,
            final(self).config_autosave_free == old(self).config_autosave_free,
            final(self).contacts_sort_free == old(self).contacts_sort_free,
            final(self).latest_timestamp == old(self).latest_timestamp,
            old(self).well_listed() ==> final(self).well_listed(),
            lid_address(contact.jid@) && masked(contact.jid@) ==> r == Ok::<ContactAdded, String>(
                ContactAdded::Masked,
            ) && *final(self) == *old(self),
            match address {
                None => !(lid_address(contact.jid@) && masked(contact.jid@)) ==> (r matches Err(e) && e@
                    == parse_error_text(contact.jid@) && *final(self) == *old(self)),
                Some(a) => if lid_address(contact.jid@) {
                    !masked(contact.jid@) ==> {
                        &&& r == Ok::<ContactAdded, String>(ContactAdded::LidMapped)
                        &&& lid_target(final(self).contacts_lid@, a.id@) == Some(number)
                        &&& forall|id: Seq<char>|
                            id != a.id@ ==> #[trigger] lid_target(final(self).contacts_lid@, id) == lid_target(
                                old(self).contacts_lid@,
                                id,
                            )
                        &&& final(self).contacts == old(self).contacts
                        &&& final(self).order == old(self).order
                    }
                } else {
                    &&& r == Ok::<ContactAdded, String>(ContactAdded::Stored)
                    &&& stored(*old(self), *final(self), a, contact)
                    &&& final(self).contacts_lid == old(self).contacts_lid
                },
            },
    {
        if is_lid_address(contact.jid.as_str()) {
            if is_masked(contact.jid.as_str()) {
                return Ok(ContactAdded::Masked);
            }
            match address {
                Some(a) => {
                    self.add_contact_lid(&a, number);
                    Ok(ContactAdded::LidMapped)
                },
                None => Err(parse_error(&contact.jid)),
            }
        } else {
            match address {
                Some(a) => {
                    self.store_contact(a, contact);
                    Ok(ContactAdded::Stored)
                },
                None => Err(parse_error(&contact.jid)),
            }
        }
    }

    /// Handles a contact reported by the contact list, for chat `chat`:
    /// its address is that of `phone` (`phone_jid`) or, without a phone
    /// number, the chat's. A contact of the user becomes the user's own
    /// address (and the configuration is to be saved). Returns the contact
    /// to add when there is none yet for the address, or only a made-up one.
    pub fn note_contact(
        &mut self,
        chat: &Jid,
        name: String,
        phone: &String,
        phone_jid: Jid,
        is_self: bool,
        is_group: bool,
    ) -> (r: Option<Contact>)
        ensures
            ({
                let jid = if phone@.len() == 0 {
                    *chat
                } else {
                    phone_jid
                };
                &&& final(self).config.self_jid == if is_self {
                    Some(jid)
                } else {
                    old(self).config.self_jid
                }
                &&& final(self).config_autosave_free == (old(self).config_autosave_free || is_self)
                &&& r == if match old(self).contact(jid.id@) {
                    Some(c) => c.is_incomplete,
                    None => true,
                } {
                    Some(
                        Contact {
                            name,
                            jid: jid.id,
                            muted: false,
                            is_group,
                            chatted: false,
                            last_message_time: Time(0),
                            last_read_message_time: Time(0),
                            is_incomplete: false,
                            last_msg_id: None,
                            last_msg_contents: None,
                            last_msg_sender: None,
                        },
                    )
                } else {
                    None
                }
            }),
            final(self).contacts == old(self).contacts,
            final(self).contacts_lid == old(self).contacts_lid,
            final(self).order == old(self).order,
            final(self).config.pins == old(self).config.pins,
            final(self).contacts_sort_free == old(self).contacts_sort_free,
            final(self).latest_timestamp == old(self).latest_timestamp,
    {
        let jid = if phone.unicode_len() == 0 {
            chat.clone()
        } else {
            phone_jid
        };
        if is_self {
            self.config.self_jid = Some(jid.clone());
            self.config_autosave_free = true;
        }
        if self.needs_contact(&jid) {
            Some(
                Contact {
                    name,
                    jid: jid.id.clone(),
                    muted: false,
                    is_group,
                    chatted: false,
                    last_message_time: Time(0),
                    last_read_message_time: Time(0),
                    is_incomplete: false,
                    last_msg_id: None,
                    last_msg_contents: None,
                    last_msg_sender: None,
                },
            )
        } else {
            None
        }
    }

    /// Whether the contact list should (re)store the contact of `jid`: there
    /// is none yet, or only a made-up one.
    pub fn needs_contact(&self, jid: &Jid) -> (r: bool)
        ensures
            r == match self.contact(jid.id@) {
                Some(c) => c.is_incomplete,
                None => true,
            },
    {
        match self.find_contact(jid) {
            Some(i) => self.contacts[i].1.is_incomplete,
            None => true,
        }
    }
}

} // verus!
