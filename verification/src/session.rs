//! What the chat screen keeps besides the message window: unsent drafts, who
//! is typing, the hovered message, and the lines of the chat list.

use vstd::prelude::*;

use crate::chat_buffer::db_load::text_entry;
use crate::chat_buffer::{lookup_jid, ChatBuffer, LoadRequest, RMessageCore};
use crate::storage::contact::{operated, ContactChange};
use crate::storage::message::{message_op, MsgData};
use crate::rich_text::push_char;
use crate::storage::contact::Contact;
use crate::storage::{parse_error_text, entry_of, find_entry, lemma_entry_push, put_entry, Data, Jid};

verus! {

/// Removes every entry with the id of `jid`; returns the value that was
/// stored for it.
pub fn remove_entry<V>(entries: &mut Vec<(Jid, V)>, jid: &Jid) -> (r: Option<V>)
    ensures
        r == entry_of(old(entries)@, jid.id@),
        forall|id: Seq<char>|
            #[trigger] entry_of(final(entries)@, id) == if id == jid.id@ {
                None
            } else {
                entry_of(old(entries)@, id)
            },
{
    let ghost orig = entries@;
    let mut src: Vec<(Jid, V)> = Vec::new();
    std::mem::swap(&mut src, entries);
    let n = src.len();
    let mut found: Option<V> = None;
    let mut i: usize = 0;
    assert(orig.take(0) =~= Seq::<(Jid, V)>::empty());
    assert(src@.subrange(0, n as int) =~= orig);
    while src.len() > 0
        invariant
            n == orig.len(),
            src@.len() + i == n,
            src@ == orig.subrange(i as int, n as int),
            found == entry_of(orig.take(i as int), jid.id@),
            entry_of(entries@, jid.id@) is None,
            forall|id: Seq<char>|
                id != jid.id@ ==> #[trigger] entry_of(entries@, id) == entry_of(orig.take(i as int), id),
        decreases src@.len(),
    {
        let ghost kept0 = entries@;
        let e = src.remove(0);
        let ghost ev = e;
        assert(ev == orig[i as int]);
        assert(orig.take(i + 1) =~= orig.take(i as int).push(ev));
        proof {
            assert forall|id: Seq<char>| true implies #[trigger] entry_of(orig.take(i + 1), id) == if entry_of(
                orig.take(i as int),
                id,
            ) is Some {
                entry_of(orig.take(i as int), id)
            } else if id == ev.0.id@ {
                Some(ev.1)
            } else {
                None
            } by {
                lemma_entry_push(orig.take(i as int), ev.0, ev.1, id);
            }
        }
        if e.0.same(jid) {
            if found.is_none() {
                found = Some(e.1);
            }
        } else {
            entries.push(e);
            proof {
                assert forall|id: Seq<char>| true implies #[trigger] entry_of(entries@, id) == if entry_of(
                    kept0,
                    id,
                ) is Some {
                    entry_of(kept0, id)
                } else if id == ev.0.id@ {
                    Some(ev.1)
                } else {
                    None
                } by {
                    lemma_entry_push(kept0, ev.0, ev.1, id);
                }
            }
        }
        assert(src@ =~= orig.subrange(i + 1, n as int));
        i += 1;
    }
    assert(orig.take(n as int) =~= orig);
    found
}

/// Records a message arriving in chat `chat` (see [`Data::add_message`];
/// `source` is the address read from `msg.source`). When the open window
/// (`open`) shows that chat up to its last message, the load that brings
/// the new message into view comes back too.
pub fn message_arrived(
    db: &mut Data,
    open: Option<&ChatBuffer>,
    chat: &Jid,
    msg: &MsgData,
    source: Option<Jid>,
) -> (r: Result<(Option<ContactChange>, Option<LoadRequest>), String>)
    ensures
        final(db).contacts_sort_free,
        final(db).order == old(db).order,
        final(db).config == old(db).config,
        final(db).contacts_lid == old(db).contacts_lid,
        match source {
            Some(jid) => match r {
                Ok((change, load)) => {
                    &&& operated(*old(db), *final(db), jid, message_op(*msg), change)
                    &&& match open {
                        Some(b) => if b.viewing.id@ == chat.id@ && (old(db).contact(chat.id@) matches Some(c)
                            && c.last_message_time == b.end_ts) {
                            load matches Some(l) && !l.is_reverse && l.timestamp == b.end_ts && l.viewing@
                                == b.viewing_id@
                        } else {
                            load is None
                        },
                        None => load is None,
                    }
                },
                Err(_) => false,
            },
            None => r matches Err(e) && e@ == parse_error_text(msg.source@) && final(db).contacts == old(db).contacts,
        },
{
    let update = match open {
        Some(b) => b.viewing.same(chat) && b.at_latest(db),
        None => false,
    };
    let change = db.add_message(msg, source)?;
    if update {
        match open {
            Some(b) => Ok((change, Some(b.load_begin(false)))),
            None => Ok((change, None)),
        }
    } else {
        Ok((change, None))
    }
}

/// The unsent message of a chat.
pub struct MsgDraft {
    pub text: String,
    /// The message being replied to.
    pub reply_to: Option<RMessageCore>,
}

impl Default for MsgDraft {
    fn default() -> (r: Self)
        ensures
            r.text@ == Seq::<char>::empty(),
            r.reply_to is None,
    {
        MsgDraft { text: String::new(), reply_to: None }
    }
}

/// The drafts of all chats, each under its chat's address.
pub struct Drafts {
    pub entries: Vec<(Jid, MsgDraft)>,
}

/// `after` is `before` with the draft text of `chat` set to `text`, the
/// reply it holds kept.
pub open spec fn text_set(before: Drafts, chat: Jid, text: String, after: Drafts) -> bool {
    &&& after.draft(chat.id@) matches Some(d) && d.text == text && d.reply_to == match before.draft(chat.id@) {
        Some(o) => o.reply_to,
        None => None,
    }
    &&& forall|id: Seq<char>| id != chat.id@ ==> #[trigger] after.draft(id) == before.draft(id)
}

/// The draft of `chat` was taken out of `before` for sending, and given
/// back as `r` when it had text.
pub open spec fn taken(before: Drafts, chat: Jid, r: Option<MsgDraft>, after: Drafts) -> bool {
    &&& after.draft(chat.id@) is None
    &&& forall|id: Seq<char>| id != chat.id@ ==> #[trigger] after.draft(id) == before.draft(id)
    &&& r == match before.draft(chat.id@) {
        Some(d) => if d.text@.len() > 0 {
            Some(d)
        } else {
            None
        },
        None => None,
    }
}

impl Drafts {
    /// The draft of chat `id`.
    pub open spec fn draft(&self, id: Seq<char>) -> Option<MsgDraft> {
        entry_of(self.entries@, id)
    }

    /// No drafts.
    pub fn new() -> (r: Self)
        ensures
            forall|id: Seq<char>| #[trigger] r.draft(id) is None,
    {
        Drafts { entries: Vec::new() }
    }

    /// Sets the text and/or the reply of the draft of `chat`, starting an
    /// empty draft when there is none.
    fn update_with(&mut self, chat: &Jid, text: Option<String>, reply: Option<Option<RMessageCore>>)
        ensures
            final(self).draft(chat.id@) matches Some(d) && d.text@ == match text {
                Some(t) => t@,
                None => match old(self).draft(chat.id@) {
                    Some(o) => o.text@,
                    None => Seq::<char>::empty(),
                },
            } && (text matches Some(t) ==> d.text == t) && d.reply_to == match reply {
                Some(r) => r,
                None => match old(self).draft(chat.id@) {
                    Some(o) => o.reply_to,
                    None => None,
                },
            } && (text is None && old(self).draft(chat.id@) is Some ==> d.text == old(self).draft(
                chat.id@,
            )->0.text),
            forall|id: Seq<char>| id != chat.id@ ==> #[trigger] final(self).draft(id) == old(self).draft(id),
    {
        let current = remove_entry(&mut self.entries, chat);
        let ghost removed = self.entries@;
        let mut d = match current {
            Some(d) => d,
            None => MsgDraft::default(),
        };
        match text {
            Some(t) => {
                d.text = t;
            },
            None => {},
        }
        match reply {
            Some(r) => {
                d.reply_to = r;
            },
            None => {},
        }
        put_entry(&mut self.entries, chat, d);
    }

    /// Sets the text of the draft of `chat`.
    pub fn set_text(&mut self, chat: &Jid, text: String)
        ensures
            text_set(*old(self), *chat, text, *final(self)),
    {
        self.update_with(chat, Some(text), None);
    }

    /// Sets (or clears) the message that the draft of `chat` replies to.
    pub fn set_reply(&mut self, chat: &Jid, reply: Option<RMessageCore>)
        ensures
            final(self).draft(chat.id@) matches Some(d) && d.reply_to == reply && d.text@ == match old(self).draft(
                chat.id@,
            ) {
                Some(o) => o.text@,
                None => Seq::<char>::empty(),
            },
            forall|id: Seq<char>| id != chat.id@ ==> #[trigger] final(self).draft(id) == old(self).draft(id),
    {
        self.update_with(chat, None, Some(reply));
    }

    /// Takes the draft of `chat` away for sending; it is given back only when
    /// it has text.
    pub fn take_for_send(&mut self, chat: &Jid) -> (r: Option<MsgDraft>)
        ensures
            taken(*old(self), *chat, r, *final(self)),
    {
        match remove_entry(&mut self.entries, chat) {
            Some(d) => {
                if d.text.unicode_len() > 0 {
                    Some(d)
                } else {
                    None
                }
            },
            None => None,
        }
    }

    /// The text of the draft of `chat` (empty when there is none).
    pub fn text(&self, chat: &Jid) -> (r: String)
        ensures
            r@ == match self.draft(chat.id@) {
                Some(d) => d.text@,
                None => Seq::<char>::empty(),
            },
    {
        match find_entry(&self.entries, chat) {
            Some(i) => self.entries[i].1.text.clone(),
            None => String::new(),
        }
    }
}

/// Who is typing in which chat.
pub struct Typing {
    pub entries: Vec<(Jid, Jid)>,
}

impl Typing {
    /// Who is typing in chat `id`.
    pub open spec fn typing_in(&self, id: Seq<char>) -> Option<Jid> {
        entry_of(self.entries@, id)
    }

    /// Nobody typing.
    pub fn new() -> (r: Self)
        ensures
            forall|id: Seq<char>| #[trigger] r.typing_in(id) is None,
    {
        Typing { entries: Vec::new() }
    }

    /// Records that `user` started typing in `chat` (`is_typing`) or
    /// stopped; a stop clears what is recorded under the user's own address.
    pub fn note(&mut self, chat: Jid, user: Jid, is_typing: bool)
        ensures
            is_typing ==> final(self).typing_in(chat.id@) == Some(user) && forall|id: Seq<char>|
                id != chat.id@ ==> #[trigger] final(self).typing_in(id) == old(self).typing_in(id),
            !is_typing ==> final(self).typing_in(user.id@) is None && forall|id: Seq<char>|
                id != user.id@ ==> #[trigger] final(self).typing_in(id) == old(self).typing_in(id),
    {
        if is_typing {
            put_entry(&mut self.entries, &chat, user);
        } else {
            remove_entry(&mut self.entries, &user);
        }
    }

    /// Who is typing in `chat`.
    pub fn who(&self, chat: &Jid) -> (r: Option<Jid>)
        ensures
            r == self.typing_in(chat.id@),
    {
        match find_entry(&self.entries, chat) {
            Some(i) => Some(self.entries[i].1.clone()),
            None => None,
        }
    }
}

/// The hovered message after the pointer entered (`entered`) or left message
/// `msg_id`.
pub open spec fn hovered_after(current: Option<String>, msg_id: String, entered: bool) -> Option<String> {
    if entered {
        Some(msg_id)
    } else if current matches Some(c) && c@ == msg_id@ {
        None
    } else {
        current
    }
}

/// The hovered message after the pointer entered (`entered`) or left message
/// `msg_id`: leaving another message than the hovered one changes nothing.
pub fn hover_update(current: Option<String>, msg_id: String, entered: bool) -> (r: Option<String>)
    ensures
        r == hovered_after(current, msg_id, entered),
{
    if entered {
        Some(msg_id)
    } else {
        match current {
            Some(c) => {
                if c == msg_id {
                    None
                } else {
                    Some(c)
                }
            },
            None => None,
        }
    }
}

/// The widget id of a message: `msg:` and the message id.
pub open spec fn widget_id(id: Seq<char>) -> Seq<char> {
    seq!['m', 's', 'g', ':'] + id
}

/// The id of the widget that shows message `id`, by which a reply scrolls
/// to it.
pub fn message_widget_id(id: &String) -> (r: String)
    ensures
        r@ == widget_id(id@),
{
    let mut out = String::new();
    push_char(&mut out, 'm');
    push_char(&mut out, 's');
    push_char(&mut out, 'g');
    push_char(&mut out, ':');
    let n = id.unicode_len();
    let ghost start = out@;
    let mut i: usize = 0;
    while i < n
        invariant
            n == id@.len(),
            i <= n,
            start == seq!['m', 's', 'g', ':'],
            out@ == start + id@.take(i as int),
        decreases n - i,
    {
        push_char(&mut out, id.as_str().get_char(i));
        assert(id@.take(i + 1) =~= id@.take(i as int).push(id@[i as int]));
        i += 1;
    }
    assert(id@.take(n as int) =~= id@);
    out
}

/// The index of the first line break in `t`, or its length.
pub open spec fn line_end(t: Seq<char>) -> int
    decreases t.len(),
{
    if t.len() == 0 {
        0
    } else if t[0] == '\n' {
        0
    } else {
        1 + line_end(t.drop_first())
    }
}

/// The first line of a text, as `str::lines` gives it: `None` for an empty
/// text; the text up to the first `\n`, without a `\r` just before it.
pub open spec fn first_line(t: Seq<char>) -> Option<Seq<char>> {
    if t.len() == 0 {
        None
    } else {
        let e = line_end(t);
        if e < t.len() && e > 0 && t[e - 1] == '\r' {
            Some(t.take(e - 1))
        } else {
            Some(t.take(e))
        }
    }
}

/// Where the first line ends: within the text, at a line break if before
/// its end, with no line break before it.
pub proof fn lemma_line_end(t: Seq<char>)
    ensures
        0 <= line_end(t) <= t.len(),
        line_end(t) < t.len() ==> t[line_end(t)] == '\n',
        forall|i: int| 0 <= i < line_end(t) ==> t[i] != '\n',
    decreases t.len(),
{
    if t.len() > 0 && t[0] != '\n' {
        lemma_line_end(t.drop_first());
        assert forall|i: int| 0 < i < line_end(t) implies t[i] != '\n' by {
            assert(t[i] == t.drop_first()[i - 1]);
        }
    }
}

/// A position with no line break before it and a line break (or the end)
/// at it is where the first line ends.
proof fn lemma_line_end_at(t: Seq<char>, e: int)
    requires
        0 <= e <= t.len(),
        e < t.len() ==> t[e] == '\n',
        forall|i: int| 0 <= i < e ==> t[i] != '\n',
    ensures
        line_end(t) == e,
    decreases t.len(),
{
    if t.len() > 0 && e > 0 {
        assert forall|i: int| 0 <= i < e - 1 implies t.drop_first()[i] != '\n' by {
            assert(t.drop_first()[i] == t[i + 1]);
        }
        lemma_line_end_at(t.drop_first(), e - 1);
    }
}

/// The first line of a text (see [`first_line`]).
pub fn text_first_line(text: &String) -> (r: Option<String>)
    ensures
        match first_line(text@) {
            Some(l) => r matches Some(s) && s@ == l,
            None => r is None,
        },
{
    let n = text.unicode_len();
    if n == 0 {
        return None;
    }
    let mut e: usize = 0;
    while e < n && text.as_str().get_char(e) != '\n'
        invariant
            n == text@.len(),
            e <= n,
            forall|i: int| 0 <= i < e ==> text@[i] != '\n',
        decreases n - e,
    {
        e += 1;
    }
    proof {
        lemma_line_end_at(text@, e as int);
    }
    let end = if e < n && e > 0 && text.as_str().get_char(e - 1) == '\r' {
        e - 1
    } else {
        e
    };
    let mut out = String::new();
    let mut i: usize = 0;
    while i < end
        invariant
            n == text@.len(),
            end <= n,
            i <= end,
            out@ == text@.take(i as int),
        decreases end - i,
    {
        push_char(&mut out, text.as_str().get_char(i));
        assert(text@.take(i + 1) =~= text@.take(i as int).push(text@[i as int]));
        i += 1;
    }
    Some(out)
}

/// What a chat-list line shows under the chat's name.
pub enum Indicator {
    /// `name` is typing.
    Typing { name: String },
    /// The last message: its sender's name and first line.
    LastMessage { sender: String, line: String },
    Nothing,
}

/// A line of the chat list.
pub enum SidebarEntry {
    /// A chat with no contact: shown by its number.
    Unknown { number: String },
    /// A chat with a contact.
    Known { name: String, indicator: Indicator },
}

/// What the chat-list line of `jid` shows: for a chat without contact, its
/// number; otherwise the contact's name and who is typing there, else the
/// last message's sender and first line (when both are known and the sender's
/// address, read from `table`, can be read), else nothing.
pub fn sidebar_entry(db: &Data, typing: &Typing, jid: &Jid, table: &Vec<(String, Jid)>) -> (r: SidebarEntry)
    ensures
        match db.contact(jid.id@) {
            None => r matches SidebarEntry::Unknown { number } && number@ == jid.number@,
            Some(c) => r matches SidebarEntry::Known { name, indicator } && name@ == c.name@ && match typing.typing_in(
                jid.id@,
            ) {
                Some(t) => indicator matches Indicator::Typing { name } && name@ == db.display_name(t),
                None => match (c.last_msg_sender, c.last_msg_contents) {
                    (Some(s), Some(text)) => match (text_entry(table@, s@), first_line(text@)) {
                        (Some(sj), Some(line)) => indicator matches Indicator::LastMessage { sender, line: l }
                            && sender@ == db.display_name(sj) && l@ == line,
                        _ => indicator is Nothing,
                    },
                    _ => indicator is Nothing,
                },
            },
        },
{
    match db.find_contact(jid) {
        None => SidebarEntry::Unknown { number: jid.number.clone() },
        Some(ci) => {
            let c: &Contact = &db.contacts[ci].1;
            let indicator = match typing.who(jid) {
                Some(t) => Indicator::Typing { name: db.display_jid(&t) },
                None => match (&c.last_msg_sender, &c.last_msg_contents) {
                    (Some(s), Some(text)) => match (lookup_jid(table, s), text_first_line(text)) {
                        (Some(sj), Some(line)) => Indicator::LastMessage { sender: db.display_jid(&sj), line },
                        _ => Indicator::Nothing,
                    },
                    _ => Indicator::Nothing,
                },
            };
            SidebarEntry::Known { name: c.name.clone(), indicator }
        },
    }
}

/// The chats of the chat list, in the order shown: the pinned ones, then
/// the others.
pub fn chat_list(db: &Data) -> (r: Vec<Jid>)
    ensures
        r@ == db.config.pins@ + db.order@,
{
    let mut out: Vec<Jid> = Vec::new();
    let mut i: usize = 0;
    while i < db.config.pins.len()
        invariant
            i <= db.config.pins@.len(),
            out@ == db.config.pins@.take(i as int),
        decreases db.config.pins@.len() - i,
    {
        out.push(db.config.pins[i].clone());
        assert(db.config.pins@.take(i + 1) =~= db.config.pins@.take(i as int).push(db.config.pins@[i as int]));
        i += 1;
    }
    let mut j: usize = 0;
    assert(db.config.pins@.take(db.config.pins@.len() as int) =~= db.config.pins@);
    while j < db.order.len()
        invariant
            j <= db.order@.len(),
            out@ == db.config.pins@ + db.order@.take(j as int),
        decreases db.order@.len() - j,
    {
        out.push(db.order[j].clone());
        assert(db.order@.take(j + 1) =~= db.order@.take(j as int).push(db.order@[j as int]));
        j += 1;
    }
    assert(db.order@.take(db.order@.len() as int) =~= db.order@);
    out
}

} // verus!
