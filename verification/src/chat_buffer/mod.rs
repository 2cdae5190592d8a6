//! The window of messages shown for the open chat: which part of the chat
//! is loaded, how loaded messages are drawn, and how the window is kept
//! within its size limit.

use vstd::prelude::*;

use std::collections::VecDeque;

pub mod db_load;

use crate::chat_buffer::db_load::{find_key, lemma_key_index, take_key, text_entry, without_key, DbLoadResult};
use crate::rich_text::{drawn_as, markup_spans, push_char, rich_text, RichSpan};
use crate::storage::message::{MsgData, ReactionData};
use crate::storage::{parse_error, parse_error_text, Data, Jid, Time};

verus! {

/// The most messages the window holds.
pub const MSG_LIMIT: usize = 600;

/// The part of a message shown both for the message and when it is quoted.
#[derive(Clone, Debug)]
pub struct RMessageCore {
    /// The text, as drawn.
    pub text: Vec<RichSpan>,
    /// The message id.
    pub id: String,
    pub sender: Jid,
    pub sender_name: String,
}

/// A reaction as shown under a message.
pub struct RenderedReaction {
    pub sender_name: String,
    pub sender: Jid,
    pub emoji: String,
    pub from_me: bool,
}

/// A message as shown in the window.
pub struct RenderedMessage {
    pub message: RMessageCore,
    /// The message this one replies to, when it is known.
    pub replying_to: Option<RMessageCore>,
    pub reactions: Vec<RenderedReaction>,
    /// The time, as shown.
    pub time_display: String,
    pub timestamp: Time,
    pub is_edited: bool,
    /// The sender's name is left out because the message before it has the
    /// same sender.
    pub hide_sender: bool,
    pub from_me: bool,
}

/// The loaded part of the open chat.
pub struct ChatBuffer {
    /// The messages, oldest first.
    pub messages: VecDeque<RenderedMessage>,
    /// Older messages are loaded from before this time.
    pub start_ts: Time,
    /// Newer messages are loaded from after this time.
    pub end_ts: Time,
    /// The chat.
    pub viewing: Jid,
    /// The chat's address id.
    pub viewing_id: String,
    /// A load of older messages is under way.
    pub debounce_up: bool,
    /// A load of newer messages is under way.
    pub debounce_down: bool,
}

/// What to load: messages of chat `viewing` from before (`is_reverse`) or
/// after `timestamp`.
#[derive(Clone, Debug)]
pub struct LoadRequest {
    pub is_reverse: bool,
    pub timestamp: Time,
    pub viewing: String,
}

/// A request to load in direction `reverse` answered `r` (`true`: one is
/// already under way) and marked that direction as loading.
pub open spec fn debounce_step(before: ChatBuffer, reverse: bool, r: bool, after: ChatBuffer) -> bool {
    &&& r == if reverse {
        before.debounce_up
    } else {
        before.debounce_down
    }
    &&& after.debounce_up == (before.debounce_up || reverse)
    &&& after.debounce_down == (before.debounce_down || !reverse)
}

/// A load in direction `reverse` came back: that direction no longer
/// counts as loading.
pub open spec fn load_finished(before: ChatBuffer, reverse: bool, after: ChatBuffer) -> bool {
    &&& after.debounce_up == (before.debounce_up && !reverse)
    &&& after.debounce_down == (before.debounce_down && reverse)
}

/// The window reaches the chat's last message: the chat has a contact and
/// the window ends at its last message time.
pub open spec fn reaches_latest(b: ChatBuffer, db: Data) -> bool {
    db.contact(b.viewing.id@) matches Some(c) && c.last_message_time == b.end_ts
}

/// There are newer messages to load: the chat has a contact whose last
/// message time is not where the window ends.
pub open spec fn more_below(b: ChatBuffer, db: Data) -> bool {
    db.contact(b.viewing.id@) matches Some(c) && c.last_message_time != b.end_ts
}

/// The character of a decimal digit.
pub open spec fn digit(d: nat) -> char {
    if d == 0 {
        '0'
    } else if d == 1 {
        '1'
    } else if d == 2 {
        '2'
    } else if d == 3 {
        '3'
    } else if d == 4 {
        '4'
    } else if d == 5 {
        '5'
    } else if d == 6 {
        '6'
    } else if d == 7 {
        '7'
    } else if d == 8 {
        '8'
    } else {
        '9'
    }
}

/// The decimal form of `n`, without leading zeros.
pub open spec fn decimal(n: nat) -> Seq<char>
    decreases n,
{
    if n < 10 {
        seq![digit(n)]
    } else {
        decimal(n / 10).push(digit(n % 10))
    }
}

fn digit_char(d: u64) -> (c: char)
    requires
        d < 10,
    ensures
        c == digit(d as nat),
{
    if d == 0 {
        '0'
    } else if d == 1 {
        '1'
    } else if d == 2 {
        '2'
    } else if d == 3 {
        '3'
    } else if d == 4 {
        '4'
    } else if d == 5 {
        '5'
    } else if d == 6 {
        '6'
    } else if d == 7 {
        '7'
    } else if d == 8 {
        '8'
    } else {
        '9'
    }
}

/// The decimal form of a number.
pub fn decimal_text(n: u64) -> (r: String)
    ensures
        r@ == decimal(n as nat),
{
    // digits[i] is the digit of 10^i, lowest first
    let mut digits: Vec<char> = Vec::new();
    let mut m: u64 = n;
    let ghost mut tail: Seq<char> = Seq::empty();
    while m >= 10
        invariant
            decimal(n as nat) == decimal(m as nat) + tail,
            tail.len() == digits@.len(),
            forall|i: int| 0 <= i < tail.len() ==> tail[i] == digits@[digits@.len() - 1 - i],
        decreases m,
    {
        let d = digit_char(m % 10);
        proof {
            assert(decimal(m as nat) == decimal((m / 10) as nat).push(digit((m % 10) as nat)));
            assert(decimal(m as nat) + tail =~= decimal((m / 10) as nat) + (seq![d] + tail));
            tail = seq![d] + tail;
        }
        digits.push(d);
        m = m / 10;
    }
    let mut out = String::new();
    push_char(&mut out, digit_char(m));
    let mut i: usize = digits.len();
    while i > 0
        invariant
            i <= digits@.len(),
            tail.len() == digits@.len(),
            forall|t: int| 0 <= t < tail.len() ==> tail[t] == digits@[digits@.len() - 1 - t],
            out@ == seq![digit(m as nat)] + tail.take(digits@.len() - i),
        decreases i,
    {
        push_char(&mut out, digits[i - 1]);
        assert(tail.take(digits@.len() - (i - 1)) =~= tail.take(digits@.len() - i).push(digits@[i - 1]));
        i -= 1;
    }
    assert(tail.take(digits@.len() as int) =~= tail);
    out
}

/// `text` is the drawn form of the markup in `source`.
pub open spec fn draws(text: Seq<RichSpan>, source: Seq<char>) -> bool {
    &&& text.len() == markup_spans(source).len()
    &&& forall|i: int|
        0 <= i < text.len() ==> drawn_as(#[trigger] text[i], markup_spans(source)[i].0, markup_spans(source)[i].1)
}

/// `c` shows message `id` with text `text` from `sender`, named as `db`
/// names it.
pub open spec fn core_of(c: RMessageCore, db: Data, text: Seq<char>, id: Seq<char>, sender: Jid) -> bool {
    &&& draws(c.text@, text)
    &&& c.id@ == id
    &&& c.sender == sender
    &&& c.sender_name@ == db.display_name(sender)
}

/// Draws a message text with its id and sender.
fn render_core(db: &Data, text: &String, id: String, sender: Jid) -> (c: RMessageCore)
    ensures
        core_of(c, *db, text@, id@, sender),
{
    let spans = rich_text(text.as_str());
    let sender_name = db.display_jid(&sender);
    RMessageCore { text: spans, id, sender, sender_name }
}

/// `rr` shows reaction `r` from `sender`.
pub open spec fn reaction_of(rr: RenderedReaction, db: Data, r: ReactionData, sender: Jid) -> bool {
    &&& rr.sender_name@ == db.display_name(sender)
    &&& rr.sender == sender
    &&& rr.emoji == r.emoji
    &&& rr.from_me == r.from_me
}

/// The reactions to message `id`, in order.
pub open spec fn with_message(rs: Seq<ReactionData>, id: Seq<char>) -> Seq<ReactionData>
    decreases rs.len(),
{
    if rs.len() == 0 {
        rs
    } else if rs.last().message_id@ == id {
        with_message(rs.drop_last(), id).push(rs.last())
    } else {
        with_message(rs.drop_last(), id)
    }
}

/// The reactions to other messages than `id`, in order.
pub open spec fn without_message(rs: Seq<ReactionData>, id: Seq<char>) -> Seq<ReactionData>
    decreases rs.len(),
{
    if rs.len() == 0 {
        rs
    } else if rs.last().message_id@ != id {
        without_message(rs.drop_last(), id).push(rs.last())
    } else {
        without_message(rs.drop_last(), id)
    }
}

/// The reactions whose sender address can be read (it is in `table`), each
/// with that address.
pub open spec fn readable(rs: Seq<ReactionData>, table: Seq<(String, Jid)>) -> Seq<(ReactionData, Jid)>
    decreases rs.len(),
{
    if rs.len() == 0 {
        Seq::empty()
    } else {
        let rest = readable(rs.drop_last(), table);
        match text_entry(table, rs.last().sender_id@) {
            Some(j) => rest.push((rs.last(), j)),
            None => rest,
        }
    }
}

/// Takes the reactions to message `id` out of `rs`, keeping the order of both.
fn extract_reactions(rs: &mut Vec<ReactionData>, id: &String) -> (out: Vec<ReactionData>)
    ensures
        out@ == with_message(old(rs)@, id@),
        final(rs)@ == without_message(old(rs)@, id@),
{
    let mut out: Vec<ReactionData> = Vec::new();
    let mut rest: Vec<ReactionData> = Vec::new();
    let mut i: usize = 0;
    while i < rs.len()
        invariant
            i <= rs@.len(),
            out@ == with_message(rs@.take(i as int), id@),
            rest@ == without_message(rs@.take(i as int), id@),
        decreases rs@.len() - i,
    {
        assert(rs@.take(i + 1).drop_last() =~= rs@.take(i as int));
        if rs[i].message_id == *id {
            out.push(rs[i].clone());
        } else {
            rest.push(rs[i].clone());
        }
        i += 1;
    }
    assert(rs@.take(rs@.len() as int) =~= rs@);
    *rs = rest;
    out
}

/// The address that `table` gives for `text`.
pub fn lookup_jid(table: &Vec<(String, Jid)>, text: &String) -> (r: Option<Jid>)
    ensures
        r == text_entry(table@, text@),
{
    proof {
        lemma_key_index(table@, text@);
    }
    match find_key(table, text) {
        Some(i) => Some(table[i].1.clone()),
        None => None,
    }
}

/// Draws the reactions whose sender can be read; the others are left out.
fn render_reactions(db: &Data, rs: Vec<ReactionData>, table: &Vec<(String, Jid)>) -> (out: Vec<RenderedReaction>)
    ensures
        out@.len() == readable(rs@, table@).len(),
        forall|i: int|
            0 <= i < out@.len() ==> reaction_of(
                #[trigger] out@[i],
                *db,
                readable(rs@, table@)[i].0,
                readable(rs@, table@)[i].1,
            ),
{
    let mut out: Vec<RenderedReaction> = Vec::new();
    let mut i: usize = 0;
    while i < rs.len()
        invariant
            i <= rs@.len(),
            out@.len() == readable(rs@.take(i as int), table@).len(),
            forall|t: int|
                0 <= t < out@.len() ==> reaction_of(
                    #[trigger] out@[t],
                    *db,
                    readable(rs@.take(i as int), table@)[t].0,
                    readable(rs@.take(i as int), table@)[t].1,
                ),
        decreases rs@.len() - i,
    {
        assert(rs@.take(i + 1).drop_last() =~= rs@.take(i as int));
        assert(rs@.take(i + 1).last() == rs@[i as int]);
        match lookup_jid(table, &rs[i].sender_id) {
            Some(sender) => {
                let sender_name = db.display_jid(&sender);
                out.push(
                    RenderedReaction {
                        sender_name,
                        sender,
                        emoji: rs[i].emoji.clone(),
                        from_me: rs[i].from_me,
                    },
                );
            },
            None => {},
        }
        i += 1;
    }
    assert(rs@.take(rs@.len() as int) =~= rs@);
    out
}

/// `m` shows message `msg` from `sender`, with `reply` as the message it
/// replies to (shown when its sender can be read) and `reactions` under it.
/// Whether the sender's name is hidden is not part of this.
pub open spec fn renders(
    m: RenderedMessage,
    db: Data,
    msg: MsgData,
    sender: Jid,
    reply: Option<MsgData>,
    reactions: Seq<(ReactionData, Jid)>,
    table: Seq<(String, Jid)>,
) -> bool {
    &&& core_of(m.message, db, msg.content@, msg.msg_id@, sender)
    &&& match reply {
        Some(rm) => match text_entry(table, rm.sender@) {
            Some(rj) => m.replying_to matches Some(c) && core_of(c, db, rm.content@, rm.msg_id@, rj),
            None => m.replying_to is None,
        },
        None => m.replying_to is None,
    }
    &&& m.reactions@.len() == reactions.len()
    &&& forall|i: int|
        0 <= i < reactions.len() ==> reaction_of(#[trigger] m.reactions@[i], db, reactions[i].0, reactions[i].1)
    &&& m.time_display@ == decimal(msg.timestamp.0 as nat)
    &&& m.timestamp == msg.timestamp
    &&& m.is_edited == msg.is_edited
    &&& m.from_me == msg.from_me
}

/// The replies left after the first `j` messages took theirs.
pub open spec fn replies_after(replies: Seq<(String, MsgData)>, msgs: Seq<MsgData>, j: nat) -> Seq<
    (String, MsgData),
>
    decreases j,
{
    if j == 0 {
        replies
    } else {
        without_key(replies_after(replies, msgs, (j - 1) as nat), msgs[j - 1].msg_id@)
    }
}

/// The reactions left after the first `j` messages took theirs.
pub open spec fn reactions_after(rs: Seq<ReactionData>, msgs: Seq<MsgData>, j: nat) -> Seq<ReactionData>
    decreases j,
{
    if j == 0 {
        rs
    } else {
        without_message(reactions_after(rs, msgs, (j - 1) as nat), msgs[j - 1].msg_id@)
    }
}

/// `m` shows the `j`-th loaded message of `r`: its sender's address read from
/// `table`, the reply and reactions it takes from what earlier messages
/// left.
pub open spec fn renders_loaded(m: RenderedMessage, db: Data, r: DbLoadResult, table: Seq<(String, Jid)>, j: int) -> bool {
    let msg = r.messages@[j];
    let rest = reactions_after(r.reactions@, r.messages@, j as nat);
    renders(
        m,
        db,
        msg,
        text_entry(table, msg.sender@).unwrap(),
        text_entry(replies_after(r.replies@, r.messages@, j as nat), msg.msg_id@),
        readable(with_message(rest, msg.msg_id@), table),
        table,
    )
}

/// The senders of the first `k` messages can be read.
pub open spec fn senders_known(msgs: Seq<MsgData>, table: Seq<(String, Jid)>, k: int) -> bool {
    forall|j: int| 0 <= j < k ==> #[trigger] text_entry(table, msgs[j].sender@) is Some
}

/// `a` and `b` agree but for whether the sender's name is hidden.
pub open spec fn same_but_hide(a: RenderedMessage, b: RenderedMessage) -> bool {
    &&& a.message == b.message
    &&& a.replying_to == b.replying_to
    &&& a.reactions == b.reactions
    &&& a.time_display == b.time_display
    &&& a.timestamp == b.timestamp
    &&& a.is_edited == b.is_edited
    &&& a.from_me == b.from_me
}

/// The time of the last loaded message, or zero when none was loaded.
pub open spec fn last_time(msgs: Seq<MsgData>) -> Time {
    if msgs.len() == 0 {
        Time(0)
    } else {
        msgs.last().timestamp
    }
}

/// Where the `t`-th of `k` loaded messages goes in a window that held `n`.
pub open spec fn placed(reverse: bool, n: int, k: int, t: int) -> int {
    if reverse {
        k - 1 - t
    } else {
        n + t
    }
}

/// Where the `i`-th message of the window goes once `k` messages are added.
pub open spec fn kept(reverse: bool, k: int, i: int) -> int {
    if reverse {
        k + i
    } else {
        i
    }
}

/// Whether the message at position `p` of the window hid its sender before
/// `k` messages were added: new messages do not.
pub open spec fn was_hidden(old: Seq<RenderedMessage>, reverse: bool, k: int, p: int) -> bool {
    if reverse {
        p >= k && old[p - k].hide_sender
    } else {
        p < old.len() && old[p].hide_sender
    }
}

/// Draws a loaded message.
fn render_message(
    db: &Data,
    msg: &MsgData,
    sender: Jid,
    reply: Option<MsgData>,
    reactions: Vec<ReactionData>,
    table: &Vec<(String, Jid)>,
) -> (m: RenderedMessage)
    ensures
        renders(m, *db, *msg, sender, reply, readable(reactions@, table@), table@),
        !m.hide_sender,
{
    let message = render_core(db, &msg.content, msg.msg_id.clone(), sender);
    let replying_to = match reply {
        Some(rm) => match lookup_jid(table, &rm.sender) {
            Some(rj) => Some(render_core(db, &rm.content, rm.msg_id.clone(), rj)),
            None => None,
        },
        None => None,
    };
    let reactions = render_reactions(db, reactions, table);
    RenderedMessage {
        message,
        replying_to,
        reactions,
        time_display: decimal_text(msg.timestamp.0),
        timestamp: msg.timestamp,
        is_edited: msg.is_edited,
        hide_sender: false,
        from_me: msg.from_me,
    }
}

impl RenderedMessage {
    /// Whether the header (sender, time) is drawn above the text: only for
    /// others' messages whose sender is not the same as the one before.
    pub fn show_top_bar(&self) -> (r: bool)
        ensures
            r == (!self.from_me && !self.hide_sender),
    {
        !self.from_me && !self.hide_sender
    }
}

impl ChatBuffer {
    /// An empty window on chat `chat`, placed at its last message (or at the
    /// time the data was loaded, when the chat has no contact). Both loads
    /// count as under way until the first ones come back.
    pub fn new(db: &Data, chat: Jid) -> (r: Self)
        ensures
            r.messages@.len() == 0,
            r.start_ts == match db.contact(chat.id@) {
                Some(c) => c.last_message_time,
                None => db.latest_timestamp,
            },
            r.end_ts == r.start_ts,
            r.viewing == chat,
            r.viewing_id@ == chat.id@,
            r.debounce_up,
            r.debounce_down,
    {
        let timestamp = match db.find_contact(&chat) {
            Some(i) => db.contacts[i].1.last_message_time,
            None => db.latest_timestamp,
        };
        let chat_id = chat.to_id();
        ChatBuffer {
            messages: VecDeque::new(),
            start_ts: timestamp,
            end_ts: timestamp,
            viewing: chat,
            viewing_id: chat_id,
            debounce_up: true,
            debounce_down: true,
        }
    }

    /// Whether a load in this direction is already under way (`true`: do
    /// not start another). Otherwise marks it as under way.
    pub fn debounce(&mut self, reverse: bool) -> (r: bool)
        ensures
            debounce_step(*old(self), reverse, r, *final(self)),
            final(self).messages == old(self).messages,
            final(self).start_ts == old(self).start_ts,
            final(self).end_ts == old(self).end_ts,
            final(self).viewing == old(self).viewing,
            final(self).viewing_id == old(self).viewing_id,
    {
        if reverse {
            if self.debounce_up {
                return true;
            }
            self.debounce_up = true;
        } else {
            if self.debounce_down {
                return true;
            }
            self.debounce_down = true;
        }
        false
    }

    /// Adds the messages of a finished load: in front, newest first, when
    /// loading older messages, else at the back. Each is drawn with its
    /// sender named, the reply and reactions that the load found for it (a
    /// message whose id comes again gets nothing more), a reply or reaction
    /// being left out when its sender's address cannot be read. The sender
    /// addresses are read from `table`. When a message's sender cannot be read
    /// the load stops there with the
    /// [`parse_error`] for that address text; otherwise
    /// each message whose sender is the one of the message before it hides
    /// the sender's name, and the window's start (or end) moves back (or on)
    /// to the time of the last loaded message. Either way the load no longer
    /// counts as under way.
    pub fn loaded(&mut self, db: &Data, r: DbLoadResult, table: &Vec<(String, Jid)>) -> (res: Result<(), String>)
        ensures
            final(self).viewing == old(self).viewing,
            final(self).viewing_id == old(self).viewing_id,
            load_finished(*old(self), r.is_reverse, *final(self)),
            ({
                let n = old(self).messages@.len() as int;
                let fin = final(self).messages@;
                let k = fin.len() - n;
                &&& 0 <= k <= r.messages@.len()
                &&& senders_known(r.messages@, table@, k)
                &&& k < r.messages@.len() ==> text_entry(table@, r.messages@[k].sender@) is None
                &&& match res {
                    Ok(_) => k == r.messages@.len(),
                    Err(e) => k < r.messages@.len() && e@ == parse_error_text(r.messages@[k].sender@),
                }
                &&& forall|t: int|
                    0 <= t < k ==> renders_loaded(#[trigger] fin[placed(r.is_reverse, n, k, t)], *db, r, table@, t)
                &&& forall|i: int|
                    0 <= i < n ==> same_but_hide(#[trigger] fin[kept(r.is_reverse, k, i)], old(self).messages@[i])
                &&& forall|p: int|
                    0 <= p < fin.len() ==> (#[trigger] fin[p]).hide_sender == (was_hidden(
                        old(self).messages@,
                        r.is_reverse,
                        k,
                        p,
                    ) || (res is Ok && p > 0 && fin[p].message.sender.id@ == fin[p - 1].message.sender.id@))
            }),
            res is Ok && r.is_reverse ==> final(self).start_ts == (if old(self).start_ts.0 > last_time(
                r.messages@,
            ).0 {
                last_time(r.messages@)
            } else {
                old(self).start_ts
            }) && final(self).end_ts == old(self).end_ts,
            res is Ok && !r.is_reverse ==> final(self).end_ts == (if old(self).end_ts.0 < last_time(
                r.messages@,
            ).0 {
                last_time(r.messages@)
            } else {
                old(self).end_ts
            }) && final(self).start_ts == old(self).start_ts,
            res is Err ==> final(self).start_ts == old(self).start_ts && final(self).end_ts == old(self).end_ts,
    {
        let ghost r0 = r;
        let reverse = r.is_reverse;
        if reverse {
            self.debounce_up = false;
        } else {
            self.debounce_down = false;
        }
        let DbLoadResult { messages, mut reactions, mut replies, is_reverse: _ } = r;
        let ghost n0 = self.messages@.len() as int;
        let ghost old_msgs = self.messages@;
        let mut ts = Time(0);
        let mut j: usize = 0;
        while j < messages.len()
            invariant
                j <= messages@.len(),
                r0 == r,
                messages == r0.messages,
                reverse == r0.is_reverse,
                replies@ == replies_after(r0.replies@, messages@, j as nat),
                reactions@ == reactions_after(r0.reactions@, messages@, j as nat),
                self.messages@.len() == n0 + j,
                n0 == old_msgs.len(),
                old_msgs == old(self).messages@,
                forall|t: int|
                    0 <= t < j ==> renders_loaded(
                        #[trigger] self.messages@[placed(reverse, n0, j as int, t)],
                        *db,
                        r0,
                        table@,
                        t,
                    ),
                forall|t: int| 0 <= t < j ==> !(#[trigger] self.messages@[placed(reverse, n0, j as int, t)]).hide_sender,
                forall|i: int| 0 <= i < n0 ==> #[trigger] self.messages@[kept(reverse, j as int, i)] == old_msgs[i],
                senders_known(messages@, table@, j as int),
                ts == if j == 0 {
                    Time(0)
                } else {
                    messages@[j - 1].timestamp
                },
                self.start_ts == old(self).start_ts,
                self.end_ts == old(self).end_ts,
                self.viewing == old(self).viewing,
                self.viewing_id == old(self).viewing_id,
                self.debounce_up == (old(self).debounce_up && !reverse),
                self.debounce_down == (old(self).debounce_down && reverse),
            decreases messages@.len() - j,
        {
            ts = messages[j].timestamp;
            let sender = match lookup_jid(table, &messages[j].sender) {
                Some(s) => s,
                None => {
                    proof {
                        let fin = self.messages@;
                        let k = j as int;
                        assert forall|p: int| 0 <= p < fin.len() implies (#[trigger] fin[p]).hide_sender
                            == was_hidden(old_msgs, reverse, k, p) by {
                            if reverse {
                                if p >= k {
                                    assert(fin[kept(reverse, k, p - k)] == old_msgs[p - k]);
                                } else {
                                    assert(!fin[placed(reverse, n0, k, k - 1 - p)].hide_sender);
                                }
                            } else {
                                if p < n0 {
                                    assert(fin[kept(reverse, k, p)] == old_msgs[p]);
                                } else {
                                    assert(!fin[placed(reverse, n0, k, p - n0)].hide_sender);
                                }
                            }
                        }
                    }
                    return Err(parse_error(&messages[j].sender));
                },
            };
            proof {
                lemma_key_index(replies@, messages@[j as int].msg_id@);
            }
            let reply = take_key(&mut replies, &messages[j].msg_id);
            let mine = extract_reactions(&mut reactions, &messages[j].msg_id);
            let rendered = render_message(db, &messages[j], sender, reply, mine, table);
            let ghost before = self.messages@;
            if reverse {
                self.messages.push_front(rendered);
            } else {
                self.messages.push_back(rendered);
            }
            proof {
                assert forall|i: int| 0 <= i < n0 implies #[trigger] self.messages@[kept(reverse, j + 1, i)]
                    == old_msgs[i] by {
                    assert(before[kept(reverse, j as int, i)] == old_msgs[i]);
                }
                assert forall|t: int| 0 <= t < j + 1 implies renders_loaded(
                    #[trigger] self.messages@[placed(reverse, n0, j + 1, t)],
                    *db,
                    r0,
                    table@,
                    t,
                ) && !self.messages@[placed(reverse, n0, j + 1, t)].hide_sender by {
                    if t < j {
                        assert(self.messages@[placed(reverse, n0, j + 1, t)] == before[placed(
                            reverse,
                            n0,
                            j as int,
                            t,
                        )]);
                    } else {
                        assert(self.messages@[placed(reverse, n0, j + 1, t)] == rendered);
                    }
                }
            }
            j += 1;
        }
        let ghost pre = self.messages@;
        let ghost s1 = *self;
        let mut i: usize = 1;
        while i < self.messages.len()
            invariant
                1 <= i <= pre.len() + 1,
                self.messages@.len() == pre.len(),
                forall|t: int| 0 <= t < pre.len() ==> same_but_hide(#[trigger] self.messages@[t], pre[t]),
                forall|t: int|
                    0 <= t < pre.len() ==> (#[trigger] self.messages@[t]).hide_sender == if t < i {
                        pre[t].hide_sender || (t > 0 && pre[t].message.sender.id@ == pre[t - 1].message.sender.id@)
                    } else {
                        pre[t].hide_sender
                    },
                self.start_ts == s1.start_ts,
                self.end_ts == s1.end_ts,
                self.viewing == s1.viewing,
                self.viewing_id == s1.viewing_id,
                self.debounce_up == s1.debounce_up,
                self.debounce_down == s1.debounce_down,
            decreases pre.len() - i,
        {
            if self.messages[i].message.sender.same(&self.messages[i - 1].message.sender) {
                let ghost cur = self.messages@;
                match self.messages.remove(i) {
                    Some(m) => {
                        let mut m = m;
                        m.hide_sender = true;
                        self.messages.insert(i, m);
                        assert(self.messages@ =~= cur.update(i as int, m));
                    },
                    None => {},
                }
            }
            i += 1;
        }
        if reverse {
            if self.start_ts.0 > ts.0 {
                self.start_ts = ts;
            }
        } else if self.end_ts.0 < ts.0 {
            self.end_ts = ts;
        }
        proof {
            let fin = self.messages@;
            let k = j as int;
            assert forall|p: int| 0 <= p < fin.len() implies pre[p].hide_sender == was_hidden(
                old_msgs,
                reverse,
                k,
                p,
            ) by {
                if reverse {
                    if p >= k {
                        assert(pre[kept(reverse, k, p - k)] == old_msgs[p - k]);
                    } else {
                        assert(pre[placed(reverse, n0, k, k - 1 - p)].hide_sender == false);
                    }
                } else {
                    if p < n0 {
                        assert(pre[kept(reverse, k, p)] == old_msgs[p]);
                    } else {
                        assert(pre[placed(reverse, n0, k, p - n0)].hide_sender == false);
                    }
                }
            }
            assert forall|p: int| 0 < p < fin.len() implies #[trigger] pre[p].message.sender == fin[p].message.sender
                && pre[p - 1].message.sender == fin[p - 1].message.sender by {
                assert(same_but_hide(fin[p], pre[p]));
                assert(same_but_hide(fin[p - 1], pre[p - 1]));
            }
            assert forall|t: int| 0 <= t < k implies renders_loaded(
                #[trigger] fin[placed(reverse, n0, k, t)],
                *db,
                r0,
                table@,
                t,
            ) by {
                assert(same_but_hide(fin[placed(reverse, n0, k, t)], pre[placed(reverse, n0, k, t)]));
            }
            assert forall|q: int| 0 <= q < n0 implies same_but_hide(
                #[trigger] fin[kept(reverse, k, q)],
                old_msgs[q],
            ) by {
                assert(same_but_hide(fin[kept(reverse, k, q)], pre[kept(reverse, k, q)]));
            }
            assert(ts == last_time(messages@));
        }
        Ok(())
    }

    /// Trims the window after a load of `messages` messages so that it
    /// would hold no more than [`MSG_LIMIT`] with another such load: from the
    /// newest end after loading older messages, from the oldest end
    /// otherwise. The window's end (or start) then moves back (or on) to the
    /// time of the message now at that end.
    pub fn shrink(&mut self, messages: usize, reverse: bool)
        requires
            messages <= MSG_LIMIT,
        ensures
            final(self).messages@.len() + messages <= MSG_LIMIT || final(self).messages@ == old(self).messages@,
            ({
                let n = old(self).messages@.len();
                let keep = if n + messages > MSG_LIMIT {
                    MSG_LIMIT - messages
                } else {
                    n as int
                };
                final(self).messages@ == if reverse {
                    old(self).messages@.take(keep)
                } else {
                    old(self).messages@.skip(n - keep)
                }
            }),
            ({
                let fin = final(self).messages@;
                if reverse {
                    &&& final(self).start_ts == old(self).start_ts
                    &&& final(self).end_ts == if fin.len() > 0 && old(self).end_ts.0 > fin.last().timestamp.0 {
                        fin.last().timestamp
                    } else {
                        old(self).end_ts
                    }
                } else {
                    &&& final(self).end_ts == old(self).end_ts
                    &&& final(self).start_ts == if fin.len() > 0 && old(self).start_ts.0 < fin[0].timestamp.0 {
                        fin[0].timestamp
                    } else {
                        old(self).start_ts
                    }
                }
            }),
            final(self).viewing == old(self).viewing,
            final(self).viewing_id == old(self).viewing_id,
            final(self).debounce_up == old(self).debounce_up,
            final(self).debounce_down == old(self).debounce_down,
    {
        let ghost n = self.messages@.len();
        while self.messages.len() > MSG_LIMIT - messages
            invariant
                messages <= MSG_LIMIT,
                self.messages@.len() <= n,
                n == old(self).messages@.len(),
                self.messages@ == if reverse {
                    old(self).messages@.take(self.messages@.len() as int)
                } else {
                    old(self).messages@.skip(n - self.messages@.len())
                },
                n + messages > MSG_LIMIT || self.messages@.len() == n,
                self.messages@.len() == n || self.messages@.len() >= MSG_LIMIT - messages,
                self.start_ts == old(self).start_ts,
                self.end_ts == old(self).end_ts,
                self.viewing == old(self).viewing,
                self.viewing_id == old(self).viewing_id,
                self.debounce_up == old(self).debounce_up,
                self.debounce_down == old(self).debounce_down,
            decreases self.messages@.len(),
        {
            let ghost before = self.messages@;
            if reverse {
                self.messages.pop_back();
                assert(self.messages@ =~= old(self).messages@.take(self.messages@.len() as int));
            } else {
                self.messages.pop_front();
                assert(self.messages@ =~= old(self).messages@.skip(n - self.messages@.len()));
            }
        }
        assert(old(self).messages@.take(n as int) =~= old(self).messages@);
        assert(old(self).messages@.skip(0) =~= old(self).messages@);
        if reverse {
            let len = self.messages.len();
            if len > 0 {
                let last = self.messages[len - 1].timestamp;
                if self.end_ts.0 > last.0 {
                    self.end_ts = last;
                }
            }
        } else if self.messages.len() > 0 {
            let first = self.messages[0].timestamp;
            if self.start_ts.0 < first.0 {
                self.start_ts = first;
            }
        }
    }

    /// Adds a reaction from `sender` under the first message with id `msg_id`;
    /// nothing happens when the window has no such message.
    pub fn add_reaction(&mut self, db: &Data, msg_id: &String, emoji: String, sender: Jid, from_me: bool)
        ensures
            final(self).start_ts == old(self).start_ts,
            final(self).end_ts == old(self).end_ts,
            final(self).viewing == old(self).viewing,
            final(self).viewing_id == old(self).viewing_id,
            final(self).debounce_up == old(self).debounce_up,
            final(self).debounce_down == old(self).debounce_down,
            final(self).messages@.len() == old(self).messages@.len(),
            (forall|i: int| 0 <= i < old(self).messages@.len() ==> old(self).messages@[i].message.id@ != msg_id@)
                ==> final(self).messages@ == old(self).messages@,
            forall|i: int|
                0 <= i < old(self).messages@.len() && (#[trigger] old(self).messages@[i]).message.id@ == msg_id@ && (
                forall|j: int| 0 <= j < i ==> old(self).messages@[j].message.id@ != msg_id@) ==> {
                    &&& forall|t: int|
                        0 <= t < old(self).messages@.len() && t != i ==> final(self).messages@[t] == old(
                            self,
                        ).messages@[t]
                    &&& final(self).messages@[i].message == old(self).messages@[i].message
                    &&& final(self).messages@[i].replying_to == old(self).messages@[i].replying_to
                    &&& final(self).messages@[i].time_display == old(self).messages@[i].time_display
                    &&& final(self).messages@[i].timestamp == old(self).messages@[i].timestamp
                    &&& final(self).messages@[i].is_edited == old(self).messages@[i].is_edited
                    &&& final(self).messages@[i].hide_sender == old(self).messages@[i].hide_sender
                    &&& final(self).messages@[i].from_me == old(self).messages@[i].from_me
                    &&& final(self).messages@[i].reactions@.len() == old(self).messages@[i].reactions@.len() + 1
                    &&& forall|t: int|
                        0 <= t < old(self).messages@[i].reactions@.len() ==> final(self).messages@[i].reactions@[t]
                            == old(self).messages@[i].reactions@[t]
                    &&& final(self).messages@[i].reactions@.last().sender_name@ == db.display_name(sender)
                    &&& final(self).messages@[i].reactions@.last().sender == sender
                    &&& final(self).messages@[i].reactions@.last().emoji == emoji
                    &&& final(self).messages@[i].reactions@.last().from_me == from_me
                },
    {
        let mut i: usize = 0;
        while i < self.messages.len()
            invariant
                i <= self.messages@.len(),
                *self == *old(self),
                forall|j: int| 0 <= j < i ==> self.messages@[j].message.id@ != msg_id@,
            decreases self.messages@.len() - i,
        {
            if self.messages[i].message.id == *msg_id {
                let ghost cur = self.messages@;
                let sender_name = db.display_jid(&sender);
                match self.messages.remove(i) {
                    Some(m) => {
                        let mut m = m;
                        let ghost before = m.reactions@;
                        m.reactions.push(RenderedReaction { sender_name, sender, emoji, from_me });
                        self.messages.insert(i, m);
                        assert(self.messages@ =~= cur.update(i as int, m));
                        assert(m.reactions@ == before.push(m.reactions@.last()));
                    },
                    None => {},
                }
                return;
            }
            i += 1;
        }
    }

    /// Whether the window reaches the chat's last message: the chat has a
    /// contact and the window ends at its last message time.
    pub fn at_latest(&self, db: &Data) -> (r: bool)
        ensures
            r == reaches_latest(*self, *db),
    {
        match db.find_contact(&self.viewing) {
            Some(i) => db.contacts[i].1.last_message_time.0 == self.end_ts.0,
            None => false,
        }
    }

    /// Which of the markers that load more messages when scrolled into view
    /// are shown: above the messages when there are any; below them when the
    /// chat has a contact and the window does not reach its last message.
    pub fn sensors(&self, db: &Data) -> (r: (bool, bool))
        ensures
            r.0 == (self.messages@.len() > 0),
            r.1 == more_below(*self, *db),
    {
        let down = match db.find_contact(&self.viewing) {
            Some(i) => db.contacts[i].1.last_message_time.0 != self.end_ts.0,
            None => false,
        };
        (self.messages.len() > 0, down)
    }

    /// The load to start in a direction: older messages from before the
    /// window's start, or newer ones from after its end.
    pub fn load_begin(&self, reverse: bool) -> (r: LoadRequest)
        ensures
            r.is_reverse == reverse,
            r.timestamp == if reverse {
                self.start_ts
            } else {
                self.end_ts
            },
            r.viewing@ == self.viewing_id@,
    {
        LoadRequest {
            is_reverse: reverse,
            timestamp: if reverse {
                self.start_ts
            } else {
                self.end_ts
            },
            viewing: self.viewing_id.clone(),
        }
    }
}

} // verus!
