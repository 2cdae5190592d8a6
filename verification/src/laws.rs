//! Properties of the chat state that span several operations.

use vstd::prelude::*;

use crate::chat_buffer::db_load::placeholders;
use crate::chat_buffer::{debounce_step, load_finished, more_below, reaches_latest, ChatBuffer};
use crate::session::{first_line, hovered_after, lemma_line_end, taken, text_set, widget_id, Drafts, MsgDraft};
use crate::storage::config::{lemma_pin_keeps_listing, lemma_unpin_keeps_listing, order_after, pins_after};
use crate::storage::contact::{applied, Contact, ContactOperation};
use crate::storage::{disjoint, ids, lemma_without_jid, unique, without_jid, Data, Jid, Time};

verus! {

/// While a load is under way, a second request in the same direction is
/// refused.
pub proof fn lemma_second_request_refused(
    b0: ChatBuffer,
    b1: ChatBuffer,
    b2: ChatBuffer,
    reverse: bool,
    r1: bool,
    r2: bool,
)
    requires
        debounce_step(b0, reverse, r1, b1),
        debounce_step(b1, reverse, r2, b2),
    ensures
        r2,
{
}

/// Once a load has come back, the next request in its direction is let
/// through.
pub proof fn lemma_finished_load_lets_next_through(b0: ChatBuffer, b1: ChatBuffer, b2: ChatBuffer, reverse: bool, r: bool)
    requires
        load_finished(b0, reverse, b1),
        debounce_step(b1, reverse, r, b2),
    ensures
        !r,
{
}

/// For a chat with a contact, the marker that loads newer messages is shown
/// exactly when the window does not reach the last message (when it does, a
/// new message is loaded into view instead).
pub proof fn lemma_more_below_unless_latest(b: ChatBuffer, db: Data)
    requires
        db.contact(b.viewing.id@) is Some,
    ensures
        more_below(b, db) == !reaches_latest(b, db),
{
}

/// Sending takes the text last typed into the chat's draft, and leaves no
/// draft behind; an empty text sends nothing.
pub proof fn lemma_sent_draft_is_typed_text(
    d0: Drafts,
    d1: Drafts,
    d2: Drafts,
    chat: Jid,
    text: String,
    r: Option<MsgDraft>,
)
    requires
        text_set(d0, chat, text, d1),
        taken(d1, chat, r, d2),
    ensures
        text@.len() > 0 ==> (r matches Some(d) && d.text == text),
        text@.len() == 0 ==> r is None,
        d2.draft(chat.id@) is None,
{
}

/// Applying the same contact change twice is the same as applying it once.
pub proof fn lemma_operation_idempotent(c: Contact, op: ContactOperation)
    ensures
        applied(applied(c, op), op) == applied(c, op),
{
}

/// A contact's last message time and last read time never move back.
pub proof fn lemma_times_never_go_back(c: Contact, op: ContactOperation)
    ensures
        applied(c, op).last_message_time.0 >= c.last_message_time.0,
        applied(c, op).last_read_message_time.0 >= c.last_read_message_time.0,
{
}

/// A message moves the last message time, text and sender together: a
/// message later than the contact's last one becomes it, whole; any other
/// leaves all three as they were.
pub proof fn lemma_message_moves_last_message_whole(
    c: Contact,
    time: Time,
    content: String,
    sender: String,
    is_read: bool,
)
    ensures
        ({
            let after = applied(c, ContactOperation::Message { time, content, sender, is_read });
            if c.last_message_time.0 < time.0 {
                &&& after.last_message_time == time
                &&& after.last_msg_contents == Some(content)
                &&& after.last_msg_sender == Some(sender)
            } else {
                &&& after.last_message_time == c.last_message_time
                &&& after.last_msg_contents == c.last_msg_contents
                &&& after.last_msg_sender == c.last_msg_sender
            }
        }),
        applied(c, ContactOperation::Message { time, content, sender, is_read }).muted == c.muted,
        applied(c, ContactOperation::Message { time, content, sender, is_read }).name == c.name,
{
}

/// A chat-list report always takes the muting it reports and marks the chat
/// as chatted, whatever the times; it never changes the last message text or
/// sender.
pub proof fn lemma_chat_report_sets_muting(c: Contact, is_unread: bool, is_muted: bool, time: Time)
    ensures
        applied(c, ContactOperation::ChatNotify { is_unread, is_muted, time }).muted == is_muted,
        applied(c, ContactOperation::ChatNotify { is_unread, is_muted, time }).chatted,
        applied(c, ContactOperation::ChatNotify { is_unread, is_muted, time }).last_msg_contents
            == c.last_msg_contents,
        applied(c, ContactOperation::ChatNotify { is_unread, is_muted, time }).last_msg_sender == c.last_msg_sender,
        applied(c, ContactOperation::ChatNotify { is_unread, is_muted, time }).last_message_time.0 == if c.last_message_time.0
            < time.0 {
            time.0
        } else {
            c.last_message_time.0
        },
{
}

/// Pinning a pinned chat again changes nothing.
pub proof fn lemma_pin_twice(pins: Seq<Jid>, order: Seq<Jid>, p: Jid)
    ensures
        pins_after(pins_after(pins, p, true), p, true) == pins_after(pins, p, true),
        order_after(order_after(order, pins, p, true), pins_after(pins, p, true), p, true) == order_after(
            order,
            pins,
            p,
            true,
        ),
{
    if !ids(pins).contains(p.id@) {
        assert(ids(pins.push(p)) =~= ids(pins).push(p.id@));
        assert(ids(pins.push(p))[ids(pins).len() as int] == p.id@);
    }
}

/// Dropping an id that is not there changes nothing.
proof fn lemma_without_absent(s: Seq<Jid>, x: Seq<char>)
    requires
        !ids(s).contains(x),
    ensures
        without_jid(s, x) == s,
    decreases s.len(),
{
    if s.len() > 0 {
        let p = s.drop_last();
        assert(ids(s) =~= ids(p).push(s.last().id@));
        assert(ids(s)[s.len() - 1] == s.last().id@);
        assert(!ids(p).contains(x)) by {
            if ids(p).contains(x) {
                let k = choose|k: int| 0 <= k < ids(p).len() && ids(p)[k] == x;
                assert(ids(s)[k] == x);
            }
        }
        lemma_without_absent(p, x);
        assert(s =~= p.push(s.last()));
    }
}

/// Unpinning a chat that was just pinned restores the pins, and puts the
/// chat at the top of the chat order.
pub proof fn lemma_unpin_undoes_pin(pins: Seq<Jid>, order: Seq<Jid>, p: Jid)
    requires
        !ids(pins).contains(p.id@),
    ensures
        pins_after(pins_after(pins, p, true), p, false) == pins,
        order_after(order_after(order, pins, p, true), pins_after(pins, p, true), p, false) == seq![p]
            + without_jid(order, p.id@),
{
    lemma_without_absent(pins, p.id@);
    let pp = pins.push(p);
    assert(pp.drop_last() =~= pins);
    assert(pp.last() == p);
    lemma_without_jid(order, p.id@);
}

/// Dropping an id twice is dropping it once.
proof fn lemma_without_twice(s: Seq<Jid>, x: Seq<char>)
    ensures
        without_jid(without_jid(s, x), x) == without_jid(s, x),
    decreases s.len(),
{
    if s.len() > 0 {
        lemma_without_twice(s.drop_last(), x);
        let r = without_jid(s.drop_last(), x);
        if s.last().id@ != x {
            assert(r.push(s.last()).drop_last() =~= r);
            assert(r.push(s.last()).last() == s.last());
        }
    }
}

/// An entry with id `x` added at the end disappears when `x` is dropped.
proof fn lemma_without_pushed(s: Seq<Jid>, p: Jid)
    ensures
        without_jid(s.push(p), p.id@) == without_jid(s, p.id@),
{
    assert(s.push(p).drop_last() =~= s);
    assert(s.push(p).last() == p);
}

/// An entry with id `x` put first disappears when `x` is dropped.
proof fn lemma_without_prepended(s: Seq<Jid>, p: Jid)
    ensures
        without_jid(seq![p] + s, p.id@) == without_jid(s, p.id@),
    decreases s.len(),
{
    if s.len() == 0 {
        let one = seq![p] + s;
        assert(one =~= seq![p]);
        assert(one.drop_last() =~= Seq::<Jid>::empty());
        assert(one.last() == p);
        assert(without_jid(one.drop_last(), p.id@) =~= Seq::<Jid>::empty());
        assert(without_jid(one, p.id@) =~= Seq::<Jid>::empty());
    } else {
        lemma_without_prepended(s.drop_last(), p);
        assert((seq![p] + s).drop_last() =~= seq![p] + s.drop_last());
        assert((seq![p] + s).last() == s.last());
    }
}

/// Pinning or unpinning a chat keeps both lists free of repeats and apart
/// from each other; afterwards a pinned chat is among the pins and not in
/// the chat order, an unpinned one the other way round; and every other
/// chat keeps its place relative to the rest in both lists.
pub proof fn lemma_pinning_keeps_lists(pins: Seq<Jid>, order: Seq<Jid>, pin: Jid, pinned: bool)
    requires
        unique(ids(pins)),
        unique(ids(order)),
        disjoint(ids(pins), ids(order)),
    ensures
        unique(ids(pins_after(pins, pin, pinned))),
        unique(ids(order_after(order, pins, pin, pinned))),
        disjoint(ids(pins_after(pins, pin, pinned)), ids(order_after(order, pins, pin, pinned))),
        pinned ==> ids(pins_after(pins, pin, pinned)).contains(pin.id@) && !ids(
            order_after(order, pins, pin, pinned),
        ).contains(pin.id@),
        !pinned ==> !ids(pins_after(pins, pin, pinned)).contains(pin.id@) && ids(
            order_after(order, pins, pin, pinned),
        ).contains(pin.id@),
        without_jid(pins_after(pins, pin, pinned), pin.id@) == without_jid(pins, pin.id@),
        without_jid(order_after(order, pins, pin, pinned), pin.id@) == without_jid(order, pin.id@),
{
    let x = pin.id@;
    lemma_without_jid(pins, x);
    lemma_without_jid(order, x);
    if pinned {
        if !ids(pins).contains(x) {
            lemma_pin_keeps_listing(pins, order, pin);
            lemma_without_pushed(pins, pin);
            lemma_without_twice(order, x);
            assert(ids(pins.push(pin)) =~= ids(pins).push(x));
            assert(ids(pins.push(pin))[ids(pins).len() as int] == x);
        } else {
            assert(!ids(order).contains(x));
        }
    } else {
        lemma_unpin_keeps_listing(pins, order, pin);
        lemma_without_twice(pins, x);
        if !ids(order).contains(x) {
            lemma_without_prepended(order, pin);
            assert(ids(seq![pin] + order) =~= seq![x] + ids(order));
            assert(ids(seq![pin] + order)[0] == x);
        }
    }
}

/// How often `c` occurs in `s`.
pub open spec fn count_char(s: Seq<char>, c: char) -> nat
    decreases s.len(),
{
    if s.len() == 0 {
        0
    } else {
        count_char(s.drop_last(), c) + if s.last() == c {
            1nat
        } else {
            0nat
        }
    }
}

/// The count of a character in a concatenation.
proof fn lemma_count_concat(a: Seq<char>, b: Seq<char>, c: char)
    ensures
        count_char(a + b, c) == count_char(a, c) + count_char(b, c),
    decreases b.len(),
{
    if b.len() > 0 {
        assert((a + b).drop_last() =~= a + b.drop_last());
        lemma_count_concat(a, b.drop_last(), c);
    } else {
        assert(a + b =~= a);
    }
}

/// A query list of `len` placeholders has one `?` for each value bound to
/// it.
pub proof fn lemma_one_placeholder_per_value(len: nat)
    ensures
        count_char(placeholders(len), '?') == len,
    decreases len,
{
    if len > 1 {
        lemma_one_placeholder_per_value((len - 1) as nat);
        lemma_count_concat(placeholders((len - 1) as nat), seq![',', ' ', '?'], '?');
        reveal_with_fuel(count_char, 4);
    } else if len == 1 {
        reveal_with_fuel(count_char, 2);
    }
}

/// The first line of a text holds no line break.
pub proof fn lemma_first_line_unbroken(t: Seq<char>)
    ensures
        first_line(t) matches Some(l) ==> !l.contains('\n'),
{
    if t.len() > 0 {
        lemma_line_end(t);
    }
}

/// Different messages have different widget ids, so a reply scrolls to
/// the message it quotes.
pub proof fn lemma_widget_ids_distinct(a: Seq<char>, b: Seq<char>)
    requires
        widget_id(a) == widget_id(b),
    ensures
        a == b,
{
    assert(a =~= widget_id(a).subrange(4, widget_id(a).len() as int));
    assert(b =~= widget_id(b).subrange(4, widget_id(b).len() as int));
}

/// Leaving the message the pointer just entered leaves nothing hovered.
pub proof fn lemma_leave_after_enter(current: Option<String>, msg_id: String)
    ensures
        hovered_after(hovered_after(current, msg_id, true), msg_id, false) is None,
{
}

} // verus!
