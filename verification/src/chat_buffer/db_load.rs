//! What a load of the message window brings back from the database, and the
//! query text and reply bookkeeping around it.

use vstd::prelude::*;

use crate::rich_text::push_char;
use crate::storage::message::{MsgData, ReactionData};

verus! {

/// The most messages one load brings.
pub const MSG_LOAD_LIMIT: usize = 200;

/// The result of loading part of a chat.
#[derive(Clone, Debug)]
pub struct DbLoadResult {
    /// The messages, in the order the query returned them: newest first
    /// when loading older messages, oldest first otherwise.
    pub messages: Vec<MsgData>,
    pub reactions: Vec<ReactionData>,
    /// The message each loaded message replies to, under the id of the
    /// replying message.
    pub replies: Vec<(String, MsgData)>,
    /// `true` when loading older messages (scrolling up).
    pub is_reverse: bool,
}

/// The index of the first entry stored under `key`.
pub open spec fn key_index<V>(entries: Seq<(String, V)>, key: Seq<char>) -> Option<int>
    decreases entries.len(),
{
    if entries.len() == 0 {
        None
    } else if entries[0].0@ == key {
        Some(0)
    } else {
        match key_index(entries.drop_first(), key) {
            Some(i) => Some(i + 1),
            None => None,
        }
    }
}

/// The value stored under `key`.
pub open spec fn text_entry<V>(entries: Seq<(String, V)>, key: Seq<char>) -> Option<V> {
    match key_index(entries, key) {
        Some(i) => Some(entries[i].1),
        None => None,
    }
}

/// The entries without the one stored under `key`.
pub open spec fn without_key<V>(entries: Seq<(String, V)>, key: Seq<char>) -> Seq<(String, V)> {
    match key_index(entries, key) {
        Some(i) => entries.remove(i),
        None => entries,
    }
}

/// The entries with `v` stored under `key`: the stored value is replaced,
/// or a new entry added at the end.
pub open spec fn with_entry<V>(entries: Seq<(String, V)>, key: String, v: V) -> Seq<(String, V)> {
    match key_index(entries, key@) {
        Some(i) => entries.update(i, (entries[i].0, v)),
        None => entries.push((key, v)),
    }
}

/// `key_index` finds the first entry under the key, and only when there is one.
pub proof fn lemma_key_index<V>(entries: Seq<(String, V)>, key: Seq<char>)
    ensures
        match key_index(entries, key) {
            Some(i) => {
                &&& 0 <= i < entries.len()
                &&& entries[i].0@ == key
                &&& forall|j: int| 0 <= j < i ==> entries[j].0@ != key
            },
            None => forall|j: int| 0 <= j < entries.len() ==> entries[j].0@ != key,
        },
    decreases entries.len(),
{
    if entries.len() > 0 && entries[0].0@ != key {
        let rest = entries.drop_first();
        lemma_key_index(rest, key);
        assert forall|j: int| 0 < j < entries.len() implies entries[j] == rest[j - 1] by {}
    }
}

/// Finds the first entry stored under `key`.
pub fn find_key<V>(entries: &Vec<(String, V)>, key: &String) -> (r: Option<usize>)
    ensures
        r matches Some(i) ==> key_index(entries@, key@) == Some(i as int),
        r is None ==> key_index(entries@, key@) is None,
{
    proof {
        lemma_key_index(entries@, key@);
    }
    let mut i: usize = 0;
    while i < entries.len()
        invariant
            i <= entries@.len(),
            forall|j: int| 0 <= j < i ==> entries@[j].0@ != key@,
        decreases entries@.len() - i,
    {
        if entries[i].0 == *key {
            proof {
                lemma_key_index(entries@, key@);
            }
            return Some(i);
        }
        i += 1;
    }
    None
}

/// Removes and returns the value stored under `key`.
pub fn take_key<V>(entries: &mut Vec<(String, V)>, key: &String) -> (r: Option<V>)
    ensures
        r == text_entry(old(entries)@, key@),
        final(entries)@ == without_key(old(entries)@, key@),
{
    proof {
        lemma_key_index(entries@, key@);
    }
    match find_key(entries, key) {
        Some(i) => {
            let (_, v) = entries.remove(i);
            Some(v)
        },
        None => None,
    }
}

/// Stores `v` under `key`, replacing the value stored there.
pub fn put_key<V>(entries: &mut Vec<(String, V)>, key: String, v: V)
    ensures
        final(entries)@ == with_entry(old(entries)@, key, v),
{
    proof {
        lemma_key_index(entries@, key@);
    }
    match find_key(entries, &key) {
        Some(i) => {
            let old_key = entries[i].0.clone();
            entries.set(i, (old_key, v));
        },
        None => {
            entries.push((key, v));
        },
    }
}

/// The index of the first message with id `id`.
pub open spec fn first_with_id(msgs: Seq<MsgData>, id: Seq<char>) -> Option<int>
    decreases msgs.len(),
{
    if msgs.len() == 0 {
        None
    } else if msgs[0].msg_id@ == id {
        Some(0)
    } else {
        match first_with_id(msgs.drop_first(), id) {
            Some(i) => Some(i + 1),
            None => None,
        }
    }
}

/// `first_with_id` finds the first message with the id, and only when there
/// is one.
pub proof fn lemma_first_with_id(msgs: Seq<MsgData>, id: Seq<char>)
    ensures
        match first_with_id(msgs, id) {
            Some(i) => {
                &&& 0 <= i < msgs.len()
                &&& msgs[i].msg_id@ == id
                &&& forall|j: int| 0 <= j < i ==> msgs[j].msg_id@ != id
            },
            None => forall|j: int| 0 <= j < msgs.len() ==> msgs[j].msg_id@ != id,
        },
    decreases msgs.len(),
{
    if msgs.len() > 0 && msgs[0].msg_id@ != id {
        let rest = msgs.drop_first();
        lemma_first_with_id(rest, id);
        assert forall|j: int| 0 < j < msgs.len() implies msgs[j] == rest[j - 1] by {}
    }
}

/// Finds the first message with id `id`.
fn find_message(msgs: &Vec<MsgData>, id: &String) -> (r: Option<usize>)
    ensures
        r matches Some(i) ==> first_with_id(msgs@, id@) == Some(i as int),
        r is None ==> first_with_id(msgs@, id@) is None,
{
    let mut i: usize = 0;
    while i < msgs.len()
        invariant
            i <= msgs@.len(),
            forall|j: int| 0 <= j < i ==> msgs@[j].msg_id@ != id@,
        decreases msgs@.len() - i,
    {
        if msgs[i].msg_id == *id {
            proof {
                lemma_first_with_id(msgs@, id@);
            }
            return Some(i);
        }
        i += 1;
    }
    proof {
        lemma_first_with_id(msgs@, id@);
    }
    None
}

/// The replies found among the first `j` messages themselves: each replying
/// message stored with the first message carrying the id it replies to.
pub open spec fn found_replies(msgs: Seq<MsgData>, j: nat) -> Seq<(String, MsgData)>
    decreases j,
{
    if j == 0 || j > msgs.len() {
        Seq::empty()
    } else {
        let found = found_replies(msgs, (j - 1) as nat);
        let m = msgs[j - 1];
        match m.replying_to {
            Some(rid) => match first_with_id(msgs, rid@) {
                Some(k) => with_entry(found, m.msg_id, msgs[k]),
                None => found,
            },
            None => found,
        }
    }
}

/// Lists of ids keyed by an id, as character sequences.
pub open spec fn id_lists(v: Seq<(String, Vec<String>)>) -> Seq<(Seq<char>, Seq<Seq<char>>)> {
    v.map_values(|e: (String, Vec<String>)| (e.0@, e.1@.map_values(|s: String| s@)))
}

/// The index of the list kept under `key`.
pub open spec fn list_index(v: Seq<(Seq<char>, Seq<Seq<char>>)>, key: Seq<char>) -> Option<int>
    decreases v.len(),
{
    if v.len() == 0 {
        None
    } else if v[0].0 == key {
        Some(0)
    } else {
        match list_index(v.drop_first(), key) {
            Some(i) => Some(i + 1),
            None => None,
        }
    }
}

/// `v` with `id` added to the list under `key`, which is started if missing.
pub open spec fn add_to_list(v: Seq<(Seq<char>, Seq<Seq<char>>)>, key: Seq<char>, id: Seq<char>) -> Seq<
    (Seq<char>, Seq<Seq<char>>),
> {
    match list_index(v, key) {
        Some(i) => v.update(i, (key, v[i].1.push(id))),
        None => v.push((key, seq![id])),
    }
}

/// The replied-to ids among the first `j` messages that are not loaded,
/// each with the ids of the messages replying to it.
pub open spec fn pending_replies(msgs: Seq<MsgData>, j: nat) -> Seq<(Seq<char>, Seq<Seq<char>>)>
    decreases j,
{
    if j == 0 || j > msgs.len() {
        Seq::empty()
    } else {
        let pending = pending_replies(msgs, (j - 1) as nat);
        let m = msgs[j - 1];
        match m.replying_to {
            Some(rid) => match first_with_id(msgs, rid@) {
                Some(_) => pending,
                None => add_to_list(pending, rid@, m.msg_id@),
            },
            None => pending,
        }
    }
}

/// `list_index` agrees with `key_index` on the keys of the lists.
proof fn lemma_list_index(v: Seq<(String, Vec<String>)>, key: Seq<char>)
    ensures
        list_index(id_lists(v), key) == key_index(v, key),
    decreases v.len(),
{
    if v.len() > 0 {
        assert(id_lists(v).drop_first() =~= id_lists(v.drop_first()));
        lemma_list_index(v.drop_first(), key);
    }
}

/// Adds `id` to the list under `key`.
fn add_id(v: &mut Vec<(String, Vec<String>)>, key: &String, id: String)
    ensures
        id_lists(final(v)@) == add_to_list(id_lists(old(v)@), key@, id@),
{
    proof {
        lemma_list_index(v@, key@);
        lemma_key_index(v@, key@);
    }
    match find_key(v, key) {
        Some(i) => {
            let (k, mut ids) = v.remove(i);
            let ghost ids0 = ids@;
            ids.push(id);
            v.insert(i, (k, ids));
            assert(ids@.map_values(|s: String| s@) =~= ids0.map_values(|s: String| s@).push(id@));
            assert(id_lists(v@) =~= add_to_list(id_lists(old(v)@), key@, id@));
        },
        None => {
            let mut ids: Vec<String> = Vec::new();
            ids.push(id);
            v.push((key.clone(), ids));
            assert(ids@.map_values(|s: String| s@) =~= seq![id@]);
            assert(id_lists(v@) =~= add_to_list(id_lists(old(v)@), key@, id@));
        },
    }
}

/// Sorts out the replies of loaded messages: those whose replied-to message
/// was loaded with them, and, for the others, which ids to look up and which
/// messages reply to each.
pub fn plan_replies(messages: &Vec<MsgData>) -> (r: (Vec<(String, MsgData)>, Vec<(String, Vec<String>)>))
    ensures
        r.0@ == found_replies(messages@, messages@.len()),
        id_lists(r.1@) == pending_replies(messages@, messages@.len()),
{
    let mut found: Vec<(String, MsgData)> = Vec::new();
    let mut pending: Vec<(String, Vec<String>)> = Vec::new();
    let mut i: usize = 0;
    assert(id_lists(pending@) =~= Seq::<(Seq<char>, Seq<Seq<char>>)>::empty());
    while i < messages.len()
        invariant
            i <= messages@.len(),
            found@ == found_replies(messages@, i as nat),
            id_lists(pending@) == pending_replies(messages@, i as nat),
        decreases messages@.len() - i,
    {
        let m = &messages[i];
        match &m.replying_to {
            Some(rid) => match find_message(messages, rid) {
                Some(k) => {
                    proof {
                        lemma_first_with_id(messages@, rid@);
                    }
                    put_key(&mut found, m.msg_id.clone(), messages[k].clone());
                },
                None => {
                    add_id(&mut pending, rid, m.msg_id.clone());
                },
            },
            None => {},
        }
        i += 1;
    }
    (found, pending)
}

/// `found` after storing `reply` under each of `originals[..k]`.
pub open spec fn attach_all(found: Seq<(String, MsgData)>, originals: Seq<String>, reply: MsgData, k: nat) -> Seq<
    (String, MsgData),
>
    decreases k,
{
    if k == 0 || k > originals.len() {
        found
    } else {
        with_entry(attach_all(found, originals, reply, (k - 1) as nat), originals[k - 1], reply)
    }
}

/// `found` after attaching the first `j` looked-up messages to the messages
/// that reply to them.
pub open spec fn attached(
    found: Seq<(String, MsgData)>,
    pending: Seq<(String, Vec<String>)>,
    loaded: Seq<MsgData>,
    j: nat,
) -> Seq<(String, MsgData)>
    decreases j,
{
    if j == 0 || j > loaded.len() {
        found
    } else {
        let before = attached(found, pending, loaded, (j - 1) as nat);
        let reply = loaded[j - 1];
        match key_index(pending, reply.msg_id@) {
            Some(i) => attach_all(before, pending[i].1@, reply, pending[i].1@.len()),
            None => before,
        }
    }
}

/// Stores each looked-up message as the reply of every message waiting for
/// it; looked-up messages nobody waits for are ignored.
pub fn attach_replies(found: &mut Vec<(String, MsgData)>, pending: &Vec<(String, Vec<String>)>, loaded: Vec<MsgData>)
    ensures
        final(found)@ == attached(old(found)@, pending@, loaded@, loaded@.len()),
{
    let mut j: usize = 0;
    while j < loaded.len()
        invariant
            j <= loaded@.len(),
            found@ == attached(old(found)@, pending@, loaded@, j as nat),
        decreases loaded@.len() - j,
    {
        proof {
            lemma_key_index(pending@, loaded@[j as int].msg_id@);
        }
        match find_key(pending, &loaded[j].msg_id) {
            Some(i) => {
                let originals = &pending[i].1;
                let ghost start = found@;
                let mut k: usize = 0;
                while k < originals.len()
                    invariant
                        k <= originals@.len(),
                        j < loaded@.len(),
                        found@ == attach_all(start, originals@, loaded@[j as int], k as nat),
                    decreases originals@.len() - k,
                {
                    put_key(found, originals[k].clone(), loaded[j].clone());
                    k += 1;
                }
            },
            None => {},
        }
        j += 1;
    }
}

/// `len` query placeholders separated by commas: `?, ?, ?`.
pub open spec fn placeholders(len: nat) -> Seq<char>
    decreases len,
{
    if len == 0 {
        Seq::empty()
    } else if len == 1 {
        seq!['?']
    } else {
        placeholders((len - 1) as nat) + seq![',', ' ', '?']
    }
}

/// The query followed by a parenthesised list of `len` placeholders, with a
/// space before it unless the query already ends in one.
pub open spec fn with_list(query: Seq<char>, len: nat) -> Seq<char> {
    let spaced = if query.len() > 0 && query.last() == ' ' {
        query
    } else {
        query.push(' ')
    };
    spaced + seq!['('] + placeholders(len) + seq![')']
}

/// Appends ` (?, ?, ...)` with `len` placeholders to a query.
pub fn query_append_list(query: &mut String, len: usize)
    ensures
        final(query)@ == with_list(old(query)@, len as nat),
{
    let n = query.unicode_len();
    if n == 0 || query.get_char(n - 1) != ' ' {
        push_char(query, ' ');
    }
    push_char(query, '(');
    let ghost start = query@;
    let mut i: usize = 0;
    while i < len
        invariant
            i <= len,
            query@ == start + placeholders(i as nat),
        decreases len - i,
    {
        if i != 0 {
            push_char(query, ',');
            push_char(query, ' ');
        }
        push_char(query, '?');
        proof {
            if i == 0 {
                assert(placeholders(1) == seq!['?']);
            }
        }
        assert(query@ =~= start + placeholders((i + 1) as nat));
        i += 1;
    }
    push_char(query, ')');
    assert(query@ =~= with_list(old(query)@, len as nat));
}

} // verus!
