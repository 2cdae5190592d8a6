//! What the client keeps about chats and contacts, and the rules that keep
//! the chat list in order.

use vstd::prelude::*;

pub mod config;
pub mod contact;
pub mod message;

use crate::rich_text::push_char;
use crate::storage::config::Config;
use crate::storage::contact::Contact;

verus! {

/// A point in time, in UNIX seconds (or milliseconds, for message times).
#[derive(Debug, Clone, Copy, PartialEq, Eq, PartialOrd, Ord, Structural)]
pub struct Time(pub u64);

impl From<i64> for Time {
    fn from(value: i64) -> (r: Self)
        ensures
            r.0 == value as u64,
    {
        Time(value as u64)
    }
}

impl vstd::std_specs::convert::FromSpecImpl<i64> for Time {
    open spec fn obeys_from_spec() -> bool {
        true
    }

    open spec fn from_spec(v: i64) -> Self {
        Time(v as u64)
    }
}

/// A chat or user address, as the messaging service gives it: its canonical
/// id, and the user part and server part of it.
#[derive(Debug)]
pub struct Jid {
    /// The canonical text form, `user@server`; two addresses are the same
    /// when their ids are.
    pub id: String,
    /// The user part (for a person, the phone number).
    pub number: String,
    /// The server part.
    pub server: String,
}

impl Clone for Jid {
    fn clone(&self) -> (r: Self)
        ensures
            r == *self,
    {
        Jid { id: self.id.clone(), number: self.number.clone(), server: self.server.clone() }
    }
}

impl Jid {
    /// The canonical text form.
    pub fn to_id(&self) -> (r: String)
        ensures
            r@ == self.id@,
    {
        self.id.clone()
    }

    /// Whether both name the same chat or user.
    pub fn same(&self, other: &Jid) -> (r: bool)
        ensures
            r == (self.id@ == other.id@),
    {
        self.id == other.id
    }
}

/// The error for an address text that cannot be read:
/// `JID parse error (` and the text, then `)`.
pub open spec fn parse_error_text(address: Seq<char>) -> Seq<char> {
    seq!['J', 'I', 'D', ' ', 'p', 'a', 'r', 's', 'e', ' ', 'e', 'r', 'r', 'o', 'r', ' ', '('] + address + seq![')']
}

/// The error for an address text that cannot be read.
pub fn parse_error(address: &String) -> (r: String)
    ensures
        r@ == parse_error_text(address@),
{
    let mut out = String::new();
    push_char(&mut out, 'J');
    push_char(&mut out, 'I');
    push_char(&mut out, 'D');
    push_char(&mut out, ' ');
    push_char(&mut out, 'p');
    push_char(&mut out, 'a');
    push_char(&mut out, 'r');
    push_char(&mut out, 's');
    push_char(&mut out, 'e');
    push_char(&mut out, ' ');
    push_char(&mut out, 'e');
    push_char(&mut out, 'r');
    push_char(&mut out, 'r');
    push_char(&mut out, 'o');
    push_char(&mut out, 'r');
    push_char(&mut out, ' ');
    push_char(&mut out, '(');
    let ghost start = out@;
    assert(start =~= seq!['J', 'I', 'D', ' ', 'p', 'a', 'r', 's', 'e', ' ', 'e', 'r', 'r', 'o', 'r', ' ', '(']);
    let n = address.unicode_len();
    let mut i: usize = 0;
    while i < n
        invariant
            n == address@.len(),
            i <= n,
            out@ == start + address@.take(i as int),
        decreases n - i,
    {
        push_char(&mut out, address.as_str().get_char(i));
        assert(address@.take(i + 1) =~= address@.take(i as int).push(address@[i as int]));
        i += 1;
    }
    assert(address@.take(n as int) =~= address@);
    push_char(&mut out, ')');
    assert(out@ =~= parse_error_text(address@));
    out
}

/// The ids of a list of addresses.
pub open spec fn ids(v: Seq<Jid>) -> Seq<Seq<char>> {
    v.map_values(|j: Jid| j.id@)
}

/// The value stored under address id `id`: that of the first entry with
/// that id.
pub open spec fn entry_of<V>(entries: Seq<(Jid, V)>, id: Seq<char>) -> Option<V>
    decreases entries.len(),
{
    if entries.len() == 0 {
        None
    } else if entries[0].0.id@ == id {
        Some(entries[0].1)
    } else {
        entry_of(entries.drop_first(), id)
    }
}

/// The contact stored under address id `id`.
pub open spec fn contact_of(entries: Seq<(Jid, Contact)>, id: Seq<char>) -> Option<Contact> {
    entry_of(entries, id)
}

/// The address that a hidden-number (`lid`) address stands for.
pub open spec fn lid_target(entries: Seq<(Jid, Jid)>, id: Seq<char>) -> Option<Jid> {
    entry_of(entries, id)
}

/// Replacing the value of the first entry with id `id` changes the lookup
/// of that id only.
pub proof fn lemma_entry_update<V>(entries: Seq<(Jid, V)>, i: int, v: V, id: Seq<char>)
    requires
        0 <= i < entries.len(),
        forall|k: int| 0 <= k < i ==> entries[k].0.id@ != entries[i].0.id@,
    ensures
        entry_of(entries.update(i, (entries[i].0, v)), id) == if id == entries[i].0.id@ {
            Some(v)
        } else {
            entry_of(entries, id)
        },
    decreases i,
{
    let e = entries.update(i, (entries[i].0, v));
    if i == 0 {
        assert(e.drop_first() =~= entries.drop_first());
        assert(e[0] == (entries[0].0, v));
    } else {
        let rest = entries.drop_first();
        assert(e[0] == entries[0]);
        assert(rest[i - 1] == entries[i]);
        assert(e.drop_first() =~= rest.update(i - 1, (rest[i - 1].0, v)));
        assert forall|k: int| 0 <= k < i - 1 implies (#[trigger] rest[k]).0.id@ != rest[i - 1].0.id@ by {
            assert(rest[k] == entries[k + 1]);
        }
        lemma_entry_update(rest, i - 1, v, id);
        assert(entries[0].0.id@ != entries[i].0.id@);
    }
}

/// Adding an entry at the end changes the lookup of its id only, and only
/// when that id had no entry.
pub proof fn lemma_entry_push<V>(entries: Seq<(Jid, V)>, j: Jid, v: V, id: Seq<char>)
    ensures
        entry_of(entries.push((j, v)), id) == if entry_of(entries, id) is Some {
            entry_of(entries, id)
        } else if id == j.id@ {
            Some(v)
        } else {
            None
        },
    decreases entries.len(),
{
    if entries.len() > 0 {
        assert(entries.push((j, v)).drop_first() =~= entries.drop_first().push((j, v)));
        assert(entries.push((j, v))[0] == entries[0]);
        lemma_entry_push(entries.drop_first(), j, v, id);
        if entries[0].0.id@ != id {
            assert(entry_of(entries.push((j, v)), id) == entry_of(entries.drop_first().push((j, v)), id));
            assert(entry_of(entries, id) == entry_of(entries.drop_first(), id));
        }
    } else {
        assert(entries.push((j, v)).drop_first() =~= Seq::<(Jid, V)>::empty());
        assert(entries.push((j, v))[0] == (j, v));
        assert(entry_of(Seq::<(Jid, V)>::empty(), id) is None);
        assert(entry_of(entries, id) is None);
    }
}

/// Finds the first entry with the id of `jid`.
pub fn find_entry<V>(entries: &Vec<(Jid, V)>, jid: &Jid) -> (r: Option<usize>)
    ensures
        match r {
            Some(i) => {
                &&& i < entries@.len()
                &&& entries@[i as int].0.id@ == jid.id@
                &&& entry_of(entries@, jid.id@) == Some(entries@[i as int].1)
                &&& forall|k: int| 0 <= k < i ==> entries@[k].0.id@ != jid.id@
            },
            None => entry_of(entries@, jid.id@) is None,
        },
{
    let n = entries.len();
    let mut i: usize = 0;
    assert(entries@.subrange(0, n as int) =~= entries@);
    while i < n
        invariant
            n == entries@.len(),
            i <= n,
            entry_of(entries@, jid.id@) == entry_of(entries@.subrange(i as int, n as int), jid.id@),
            forall|k: int| 0 <= k < i ==> entries@[k].0.id@ != jid.id@,
        decreases n - i,
    {
        let ghost rest = entries@.subrange(i as int, n as int);
        assert(rest[0] == entries@[i as int]);
        if entries[i].0.same(jid) {
            return Some(i);
        }
        assert(rest.drop_first() =~= entries@.subrange(i + 1, n as int));
        i += 1;
    }
    None
}

/// The ids of the entries, in order.
pub open spec fn entry_ids<V>(entries: Seq<(Jid, V)>) -> Seq<Seq<char>> {
    entries.map_values(|e: (Jid, V)| e.0.id@)
}

/// The value of the last entry with id `id`.
pub open spec fn last_entry_of<V>(entries: Seq<(Jid, V)>, id: Seq<char>) -> Option<V>
    decreases entries.len(),
{
    if entries.len() == 0 {
        None
    } else if entries.last().0.id@ == id {
        Some(entries.last().1)
    } else {
        last_entry_of(entries.drop_last(), id)
    }
}

/// An id has a value exactly when some entry has that id.
pub proof fn lemma_entry_of_some<V>(entries: Seq<(Jid, V)>, id: Seq<char>)
    ensures
        entry_of(entries, id) is Some <==> entry_ids(entries).contains(id),
    decreases entries.len(),
{
    if entries.len() > 0 {
        let rest = entries.drop_first();
        lemma_entry_of_some(rest, id);
        assert(entry_ids(entries) =~= seq![entries[0].0.id@] + entry_ids(rest));
        assert(entry_ids(entries)[0] == entries[0].0.id@);
        if entry_ids(rest).contains(id) {
            let k = choose|k: int| 0 <= k < entry_ids(rest).len() && entry_ids(rest)[k] == id;
            assert(entry_ids(entries)[k + 1] == id);
        }
        if entry_ids(entries).contains(id) && entries[0].0.id@ != id {
            let k = choose|k: int| 0 <= k < entry_ids(entries).len() && entry_ids(entries)[k] == id;
            assert(k > 0);
            assert(entry_ids(rest)[k - 1] == id);
        }
    } else {
        assert(!entry_ids(entries).contains(id));
    }
}

/// Stores `v` under the id of `jid`, replacing the value stored there.
pub fn put_entry<V>(entries: &mut Vec<(Jid, V)>, jid: &Jid, v: V)
    ensures
        forall|id: Seq<char>|
            #[trigger] entry_of(final(entries)@, id) == if id == jid.id@ {
                Some(v)
            } else {
                entry_of(old(entries)@, id)
            },
        unique(entry_ids(old(entries)@)) ==> unique(entry_ids(final(entries)@)),
{
    let ghost before = entries@;
    let ghost value = v;
    match find_entry(entries, jid) {
        Some(idx) => {
            let key = entries[idx].0.clone();
            entries.set(idx, (key, v));
            proof {
                assert(entries@ =~= before.update(idx as int, (before[idx as int].0, value)));
                assert(entry_ids(entries@) =~= entry_ids(before));
                assert forall|id: Seq<char>| true implies #[trigger] entry_of(entries@, id) == if id == jid.id@ {
                    Some(value)
                } else {
                    entry_of(before, id)
                } by {
                    lemma_entry_update(before, idx as int, value, id);
                }
            }
        },
        None => {
            entries.push((jid.clone(), v));
            proof {
                assert forall|id: Seq<char>| true implies #[trigger] entry_of(entries@, id) == if id == jid.id@ {
                    Some(value)
                } else {
                    entry_of(before, id)
                } by {
                    lemma_entry_push(before, *jid, value, id);
                }
                lemma_entry_of_some(before, jid.id@);
                let e = entry_ids(entries@);
                assert(e =~= entry_ids(before).push(jid.id@));
                if unique(entry_ids(before)) {
                    assert forall|i: int, j: int| 0 <= i < j < e.len() implies e[i] != e[j] by {
                        if j == e.len() - 1 {
                            assert(entry_ids(before)[i] == e[i]);
                        } else {
                            assert(entry_ids(before)[i] == e[i] && entry_ids(before)[j] == e[j]);
                        }
                    }
                }
            }
        },
    }
}

/// No entry occurs twice.
pub open spec fn unique(s: Seq<Seq<char>>) -> bool {
    forall|i: int, j: int| 0 <= i < j < s.len() ==> s[i] != s[j]
}

/// No entry of `a` is in `b`.
pub open spec fn disjoint(a: Seq<Seq<char>>, b: Seq<Seq<char>>) -> bool {
    forall|y: Seq<char>| #[trigger] a.contains(y) ==> !b.contains(y)
}

/// The time a chat is ordered by: its contact's last message time, or zero
/// when there is no contact for it.
pub open spec fn order_key(entries: Seq<(Jid, Contact)>, id: Seq<char>) -> u64 {
    match contact_of(entries, id) {
        Some(c) => c.last_message_time.0,
        None => 0,
    }
}

/// The chats are in order of their last message, most recent first.
pub open spec fn by_recency(order: Seq<Jid>, contacts: Seq<(Jid, Contact)>) -> bool {
    forall|i: int, j: int|
        0 <= i < j < order.len() ==> order_key(contacts, order[i].id@) >= order_key(contacts, order[j].id@)
}

/// The client's chat and contact data.
pub struct Data {
    /// Contacts, each under the address it belongs to.
    pub contacts: Vec<(Jid, Contact)>,
    /// Hidden-number addresses and the address each stands for.
    pub contacts_lid: Vec<(Jid, Jid)>,
    pub config: Config,
    /// The configuration changed and should be saved.
    pub config_autosave_free: bool,
    /// The chat list should be sorted again.
    pub contacts_sort_free: bool,
    /// The chats shown below the pinned ones, most recent first.
    pub order: Vec<Jid>,
    /// The time the data was loaded; chats with no contact open here.
    pub latest_timestamp: Time,
}

impl Data {
    /// Every chat is listed once: pins and order hold no address twice and
    /// none in both.
    pub open spec fn well_listed(&self) -> bool {
        &&& unique(ids(self.config.pins@))
        &&& unique(ids(self.order@))
        &&& disjoint(ids(self.config.pins@), ids(self.order@))
    }

    /// The contact of address id `id`.
    pub open spec fn contact(&self, id: Seq<char>) -> Option<Contact> {
        contact_of(self.contacts@, id)
    }

    /// The index of the contact of `jid`, if there is one.
    pub fn find_contact(&self, jid: &Jid) -> (r: Option<usize>)
        ensures
            match r {
                Some(i) => {
                    &&& i < self.contacts@.len()
                    &&& self.contacts@[i as int].0.id@ == jid.id@
                    &&& self.contact(jid.id@) == Some(self.contacts@[i as int].1)
                    &&& forall|k: int| 0 <= k < i ==> self.contacts@[k].0.id@ != jid.id@
                },
                None => self.contact(jid.id@) is None,
            },
    {
        find_entry(&self.contacts, jid)
    }

    /// The name shown for an address: the contact name of the address it
    /// stands for (for a hidden-number address), else its own contact name,
    /// else its number.
    pub open spec fn display_name(&self, jid: Jid) -> Seq<char> {
        let via = match lid_target(self.contacts_lid@, jid.id@) {
            Some(target) => self.contact(target.id@),
            None => None,
        };
        match via {
            Some(c) => c.name@,
            None => match self.contact(jid.id@) {
                Some(c) => c.name@,
                None => jid.number@,
            },
        }
    }

    /// The name shown for an address.
    pub fn display_jid(&self, jid: &Jid) -> (r: String)
        ensures
            r@ == self.display_name(*jid),
    {
        if let Some(li) = find_entry(&self.contacts_lid, jid) {
            if let Some(ci) = self.find_contact(&self.contacts_lid[li].1) {
                return self.contacts[ci].1.name.clone();
            }
        }
        match self.find_contact(jid) {
            Some(ci) => self.contacts[ci].1.name.clone(),
            None => jid.number.clone(),
        }
    }
}

impl Data {
    /// The data as loaded: contacts and hidden-number addresses keyed by
    /// address (a later entry for the same address replacing an earlier one),
    /// the configuration, and the chat order: every chat with a contact that
    /// is not pinned, once, most recent first.
    pub fn new(contacts: Vec<(Jid, Contact)>, contacts_lid: Vec<(Jid, Jid)>, config: Config, now: Time) -> (d: Data)
        ensures
            forall|id: Seq<char>| #[trigger] d.contact(id) == last_entry_of(contacts@, id),
            forall|id: Seq<char>| #[trigger] lid_target(d.contacts_lid@, id) == last_entry_of(contacts_lid@, id),
            d.config == config,
            d.latest_timestamp == now,
            !d.config_autosave_free,
            !d.contacts_sort_free,
            unique(ids(d.order@)),
            forall|id: Seq<char>|
                #[trigger] ids(d.order@).contains(id) <==> (d.contact(id) is Some && !ids(config.pins@).contains(id)),
            by_recency(d.order@, d.contacts@),
            unique(ids(config.pins@)) ==> d.well_listed(),
    {
        let mut map: Vec<(Jid, Contact)> = Vec::new();
        let mut i: usize = 0;
        assert(entry_ids(map@) =~= Seq::<Seq<char>>::empty());
        while i < contacts.len()
            invariant
                i <= contacts@.len(),
                forall|id: Seq<char>| #[trigger] entry_of(map@, id) == last_entry_of(contacts@.take(i as int), id),
                unique(entry_ids(map@)),
            decreases contacts@.len() - i,
        {
            assert(contacts@.take(i + 1).drop_last() =~= contacts@.take(i as int));
            assert(contacts@.take(i + 1).last() == contacts@[i as int]);
            put_entry(&mut map, &contacts[i].0, contacts[i].1.clone());
            i += 1;
        }
        assert(contacts@.take(contacts@.len() as int) =~= contacts@);
        let mut lids: Vec<(Jid, Jid)> = Vec::new();
        let mut i: usize = 0;
        while i < contacts_lid.len()
            invariant
                i <= contacts_lid@.len(),
                forall|id: Seq<char>| #[trigger] entry_of(lids@, id) == last_entry_of(contacts_lid@.take(i as int), id),
            decreases contacts_lid@.len() - i,
        {
            assert(contacts_lid@.take(i + 1).drop_last() =~= contacts_lid@.take(i as int));
            assert(contacts_lid@.take(i + 1).last() == contacts_lid@[i as int]);
            put_entry(&mut lids, &contacts_lid[i].0, contacts_lid[i].1.clone());
            i += 1;
        }
        assert(contacts_lid@.take(contacts_lid@.len() as int) =~= contacts_lid@);
        let mut order: Vec<Jid> = Vec::new();
        let mut k: usize = 0;
        assert(ids(order@) =~= Seq::<Seq<char>>::empty());
        while k < map.len()
            invariant
                k <= map@.len(),
                unique(entry_ids(map@)),
                unique(ids(order@)),
                forall|id: Seq<char>|
                    #[trigger] ids(order@).contains(id) <==> (entry_ids(map@.take(k as int)).contains(id) && !ids(
                        config.pins@,
                    ).contains(id)),
            decreases map@.len() - k,
        {
            let ghost o0 = order@;
            let ghost t0 = entry_ids(map@.take(k as int));
            let ghost key = map@[k as int].0.id@;
            assert(entry_ids(map@.take(k + 1)) =~= t0.push(key));
            assert(!t0.contains(key)) by {
                if t0.contains(key) {
                    let q = choose|q: int| 0 <= q < t0.len() && t0[q] == key;
                    assert(entry_ids(map@)[q] == t0[q]);
                    assert(entry_ids(map@)[k as int] == key);
                }
            }
            if !contains_jid(&config.pins, &map[k].0) {
                order.push(map[k].0.clone());
                proof {
                    let no = ids(order@);
                    assert(no =~= ids(o0).push(key));
                    assert(!ids(o0).contains(key));
                    assert forall|a: int, b: int| 0 <= a < b < no.len() implies no[a] != no[b] by {
                        if b == no.len() - 1 {
                            assert(ids(o0)[a] == no[a]);
                            assert(ids(o0).contains(no[a]));
                        } else {
                            assert(ids(o0)[a] == no[a] && ids(o0)[b] == no[b]);
                        }
                    }
                    assert forall|id: Seq<char>| #[trigger] no.contains(id) <==> (t0.push(key).contains(id) && !ids(
                        config.pins@,
                    ).contains(id)) by {
                        let tp = t0.push(key);
                        if no.contains(id) {
                            let q = choose|q: int| 0 <= q < no.len() && no[q] == id;
                            if q == no.len() - 1 {
                                assert(id == key);
                                assert(tp[t0.len() as int] == key);
                            } else {
                                assert(ids(o0)[q] == id);
                                assert(ids(o0).contains(id));
                                assert(t0.contains(id));
                                let w = choose|w: int| 0 <= w < t0.len() && t0[w] == id;
                                assert(tp[w] == id);
                            }
                        }
                        if tp.contains(id) && !ids(config.pins@).contains(id) {
                            if id == key {
                                assert(no[no.len() - 1] == key);
                            } else {
                                let q = choose|q: int| 0 <= q < tp.len() && tp[q] == id;
                                assert(t0[q] == id);
                                assert(t0.contains(id));
                                assert(ids(o0).contains(id));
                                let w = choose|w: int| 0 <= w < ids(o0).len() && ids(o0)[w] == id;
                                assert(no[w] == id);
                            }
                        }
                    }
                }
            } else {
                proof {
                    assert forall|id: Seq<char>| #[trigger] ids(order@).contains(id) <==> (t0.push(key).contains(id)
                        && !ids(config.pins@).contains(id)) by {
                        if t0.push(key).contains(id) && id != key {
                            let q = choose|q: int| 0 <= q < t0.push(key).len() && t0.push(key)[q] == id;
                            assert(t0[q] == id);
                        }
                        if t0.contains(id) {
                            let q = choose|q: int| 0 <= q < t0.len() && t0[q] == id;
                            assert(t0.push(key)[q] == id);
                        }
                    }
                }
            }
            k += 1;
        }
        assert(map@.take(map@.len() as int) =~= map@);
        let mut d = Data {
            contacts: map,
            contacts_lid: lids,
            config,
            config_autosave_free: false,
            contacts_sort_free: false,
            order,
            latest_timestamp: now,
        };
        let ghost order0 = d.order@;
        d.sort_contacts();
        proof {
            lemma_same_entries_keep_listing(ids(order0), ids(d.order@));
            assert forall|id: Seq<char>| #[trigger] ids(d.order@).contains(id) <==> (d.contact(id) is Some && !ids(
                config.pins@,
            ).contains(id)) by {
                lemma_entry_of_some(d.contacts@, id);
            }
            if unique(ids(config.pins@)) {
                assert forall|y: Seq<char>| #[trigger] ids(d.config.pins@).contains(y) implies !ids(d.order@).contains(
                    y,
                ) by {}
            }
        }
        d
    }
}

/// Whether some entry of `v` has id `id`.
pub fn contains_jid(v: &Vec<Jid>, jid: &Jid) -> (r: bool)
    ensures
        r == ids(v@).contains(jid.id@),
{
    let mut i: usize = 0;
    while i < v.len()
        invariant
            i <= v@.len(),
            forall|k: int| 0 <= k < i ==> v@[k].id@ != jid.id@,
        decreases v@.len() - i,
    {
        if v[i].same(jid) {
            assert(ids(v@)[i as int] == jid.id@);
            return true;
        }
        i += 1;
    }
    assert(!ids(v@).contains(jid.id@)) by {
        if ids(v@).contains(jid.id@) {
            let k = choose|k: int| 0 <= k < ids(v@).len() && ids(v@)[k] == jid.id@;
            assert(v@[k].id@ == jid.id@);
        }
    }
    false
}

/// The list without the entries whose id is `x`.
pub open spec fn without_jid(s: Seq<Jid>, x: Seq<char>) -> Seq<Jid>
    decreases s.len(),
{
    if s.len() == 0 {
        s
    } else {
        let r = without_jid(s.drop_last(), x);
        if s.last().id@ == x {
            r
        } else {
            r.push(s.last())
        }
    }
}

/// What is left after dropping the entries with id `x`: no entry with that
/// id, only ids that were there, and no repetition if there was none.
pub proof fn lemma_without_jid(s: Seq<Jid>, x: Seq<char>)
    ensures
        !ids(without_jid(s, x)).contains(x),
        forall|y: Seq<char>| #[trigger] ids(without_jid(s, x)).contains(y) ==> ids(s).contains(y),
        unique(ids(s)) ==> unique(ids(without_jid(s, x))),
    decreases s.len(),
{
    if s.len() > 0 {
        let p = s.drop_last();
        lemma_without_jid(p, x);
        let r = without_jid(p, x);
        assert(ids(s) =~= ids(p).push(s.last().id@));
        assert forall|y: Seq<char>| #[trigger] ids(r).contains(y) implies ids(s).contains(y) by {
            assert(ids(p).contains(y));
            let k = choose|k: int| 0 <= k < ids(p).len() && ids(p)[k] == y;
            assert(ids(s)[k] == y);
        }
        if s.last().id@ != x {
            let r2 = r.push(s.last());
            assert(ids(r2) =~= ids(r).push(s.last().id@));
            assert(ids(s).contains(s.last().id@)) by {
                assert(ids(s)[s.len() - 1] == s.last().id@);
            }
            if unique(ids(s)) {
                assert(unique(ids(p))) by {
                    assert forall|i: int, j: int| 0 <= i < j < ids(p).len() implies ids(p)[i] != ids(p)[j] by {
                        assert(ids(s)[i] == ids(p)[i] && ids(s)[j] == ids(p)[j]);
                    }
                }
                assert(!ids(r).contains(s.last().id@)) by {
                    if ids(r).contains(s.last().id@) {
                        assert(ids(p).contains(s.last().id@));
                        let k = choose|k: int| 0 <= k < ids(p).len() && ids(p)[k] == s.last().id@;
                        assert(ids(s)[k] == ids(s)[s.len() - 1]);
                    }
                }
                assert forall|i: int, j: int| 0 <= i < j < ids(r2).len() implies ids(r2)[i] != ids(r2)[j] by {
                    if j == ids(r2).len() - 1 {
                        assert(ids(r).contains(ids(r2)[i])) by {
                            assert(ids(r)[i] == ids(r2)[i]);
                        }
                    } else {
                        assert(ids(r2)[i] == ids(r)[i] && ids(r2)[j] == ids(r)[j]);
                    }
                }
            }
            assert forall|y: Seq<char>| #[trigger] ids(r2).contains(y) implies ids(s).contains(y) by {
                let k = choose|k: int| 0 <= k < ids(r2).len() && ids(r2)[k] == y;
                if k < ids(r).len() {
                    assert(ids(r)[k] == y);
                    assert(ids(r).contains(y));
                }
            }
            assert(!ids(r2).contains(x)) by {
                if ids(r2).contains(x) {
                    let k = choose|k: int| 0 <= k < ids(r2).len() && ids(r2)[k] == x;
                    if k < ids(r).len() {
                        assert(ids(r)[k] == x);
                    }
                }
            }
        } else {
            if unique(ids(s)) {
                assert(unique(ids(p))) by {
                    assert forall|i: int, j: int| 0 <= i < j < ids(p).len() implies ids(p)[i] != ids(p)[j] by {
                        assert(ids(s)[i] == ids(p)[i] && ids(s)[j] == ids(p)[j]);
                    }
                }
            }
        }
    }
}

/// Drops every entry with the id of `jid`.
pub fn remove_jid(v: &mut Vec<Jid>, jid: &Jid)
    ensures
        final(v)@ == without_jid(old(v)@, jid.id@),
{
    let mut kept: Vec<Jid> = Vec::new();
    let n = v.len();
    let mut i: usize = 0;
    assert(kept@ =~= without_jid(v@.take(0), jid.id@));
    while i < n
        invariant
            n == v@.len(),
            i <= n,
            kept@ == without_jid(v@.take(i as int), jid.id@),
        decreases n - i,
    {
        assert(v@.take(i + 1).drop_last() =~= v@.take(i as int));
        assert(v@.take(i + 1).last() == v@[i as int]);
        if !v[i].same(jid) {
            kept.push(v[i].clone());
        }
        i += 1;
    }
    assert(v@.take(n as int) =~= v@);
    *v = kept;
}

/// Lists with the same entries as multisets keep the "listed once" shape.
proof fn lemma_same_entries_keep_listing(a: Seq<Seq<char>>, b: Seq<Seq<char>>)
    requires
        a.to_multiset() == b.to_multiset(),
    ensures
        unique(a) ==> unique(b),
        forall|y: Seq<char>| a.contains(y) <==> b.contains(y),
{
    broadcast use vstd::seq_lib::to_multiset_contains;

    assert forall|y: Seq<char>| a.contains(y) <==> b.contains(y) by {
        assert(a.contains(y) <==> a.to_multiset().count(y) > 0);
        assert(b.contains(y) <==> b.to_multiset().count(y) > 0);
    }
    if unique(a) {
        assert(a.no_duplicates()) by {
            assert forall|i: int, j: int| 0 <= i < a.len() && 0 <= j < a.len() && i != j implies a[i] != a[j] by {
                if i > j {
                    assert(a[j] != a[i]);
                }
            }
        }
        a.lemma_multiset_has_no_duplicates();
        b.lemma_multiset_has_no_duplicates_conv();
    }
}

impl Data {
    /// The order key of a chat, as [`order_key`] describes.
    fn key_of(&self, jid: &Jid) -> (r: u64)
        ensures
            r == order_key(self.contacts@, jid.id@),
    {
        match self.find_contact(jid) {
            Some(ci) => self.contacts[ci].1.last_message_time.0,
            None => 0,
        }
    }

    /// The periodic housekeeping: sorts the chat order when messages arrived
    /// since the last time, and reports (and clears) whether the
    /// configuration is to be saved.
    pub fn tick(&mut self) -> (save_config: bool)
        ensures
            save_config == old(self).config_autosave_free,
            !final(self).config_autosave_free,
            !final(self).contacts_sort_free,
            final(self).contacts == old(self).contacts,
            final(self).contacts_lid == old(self).contacts_lid,
            final(self).config == old(self).config,
            final(self).latest_timestamp == old(self).latest_timestamp,
            old(self).contacts_sort_free ==> final(self).order@.to_multiset() == old(self).order@.to_multiset()
                && by_recency(final(self).order@, final(self).contacts@),
            !old(self).contacts_sort_free ==> final(self).order == old(self).order,
            old(self).well_listed() ==> final(self).well_listed(),
    {
        if self.contacts_sort_free {
            self.sort_contacts();
            self.contacts_sort_free = false;
        }
        let save = self.config_autosave_free;
        self.config_autosave_free = false;
        save
    }

    /// Sorts the chat order, most recent last message first. Chats with no
    /// contact count as oldest; chats with the same key keep their order.
    pub fn sort_contacts(&mut self)
        ensures
            final(self).order@.to_multiset() == old(self).order@.to_multiset(),
            ids(final(self).order@).to_multiset() == ids(old(self).order@).to_multiset(),
            by_recency(final(self).order@, final(self).contacts@),
            final(self).contacts == old(self).contacts,
            final(self).contacts_lid == old(self).contacts_lid,
            final(self).config == old(self).config,
            final(self).config_autosave_free == old(self).config_autosave_free,
            final(self).contacts_sort_free == old(self).contacts_sort_free,
            final(self).latest_timestamp == old(self).latest_timestamp,
            old(self).well_listed() ==> final(self).well_listed(),
    {
        broadcast use vstd::seq_lib::to_multiset_build, vstd::seq_lib::to_multiset_insert;

        let n = self.order.len();
        let mut out: Vec<Jid> = Vec::new();
        let mut keys: Vec<u64> = Vec::new();
        let mut i: usize = 0;
        assert(self.order@.take(0) =~= Seq::<Jid>::empty());
        assert(ids(self.order@.take(0)) =~= Seq::<Seq<char>>::empty());
        assert(ids(out@) =~= Seq::<Seq<char>>::empty());
        while i < n
            invariant
                n == self.order@.len(),
                i <= n,
                *self == *old(self),
                out@.len() == keys@.len(),
                out@.to_multiset() == self.order@.take(i as int).to_multiset(),
                ids(out@).to_multiset() == ids(self.order@.take(i as int)).to_multiset(),
                forall|a: int| 0 <= a < keys@.len() ==> keys@[a] == order_key(self.contacts@, #[trigger] out@[a].id@),
                forall|a: int, b: int| 0 <= a < b < keys@.len() ==> keys@[a] >= keys@[b],
            decreases n - i,
        {
            let j = self.order[i].clone();
            let k = self.key_of(&j);
            let mut p: usize = 0;
            while p < keys.len() && keys[p] >= k
                invariant
                    p <= keys@.len(),
                    forall|q: int| 0 <= q < p ==> keys@[q] >= k,
                decreases keys@.len() - p,
            {
                p += 1;
            }
            assert(k == order_key(self.contacts@, j.id@));
            assert(out@.to_multiset() == self.order@.take(i as int).to_multiset());
            let ghost out0 = out@;
            let ghost keys0 = keys@;
            out.insert(p, j);
            keys.insert(p, k);
            assert(j == self.order@[i as int]);
            assert(out@ =~= out0.insert(p as int, j));
            proof {
                vstd::seq_lib::to_multiset_insert(out0, p as int, j);
                vstd::seq_lib::to_multiset_insert(ids(out0), p as int, j.id@);
                vstd::seq_lib::to_multiset_build(self.order@.take(i as int), j);
                vstd::seq_lib::to_multiset_build(ids(self.order@.take(i as int)), j.id@);
            }
            assert(out@.to_multiset() == out0.to_multiset().insert(j));
            assert(ids(out@) =~= ids(out0).insert(p as int, j.id@));
            assert(ids(out@).to_multiset() == ids(out0).to_multiset().insert(j.id@));
            assert(self.order@.take(i + 1) =~= self.order@.take(i as int).push(self.order@[i as int]));
            assert(ids(self.order@.take(i + 1)) =~= ids(self.order@.take(i as int)).push(j.id@));
            assert(ids(out@) =~= ids(out0).insert(p as int, j.id@));
            assert forall|a: int| 0 <= a < keys@.len() implies keys@[a] == order_key(
                self.contacts@,
                #[trigger] out@[a].id@,
            ) by {
                if a < p {
                    assert(keys@[a] == keys0[a] && out@[a] == out0[a]);
                    assert(keys0[a] == order_key(self.contacts@, out0[a].id@));
                } else if a == p {
                    assert(keys@[a] == k && out@[a] == j);
                } else {
                    assert(keys@[a] == keys0[a - 1] && out@[a] == out0[a - 1]);
                    assert(keys0[a - 1] == order_key(self.contacts@, out0[a - 1].id@));
                }
            }
            assert forall|a: int, b: int| 0 <= a < b < keys@.len() implies keys@[a] >= keys@[b] by {
                if p < keys0.len() {
                    assert(keys0[p as int] < k);
                }
                if b < p {
                    assert(keys@[a] == keys0[a] && keys@[b] == keys0[b]);
                } else if b == p {
                    assert(keys@[a] == keys0[a]);
                } else if a == p {
                    assert(keys@[b] == keys0[b - 1]);
                    assert(keys0[p as int] >= keys0[b - 1] || b - 1 == p);
                } else if a < p {
                    assert(keys@[a] == keys0[a] && keys@[b] == keys0[b - 1]);
                } else {
                    assert(keys@[a] == keys0[a - 1] && keys@[b] == keys0[b - 1]);
                }
            }
            i += 1;
        }
        assert(self.order@.take(n as int) =~= self.order@);
        let ghost order0 = self.order@;
        self.order = out;
        proof {
            lemma_same_entries_keep_listing(ids(order0), ids(self.order@));
            assert forall|i: int, j: int| 0 <= i < j < self.order@.len() implies order_key(
                self.contacts@,
                self.order@[i].id@,
            ) >= order_key(self.contacts@, self.order@[j].id@) by {
                assert(keys@[i] == order_key(self.contacts@, self.order@[i].id@));
                assert(keys@[j] == order_key(self.contacts@, self.order@[j].id@));
            }
            if old(self).well_listed() {
                assert(disjoint(ids(self.config.pins@), ids(self.order@))) by {
                    assert forall|y: Seq<char>| #[trigger] ids(self.config.pins@).contains(y) implies !ids(
                        self.order@,
                    ).contains(y) by {
                        assert(!ids(order0).contains(y));
                    }
                }
            }
        }
    }
}

} // verus!
