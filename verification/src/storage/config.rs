//! The saved configuration: pinned chats and the user's own address.

use vstd::prelude::*;

use crate::storage::{contains_jid, disjoint, ids, lemma_without_jid, remove_jid, unique, without_jid, Data, Jid};

verus! {

/// The saved configuration.
pub struct Config {
    /// Chats pinned to the top of the list, in pin order.
    pub pins: Vec<Jid>,
    /// The user's own address, once known.
    pub self_jid: Option<Jid>,
}

impl Config {
    /// Whether `jid` is the user's own address.
    pub fn is_self(&self, jid: &Jid) -> (r: bool)
        ensures
            r == (self.self_jid matches Some(me) && me.id@ == jid.id@),
    {
        match &self.self_jid {
            Some(me) => me.same(jid),
            None => false,
        }
    }
}

/// Pinning a chat that is not pinned keeps every chat listed once.
pub proof fn lemma_pin_keeps_listing(pins: Seq<Jid>, order: Seq<Jid>, p: Jid)
    requires
        unique(ids(pins)),
        unique(ids(order)),
        disjoint(ids(pins), ids(order)),
        !ids(pins).contains(p.id@),
    ensures
        unique(ids(pins.push(p))),
        unique(ids(without_jid(order, p.id@))),
        disjoint(ids(pins.push(p)), ids(without_jid(order, p.id@))),
{
    lemma_without_jid(order, p.id@);
    let np = ids(pins.push(p));
    let no = ids(without_jid(order, p.id@));
    assert(np =~= ids(pins).push(p.id@));
    assert forall|i: int, j: int| 0 <= i < j < np.len() implies np[i] != np[j] by {
        if j == np.len() - 1 {
            assert(ids(pins)[i] == np[i]);
        } else {
            assert(ids(pins)[i] == np[i] && ids(pins)[j] == np[j]);
        }
    }
    assert forall|y: Seq<char>| #[trigger] np.contains(y) implies !no.contains(y) by {
        let k = choose|k: int| 0 <= k < np.len() && np[k] == y;
        if k < ids(pins).len() {
            assert(ids(pins)[k] == y);
            assert(ids(pins).contains(y));
            if no.contains(y) {
                assert(ids(order).contains(y));
            }
        }
    }
}

/// Unpinning a chat keeps every chat listed once.
pub proof fn lemma_unpin_keeps_listing(pins: Seq<Jid>, order: Seq<Jid>, p: Jid)
    requires
        unique(ids(pins)),
        unique(ids(order)),
        disjoint(ids(pins), ids(order)),
    ensures
        ({
            let new_order = if ids(order).contains(p.id@) { order } else { seq![p] + order };
            &&& unique(ids(without_jid(pins, p.id@)))
            &&& unique(ids(new_order))
            &&& disjoint(ids(without_jid(pins, p.id@)), ids(new_order))
        }),
{
    lemma_without_jid(pins, p.id@);
    let np = ids(without_jid(pins, p.id@));
    if !ids(order).contains(p.id@) {
        let no = ids(seq![p] + order);
        assert(no =~= seq![p.id@] + ids(order));
        assert forall|i: int, j: int| 0 <= i < j < no.len() implies no[i] != no[j] by {
            if i == 0 {
                assert(ids(order)[j - 1] == no[j]);
            } else {
                assert(ids(order)[i - 1] == no[i] && ids(order)[j - 1] == no[j]);
            }
        }
        assert forall|y: Seq<char>| #[trigger] np.contains(y) implies !no.contains(y) by {
            assert(ids(pins).contains(y));
            if no.contains(y) {
                let k = choose|k: int| 0 <= k < no.len() && no[k] == y;
                if k > 0 {
                    assert(ids(order)[k - 1] == y);
                }
            }
        }
    } else {
        assert forall|y: Seq<char>| #[trigger] np.contains(y) implies !ids(order).contains(y) by {
            assert(ids(pins).contains(y));
        }
    }
}

/// The pins after pinning (`pinned`) or unpinning `pin`: a newly pinned
/// chat goes to the end, an unpinned one leaves.
pub open spec fn pins_after(pins: Seq<Jid>, pin: Jid, pinned: bool) -> Seq<Jid> {
    if pinned {
        if ids(pins).contains(pin.id@) {
            pins
        } else {
            pins.push(pin)
        }
    } else {
        without_jid(pins, pin.id@)
    }
}

/// The chat order after pinning (`pinned`) or unpinning `pin`, with `pins`
/// the pins before: a newly pinned chat leaves the order, an unpinned chat
/// not in the order goes to its top.
pub open spec fn order_after(order: Seq<Jid>, pins: Seq<Jid>, pin: Jid, pinned: bool) -> Seq<Jid> {
    if pinned {
        if ids(pins).contains(pin.id@) {
            order
        } else {
            without_jid(order, pin.id@)
        }
    } else if ids(order).contains(pin.id@) {
        order
    } else {
        seq![pin] + order
    }
}

impl Data {
    /// Pins a chat (`pinned`) or unpins it. A newly pinned chat goes to the end
    /// of the pins and leaves the chat order; an unpinned chat leaves the pins
    /// and, if not yet in the chat order, goes to its top. Every chat stays
    /// listed once.
    pub fn add_pin(&mut self, pin: Jid, pinned: bool)
        ensures
            final(self).config_autosave_free,
            final(self).contacts == old(self).contacts,
            final(self).contacts_lid == old(self).contacts_lid,
            final(self).contacts_sort_free == old(self).contacts_sort_free,
            final(self).latest_timestamp == old(self).latest_timestamp,
            final(self).config.self_jid == old(self).config.self_jid,
            final(self).config.pins@ == pins_after(old(self).config.pins@, pin, pinned),
            final(self).order@ == order_after(old(self).order@, old(self).config.pins@, pin, pinned),
            old(self).well_listed() ==> final(self).well_listed(),
    {
        let ghost pins0 = self.config.pins@;
        let ghost order0 = self.order@;
        let ghost p = pin;
        if pinned {
            if !contains_jid(&self.config.pins, &pin) {
                remove_jid(&mut self.order, &pin);
                self.config.pins.push(pin);
                proof {
                    if old(self).well_listed() {
                        lemma_pin_keeps_listing(pins0, order0, p);
                    }
                }
            }
        } else {
            remove_jid(&mut self.config.pins, &pin);
            if !contains_jid(&self.order, &pin) {
                self.order.insert(0, pin);
                assert(self.order@ =~= seq![p] + order0);
            }
            proof {
                if old(self).well_listed() {
                    lemma_unpin_keeps_listing(pins0, order0, p);
                }
            }
        }
        self.config_autosave_free = true;
    }
}

} // verus!
