use quantumchat::storage::config::Config;
use quantumchat::storage::contact::{
    is_lid_address, is_lid_server, is_masked, Contact, ContactAdded, ContactChange, ContactOperation,
};
use quantumchat::storage::message::MsgData;
use quantumchat::storage::{Data, Jid, Time};

fn jid(user: &str) -> Jid {
    Jid {
        id: format!("{user}@s.whatsapp.net"),
        number: user.to_string(),
        server: "s.whatsapp.net".to_string(),
    }
}

fn lid(user: &str) -> Jid {
    Jid { id: format!("{user}@lid"), number: user.to_string(), server: "lid".to_string() }
}

fn contact(j: &Jid, name: &str, last: u64) -> Contact {
    Contact {
        jid: j.id.clone(),
        name: name.to_string(),
        muted: false,
        chatted: true,
        is_group: false,
        is_incomplete: false,
        last_msg_id: None,
        last_msg_contents: None,
        last_msg_sender: None,
        last_read_message_time: Time(0),
        last_message_time: Time(last),
    }
}

fn config(pins: Vec<Jid>) -> Config {
    Config { pins, self_jid: None }
}

fn ids(v: &[Jid]) -> Vec<String> {
    v.iter().map(|j| j.id.clone()).collect()
}

fn msg(id: &str, source: &Jid, sender: &Jid, content: &str, ts: u64, is_read: bool) -> MsgData {
    MsgData {
        msg_id: id.to_string(),
        content: content.to_string(),
        source: source.id.clone(),
        sender: sender.id.clone(),
        timestamp: Time(ts),
        is_edited: false,
        is_read,
        from_me: false,
        replying_to: None,
    }
}

fn find<'a>(d: &'a Data, j: &Jid) -> Option<&'a Contact> {
    d.find_contact(j).map(|i| &d.contacts[i].1)
}

fn sample() -> Data {
    let (a, b, c) = (jid("1"), jid("2"), jid("3"));
    Data::new(
        vec![(a.clone(), contact(&a, "Ann", 5)), (b.clone(), contact(&b, "Bob", 10)), (c.clone(), contact(&c, "Cat", 1))],
        vec![],
        config(vec![]),
        Time(100),
    )
}

#[test]
fn time_from_signed() {
    assert_eq!(Time::from(5i64).0, 5);
    assert_eq!(Time::from(-1i64).0, u64::MAX);
}

#[test]
fn new_orders_unpinned_chats_by_recency() {
    let (a, b, c) = (jid("1"), jid("2"), jid("3"));
    let d = Data::new(
        vec![
            (a.clone(), contact(&a, "Ann", 5)),
            (b.clone(), contact(&b, "Bob", 10)),
            (c.clone(), contact(&c, "Cat", 1)),
            (a.clone(), contact(&a, "Ann2", 7)),
        ],
        vec![],
        config(vec![c.clone()]),
        Time(100),
    );
    assert_eq!(ids(&d.order), vec![b.id.clone(), a.id.clone()]);
    // a later entry for the same address wins
    assert_eq!(find(&d, &a).unwrap().name, "Ann2");
    assert_eq!(d.contacts.len(), 3);
    assert_eq!(d.latest_timestamp, Time(100));
    assert!(!d.config_autosave_free);
    assert!(!d.contacts_sort_free);
}

#[test]
fn sort_puts_chats_without_contact_last() {
    let mut d = sample();
    let x = jid("9");
    d.order.insert(0, x.clone());
    d.sort_contacts();
    assert_eq!(ids(&d.order), vec![jid("2").id, jid("1").id, jid("3").id, x.id]);
}

#[test]
fn pin_and_unpin() {
    let mut d = sample();
    let b = jid("2");
    d.add_pin(b.clone(), true);
    assert_eq!(ids(&d.config.pins), vec![b.id.clone()]);
    assert_eq!(ids(&d.order), vec![jid("1").id, jid("3").id]);
    assert!(d.config_autosave_free);
    // pinning again changes nothing
    d.add_pin(b.clone(), true);
    assert_eq!(ids(&d.config.pins), vec![b.id.clone()]);
    assert_eq!(d.order.len(), 2);
    // unpinning puts the chat at the top
    d.add_pin(b.clone(), false);
    assert!(d.config.pins.is_empty());
    assert_eq!(ids(&d.order), vec![b.id, jid("1").id, jid("3").id]);
}

#[test]
fn operate_creates_fallback_contact() {
    let mut d = sample();
    let x = jid("77");
    let op = ContactOperation::Message {
        time: Time(50),
        content: "hi".to_string(),
        sender: x.id.clone(),
        is_read: true,
    };
    let r = d.operate_on_contact(&x, op);
    assert_eq!(r, Some(ContactChange { created: true, last_message_moved: true, last_read_moved: true }));
    let c = find(&d, &x).unwrap();
    assert_eq!(c.name, "77");
    assert!(c.chatted && c.is_incomplete);
    assert_eq!(c.last_message_time, Time(50));
    assert_eq!(c.last_read_message_time, Time(50));
    assert_eq!(c.last_msg_contents.as_deref(), Some("hi"));
}

#[test]
fn operate_leaves_unknown_hidden_number_alone() {
    let mut d = sample();
    let l = lid("55");
    let op = ContactOperation::ChatNotify { is_unread: false, is_muted: true, time: Time(3) };
    assert_eq!(d.operate_on_contact(&l, op), None);
    assert!(d.find_contact(&l).is_none());
}

#[test]
fn add_message_moves_last_message_forward_only() {
    let mut d = sample();
    let a = jid("1");
    let r = d.add_message(&msg("m1", &a, &a, "newer", 8, false), Some(a.clone()));
    assert_eq!(r, Ok(Some(ContactChange { created: false, last_message_moved: true, last_read_moved: false })));
    assert!(d.contacts_sort_free);
    let c = find(&d, &a).unwrap();
    assert_eq!(c.last_message_time, Time(8));
    assert_eq!(c.last_msg_contents.as_deref(), Some("newer"));
    assert_eq!(c.last_msg_sender.as_deref(), Some(a.id.as_str()));
    // an older message changes nothing
    let r = d.add_message(&msg("m0", &a, &a, "older", 6, true), Some(a.clone()));
    assert_eq!(r, Ok(Some(ContactChange { created: false, last_message_moved: false, last_read_moved: true })));
    let c = find(&d, &a).unwrap();
    assert_eq!(c.last_message_time, Time(8));
    assert_eq!(c.last_msg_contents.as_deref(), Some("newer"));
    assert_eq!(c.last_read_message_time, Time(6));
}

#[test]
fn add_message_twice_is_applying_once() {
    let mut d = sample();
    let a = jid("1");
    let m = msg("m1", &a, &a, "hey", 20, true);
    d.add_message(&m, Some(a.clone())).unwrap();
    let once = find(&d, &a).unwrap().clone();
    let r = d.add_message(&m, Some(a.clone())).unwrap();
    assert_eq!(r, Some(ContactChange { created: false, last_message_moved: false, last_read_moved: false }));
    let twice = find(&d, &a).unwrap();
    assert_eq!(twice.last_message_time, once.last_message_time);
    assert_eq!(twice.last_read_message_time, once.last_read_message_time);
    assert_eq!(twice.last_msg_contents, once.last_msg_contents);
}

#[test]
fn add_message_with_unreadable_chat() {
    let mut d = sample();
    let a = jid("1");
    let mut m = msg("m1", &a, &a, "x", 20, false);
    m.source = "not an address".to_string();
    assert_eq!(d.add_message(&m, None), Err("JID parse error (not an address)".to_string()));
    assert!(d.contacts_sort_free);
    assert_eq!(find(&d, &a).unwrap().last_message_time, Time(5));
}

#[test]
fn note_chat_updates_contact_sorts_and_pins() {
    let mut d = sample();
    let c = jid("3");
    let r = d.note_chat(&c, false, true, false, 30);
    assert_eq!(r, Some(ContactChange { created: false, last_message_moved: true, last_read_moved: true }));
    let k = find(&d, &c).unwrap();
    assert!(k.muted && k.chatted);
    assert_eq!(k.last_message_time, Time(30));
    assert_eq!(k.last_read_message_time, Time(30));
    assert_eq!(ids(&d.order), vec![c.id.clone(), jid("2").id, jid("1").id]);
    assert!(d.config_autosave_free);
    d.note_chat(&c, true, false, true, 31);
    assert_eq!(ids(&d.config.pins), vec![c.id.clone()]);
    assert_eq!(ids(&d.order), vec![jid("2").id, jid("1").id]);
    // unread: the read time stays
    assert_eq!(find(&d, &c).unwrap().last_read_message_time, Time(30));
}

#[test]
fn add_contact_variants() {
    let mut d = sample();
    let x = jid("44");
    let r = d.add_contact(contact(&x, "Xena", 0), Some(x.clone()), jid("Xena"));
    assert_eq!(r, Ok(ContactAdded::Stored));
    assert_eq!(find(&d, &x).unwrap().name, "Xena");
    assert_eq!(d.order.last().unwrap().id, x.id);

    let l = lid("123");
    let target = jid("1");
    let mut lc = contact(&l, "1", 0);
    lc.jid = l.id.clone();
    let r = d.add_contact(lc, Some(l.clone()), target.clone());
    assert_eq!(r, Ok(ContactAdded::LidMapped));
    assert_eq!(d.display_jid(&l), "Ann");

    let mut masked = contact(&l, "?", 0);
    masked.jid = "+44\u{2219}\u{2219}85@lid".to_string();
    let before = d.contacts_lid.len();
    assert_eq!(d.add_contact(masked, None, jid("?")), Ok(ContactAdded::Masked));
    assert_eq!(d.contacts_lid.len(), before);

    let mut bad = contact(&x, "Bad", 0);
    bad.jid = "garbage".to_string();
    assert_eq!(d.add_contact(bad, None, jid("Bad")), Err("JID parse error (garbage)".to_string()));
}

#[test]
fn note_contact_picks_address_and_self() {
    let mut d = sample();
    let chat = jid("5");
    let phone_jid = jid("6");
    let c = d.note_contact(&chat, "Me".to_string(), &"6".to_string(), phone_jid.clone(), true, false);
    let c = c.unwrap();
    assert_eq!(c.jid, phone_jid.id);
    assert!(!c.is_incomplete && !c.chatted);
    assert_eq!(d.config.self_jid.as_ref().unwrap().id, phone_jid.id);
    assert!(d.config.is_self(&phone_jid));
    assert!(d.config_autosave_free);
    // without a phone number the chat's address is used; a complete contact is not replaced
    let a = jid("1");
    assert!(d.note_contact(&a, "Ann".to_string(), &String::new(), jid("x"), false, false).is_none());
}

#[test]
fn tick_sorts_and_reports_saving() {
    let mut d = sample();
    d.order.reverse();
    d.contacts_sort_free = true;
    d.config_autosave_free = true;
    assert!(d.tick());
    assert_eq!(ids(&d.order), vec![jid("2").id, jid("1").id, jid("3").id]);
    assert!(!d.contacts_sort_free && !d.config_autosave_free);
    assert!(!d.tick());
}

#[test]
fn display_name_fallbacks() {
    let d = sample();
    assert_eq!(d.display_jid(&jid("1")), "Ann");
    assert_eq!(d.display_jid(&jid("99")), "99");
    assert!(d.needs_contact(&jid("99")));
    assert!(!d.needs_contact(&jid("1")));
}

#[test]
fn address_texts() {
    assert!(is_lid_address("123@lid"));
    assert!(!is_lid_address("123@s.whatsapp.net"));
    assert!(!is_lid_address("lid"));
    assert!(is_masked("+44\u{2219}\u{2219}85@lid"));
    assert!(!is_masked("+4485@lid"));
    assert!(is_lid_server("lid"));
    assert!(!is_lid_server("s.whatsapp.net"));
}
