use quantumchat::chat_buffer::{ChatBuffer, RMessageCore};
use quantumchat::session::{
    chat_list, hover_update, message_arrived, message_widget_id, sidebar_entry, text_first_line, Drafts,
    Indicator, SidebarEntry, Typing,
};
use quantumchat::storage::config::Config;
use quantumchat::storage::contact::Contact;
use quantumchat::storage::message::MsgData;
use quantumchat::storage::{Data, Jid, Time};

fn jid(user: &str) -> Jid {
    Jid {
        id: format!("{user}@s.whatsapp.net"),
        number: user.to_string(),
        server: "s.whatsapp.net".to_string(),
    }
}

fn contact(j: &Jid, name: &str, last: u64) -> Contact {
    Contact {
        jid: j.id.clone(),
        name: name.to_string(),
        muted: false,
        chatted: true,
        is_group: false,
        is_incomplete: false,
        last_msg_id: None,
        last_msg_contents: None,
        last_msg_sender: None,
        last_read_message_time: Time(0),
        last_message_time: Time(last),
    }
}

fn data() -> Data {
    let (a, b) = (jid("1"), jid("2"));
    let mut cb = contact(&b, "Bob", 20);
    cb.last_msg_sender = Some(a.id.clone());
    cb.last_msg_contents = Some("first line\r\nsecond".to_string());
    Data::new(
        vec![(a.clone(), contact(&a, "Ann", 10)), (b.clone(), cb)],
        vec![],
        Config { pins: vec![a.clone()], self_jid: None },
        Time(1000),
    )
}

fn quote(id: &str) -> RMessageCore {
    RMessageCore { text: vec![], id: id.to_string(), sender: jid("1"), sender_name: "Ann".to_string() }
}

#[test]
fn drafts_keep_text_and_reply() {
    let mut d = Drafts::new();
    let c = jid("1");
    assert_eq!(d.text(&c), "");
    d.set_reply(&c, Some(quote("m1")));
    assert_eq!(d.text(&c), "");
    d.set_text(&c, "hello".to_string());
    d.set_text(&jid("2"), "other".to_string());
    assert_eq!(d.text(&c), "hello");
    let sent = d.take_for_send(&c).unwrap();
    assert_eq!(sent.text, "hello");
    assert_eq!(sent.reply_to.unwrap().id, "m1");
    assert_eq!(d.text(&c), "");
    assert_eq!(d.text(&jid("2")), "other");
    assert!(d.take_for_send(&c).is_none());
}

#[test]
fn empty_draft_is_not_sent() {
    let mut d = Drafts::new();
    let c = jid("1");
    d.set_text(&c, String::new());
    assert!(d.take_for_send(&c).is_none());
    assert!(d.entries.is_empty());
}

#[test]
fn typing_indicator() {
    let mut t = Typing::new();
    let (chat, user) = (jid("g"), jid("u"));
    t.note(chat.clone(), user.clone(), true);
    assert_eq!(t.who(&chat).unwrap().id, user.id);
    // a stop clears what is kept under the user's own address only
    t.note(chat.clone(), user.clone(), false);
    assert_eq!(t.who(&chat).unwrap().id, user.id);
    t.note(user.clone(), user.clone(), true);
    t.note(jid("x"), user.clone(), false);
    assert!(t.who(&user).is_none());
}

#[test]
fn hover_follows_the_pointer() {
    let h = hover_update(None, "a".to_string(), true);
    assert_eq!(h.as_deref(), Some("a"));
    assert_eq!(hover_update(h.clone(), "b".to_string(), false).as_deref(), Some("a"));
    assert_eq!(hover_update(h, "a".to_string(), false), None);
}

#[test]
fn widget_ids() {
    assert_eq!(message_widget_id(&"ABC123".to_string()), "msg:ABC123");
    assert_ne!(message_widget_id(&"a".to_string()), message_widget_id(&"b".to_string()));
}

#[test]
fn first_lines() {
    assert_eq!(text_first_line(&String::new()), None);
    assert_eq!(text_first_line(&"one\ntwo".to_string()).as_deref(), Some("one"));
    assert_eq!(text_first_line(&"one\r\ntwo".to_string()).as_deref(), Some("one"));
    assert_eq!(text_first_line(&"one\r".to_string()).as_deref(), Some("one\r"));
    assert_eq!(text_first_line(&"\nafter".to_string()).as_deref(), Some(""));
    assert_eq!(text_first_line(&"plain".to_string()).as_deref(), Some("plain"));
}

#[test]
fn sidebar_lines() {
    let d = data();
    let mut t = Typing::new();
    let table = vec![(jid("1").id, jid("1"))];
    match sidebar_entry(&d, &t, &jid("2"), &table) {
        SidebarEntry::Known { name, indicator: Indicator::LastMessage { sender, line } } => {
            assert_eq!(name, "Bob");
            assert_eq!(sender, "Ann");
            assert_eq!(line, "first line");
        },
        _ => panic!("expected the last message"),
    }
    t.note(jid("2"), jid("1"), true);
    match sidebar_entry(&d, &t, &jid("2"), &table) {
        SidebarEntry::Known { indicator: Indicator::Typing { name }, .. } => assert_eq!(name, "Ann"),
        _ => panic!("expected typing"),
    }
    match sidebar_entry(&d, &t, &jid("1"), &table) {
        SidebarEntry::Known { name, indicator: Indicator::Nothing } => assert_eq!(name, "Ann"),
        _ => panic!("expected nothing"),
    }
    match sidebar_entry(&d, &t, &jid("77"), &table) {
        SidebarEntry::Unknown { number } => assert_eq!(number, "77"),
        _ => panic!("expected an unknown chat"),
    }
    // an unreadable sender address shows nothing
    match sidebar_entry(&d, &Typing::new(), &jid("2"), &vec![]) {
        SidebarEntry::Known { indicator: Indicator::Nothing, .. } => {},
        _ => panic!("expected nothing"),
    }
}

#[test]
fn chat_list_pins_first() {
    let d = data();
    let l: Vec<String> = chat_list(&d).into_iter().map(|j| j.id).collect();
    assert_eq!(l, vec![jid("1").id, jid("2").id]);
}

#[test]
fn new_message_in_open_chat() {
    let mut d = data();
    let b = ChatBuffer::new(&d, jid("2"));
    let m = MsgData {
        msg_id: "m9".to_string(),
        content: "new".to_string(),
        source: jid("2").id,
        sender: jid("2").id,
        timestamp: Time(25),
        is_edited: false,
        is_read: false,
        from_me: false,
        replying_to: None,
    };
    let (change, load) = message_arrived(&mut d, Some(&b), &jid("2"), &m, Some(jid("2"))).unwrap();
    assert!(change.unwrap().last_message_moved);
    let load = load.unwrap();
    assert!(!load.is_reverse);
    assert_eq!(load.timestamp, Time(20));
    // the window no longer reaches the last message: no load
    let (_, load) = message_arrived(&mut d, Some(&b), &jid("2"), &m, Some(jid("2"))).unwrap();
    assert!(load.is_none());
    let (_, load) = message_arrived(&mut d, None, &jid("2"), &m, Some(jid("2"))).unwrap();
    assert!(load.is_none());
}
