use quantumchat::chat_buffer::db_load::{attach_replies, plan_replies, query_append_list, DbLoadResult};
use quantumchat::chat_buffer::{decimal_text, ChatBuffer, MSG_LIMIT};
use quantumchat::rich_text::FontChoice;
use quantumchat::storage::config::Config;
use quantumchat::storage::contact::Contact;
use quantumchat::storage::message::{MsgData, ReactionData};
use quantumchat::storage::{Data, Jid, Time};

fn jid(user: &str) -> Jid {
    Jid {
        id: format!("{user}@s.whatsapp.net"),
        number: user.to_string(),
        server: "s.whatsapp.net".to_string(),
    }
}

fn contact(j: &Jid, name: &str, last: u64) -> Contact {
    Contact {
        jid: j.id.clone(),
        name: name.to_string(),
        muted: false,
        chatted: true,
        is_group: false,
        is_incomplete: false,
        last_msg_id: None,
        last_msg_contents: None,
        last_msg_sender: None,
        last_read_message_time: Time(0),
        last_message_time: Time(last),
    }
}

fn msg(id: &str, sender: &Jid, content: &str, ts: u64) -> MsgData {
    MsgData {
        msg_id: id.to_string(),
        content: content.to_string(),
        source: jid("chat").id,
        sender: sender.id.clone(),
        timestamp: Time(ts),
        is_edited: false,
        is_read: false,
        from_me: false,
        replying_to: None,
    }
}

fn data() -> Data {
    let (a, b, chat) = (jid("1"), jid("2"), jid("chat"));
    Data::new(
        vec![
            (a.clone(), contact(&a, "Ann", 0)),
            (b.clone(), contact(&b, "Bob", 0)),
            (chat.clone(), contact(&chat, "Group", 40)),
        ],
        vec![],
        Config { pins: vec![], self_jid: None },
        Time(1000),
    )
}

fn table() -> Vec<(String, Jid)> {
    vec![(jid("1").id, jid("1")), (jid("2").id, jid("2"))]
}

fn load(messages: Vec<MsgData>, is_reverse: bool) -> DbLoadResult {
    DbLoadResult { messages, reactions: vec![], replies: vec![], is_reverse }
}

fn texts(b: &ChatBuffer) -> Vec<String> {
    b.messages
        .iter()
        .map(|m| m.message.text.iter().map(|s| s.text.clone()).collect::<String>())
        .collect()
}

#[test]
fn decimal_forms() {
    assert_eq!(decimal_text(0), "0");
    assert_eq!(decimal_text(7), "7");
    assert_eq!(decimal_text(1234567), "1234567");
    assert_eq!(decimal_text(u64::MAX), u64::MAX.to_string());
}

#[test]
fn query_lists() {
    let mut q = "SELECT * FROM reactions WHERE message_id IN".to_string();
    query_append_list(&mut q, 3);
    assert_eq!(q, "SELECT * FROM reactions WHERE message_id IN (?, ?, ?)");
    let mut q = "IN ".to_string();
    query_append_list(&mut q, 1);
    assert_eq!(q, "IN (?)");
    let mut q = String::new();
    query_append_list(&mut q, 0);
    assert_eq!(q, " ()");
}

#[test]
fn replies_found_and_looked_up() {
    let a = jid("1");
    let mut m1 = msg("m1", &a, "reply", 2);
    m1.replying_to = Some("m2".to_string());
    let m2 = msg("m2", &a, "original", 1);
    let mut m3 = msg("m3", &a, "late reply", 3);
    m3.replying_to = Some("old".to_string());
    let mut m4 = msg("m4", &a, "another", 4);
    m4.replying_to = Some("old".to_string());
    let messages = vec![m1, m2, m3, m4];
    let (mut found, pending) = plan_replies(&messages);
    assert_eq!(found.len(), 1);
    assert_eq!(found[0].0, "m1");
    assert_eq!(found[0].1.msg_id, "m2");
    assert_eq!(pending.len(), 1);
    assert_eq!(pending[0].0, "old");
    assert_eq!(pending[0].1, vec!["m3".to_string(), "m4".to_string()]);
    attach_replies(&mut found, &pending, vec![msg("old", &a, "from before", 0), msg("other", &a, "x", 0)]);
    assert_eq!(found.len(), 3);
    assert_eq!(found[1].0, "m3");
    assert_eq!(found[1].1.msg_id, "old");
    assert_eq!(found[2].0, "m4");
}

#[test]
fn new_buffer_starts_at_last_message() {
    let d = data();
    let b = ChatBuffer::new(&d, jid("chat"));
    assert_eq!(b.start_ts, Time(40));
    assert_eq!(b.end_ts, Time(40));
    assert!(b.debounce_up && b.debounce_down);
    assert_eq!(b.viewing_id, jid("chat").id);
    let unknown = ChatBuffer::new(&d, jid("zzz"));
    assert_eq!(unknown.start_ts, Time(1000));
    let req = b.load_begin(true);
    assert!(req.is_reverse);
    assert_eq!(req.timestamp, Time(40));
    assert_eq!(req.viewing, jid("chat").id);
}

#[test]
fn loading_newer_messages() {
    let d = data();
    let (a, bob) = (jid("1"), jid("2"));
    let mut b = ChatBuffer::new(&d, jid("chat"));
    let mut r = load(vec![msg("m1", &a, "*hi*", 41), msg("m2", &a, "again", 42), msg("m3", &bob, "yo", 43)], false);
    r.reactions = vec![
        ReactionData { message_id: "m3".to_string(), sender_id: a.id.clone(), emoji: "👍".to_string(), from_me: false },
        ReactionData { message_id: "m3".to_string(), sender_id: "bad".to_string(), emoji: "x".to_string(), from_me: false },
    ];
    r.replies = vec![("m2".to_string(), msg("m0", &bob, "earlier", 1))];
    assert_eq!(b.loaded(&d, r, &table()), Ok(()));
    assert!(!b.debounce_down);
    assert!(b.debounce_up);
    assert_eq!(texts(&b), vec!["hi", "again", "yo"]);
    let first = &b.messages[0];
    assert!(first.message.text[0].bold);
    assert_eq!(first.message.text[0].font, FontChoice::Default);
    assert_eq!(first.message.sender_name, "Ann");
    assert_eq!(first.time_display, "41");
    assert!(!first.hide_sender);
    assert!(b.messages[1].hide_sender);
    assert!(!b.messages[2].hide_sender);
    let reply = b.messages[1].replying_to.as_ref().unwrap();
    assert_eq!(reply.sender_name, "Bob");
    assert_eq!(reply.id, "m0");
    assert_eq!(b.messages[2].reactions.len(), 1);
    assert_eq!(b.messages[2].reactions[0].sender_name, "Ann");
    assert_eq!(b.end_ts, Time(43));
    assert_eq!(b.start_ts, Time(40));
}

#[test]
fn loading_older_messages() {
    let d = data();
    let a = jid("1");
    let mut b = ChatBuffer::new(&d, jid("chat"));
    b.loaded(&d, load(vec![msg("m5", &a, "five", 45)], false), &table()).unwrap();
    b.loaded(&d, load(vec![msg("m3", &a, "three", 30), msg("m2", &a, "two", 20)], true), &table()).unwrap();
    assert_eq!(texts(&b), vec!["two", "three", "five"]);
    assert_eq!(b.start_ts, Time(20));
    assert_eq!(b.end_ts, Time(45));
    assert!(!b.debounce_up);
    // loading older messages and finding none puts the start at zero
    b.loaded(&d, load(vec![], true), &table()).unwrap();
    assert_eq!(b.start_ts, Time(0));
}

#[test]
fn unreadable_sender_stops_the_load() {
    let d = data();
    let a = jid("1");
    let mut b = ChatBuffer::new(&d, jid("chat"));
    let mut bad = msg("m2", &a, "two", 42);
    bad.sender = "???".to_string();
    let r = b.loaded(&d, load(vec![msg("m1", &a, "one", 41), bad, msg("m3", &a, "three", 43)], false), &table());
    assert_eq!(r, Err("JID parse error (???)".to_string()));
    assert_eq!(texts(&b), vec!["one"]);
    assert_eq!(b.end_ts, Time(40));
    assert!(!b.debounce_down);
}

#[test]
fn debounce_refuses_a_second_request() {
    let d = data();
    let mut b = ChatBuffer::new(&d, jid("chat"));
    assert!(b.debounce(true));
    b.loaded(&d, load(vec![], true), &table()).unwrap();
    assert!(!b.debounce(true));
    assert!(b.debounce(true));
    assert!(b.debounce(false));
}

#[test]
fn shrink_keeps_the_window_small() {
    let d = data();
    let a = jid("1");
    let mut b = ChatBuffer::new(&d, jid("chat"));
    let ms: Vec<MsgData> = (0..5).map(|i| msg(&format!("m{i}"), &a, "x", 41 + i)).collect();
    b.loaded(&d, load(ms, false), &table()).unwrap();
    b.shrink(MSG_LIMIT - 2, false);
    assert_eq!(b.messages.len(), 2);
    assert_eq!(b.messages[0].timestamp, Time(44));
    assert_eq!(b.start_ts, Time(44));
    b.shrink(MSG_LIMIT - 1, true);
    assert_eq!(b.messages.len(), 1);
    assert_eq!(b.messages[0].timestamp, Time(44));
    assert_eq!(b.end_ts, Time(44));
    b.shrink(3, true);
    assert_eq!(b.messages.len(), 1);
}

#[test]
fn reactions_arrive_later() {
    let d = data();
    let a = jid("1");
    let mut b = ChatBuffer::new(&d, jid("chat"));
    b.loaded(&d, load(vec![msg("m1", &a, "x", 41), msg("m2", &a, "y", 42)], false), &table()).unwrap();
    b.add_reaction(&d, &"m2".to_string(), "❤".to_string(), jid("2"), true);
    assert_eq!(b.messages[1].reactions.len(), 1);
    assert_eq!(b.messages[1].reactions[0].sender_name, "Bob");
    assert!(b.messages[1].reactions[0].from_me);
    assert!(b.messages[0].reactions.is_empty());
    b.add_reaction(&d, &"nope".to_string(), "❤".to_string(), jid("2"), true);
    assert_eq!(b.messages[1].reactions.len(), 1);
}

#[test]
fn sensors_follow_the_window_end() {
    let d = data();
    let a = jid("1");
    let mut b = ChatBuffer::new(&d, jid("chat"));
    assert_eq!(b.sensors(&d), (false, false));
    assert!(b.at_latest(&d));
    b.loaded(&d, load(vec![msg("m1", &a, "x", 41)], false), &table()).unwrap();
    assert_eq!(b.sensors(&d), (true, true));
    assert!(!b.at_latest(&d));
    assert!(b.messages[0].show_top_bar());
}
