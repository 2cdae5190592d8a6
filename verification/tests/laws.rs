use quantumchat::chat_buffer::db_load::query_append_list;
use quantumchat::chat_buffer::ChatBuffer;
use quantumchat::rich_text::{clean_up_span_commands, generate_span_commands, Command};
use quantumchat::storage::config::Config;
use quantumchat::storage::contact::{apply_operation, Contact, ContactOperation};
use quantumchat::storage::{Data, Jid, Time};

fn jid(user: &str) -> Jid {
    Jid {
        id: format!("{user}@s.whatsapp.net"),
        number: user.to_string(),
        server: "s.whatsapp.net".to_string(),
    }
}

fn contact(j: &Jid, last: u64, read: u64) -> Contact {
    Contact {
        jid: j.id.clone(),
        name: "N".to_string(),
        muted: false,
        chatted: false,
        is_group: false,
        is_incomplete: false,
        last_msg_id: None,
        last_msg_contents: None,
        last_msg_sender: None,
        last_read_message_time: Time(read),
        last_message_time: Time(last),
    }
}

#[test]
fn law_one_placeholder_per_value() {
    for n in 0..6usize {
        let mut q = "IN".to_string();
        query_append_list(&mut q, n);
        assert_eq!(q.matches('?').count(), n);
    }
}

#[test]
fn law_operation_idempotent_and_monotone() {
    let j = jid("1");
    for op in [
        ContactOperation::Message { time: Time(9), content: "c".to_string(), sender: "s".to_string(), is_read: true },
        ContactOperation::ChatNotify { is_unread: false, is_muted: true, time: Time(3) },
    ] {
        let mut c = contact(&j, 5, 4);
        apply_operation(&mut c, &op);
        let (m1, r1) = (c.last_message_time, c.last_read_message_time);
        assert!(m1.0 >= 5 && r1.0 >= 4);
        let moved = apply_operation(&mut c, &op);
        assert_eq!(moved, (false, false));
        assert_eq!((c.last_message_time, c.last_read_message_time), (m1, r1));
    }
}

#[test]
fn law_unpin_undoes_pin() {
    let (a, b) = (jid("1"), jid("2"));
    let mut d = Data::new(
        vec![(a.clone(), contact(&a, 1, 0)), (b.clone(), contact(&b, 2, 0))],
        vec![],
        Config { pins: vec![], self_jid: None },
        Time(0),
    );
    d.add_pin(a.clone(), true);
    d.add_pin(a.clone(), false);
    assert!(d.config.pins.is_empty());
    let order: Vec<String> = d.order.iter().map(|j| j.id.clone()).collect();
    assert_eq!(order, vec![a.id.clone(), b.id.clone()]);
}

#[test]
fn law_more_below_unless_latest() {
    let a = jid("1");
    let d = Data::new(vec![(a.clone(), contact(&a, 7, 0))], vec![], Config { pins: vec![], self_jid: None }, Time(0));
    let mut b = ChatBuffer::new(&d, a.clone());
    assert_eq!(b.sensors(&d).1, !b.at_latest(&d));
    b.end_ts = Time(3);
    assert_eq!(b.sensors(&d).1, !b.at_latest(&d));
}

#[test]
fn law_cleaning_keeps_written_text() {
    fn written(cmds: &[Command]) -> String {
        cmds.iter()
            .map(|c| match c {
                Command::AddText(t) => t.clone(),
                Command::Newline => "\n".to_string(),
                Command::Start(s) | Command::End(s) => s.to_char().map(String::from).unwrap_or_default(),
            })
            .collect()
    }
    for t in ["*a _b* c_", "``*x*`", "_a\n*b_ c*", "*a🙂* b", "`🙂* x🙂`", "*a\nb* c", "a 🙂\n_b"] {
        let mut cmds = generate_span_commands(t);
        let before = written(&cmds);
        clean_up_span_commands(&mut cmds);
        assert_eq!(written(&cmds), before, "{t:?}");
    }
}

#[test]
fn law_first_line_unbroken_and_placeholders() {
    for t in ["a\nb", "\n", "x\r\ny", "no break"] {
        if let Some(l) = quantumchat::session::text_first_line(&t.to_string()) {
            assert!(!l.contains('\n'));
        }
    }
}

#[test]
fn law_pinning_keeps_lists() {
    let (a, b, c, x) = (jid("1"), jid("2"), jid("3"), jid("4"));
    let mut d = Data::new(
        vec![(a.clone(), contact(&a, 3, 0)), (b.clone(), contact(&b, 2, 0)), (c.clone(), contact(&c, 1, 0)), (x.clone(), contact(&x, 9, 0))],
        vec![],
        Config { pins: vec![x.clone()], self_jid: None },
        Time(0),
    );
    let ids = |v: &Vec<Jid>| v.iter().map(|j| j.id.clone()).collect::<Vec<String>>();
    d.add_pin(b.clone(), true);
    assert_eq!(ids(&d.config.pins), vec![x.id.clone(), b.id.clone()]);
    assert_eq!(ids(&d.order), vec![a.id.clone(), c.id.clone()]);
    d.add_pin(x.clone(), false);
    assert_eq!(ids(&d.config.pins), vec![b.id.clone()]);
    assert_eq!(ids(&d.order), vec![x.id.clone(), a.id.clone(), c.id.clone()]);
}
