use quantumchat::rich_text::{
    clean_up_span_commands, flush_buf, generate_span_commands, is_emoji, merge_commands, parse_beginning,
    parse_end, remove_duplicates, Command, FontChoice, StyleType, TextStyle,
};

fn plain() -> TextStyle {
    TextStyle { bold: false, italic: false, strikethrough: false, monospace: false, emoji: false }
}

fn text(s: &str) -> Command {
    Command::AddText(s.to_string())
}

#[test]
fn style_switches() {
    let mut s = plain();
    s.apply(StyleType::Italic, true);
    assert!(s.get(StyleType::Italic));
    assert!(!s.get(StyleType::Bold));
    s.apply(StyleType::Italic, false);
    assert_eq!(s, plain());
    s.apply(StyleType::Monospace, true);
    assert_eq!(s.get_font(), FontChoice::Mono);
    s.apply(StyleType::Emoji, true);
    assert_eq!(s.get_font(), FontChoice::Emoji);
    assert_eq!(plain().get_font(), FontChoice::Default);
}

#[test]
fn marker_characters() {
    for (c, s) in [('*', StyleType::Bold), ('_', StyleType::Italic), ('~', StyleType::Strikethrough), ('`', StyleType::Monospace)] {
        assert_eq!(StyleType::from_char(c), Some(s));
        assert_eq!(s.to_char(), Some(c));
    }
    assert_eq!(StyleType::from_char('a'), None);
    assert_eq!(StyleType::Emoji.to_char(), None);
}

#[test]
fn emoji_ranges() {
    assert!(is_emoji('🙂'));
    assert!(is_emoji('\u{2600}'));
    assert!(is_emoji('\u{27BF}'));
    assert!(!is_emoji('a'));
    assert!(!is_emoji('\u{25FF}'));
}

#[test]
fn flushing_pending_text() {
    let mut t = "ab".to_string();
    let mut cmds = vec![Command::Newline];
    flush_buf(&mut t, &mut cmds);
    assert_eq!(cmds, vec![Command::Newline, text("ab")]);
    assert!(t.is_empty());
    flush_buf(&mut t, &mut cmds);
    assert_eq!(cmds.len(), 2);
}

#[test]
fn commands_of_a_text() {
    let mut cmds = generate_span_commands("  *hi* x ");
    assert_eq!(
        cmds,
        vec![Command::Start(StyleType::Bold), text("hi"), Command::End(StyleType::Bold), text(" "), text("x")]
    );
    merge_commands(&mut cmds);
    assert_eq!(cmds, vec![Command::Start(StyleType::Bold), text("hi"), Command::End(StyleType::Bold), text(" x")]);
    let emoji = generate_span_commands("a🙂b");
    assert_eq!(
        emoji,
        vec![text("a"), Command::Start(StyleType::Emoji), text("🙂"), Command::End(StyleType::Emoji), text("b")]
    );
}

#[test]
fn unmatched_markers_become_text() {
    let mut cmds = vec![Command::Start(StyleType::Bold), text("a")];
    clean_up_span_commands(&mut cmds);
    assert_eq!(cmds, vec![text("*"), text("a")]);
    let mut cmds = vec![Command::Start(StyleType::Italic), text("a"), Command::Newline, Command::End(StyleType::Italic)];
    clean_up_span_commands(&mut cmds);
    // a line break closes nothing: both markers come back as characters
    assert_eq!(cmds, vec![text("_"), text("a"), Command::Newline, text("_")]);
    let mut cmds = vec![Command::Start(StyleType::Bold), text("a"), Command::End(StyleType::Bold)];
    clean_up_span_commands(&mut cmds);
    assert_eq!(cmds.len(), 3);
}

#[test]
fn skipped_markers_resolve_in_place() {
    let mut cmds = vec![
        Command::Start(StyleType::Bold),
        Command::Start(StyleType::Emoji),
        Command::Start(StyleType::Italic),
        Command::End(StyleType::Bold),
    ];
    clean_up_span_commands(&mut cmds);
    assert_eq!(cmds, vec![Command::Start(StyleType::Bold), text("_"), Command::End(StyleType::Bold)]);

    let mut cmds = vec![Command::Start(StyleType::Emoji), Command::Start(StyleType::Italic), Command::End(StyleType::Bold)];
    clean_up_span_commands(&mut cmds);
    assert_eq!(cmds, vec![text("_"), text("*")]);

    let mut cmds = vec![Command::Start(StyleType::Bold), Command::Newline, Command::End(StyleType::Bold)];
    clean_up_span_commands(&mut cmds);
    assert_eq!(cmds, vec![text("*"), Command::Newline, text("*")]);
}

#[test]
fn closing_marker_after_a_line_break_is_kept() {
    let spans = quantumchat::rich_text::generate_spans("*a\nb* c");
    let all: String = spans.iter().map(|s| s.0.clone()).collect();
    assert_eq!(all, "*a\nb* c");
    assert!(spans.iter().all(|s| !s.1.bold));
}

#[test]
fn duplicates_removed() {
    let mut v = vec![3usize, 1, 3, 2, 1];
    remove_duplicates(&mut v);
    assert_eq!(v, vec![3, 1, 2]);
}

#[test]
fn first_and_last_characters() {
    let mut cmds = Vec::new();
    let mut just_added = None;
    let mut style = plain();
    assert!(!parse_beginning(&mut cmds, &['*', 'a'], &mut just_added, &mut style));
    assert_eq!(cmds, vec![Command::Start(StyleType::Bold)]);
    assert_eq!(just_added, Some(StyleType::Bold));
    assert!(style.bold);

    let mut cmds = Vec::new();
    assert!(parse_beginning(&mut cmds, &['x'], &mut None, &mut plain()));
    assert_eq!(cmds, vec![text("x")]);

    let mut cmds = vec![Command::Start(StyleType::Bold), text("a")];
    let bold = TextStyle { bold: true, ..plain() };
    parse_end(&mut cmds, &['a', '*'], &None, &bold);
    assert_eq!(cmds, vec![Command::Start(StyleType::Bold), text("a"), Command::End(StyleType::Bold)]);

    let mut cmds = Vec::new();
    parse_end(&mut cmds, &['a', '*'], &None, &plain());
    assert_eq!(cmds, vec![text("*")]);
}
