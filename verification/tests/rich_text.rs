use quantumchat::rich_text::{generate_spans, TextStyle};

fn plain() -> TextStyle {
    TextStyle { bold: false, italic: false, strikethrough: false, monospace: false, emoji: false }
}

fn bold() -> TextStyle {
    TextStyle { bold: true, ..plain() }
}

fn italic() -> TextStyle {
    TextStyle { italic: true, ..plain() }
}

fn strikethrough() -> TextStyle {
    TextStyle { strikethrough: true, ..plain() }
}

fn emoji() -> TextStyle {
    TextStyle { emoji: true, ..plain() }
}

fn bold_italic() -> TextStyle {
    TextStyle { bold: true, italic: true, ..plain() }
}

fn cmp_spans(input: &str, b: &[(&'static str, TextStyle)]) {
    let a = generate_spans(input);
    if a.len() != b.len() {
        panic!("input: {input:?}\n  expected: {b:?}\n  found: {a:?}");
    }
    for (a, b) in a.iter().zip(b) {
        if a.0 != b.0 || a.1 != b.1 {
            panic!("input: {input:?}\n  expected: {b:?}\n  found: {a:?}");
        }
    }
}

#[test]
fn spans_formatting() {
    let default = plain();
    cmp_spans("*hello* world", &[("hello", bold()), (" world", default)]);
    cmp_spans(
        "*bold _italic* still italic_?",
        &[("bold _italic", bold()), (" still italic_?", default)],
    );

    cmp_spans(
        "*bold* _italic_ ~strike~",
        &[
            ("bold", bold()),
            (" ", default),
            ("italic", italic()),
            (" ", default),
            ("strike", strikethrough()),
        ],
    );

    // adjacent markers
    cmp_spans(
        "*bold*_italic_~strike~",
        &[("bold", bold()), ("italic", italic()), ("strike", strikethrough())],
    );

    cmp_spans("*bold without end", &[("*bold without end", default)]);
    cmp_spans("_italic without end", &[("_italic without end", default)]);
    // nested (invalid) overlap
    cmp_spans(
        "*bold _italic* still italic_?",
        &[("bold _italic", bold()), (" still italic_?", default)],
    );
    // reverse overlap
    cmp_spans(
        "_italic *bold_ still bold*",
        &[("italic *bold", italic()), (" still bold*", default)],
    );

    // markers inside words (should not format)
    cmp_spans("hel*lo*world", &[("hel*lo*world", default)]);
    // whitespace inside markers (invalid)
    cmp_spans("* bold*", &[("* bold*", default)]);
    cmp_spans("*bold *", &[("*bold *", default)]);

    // punctuation adjacency
    cmp_spans(
        "*bold*, _italic_. ~strike~!",
        &[
            ("bold", bold()),
            (", ", default),
            ("italic", italic()),
            (". ", default),
            ("strike", strikethrough()),
            ("!", default),
        ],
    );

    cmp_spans(
        "*valid* _invalid *nested_ still*",
        &[
            ("valid", bold()),
            (" ", default),
            ("invalid *nested", italic()),
            (" still*", default),
        ],
    );

    // newline handling (no multiline formatting)
    cmp_spans("*bold\nnot bold*", &[("*bold\nnot bold*", default)]);
    // zero-width space (treated as normal char)
    cmp_spans("*bold\u{200B}text*", &[("bold\u{200B}text", bold())]);

    // repeated toggling
    cmp_spans("*this *is *a *mess*", &[("this *is *a *mess", bold())]);

    // lone markers
    cmp_spans("this * is not formatting", &[("this * is not formatting", default)]);
    cmp_spans("nor is this _", &[("nor is this _", default)]);

    cmp_spans("~strike~test", &[("~strike~test", default)]);

    // mixed tight formatting
    cmp_spans("*a*_b_~c~", &[("a", bold()), ("b", italic()), ("c", strikethrough())]);

    cmp_spans("(*bold*)", &[("(", default), ("bold", bold()), (")", default)]);
    cmp_spans("***bold***", &[("**bold", bold()), ("**", default)]);
    cmp_spans("*_text_*", &[("text", bold_italic())]);
    cmp_spans("_*text*_", &[("text", bold_italic())]);
}

#[test]
fn spans_repeated() {
    cmp_spans("****", &[("*", bold()), ("*", plain())]);
    cmp_spans("** **", &[("* *", bold())]);
    cmp_spans("**", &[("**", plain())]);
    cmp_spans("***", &[("*", bold())]);
    cmp_spans("********", &[("*", bold()), ("*", bold()), ("**", plain())]);
}

#[test]
fn spans_emojis() {
    let default = plain();
    cmp_spans("some\u{1F642}text", &[("some", default), ("\u{1F642}", emoji()), ("text", default)]);
    cmp_spans(
        "some more \u{1F642} text",
        &[("some more ", default), ("\u{1F642}", emoji()), (" text", default)],
    );
    cmp_spans("\u{1F642}", &[("\u{1F642}", emoji())]);
    cmp_spans("hi\u{1F642}", &[("hi", default), ("\u{1F642}", emoji())]);
    cmp_spans("\u{1F642}hello", &[("\u{1F642}", emoji()), ("hello", default)]);

    cmp_spans("\u{1F642}\u{1F642}", &[("\u{1F642}\u{1F642}", emoji())]);
    cmp_spans("a\u{1F642}\u{1F642}", &[("a", default), ("\u{1F642}\u{1F642}", emoji())]);
    cmp_spans("a \u{1F642}\u{1F642}", &[("a ", default), ("\u{1F642}\u{1F642}", emoji())]);
    cmp_spans("\u{1F642}\u{1F642}s", &[("\u{1F642}\u{1F642}", emoji()), ("s", default)]);
    cmp_spans("\u{1F642}\u{1F642} s", &[("\u{1F642}\u{1F642}", emoji()), (" s", default)]);
    cmp_spans(
        "a\u{1F642}\u{1F642}s",
        &[("a", default), ("\u{1F642}\u{1F642}", emoji()), ("s", default)],
    );
}

#[test]
fn style_lists() {
    assert_eq!(plain().style_list(), "[]");
    assert_eq!(bold_italic().style_list(), "[Bold, Italic]");
    let all = TextStyle { bold: true, italic: true, strikethrough: true, monospace: true, emoji: true };
    assert_eq!(all.style_list(), "[Bold, Italic, Strikethrough, Monospace, Emoji]");
    assert_eq!(emoji().style_list(), "[Emoji]");
}

#[test]
fn drawn_spans_and_quote_text() {
    let spans = quantumchat::rich_text::rich_text("*a* _b_ 🙂");
    assert!(spans[0].bold && !spans[0].italic);
    assert_eq!(spans[0].text, "a");
    assert!(spans[2].italic);
    let last = spans.last().unwrap();
    assert_eq!(last.font, quantumchat::rich_text::FontChoice::Emoji);
    assert!(!last.bold);
    assert_eq!(quantumchat::rich_text::plain_text(&spans), "a b 🙂");
}

#[test]
fn fonts_in_order() {
    static A: [u8; 1] = [1];
    static B: [u8; 1] = [2];
    static C: [u8; 1] = [3];
    static D: [u8; 1] = [4];
    let fonts = quantumchat::rich_text::load_fonts(&A, &B, &C, &D);
    assert_eq!(fonts, vec![&A[..], &B[..], &C[..], &D[..]]);
}

#[test]
fn whitespace_matches_std() {
    // `is_sticky` counts exactly the whitespace that `char::is_whitespace` reports,
    // besides markers and punctuation
    let punctuation = "-=+!@#$%^&(){}[];':\"\\|,./<>?*_~`";
    for v in 0..=0x10FFFFu32 {
        if let Some(c) = char::from_u32(v) {
            let expected = c.is_whitespace() || punctuation.contains(c);
            assert_eq!(quantumchat::rich_text::is_sticky(c), expected, "{v:#x}");
        }
    }
}
