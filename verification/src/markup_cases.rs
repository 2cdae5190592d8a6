//! What the markup gives for whole families of texts.

use vstd::prelude::*;

use crate::markup_laws::{lemma_nothing_marked, plain_char};
use crate::rich_text::{
    cleaned_commands, cleaned_prefix, closing_commands, dedup, emoji_char, emoji_open, flushed, marker_char,
    marker_style, markup_spans, match_scan, merge_scan, merged, opening_commands, opening_marker, plain_style,
    pop_unmatched, resolved, scan, span_commands, span_scan, stack_positions, style_has, style_with, trim_end,
    trim_start, trimmed, unmatched_positions, white_space, CommandModel, MatchState, MergeState, StyleType,
    TextStyle,
};

verus! {

/// The code points drawn with the emoji font: the emoji and pictograph
/// blocks U+1F300–U+1FAFF, the miscellaneous symbols U+2600–U+26FF and the
/// dingbats U+2700–U+27BF.
pub open spec fn in_emoji_blocks(c: char) -> bool {
    (0x1F300 <= c as u32 <= 0x1FAFF) || (0x2600 <= c as u32 <= 0x26FF) || (0x2700 <= c as u32 <= 0x27BF)
}

/// The formatting of an emoji run.
pub open spec fn emoji_style() -> TextStyle {
    TextStyle { bold: false, italic: false, strikethrough: false, monospace: false, emoji: true }
}

/// The formatting a marker character gives on its own.
pub open spec fn marked_style(m: char) -> TextStyle {
    style_with(plain_style(), marker_style(m)->0, true)
}

proof fn lemma_emoji_block_facts(c: char)
    requires
        in_emoji_blocks(c),
    ensures
        emoji_char(c),
        !white_space(c),
        marker_style(c) is None,
        c != '\n',
        c != '\r',
{
}

/// A text that is one emoji character is drawn as that character alone, in
/// the emoji font.
pub proof fn emoji_alone_is_emoji(c: char)
    requires
        in_emoji_blocks(c),
    ensures
        markup_spans(seq![c]) == seq![(seq![c], emoji_style())],
{
    lemma_emoji_block_facts(c);
    let cs = seq![c];
    assert(trim_start(cs) == cs);
    assert(trim_end(cs) == cs);
    assert(trimmed(cs) == cs);
    let e = StyleType::Emoji;
    let cmds = span_commands(cs);
    assert(cmds =~= seq![CommandModel::Start(e), CommandModel::AddText(seq![c]), CommandModel::End(e)]);
    assert(cmds[0] == CommandModel::Start(e));
    assert(cmds[1] == CommandModel::AddText(seq![c]));
    assert(cmds[2] == CommandModel::End(e));
    let empty = MatchState { stack: Seq::empty(), removed: Seq::empty() };
    assert(match_scan(cmds, 0) == empty);
    assert(match_scan(cmds, 1) == MatchState { stack: empty.stack.push((0int, e)), removed: empty.removed });
    assert(match_scan(cmds, 2) == match_scan(cmds, 1));
    let one = seq![(0int, e)];
    assert(empty.stack.push((0int, e)) =~= one);
    assert(one.last().1 == e);
    assert(one.drop_last() =~= Seq::<(int, StyleType)>::empty());
    assert(pop_unmatched(one, e, Seq::<int>::empty()) == (one.drop_last(), Seq::<int>::empty(), true));
    assert(match_scan(cmds, 3).stack =~= Seq::<(int, StyleType)>::empty());
    assert(match_scan(cmds, 3).removed =~= Seq::<int>::empty());
    assert(stack_positions(Seq::<(int, StyleType)>::empty()) =~= Seq::<int>::empty());
    assert(unmatched_positions(cmds) =~= Seq::<int>::empty());
    lemma_nothing_marked(cmds, unmatched_positions(cmds), 3);
    assert(cmds.take(3) =~= cmds);
    assert(cleaned_commands(cmds) == cmds);
    assert(merge_scan(cmds, 0) == MergeState { out: Seq::empty(), buf: Seq::empty() });
    assert(flushed(Seq::empty(), Seq::<CommandModel>::empty()) == Seq::<CommandModel>::empty());
    assert(merge_scan(cmds, 1).out =~= seq![CommandModel::Start(e)]);
    assert(merge_scan(cmds, 2).buf =~= seq![c]);
    assert(merge_scan(cmds, 3).out =~= cmds);
    assert(merged(cmds) == cmds);
    assert(span_scan(cmds, 0) == (Seq::<(Seq<char>, TextStyle)>::empty(), plain_style()));
    assert(span_scan(cmds, 1).1 == emoji_style());
    assert(span_scan(cmds, 2).0 =~= seq![(seq![c], emoji_style())]);
}

/// An emoji character after a letter is drawn apart from it: the letter as
/// plain text, the emoji in the emoji font.
pub proof fn emoji_after_letter_apart(l: char, c: char)
    requires
        in_emoji_blocks(c),
        plain_char(l),
        !white_space(l),
    ensures
        markup_spans(seq![l, c]) == seq![(seq![l], plain_style()), (seq![c], emoji_style())],
{
    lemma_emoji_block_facts(c);
    let cs = seq![l, c];
    assert(trim_start(cs) == cs);
    assert(cs.last() == c);
    assert(trim_end(cs) == cs);
    assert(trimmed(cs) == cs);
    let e = StyleType::Emoji;
    assert(opening_marker(cs) is None);
    assert(emoji_open(l) =~= Seq::<CommandModel>::empty());
    assert(opening_commands(cs) =~= seq![CommandModel::AddText(seq![l])]);
    let st = scan(cs, 0);
    assert(st.text =~= Seq::<char>::empty());
    let cmds = span_commands(cs);
    assert(cmds == closing_commands(flushed(st.text, st.cmds), st.just_added, st.style, l, c));
    assert(cmds =~= seq![
        CommandModel::AddText(seq![l]),
        CommandModel::Start(e),
        CommandModel::AddText(seq![c]),
        CommandModel::End(e),
    ]);
    assert(cmds[0] == CommandModel::AddText(seq![l]));
    assert(cmds[1] == CommandModel::Start(e));
    assert(cmds[2] == CommandModel::AddText(seq![c]));
    assert(cmds[3] == CommandModel::End(e));
    let empty = MatchState { stack: Seq::empty(), removed: Seq::empty() };
    assert(match_scan(cmds, 0) == empty);
    assert(match_scan(cmds, 1) == empty);
    assert(match_scan(cmds, 2) == MatchState { stack: empty.stack.push((1int, e)), removed: empty.removed });
    assert(match_scan(cmds, 3) == match_scan(cmds, 2));
    let one = seq![(1int, e)];
    assert(empty.stack.push((1int, e)) =~= one);
    assert(one.last().1 == e);
    assert(one.drop_last() =~= Seq::<(int, StyleType)>::empty());
    assert(pop_unmatched(one, e, Seq::<int>::empty()) == (one.drop_last(), Seq::<int>::empty(), true));
    assert(match_scan(cmds, 4).stack =~= Seq::<(int, StyleType)>::empty());
    assert(match_scan(cmds, 4).removed =~= Seq::<int>::empty());
    assert(stack_positions(Seq::<(int, StyleType)>::empty()) =~= Seq::<int>::empty());
    assert(unmatched_positions(cmds) =~= Seq::<int>::empty());
    lemma_nothing_marked(cmds, unmatched_positions(cmds), 4);
    assert(cmds.take(4) =~= cmds);
    assert(cleaned_commands(cmds) == cmds);
    assert(merge_scan(cmds, 0) == MergeState { out: Seq::empty(), buf: Seq::empty() });
    assert(merge_scan(cmds, 1).out =~= Seq::<CommandModel>::empty());
    assert(merge_scan(cmds, 1).buf =~= seq![l]);
    assert(merge_scan(cmds, 2).out =~= seq![CommandModel::AddText(seq![l]), CommandModel::Start(e)]);
    assert(merge_scan(cmds, 2).buf =~= Seq::<char>::empty());
    assert(merge_scan(cmds, 3).buf =~= seq![c]);
    assert(merge_scan(cmds, 4).out =~= cmds);
    assert(merge_scan(cmds, 4).buf =~= Seq::<char>::empty());
    assert(merged(cmds) == cmds);
    assert(span_scan(cmds, 0) == (Seq::<(Seq<char>, TextStyle)>::empty(), plain_style()));
    assert(span_scan(cmds, 1).0 =~= seq![(seq![l], plain_style())]);
    assert(span_scan(cmds, 2).1 == emoji_style());
    assert(span_scan(cmds, 3).0 =~= seq![(seq![l], plain_style()), (seq![c], emoji_style())]);
}

/// Plain characters are gathered as pending text, leaving the rest of the
/// scan state as it was.
proof fn lemma_scan_run(cs: Seq<char>, a: nat, b: nat)
    requires
        a <= b,
        b + 2 <= cs.len(),
        !emoji_char(cs[a as int]),
        forall|i: int| a < i <= b ==> #[trigger] plain_char(cs[i]),
    ensures
        scan(cs, b).text == scan(cs, a).text + cs.subrange(a + 1 as int, b + 1 as int),
        scan(cs, b).cmds == scan(cs, a).cmds,
        scan(cs, b).style == scan(cs, a).style,
        scan(cs, b).in_mono == scan(cs, a).in_mono,
        a < b ==> scan(cs, b).just_added is None,
    decreases b,
{
    if b == a {
        assert(cs.subrange(a + 1 as int, b + 1 as int) =~= Seq::<char>::empty());
        assert(scan(cs, a).text + Seq::<char>::empty() =~= scan(cs, a).text);
    } else {
        let b1 = (b - 1) as nat;
        lemma_scan_run(cs, a, b1);
        assert(plain_char(cs[b as int]));
        if b1 > a {
            assert(plain_char(cs[b1 as int]));
        }
        assert(!emoji_char(cs[b1 as int]));
        assert(cs.subrange(a + 1 as int, b + 1 as int) =~= cs.subrange(a + 1 as int, b1 + 1 as int).push(cs[b as int]));
        assert(scan(cs, a).text + cs.subrange(a + 1 as int, b + 1 as int) =~= (scan(cs, a).text + cs.subrange(a + 1 as int, b1 + 1 as int)).push(
            cs[b as int],
        ));
    }
}

/// A word with no character that means anything to the markup, starting
/// and ending with a non-space.
pub open spec fn bare_word(w: Seq<char>) -> bool {
    &&& w.len() > 0
    &&& !white_space(w[0])
    &&& !white_space(w.last())
    &&& forall|i: int| 0 <= i < w.len() ==> #[trigger] plain_char(w[i])
}

/// The commands of a text with a code span: the first character, the rest
/// of the text before the span, the code, the space after it and a word
/// wrapped in a marker of kind `s`.
spec fn code_span_commands(
    a: Seq<char>,
    b: Seq<char>,
    c: Seq<char>,
    s: StyleType,
    w: Seq<char>,
) -> Seq<CommandModel> {
    seq![
        CommandModel::AddText(a),
        CommandModel::AddText(b),
        CommandModel::Start(StyleType::Monospace),
        CommandModel::AddText(c),
        CommandModel::End(StyleType::Monospace),
        CommandModel::AddText(seq![' ']),
        CommandModel::Start(s),
        CommandModel::AddText(w),
        CommandModel::End(s),
    ]
}

/// The markup scan of a text with a closed code span followed by a marked
/// word.
proof fn lemma_code_span_scan(p: Seq<char>, c: Seq<char>, m: char, w: Seq<char>)
    requires
        bare_word(p),
        bare_word(c),
        bare_word(w),
        marker_style(m) is Some,
    ensures
        trimmed(p + seq![' ', '`'] + c + seq!['`', ' ', m] + w + seq![m]) == p + seq![' ', '`'] + c + seq![
            '`',
            ' ',
            m,
        ] + w + seq![m],
        span_commands(p + seq![' ', '`'] + c + seq!['`', ' ', m] + w + seq![m]) == code_span_commands(
            seq![p[0]],
            p.subrange(1, p.len() as int).push(' '),
            c,
            marker_style(m)->0,
            w,
        ),
{
    let cs = p + seq![' ', '`'] + c + seq!['`', ' ', m] + w + seq![m];
    let pl = p.len() as int;
    let cl = c.len() as int;
    let wl = w.len() as int;
    let n = cs.len() as int;
    let s = marker_style(m)->0;
    let mono = StyleType::Monospace;
    assert(n == pl + cl + wl + 6);
    assert forall|i: int| 0 <= i < pl implies cs[i] == p[i] by {}
    assert(cs[pl] == ' ');
    assert(cs[pl + 1] == '`');
    assert forall|i: int| 0 <= i < cl implies cs[pl + 2 + i] == c[i] by {}
    assert(cs[pl + 2 + cl] == '`');
    assert(cs[pl + 3 + cl] == ' ');
    assert(cs[pl + 4 + cl] == m);
    assert forall|i: int| 0 <= i < wl implies cs[pl + 5 + cl + i] == w[i] by {}
    assert(cs[n - 1] == m);
    assert(plain_char(p[0]));
    assert(!white_space(m));
    assert(!emoji_char(m));
    assert(white_space(' '));
    assert(plain_char(' '));
    // trimming keeps the text
    assert(trim_start(cs) == cs);
    assert(cs.last() == m);
    assert(trim_end(cs) == cs);
    // the text before the span
    assert(opening_marker(cs) is None);
    assert(emoji_open(cs[0]) =~= Seq::<CommandModel>::empty());
    assert(opening_commands(cs) =~= seq![CommandModel::AddText(seq![p[0]])]);
    assert(scan(cs, 0).text =~= Seq::<char>::empty());
    assert forall|i: int| 0 < i <= pl implies #[trigger] plain_char(cs[i]) by {
        if i < pl {
            assert(plain_char(p[i]));
        }
    }
    lemma_scan_run(cs, 0, pl as nat);
    let t1 = cs.subrange(1, pl + 1);
    assert(t1 =~= p.subrange(1, pl).push(' '));
    assert(scan(cs, pl as nat).text =~= t1);
    // the span opens
    assert(cs[pl + 2] == c[0]);
    let c1 = seq![CommandModel::AddText(seq![p[0]]), CommandModel::AddText(t1), CommandModel::Start(mono)];
    assert(scan(cs, (pl + 1) as nat).cmds =~= c1);
    assert(scan(cs, (pl + 1) as nat).in_mono);
    assert(scan(cs, (pl + 1) as nat).style == style_with(plain_style(), mono, true));
    assert(scan(cs, (pl + 1) as nat).text =~= Seq::<char>::empty());
    // the code
    assert forall|i: int| pl + 1 < i <= pl + 1 + cl implies #[trigger] plain_char(cs[i]) by {
        assert(cs[pl + 2 + (i - pl - 2)] == c[i - pl - 2]);
        assert(plain_char(c[i - pl - 2]));
    }
    lemma_scan_run(cs, (pl + 1) as nat, (pl + 1 + cl) as nat);
    assert(cs.subrange(pl + 2, pl + 2 + cl) =~= c);
    assert(scan(cs, (pl + 1 + cl) as nat).text =~= c);
    assert(cs[pl + 1 + cl] == c.last());
    // the span closes
    let c2 = c1 + seq![CommandModel::AddText(c), CommandModel::End(mono)];
    assert(scan(cs, (pl + 2 + cl) as nat).cmds =~= c2);
    assert(!scan(cs, (pl + 2 + cl) as nat).in_mono);
    assert(scan(cs, (pl + 2 + cl) as nat).style == plain_style());
    assert(scan(cs, (pl + 2 + cl) as nat).text =~= Seq::<char>::empty());
    // the space after it
    lemma_scan_run(cs, (pl + 2 + cl) as nat, (pl + 3 + cl) as nat);
    assert(cs.subrange(pl + 3 + cl, pl + 4 + cl) =~= seq![' ']);
    assert(scan(cs, (pl + 3 + cl) as nat).text =~= seq![' ']);
    assert(scan(cs, (pl + 3 + cl) as nat).just_added is None);
    // the marker opens
    assert(cs[pl + 5 + cl] == w[0]);
    let c3 = c2 + seq![CommandModel::AddText(seq![' ']), CommandModel::Start(s)];
    assert(scan(cs, (pl + 4 + cl) as nat).cmds =~= c3);
    assert(scan(cs, (pl + 4 + cl) as nat).style == marked_style(m));
    assert(scan(cs, (pl + 4 + cl) as nat).text =~= Seq::<char>::empty());
    // the word
    assert forall|i: int| pl + 4 + cl < i <= pl + 4 + cl + wl implies #[trigger] plain_char(cs[i]) by {
        assert(cs[pl + 5 + cl + (i - pl - 5 - cl)] == w[i - pl - 5 - cl]);
        assert(plain_char(w[i - pl - 5 - cl]));
    }
    lemma_scan_run(cs, (pl + 4 + cl) as nat, (pl + 4 + cl + wl) as nat);
    assert(cs.subrange(pl + 5 + cl, pl + 5 + cl + wl) =~= w);
    let st = scan(cs, (n - 2) as nat);
    assert(st.text =~= w);
    assert(st.just_added is None);
    assert(st.style == marked_style(m));
    assert(cs[n - 2] == w.last());
    assert(style_has(marked_style(m), s));
    let cmds = span_commands(cs);
    assert(cmds == closing_commands(flushed(st.text, st.cmds), st.just_added, st.style, cs[n - 2], cs[n - 1]));
    assert(cmds =~= code_span_commands(seq![p[0]], t1, c, s, w));
}

/// The commands of a text with a code span keep every marker, and merging
/// joins the text before the span into one.
proof fn lemma_code_span_resolved(a: Seq<char>, b: Seq<char>, c: Seq<char>, s: StyleType, w: Seq<char>)
    requires
        b.len() > 0,
        c.len() > 0,
        w.len() > 0,
    ensures
        merged(cleaned_commands(code_span_commands(a, b, c, s, w))) == seq![
            CommandModel::AddText(a + b),
            CommandModel::Start(StyleType::Monospace),
            CommandModel::AddText(c),
            CommandModel::End(StyleType::Monospace),
            CommandModel::AddText(seq![' ']),
            CommandModel::Start(s),
            CommandModel::AddText(w),
            CommandModel::End(s),
        ],
{
    let mono = StyleType::Monospace;
    let cmds = code_span_commands(a, b, c, s, w);
    assert(cmds.len() == 9);
    assert(cmds[0] == CommandModel::AddText(a));
    assert(cmds[1] == CommandModel::AddText(b));
    assert(cmds[2] == CommandModel::Start(mono));
    assert(cmds[3] == CommandModel::AddText(c));
    assert(cmds[4] == CommandModel::End(mono));
    assert(cmds[5] == CommandModel::AddText(seq![' ']));
    assert(cmds[6] == CommandModel::Start(s));
    assert(cmds[7] == CommandModel::AddText(w));
    assert(cmds[8] == CommandModel::End(s));
    // every marker is paired
    let empty = MatchState { stack: Seq::empty(), removed: Seq::empty() };
    assert(match_scan(cmds, 0) == empty);
    assert(match_scan(cmds, 1) == empty);
    assert(match_scan(cmds, 2) == empty);
    assert(match_scan(cmds, 3) == MatchState { stack: empty.stack.push((2int, mono)), removed: empty.removed });
    assert(match_scan(cmds, 4) == match_scan(cmds, 3));
    let open_mono = seq![(2int, mono)];
    assert(empty.stack.push((2int, mono)) =~= open_mono);
    assert(open_mono.last().1 == mono);
    assert(open_mono.drop_last() =~= Seq::<(int, StyleType)>::empty());
    assert(pop_unmatched(open_mono, mono, Seq::<int>::empty()) == (
        open_mono.drop_last(),
        Seq::<int>::empty(),
        true,
    ));
    assert(match_scan(cmds, 5).stack =~= Seq::<(int, StyleType)>::empty());
    assert(match_scan(cmds, 5).removed =~= Seq::<int>::empty());
    assert(match_scan(cmds, 5) == empty);
    assert(match_scan(cmds, 6) == empty);
    assert(match_scan(cmds, 7) == MatchState { stack: empty.stack.push((6int, s)), removed: empty.removed });
    assert(match_scan(cmds, 8) == match_scan(cmds, 7));
    let open_s = seq![(6int, s)];
    assert(empty.stack.push((6int, s)) =~= open_s);
    assert(open_s.last().1 == s);
    assert(open_s.drop_last() =~= Seq::<(int, StyleType)>::empty());
    assert(pop_unmatched(open_s, s, Seq::<int>::empty()) == (open_s.drop_last(), Seq::<int>::empty(), true));
    assert(match_scan(cmds, 9).stack =~= Seq::<(int, StyleType)>::empty());
    assert(match_scan(cmds, 9).removed =~= Seq::<int>::empty());
    assert(stack_positions(Seq::<(int, StyleType)>::empty()) =~= Seq::<int>::empty());
    assert(unmatched_positions(cmds) =~= Seq::<int>::empty());
    lemma_nothing_marked(cmds, unmatched_positions(cmds), 9);
    assert(cmds.take(9) =~= cmds);
    assert(cleaned_commands(cmds) == cmds);
    // merging joins the text before the span
    assert(merge_scan(cmds, 0) == MergeState { out: Seq::empty(), buf: Seq::empty() });
    assert(merge_scan(cmds, 1).buf =~= a);
    assert(merge_scan(cmds, 1).out =~= Seq::<CommandModel>::empty());
    assert(merge_scan(cmds, 2).buf =~= a + b);
    assert(merge_scan(cmds, 2).out =~= Seq::<CommandModel>::empty());
    let o3 = seq![CommandModel::AddText(a + b), CommandModel::Start(mono)];
    assert(merge_scan(cmds, 3).out =~= o3);
    assert(merge_scan(cmds, 3).buf =~= Seq::<char>::empty());
    assert(merge_scan(cmds, 4).buf =~= c);
    let o5 = o3 + seq![CommandModel::AddText(c), CommandModel::End(mono)];
    assert(merge_scan(cmds, 5).out =~= o5);
    assert(merge_scan(cmds, 5).buf =~= Seq::<char>::empty());
    assert(merge_scan(cmds, 6).buf =~= seq![' ']);
    let o7 = o5 + seq![CommandModel::AddText(seq![' ']), CommandModel::Start(s)];
    assert(merge_scan(cmds, 7).out =~= o7);
    assert(merge_scan(cmds, 7).buf =~= Seq::<char>::empty());
    assert(merge_scan(cmds, 8).buf =~= w);
    let o9 = o7 + seq![CommandModel::AddText(w), CommandModel::End(s)];
    assert(merge_scan(cmds, 9).out =~= o9);
    assert(merge_scan(cmds, 9).buf =~= Seq::<char>::empty());
    assert(merged(cmds) =~= o9);
}

/// A closed code span ends its effect: after `` `code` `` and a space, a
/// word wrapped in a marker is formatted by that marker, whatever it is.
/// The text before the span and the space after it stay unformatted.
pub proof fn closed_code_span_ends(p: Seq<char>, c: Seq<char>, m: char, w: Seq<char>)
    requires
        bare_word(p),
        bare_word(c),
        bare_word(w),
        marker_style(m) is Some,
    ensures
        markup_spans(p + seq![' ', '`'] + c + seq!['`', ' ', m] + w + seq![m]) == seq![
            (p.push(' '), plain_style()),
            (c, marked_style('`')),
            (seq![' '], plain_style()),
            (w, marked_style(m)),
        ],
{
    let mono = StyleType::Monospace;
    let s = marker_style(m)->0;
    let pl = p.len() as int;
    lemma_code_span_scan(p, c, m, w);
    let b = p.subrange(1, pl).push(' ');
    lemma_code_span_resolved(seq![p[0]], b, c, s, w);
    let head = seq![p[0]] + b;
    assert(head =~= p.push(' '));
    let mg = seq![
        CommandModel::AddText(head),
        CommandModel::Start(mono),
        CommandModel::AddText(c),
        CommandModel::End(mono),
        CommandModel::AddText(seq![' ']),
        CommandModel::Start(s),
        CommandModel::AddText(w),
        CommandModel::End(s),
    ];
    assert(mg[0] == CommandModel::AddText(head));
    assert(mg[1] == CommandModel::Start(mono));
    assert(mg[2] == CommandModel::AddText(c));
    assert(mg[3] == CommandModel::End(mono));
    assert(mg[4] == CommandModel::AddText(seq![' ']));
    assert(mg[5] == CommandModel::Start(s));
    assert(mg[6] == CommandModel::AddText(w));
    assert(mg[7] == CommandModel::End(s));
    assert(span_scan(mg, 0) == (Seq::<(Seq<char>, TextStyle)>::empty(), plain_style()));
    let r1 = seq![(head, plain_style())];
    assert(span_scan(mg, 1).0 =~= r1);
    assert(span_scan(mg, 1).1 == plain_style());
    assert(span_scan(mg, 2).1 == marked_style('`'));
    let r3 = r1.push((c, marked_style('`')));
    assert(span_scan(mg, 3).0 =~= r3);
    assert(span_scan(mg, 4).1 == plain_style());
    let r5 = r3.push((seq![' '], plain_style()));
    assert(span_scan(mg, 5).0 =~= r5);
    assert(span_scan(mg, 6).1 == marked_style(m));
    let r7 = r5.push((w, marked_style(m)));
    assert(span_scan(mg, 7).0 =~= r7);
    assert(span_scan(mg, 8).0 =~= r7);
}


/// The commands of a two-line text: a marker of kind `s1` left open with
/// the text `h`, a line break, and a word `w` wrapped in a marker of kind
/// `s2`.
spec fn two_line_commands(s1: StyleType, h: Seq<char>, s2: StyleType, w: Seq<char>) -> Seq<CommandModel> {
    seq![
        CommandModel::Start(s1),
        CommandModel::AddText(h),
        CommandModel::Newline,
        CommandModel::Start(s2),
        CommandModel::AddText(w),
        CommandModel::End(s2),
    ]
}

/// The markup scan of a line left with an open marker, followed by a line
/// with a marked word.
proof fn lemma_two_line_scan(m1: char, h: Seq<char>, m2: char, w: Seq<char>)
    requires
        marker_style(m1) is Some,
        marker_style(m2) is Some,
        h.len() > 0,
        !white_space(h[0]),
        forall|i: int| 0 <= i < h.len() ==> #[trigger] plain_char(h[i]),
        bare_word(w),
    ensures
        trimmed(seq![m1] + h + seq!['\n', m2] + w + seq![m2]) == seq![m1] + h + seq!['\n', m2] + w + seq![m2],
        span_commands(seq![m1] + h + seq!['\n', m2] + w + seq![m2]) == two_line_commands(
            marker_style(m1)->0,
            h,
            marker_style(m2)->0,
            w,
        ),
{
    let cs = seq![m1] + h + seq!['\n', m2] + w + seq![m2];
    let hl = h.len() as int;
    let wl = w.len() as int;
    let n = cs.len() as int;
    let s1 = marker_style(m1)->0;
    let s2 = marker_style(m2)->0;
    assert(n == hl + wl + 4);
    assert(cs[0] == m1);
    assert forall|i: int| 0 <= i < hl implies cs[1 + i] == h[i] by {}
    assert(cs[hl + 1] == '\n');
    assert(cs[hl + 2] == m2);
    assert forall|i: int| 0 <= i < wl implies cs[hl + 3 + i] == w[i] by {}
    assert(cs[n - 1] == m2);
    assert(!white_space(m1));
    assert(!white_space(m2));
    assert(!emoji_char(m1));
    assert(!emoji_char(m2));
    assert(white_space('\n'));
    // trimming keeps the text
    assert(trim_start(cs) == cs);
    assert(cs.last() == m2);
    assert(trim_end(cs) == cs);
    // the first line opens its marker
    assert(cs[1] == h[0]);
    assert(opening_marker(cs) == Some(s1));
    assert(opening_commands(cs) =~= seq![CommandModel::Start(s1)]);
    assert(scan(cs, 0).text =~= Seq::<char>::empty());
    assert forall|i: int| 0 < i <= hl implies #[trigger] plain_char(cs[i]) by {
        assert(cs[1 + (i - 1)] == h[i - 1]);
        assert(plain_char(h[i - 1]));
    }
    lemma_scan_run(cs, 0, hl as nat);
    assert(cs.subrange(1, hl + 1) =~= h);
    assert(scan(cs, hl as nat).text =~= h);
    // the line break
    let c1 = seq![CommandModel::Start(s1), CommandModel::AddText(h), CommandModel::Newline];
    assert(scan(cs, (hl + 1) as nat).cmds =~= c1);
    assert(scan(cs, (hl + 1) as nat).style == plain_style());
    assert(!scan(cs, (hl + 1) as nat).in_mono);
    assert(scan(cs, (hl + 1) as nat).just_added is None);
    assert(scan(cs, (hl + 1) as nat).text =~= Seq::<char>::empty());
    // the second line opens its marker
    assert(cs[hl + 3] == w[0]);
    let c2 = c1.push(CommandModel::Start(s2));
    assert(scan(cs, (hl + 2) as nat).cmds =~= c2);
    assert(scan(cs, (hl + 2) as nat).style == marked_style(m2));
    assert(scan(cs, (hl + 2) as nat).text =~= Seq::<char>::empty());
    // the word
    assert forall|i: int| hl + 2 < i <= hl + 2 + wl implies #[trigger] plain_char(cs[i]) by {
        assert(cs[hl + 3 + (i - hl - 3)] == w[i - hl - 3]);
        assert(plain_char(w[i - hl - 3]));
    }
    lemma_scan_run(cs, (hl + 2) as nat, (hl + 2 + wl) as nat);
    assert(cs.subrange(hl + 3, hl + 3 + wl) =~= w);
    let st = scan(cs, (n - 2) as nat);
    assert(st.text =~= w);
    assert(st.just_added is None);
    assert(st.style == marked_style(m2));
    assert(cs[n - 2] == w.last());
    assert(style_has(marked_style(m2), s2));
    let cmds = span_commands(cs);
    assert(cmds == closing_commands(flushed(st.text, st.cmds), st.just_added, st.style, cs[n - 2], cs[n - 1]));
    assert(cmds =~= two_line_commands(s1, h, s2, w));
}

/// The marker left open at the line break is shown as its character, and
/// merging joins it with the first line.
proof fn lemma_two_line_resolved(m1: char, h: Seq<char>, s2: StyleType, w: Seq<char>)
    requires
        marker_style(m1) is Some,
        w.len() > 0,
    ensures
        merged(cleaned_commands(two_line_commands(marker_style(m1)->0, h, s2, w))) == seq![
            CommandModel::AddText((seq![m1] + h).push('\n')),
            CommandModel::Start(s2),
            CommandModel::AddText(w),
            CommandModel::End(s2),
        ],
{
    let s1 = marker_style(m1)->0;
    assert(marker_char(s1) == Some(m1));
    let cmds = two_line_commands(s1, h, s2, w);
    assert(cmds.len() == 6);
    assert(cmds[0] == CommandModel::Start(s1));
    assert(cmds[1] == CommandModel::AddText(h));
    assert(cmds[2] == CommandModel::Newline);
    assert(cmds[3] == CommandModel::Start(s2));
    assert(cmds[4] == CommandModel::AddText(w));
    assert(cmds[5] == CommandModel::End(s2));
    // the first marker is still open at the line break
    let empty = MatchState { stack: Seq::empty(), removed: Seq::empty() };
    let zero = seq![0int];
    assert(match_scan(cmds, 0) == empty);
    assert(match_scan(cmds, 1) == MatchState { stack: empty.stack.push((0int, s1)), removed: empty.removed });
    assert(match_scan(cmds, 2) == match_scan(cmds, 1));
    assert(stack_positions(empty.stack.push((0int, s1))) =~= zero);
    assert(match_scan(cmds, 3).stack =~= Seq::<(int, StyleType)>::empty());
    assert(match_scan(cmds, 3).removed =~= zero);
    assert(match_scan(cmds, 4) == MatchState { stack: empty.stack.push((3int, s2)), removed: zero });
    assert(match_scan(cmds, 5) == match_scan(cmds, 4));
    let open_s = seq![(3int, s2)];
    assert(empty.stack.push((3int, s2)) =~= open_s);
    assert(open_s.last().1 == s2);
    assert(open_s.drop_last() =~= Seq::<(int, StyleType)>::empty());
    assert(pop_unmatched(open_s, s2, zero) == (open_s.drop_last(), zero, true));
    assert(match_scan(cmds, 6).stack =~= Seq::<(int, StyleType)>::empty());
    assert(match_scan(cmds, 6).removed =~= zero);
    assert(stack_positions(Seq::<(int, StyleType)>::empty()) =~= Seq::<int>::empty());
    assert(zero + Seq::<int>::empty() =~= zero);
    assert(zero.drop_last() =~= Seq::<int>::empty());
    assert(dedup(Seq::<int>::empty()) =~= Seq::<int>::empty());
    assert(dedup(zero) =~= zero);
    let marks = unmatched_positions(cmds);
    assert(marks =~= zero);
    assert(marks.contains(0));
    assert forall|i: int| 1 <= i < 6 implies !marks.contains(i) by {
        if marks.contains(i) {
            let j = choose|j: int| 0 <= j < marks.len() && marks[j] == i;
            assert(j == 0);
        }
    }
    // the open marker becomes its character, in place
    assert(resolved(cmds[0]) =~= seq![CommandModel::AddText(seq![m1])]);
    assert(cleaned_prefix(cmds, marks, 0) =~= Seq::<CommandModel>::empty());
    assert(cleaned_prefix(cmds, marks, 1) =~= seq![CommandModel::AddText(seq![m1])]);
    assert(cleaned_prefix(cmds, marks, 2) =~= seq![CommandModel::AddText(seq![m1]), CommandModel::AddText(h)]);
    assert(cleaned_prefix(cmds, marks, 3) =~= seq![
        CommandModel::AddText(seq![m1]),
        CommandModel::AddText(h),
        CommandModel::Newline,
    ]);
    assert(cleaned_prefix(cmds, marks, 4) =~= seq![
        CommandModel::AddText(seq![m1]),
        CommandModel::AddText(h),
        CommandModel::Newline,
        CommandModel::Start(s2),
    ]);
    assert(cleaned_prefix(cmds, marks, 5) =~= seq![
        CommandModel::AddText(seq![m1]),
        CommandModel::AddText(h),
        CommandModel::Newline,
        CommandModel::Start(s2),
        CommandModel::AddText(w),
    ]);
    let cl = seq![
        CommandModel::AddText(seq![m1]),
        CommandModel::AddText(h),
        CommandModel::Newline,
        CommandModel::Start(s2),
        CommandModel::AddText(w),
        CommandModel::End(s2),
    ];
    assert(cleaned_prefix(cmds, marks, 6) =~= cl);
    assert(cleaned_commands(cmds) == cl);
    assert(cl[0] == CommandModel::AddText(seq![m1]));
    assert(cl[1] == CommandModel::AddText(h));
    assert(cl[2] == CommandModel::Newline);
    assert(cl[3] == CommandModel::Start(s2));
    assert(cl[4] == CommandModel::AddText(w));
    assert(cl[5] == CommandModel::End(s2));
    // merging joins the first line, its line break included
    let head = (seq![m1] + h).push('\n');
    assert(merge_scan(cl, 0) == MergeState { out: Seq::empty(), buf: Seq::empty() });
    assert(merge_scan(cl, 1).buf =~= seq![m1]);
    assert(merge_scan(cl, 1).out =~= Seq::<CommandModel>::empty());
    assert(merge_scan(cl, 2).buf =~= seq![m1] + h);
    assert(merge_scan(cl, 2).out =~= Seq::<CommandModel>::empty());
    assert(merge_scan(cl, 3).buf =~= head);
    assert(merge_scan(cl, 3).out =~= Seq::<CommandModel>::empty());
    let o4 = seq![CommandModel::AddText(head), CommandModel::Start(s2)];
    assert(merge_scan(cl, 4).out =~= o4);
    assert(merge_scan(cl, 4).buf =~= Seq::<char>::empty());
    assert(merge_scan(cl, 5).buf =~= w);
    let o6 = o4 + seq![CommandModel::AddText(w), CommandModel::End(s2)];
    assert(merge_scan(cl, 6).out =~= o6);
    assert(merge_scan(cl, 6).buf =~= Seq::<char>::empty());
    assert(merged(cl) =~= o6);
}

/// Every line starts with no formatting open: a marker left open on the
/// first line is shown as written, with the rest of that line and its line
/// break, and a word wrapped in a marker on the next line is formatted by
/// that marker, whichever marker the first line left open.
pub proof fn line_starts_unformatted(m1: char, h: Seq<char>, m2: char, w: Seq<char>)
    requires
        marker_style(m1) is Some,
        marker_style(m2) is Some,
        h.len() > 0,
        !white_space(h[0]),
        forall|i: int| 0 <= i < h.len() ==> #[trigger] plain_char(h[i]),
        bare_word(w),
    ensures
        markup_spans(seq![m1] + h + seq!['\n', m2] + w + seq![m2]) == seq![
            (seq![m1] + h.push('\n'), plain_style()),
            (w, marked_style(m2)),
        ],
{
    let s2 = marker_style(m2)->0;
    lemma_two_line_scan(m1, h, m2, w);
    lemma_two_line_resolved(m1, h, s2, w);
    let head = (seq![m1] + h).push('\n');
    assert(head =~= seq![m1] + h.push('\n'));
    let mg = seq![
        CommandModel::AddText(head),
        CommandModel::Start(s2),
        CommandModel::AddText(w),
        CommandModel::End(s2),
    ];
    assert(mg[0] == CommandModel::AddText(head));
    assert(mg[1] == CommandModel::Start(s2));
    assert(mg[2] == CommandModel::AddText(w));
    assert(mg[3] == CommandModel::End(s2));
    assert(span_scan(mg, 0) == (Seq::<(Seq<char>, TextStyle)>::empty(), plain_style()));
    let r1 = seq![(head, plain_style())];
    assert(span_scan(mg, 1).0 =~= r1);
    assert(span_scan(mg, 2).1 == marked_style(m2));
    let r3 = r1.push((w, marked_style(m2)));
    assert(span_scan(mg, 3).0 =~= r3);
    assert(span_scan(mg, 4).0 =~= r3);
}

} // verus!
