//! Properties of the markup parser that hold for every message text.

use vstd::prelude::*;

use crate::rich_text::{cleaned_commands, cleaned_prefix, dedup, marker_char, resolved, emoji_char, emoji_close, emoji_open, flushed, marker_style, markup_spans, match_scan, merge_scan, merged, opening_commands, opening_marker, plain_style, pop_unmatched, scan, span_commands, span_scan, span_step, stack_positions, style_with, styled_spans, trim_start, trimmed, unmatched_positions, white_space, CommandModel, MatchState, MergeState, StyleType, TextStyle};

verus! {

/// No command is a line break.
pub open spec fn no_line_breaks(cmds: Seq<CommandModel>) -> bool {
    forall|i: int| 0 <= i < cmds.len() ==> !(#[trigger] cmds[i] is Newline)
}

/// Every text command holds at least one character.
pub open spec fn texts_nonempty(cmds: Seq<CommandModel>) -> bool {
    forall|i: int| 0 <= i < cmds.len() ==> (#[trigger] cmds[i] matches CommandModel::AddText(t) ==> t.len() > 0)
}

/// Commands `i` and `i + 1` are both text.
pub open spec fn adjacent_texts(cmds: Seq<CommandModel>, i: int) -> bool {
    cmds[i] is AddText && cmds[i + 1] is AddText
}

/// No two text commands stand next to each other.
pub open spec fn texts_apart(cmds: Seq<CommandModel>) -> bool {
    forall|i: int| 0 <= i < cmds.len() - 1 ==> !#[trigger] adjacent_texts(cmds, i)
}

/// The text that one command carries.
pub open spec fn text_piece(c: CommandModel) -> Seq<char> {
    match c {
        CommandModel::AddText(t) => t,
        CommandModel::Newline => seq!['\n'],
        _ => Seq::empty(),
    }
}

/// The command itself if it is a marker, nothing otherwise.
pub open spec fn marker_piece(c: CommandModel) -> Seq<CommandModel> {
    match c {
        CommandModel::Start(_) => seq![c],
        CommandModel::End(_) => seq![c],
        _ => Seq::empty(),
    }
}

/// The text that the commands carry, line breaks as `'\n'`.
pub open spec fn carried_text(cmds: Seq<CommandModel>) -> Seq<char>
    decreases cmds.len(),
{
    if cmds.len() == 0 {
        Seq::empty()
    } else {
        carried_text(cmds.drop_last()) + text_piece(cmds.last())
    }
}

/// The markers among the commands, in order.
pub open spec fn markers(cmds: Seq<CommandModel>) -> Seq<CommandModel>
    decreases cmds.len(),
{
    if cmds.len() == 0 {
        Seq::empty()
    } else {
        markers(cmds.drop_last()) + marker_piece(cmds.last())
    }
}

/// The shape that merging keeps: no line breaks, no empty texts, no two
/// texts in a row.
pub open spec fn joined(cmds: Seq<CommandModel>) -> bool {
    no_line_breaks(cmds) && texts_nonempty(cmds) && texts_apart(cmds)
}

/// How appending one command changes the carried text and the markers.
proof fn lemma_push(cmds: Seq<CommandModel>, c: CommandModel)
    ensures
        carried_text(cmds.push(c)) == carried_text(cmds) + text_piece(c),
        markers(cmds.push(c)) == markers(cmds) + marker_piece(c),
        joined(cmds) && !(c is Newline) && (c matches CommandModel::AddText(t) ==> t.len() > 0) && (
        cmds.len() == 0 || !(cmds.last() is AddText) || !(c is AddText)) ==> joined(cmds.push(c)),
{
    assert(cmds.push(c).drop_last() =~= cmds);
    let p = cmds.push(c);
    if joined(cmds) && !(c is Newline) && (c matches CommandModel::AddText(t) ==> t.len() > 0) && (
    cmds.len() == 0 || !(cmds.last() is AddText) || !(c is AddText)) {
        assert forall|i: int| 0 <= i < p.len() implies !(#[trigger] p[i] is Newline) by {
            if i < cmds.len() {
                assert(p[i] == cmds[i]);
            }
        }
        assert forall|i: int| 0 <= i < p.len() implies (#[trigger] p[i] matches CommandModel::AddText(t)
            ==> t.len() > 0) by {
            if i < cmds.len() {
                assert(p[i] == cmds[i]);
            }
        }
        assert forall|i: int| 0 <= i < p.len() - 1 implies !#[trigger] adjacent_texts(p, i) by {
            if i < cmds.len() - 1 {
                assert(p[i] == cmds[i] && p[i + 1] == cmds[i + 1]);
                assert(!adjacent_texts(cmds, i));
            } else {
                assert(p[i] == cmds.last());
            }
        }
    }
}

/// The carried text and markers of a single command.
proof fn lemma_single(c: CommandModel)
    ensures
        carried_text(seq![c]) == text_piece(c),
        markers(seq![c]) == marker_piece(c),
{
    assert(seq![c].drop_last() =~= Seq::<CommandModel>::empty());
    assert(seq![c].last() == c);
    assert(carried_text(Seq::<CommandModel>::empty()) == Seq::<char>::empty());
    assert(markers(Seq::<CommandModel>::empty()) == Seq::<CommandModel>::empty());
    assert(Seq::<char>::empty() + text_piece(c) =~= text_piece(c));
    assert(Seq::<CommandModel>::empty() + marker_piece(c) =~= marker_piece(c));
}

/// What merging keeps after the first `k` commands.
proof fn lemma_merge_scan(cmds: Seq<CommandModel>, k: nat)
    requires
        k <= cmds.len(),
    ensures
        ({
            let st = merge_scan(cmds, k);
            &&& joined(st.out)
            &&& (st.out.len() == 0 || !(st.out.last() is AddText))
            &&& carried_text(st.out) + st.buf == carried_text(cmds.take(k as int))
            &&& markers(st.out) == markers(cmds.take(k as int))
        }),
    decreases k,
{
    if k == 0 {
        assert(cmds.take(0) =~= Seq::<CommandModel>::empty());
        assert(carried_text(Seq::<CommandModel>::empty()) + Seq::<char>::empty() =~= Seq::<char>::empty());
    } else {
        let k1 = (k - 1) as nat;
        lemma_merge_scan(cmds, k1);
        let st = merge_scan(cmds, k1);
        let c = cmds[k1 as int];
        assert(cmds.take(k as int) =~= cmds.take(k1 as int).push(c));
        lemma_push(cmds.take(k1 as int), c);
        match c {
            CommandModel::AddText(t) => {
                assert(carried_text(st.out) + (st.buf + t) =~= (carried_text(st.out) + st.buf) + t);
            },
            CommandModel::Newline => {
                assert(carried_text(st.out) + st.buf.push('\n') =~= (carried_text(st.out) + st.buf) + seq!['\n']);
            },
            _ => {
                let f = flushed(st.buf, st.out);
                if st.buf.len() > 0 {
                    lemma_push(st.out, CommandModel::AddText(st.buf));
                } else {
                    assert(carried_text(st.out) + st.buf =~= carried_text(st.out));
                }
                assert(marker_piece(CommandModel::AddText(st.buf)) =~= Seq::<CommandModel>::empty());
                assert(markers(f) =~= markers(st.out));
                assert(carried_text(f) == carried_text(st.out) + st.buf);
                lemma_push(f, c);
                assert(text_piece(c) =~= Seq::<char>::empty());
                assert(carried_text(f.push(c)) + Seq::<char>::empty() =~= carried_text(f) + text_piece(c));
            },
        }
    }
}

/// Merging text commands gives a list without line breaks, without empty
/// texts and without two texts in a row, that carries the same text and the
/// same markers in the same order.
pub proof fn merged_commands_are_joined(cmds: Seq<CommandModel>)
    ensures
        joined(merged(cmds)),
        carried_text(merged(cmds)) == carried_text(cmds),
        markers(merged(cmds)) == markers(cmds),
{
    lemma_merge_scan(cmds, cmds.len());
    assert(cmds.take(cmds.len() as int) =~= cmds);
    let st = merge_scan(cmds, cmds.len());
    if st.buf.len() > 0 {
        lemma_push(st.out, CommandModel::AddText(st.buf));
        assert(marker_piece(CommandModel::AddText(st.buf)) =~= Seq::<CommandModel>::empty());
        assert(markers(st.out) + marker_piece(CommandModel::AddText(st.buf)) =~= markers(st.out));
    } else {
        assert(carried_text(st.out) + st.buf =~= carried_text(st.out));
    }
}

/// Reading joined commands gives spans with text.
proof fn lemma_span_scan_nonempty(cmds: Seq<CommandModel>, k: nat)
    requires
        k <= cmds.len(),
        no_line_breaks(cmds),
        texts_nonempty(cmds),
    ensures
        forall|i: int| 0 <= i < span_scan(cmds, k).0.len() ==> #[trigger] span_scan(cmds, k).0[i].0.len() > 0,
    decreases k,
{
    if k > 0 {
        let k1 = (k - 1) as nat;
        lemma_span_scan_nonempty(cmds, k1);
        let c = cmds[k1 as int];
        assert(!(c is Newline));
        let prev = span_scan(cmds, k1).0;
        let cur = span_scan(cmds, k).0;
        assert forall|i: int| 0 <= i < cur.len() implies #[trigger] cur[i].0.len() > 0 by {
            if i < prev.len() {
                assert(cur[i] == prev[i]);
            } else if let CommandModel::AddText(t) = c {
                assert(t.len() > 0);
            }
        }
    }
}

/// With nothing marked, cleaning keeps the commands as they are.
pub proof fn lemma_nothing_marked(cmds: Seq<CommandModel>, marks: Seq<int>, k: nat)
    requires
        marks.len() == 0,
        k <= cmds.len(),
    ensures
        cleaned_prefix(cmds, marks, k) == cmds.take(k as int),
    decreases k,
{
    if k > 0 {
        lemma_nothing_marked(cmds, marks, (k - 1) as nat);
        assert(cmds.take(k as int) =~= cmds.take(k - 1).push(cmds[k - 1]));
    } else {
        assert(cmds.take(0) =~= Seq::<CommandModel>::empty());
    }
}

/// The characters a command stands for when shown as written: its text, a
/// line break, or its marker character (nothing for an emoji marker).
pub open spec fn written(c: CommandModel) -> Seq<char> {
    match c {
        CommandModel::AddText(t) => t,
        CommandModel::Newline => seq!['\n'],
        CommandModel::Start(s) => match marker_char(s) {
            Some(ch) => seq![ch],
            None => Seq::empty(),
        },
        CommandModel::End(s) => match marker_char(s) {
            Some(ch) => seq![ch],
            None => Seq::empty(),
        },
    }
}

/// The characters of a command list as written.
pub open spec fn written_text(cmds: Seq<CommandModel>) -> Seq<char>
    decreases cmds.len(),
{
    if cmds.len() == 0 {
        Seq::empty()
    } else {
        written_text(cmds.drop_last()) + written(cmds.last())
    }
}

/// Cleaning the first `k` commands keeps their written characters.
proof fn lemma_cleaned_prefix_written(cmds: Seq<CommandModel>, marks: Seq<int>, k: nat)
    requires
        k <= cmds.len(),
    ensures
        written_text(cleaned_prefix(cmds, marks, k)) == written_text(cmds.take(k as int)),
    decreases k,
{
    if k == 0 {
        assert(cmds.take(0) =~= Seq::<CommandModel>::empty());
    } else {
        let k1 = (k - 1) as nat;
        lemma_cleaned_prefix_written(cmds, marks, k1);
        let rest = cleaned_prefix(cmds, marks, k1);
        let c = cmds[k1 as int];
        assert(cmds.take(k as int).drop_last() =~= cmds.take(k1 as int));
        if marks.contains(k1 as int) {
            let r = resolved(c);
            if r.len() == 0 {
                assert(rest + r =~= rest);
                assert(written(c) =~= Seq::<char>::empty());
            } else {
                assert((rest + r).drop_last() =~= rest);
                assert(written(r[0]) == written(c));
            }
        } else {
            assert(rest.push(c).drop_last() =~= rest);
        }
    }
}

/// Resolving the markup loses no character: every unmatched marker comes
/// back as its character where it stood (emoji markers stand for none).
pub proof fn cleaning_keeps_written_text(cmds: Seq<CommandModel>)
    ensures
        written_text(cleaned_commands(cmds)) == written_text(cmds),
{
    lemma_cleaned_prefix_written(cmds, unmatched_positions(cmds), cmds.len());
    assert(cmds.take(cmds.len() as int) =~= cmds);
}

/// Every span of a message text holds at least one character.
pub proof fn spans_are_nonempty(input: Seq<char>)
    ensures
        forall|i: int| 0 <= i < markup_spans(input).len() ==> #[trigger] markup_spans(input)[i].0.len() > 0,
{
    let cleaned = cleaned_commands(span_commands(trimmed(input)));
    merged_commands_are_joined(cleaned);
    lemma_span_scan_nonempty(merged(cleaned), merged(cleaned).len());
}

/// A character with no meaning to the markup: no marker, no emoji, no line
/// break.
pub open spec fn plain_char(c: char) -> bool {
    marker_style(c) is None && !emoji_char(c) && c != '\n' && c != '\r'
}

/// Every command is text.
pub open spec fn all_text(cmds: Seq<CommandModel>) -> bool {
    forall|i: int| 0 <= i < cmds.len() ==> #[trigger] cmds[i] is AddText
}

/// Text commands leave the matching empty and are carried as one text.
proof fn lemma_all_text_scans(cmds: Seq<CommandModel>, k: nat)
    requires
        k <= cmds.len(),
        all_text(cmds),
    ensures
        match_scan(cmds, k) == (MatchState { stack: Seq::empty(), removed: Seq::empty() }),
        merge_scan(cmds, k).out == Seq::<CommandModel>::empty(),
        merge_scan(cmds, k).buf == carried_text(cmds.take(k as int)),
    decreases k,
{
    if k == 0 {
        assert(cmds.take(0) =~= Seq::<CommandModel>::empty());
    } else {
        let k1 = (k - 1) as nat;
        lemma_all_text_scans(cmds, k1);
        assert(cmds[k1 as int] is AddText);
        assert(cmds.take(k as int) =~= cmds.take(k1 as int).push(cmds[k1 as int]));
        lemma_push(cmds.take(k1 as int), cmds[k1 as int]);
    }
}

/// A list of text commands comes out as one unformatted span of its text.
proof fn lemma_all_text_spans(cmds: Seq<CommandModel>)
    requires
        all_text(cmds),
    ensures
        styled_spans(merged(cleaned_commands(cmds))) == (if carried_text(cmds).len() == 0 {
            Seq::<(Seq<char>, TextStyle)>::empty()
        } else {
            seq![(carried_text(cmds), plain_style())]
        }),
{
    lemma_all_text_scans(cmds, cmds.len());
    assert(cmds.take(cmds.len() as int) =~= cmds);
    let st = match_scan(cmds, cmds.len());
    assert(stack_positions(st.stack) =~= Seq::<int>::empty());
    assert(st.removed + stack_positions(st.stack) =~= Seq::<int>::empty());
    assert(unmatched_positions(cmds) == dedup(Seq::<int>::empty()));
    assert(unmatched_positions(cmds) =~= Seq::<int>::empty());
    lemma_nothing_marked(cmds, unmatched_positions(cmds), cmds.len());
    assert(cleaned_commands(cmds) == cmds);
    let m = merged(cmds);
    if carried_text(cmds).len() > 0 {
        assert(m =~= seq![CommandModel::AddText(carried_text(cmds))]);
        assert(span_scan(m, 0) == (Seq::<(Seq<char>, TextStyle)>::empty(), plain_style()));
        assert(span_scan(m, 1).0 =~= seq![(carried_text(cmds), plain_style())]);
    } else {
        assert(m =~= Seq::<CommandModel>::empty());
    }
}

/// The scan of plain characters gathers them as text.
proof fn lemma_scan_plain(cs: Seq<char>, k: nat)
    requires
        cs.len() >= 2,
        k <= cs.len() - 2,
        forall|i: int| 0 <= i < cs.len() ==> #[trigger] plain_char(cs[i]),
    ensures
        scan(cs, k).text == cs.subrange(1, (k + 1) as int),
        scan(cs, k).cmds == seq![CommandModel::AddText(seq![cs[0]])],
        scan(cs, k).just_added is None,
        scan(cs, k).style == plain_style(),
        !scan(cs, k).in_mono,
    decreases k,
{
    assert(plain_char(cs[0]));
    if k == 0 {
        assert(cs.subrange(1, 1) =~= Seq::<char>::empty());
        assert(emoji_open(cs[0]) =~= Seq::<CommandModel>::empty());
        assert(opening_commands(cs) =~= seq![CommandModel::AddText(seq![cs[0]])]);
    } else {
        let k1 = (k - 1) as nat;
        lemma_scan_plain(cs, k1);
        assert(plain_char(cs[k1 as int]));
        assert(plain_char(cs[k as int]));
        assert(cs.subrange(1, (k + 1) as int) =~= cs.subrange(1, (k1 + 1) as int).push(cs[k as int]));
    }
}

/// Text in which no character means anything to the markup comes out as one
/// unformatted span of the trimmed text (or no span, if that is empty).
pub proof fn plain_text_is_one_span(input: Seq<char>)
    requires
        forall|i: int| 0 <= i < trimmed(input).len() ==> #[trigger] plain_char(trimmed(input)[i]),
    ensures
        markup_spans(input) == (if trimmed(input).len() == 0 {
            Seq::<(Seq<char>, TextStyle)>::empty()
        } else {
            seq![(trimmed(input), plain_style())]
        }),
{
    let cs = trimmed(input);
    let cmds = span_commands(cs);
    if cs.len() == 0 {
        assert(cmds =~= Seq::<CommandModel>::empty());
        assert(carried_text(cmds) =~= Seq::<char>::empty());
    } else if cs.len() == 1 {
        assert(plain_char(cs[0]));
        assert(cmds =~= seq![CommandModel::AddText(seq![cs[0]])]);
        lemma_single(CommandModel::AddText(seq![cs[0]]));
        assert(carried_text(cmds) =~= cs);
    } else {
        let n = cs.len();
        lemma_scan_plain(cs, (n - 2) as nat);
        let st = scan(cs, (n - 2) as nat);
        assert(plain_char(cs[n - 2]));
        assert(plain_char(cs[n - 1]));
        let first = seq![CommandModel::AddText(seq![cs[0]])];
        let f = flushed(st.text, st.cmds);
        assert(emoji_close(cs[n - 1]) =~= Seq::<CommandModel>::empty());
        assert(cmds =~= f.push(CommandModel::AddText(seq![cs[n - 1]])));
        lemma_push(f, CommandModel::AddText(seq![cs[n - 1]]));
        lemma_single(CommandModel::AddText(seq![cs[0]]));
        assert(carried_text(first) =~= seq![cs[0]]);
        if st.text.len() > 0 {
            lemma_push(first, CommandModel::AddText(st.text));
        }
        assert(carried_text(f) =~= cs.subrange(0, n - 1));
        assert(carried_text(cmds) =~= cs);
        assert forall|i: int| 0 <= i < cmds.len() implies #[trigger] cmds[i] is AddText by {
            if st.text.len() > 0 {
                assert(f =~= seq![CommandModel::AddText(seq![cs[0]]), CommandModel::AddText(st.text)]);
            }
        }
    }
    lemma_all_text_spans(cmds);
}

/// A word wrapped in a pair of the same marker comes out as one span with
/// that formatting, when the word starts and ends with a non-space and no
/// character in it means anything to the markup.
pub proof fn marked_word_is_formatted(m: char, word: Seq<char>)
    requires
        marker_style(m) is Some,
        word.len() > 0,
        !white_space(word[0]),
        !white_space(word.last()),
        forall|i: int| 0 <= i < word.len() ==> #[trigger] plain_char(word[i]),
    ensures
        markup_spans(seq![m] + word + seq![m]) == seq![
            (word, style_with(plain_style(), marker_style(m)->0, true)),
        ],
{
    let s = marker_style(m)->0;
    let cs = seq![m] + word + seq![m];
    let n = cs.len();
    assert(!white_space(m));
    assert(trim_start(cs) == cs);
    assert(trimmed(cs) == cs);
    assert(cs[1] == word[0]);
    assert(cs[n - 2] == word.last());
    assert(opening_marker(cs) == Some(s));
    let styled = style_with(plain_style(), s, true);
    assert forall|k: nat| 1 <= k <= n - 2 implies ({
        let st = #[trigger] scan(cs, k);
        st.text == word.take(k as int) && st.cmds == seq![CommandModel::Start(s)] && st.just_added is None
            && st.style == styled && !st.in_mono
    }) by {
        lemma_scan_marked(m, word, k);
    }
    let st = scan(cs, (n - 2) as nat);
    assert(word.take(word.len() as int) =~= word);
    let cmds = span_commands(cs);
    assert(cmds =~= seq![CommandModel::Start(s), CommandModel::AddText(word), CommandModel::End(s)]);
    // matching finds every marker paired
    assert(cmds[0] == CommandModel::Start(s));
    assert(cmds[1] is AddText);
    assert(cmds[2] == CommandModel::End(s));
    let empty = MatchState { stack: Seq::empty(), removed: Seq::empty() };
    assert(match_scan(cmds, 0) == empty);
    assert(match_scan(cmds, 1) == MatchState { stack: empty.stack.push((0int, s)), removed: empty.removed });
    assert(match_scan(cmds, 2) == match_scan(cmds, 1));
    let one = seq![(0int, s)];
    assert(empty.stack.push((0int, s)) =~= one);
    assert(one.last().1 == s);
    assert(one.drop_last() =~= Seq::<(int, StyleType)>::empty());
    assert(pop_unmatched(one, s, Seq::<int>::empty()) == (one.drop_last(), Seq::<int>::empty(), true));
    assert(match_scan(cmds, 3).stack =~= Seq::<(int, StyleType)>::empty());
    assert(match_scan(cmds, 3).removed =~= Seq::<int>::empty());
    assert(stack_positions(Seq::<(int, StyleType)>::empty()) =~= Seq::<int>::empty());
    assert(unmatched_positions(cmds) =~= Seq::<int>::empty());
    lemma_nothing_marked(cmds, unmatched_positions(cmds), 3);
    assert(cleaned_commands(cmds) == cmds);
    // merging keeps the three commands
    assert(merge_scan(cmds, 0) == MergeState { out: Seq::empty(), buf: Seq::empty() });
    assert(flushed(Seq::empty(), Seq::<CommandModel>::empty()) == Seq::<CommandModel>::empty());
    assert(merge_scan(cmds, 1).out =~= seq![CommandModel::Start(s)]);
    assert(merge_scan(cmds, 2).buf =~= word);
    assert(merge_scan(cmds, 3).out =~= cmds);
    assert(merged(cmds) == cmds);
    assert(span_scan(cmds, 0) == (Seq::<(Seq<char>, TextStyle)>::empty(), plain_style()));
    assert(span_scan(cmds, 1) == span_step(span_scan(cmds, 0), cmds[0]));
    assert(span_scan(cmds, 1).1 == styled);
    assert(span_scan(cmds, 2).0 =~= seq![(word, styled)]);
}

/// The scan of a marked word opens the marker and gathers the word.
proof fn lemma_scan_marked(m: char, word: Seq<char>, k: nat)
    requires
        marker_style(m) is Some,
        word.len() > 0,
        !white_space(word[0]),
        forall|i: int| 0 <= i < word.len() ==> #[trigger] plain_char(word[i]),
        1 <= k <= word.len(),
    ensures
        ({
            let st = scan(seq![m] + word + seq![m], k);
            st.text == word.take(k as int) && st.cmds == seq![CommandModel::Start(marker_style(m)->0)]
                && st.just_added is None && st.style == style_with(plain_style(), marker_style(m)->0, true)
                && !st.in_mono
        }),
    decreases k,
{
    let cs = seq![m] + word + seq![m];
    let s = marker_style(m)->0;
    assert(cs[1] == word[0]);
    assert(cs[k as int] == word[k - 1]);
    assert(plain_char(word[k - 1]));
    assert(!emoji_char(m));
    if k == 1 {
        assert(opening_marker(cs) == Some(s));
        assert(opening_commands(cs) =~= seq![CommandModel::Start(s)]);
        assert(word.take(1) =~= seq![word[0]]);
        assert(Seq::<char>::empty().push(word[0]) =~= seq![word[0]]);
    } else {
        let k1 = (k - 1) as nat;
        lemma_scan_marked(m, word, k1);
        assert(cs[k1 as int] == word[k1 - 1]);
        assert(plain_char(word[k1 - 1]));
        assert(word.take(k as int) =~= word.take(k1 as int).push(word[k1 as int]));
    }
}

} // verus!
