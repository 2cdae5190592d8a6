//! WhatsApp-compatible rich text: `*bold*`, `_italic_`, `~strike~`,
//! `` `monospace` `` and emoji runs, turned into styled spans.

use vstd::prelude::*;

verus! {

/// A kind of formatting that a marker opens or closes.
///
/// Emoji is handled as a style of its own: emoji characters are rendered with
/// a dedicated font, so runs of them are split into spans of their own.
#[derive(Clone, Copy, Debug, PartialEq, Eq, Structural)]
pub enum StyleType {
    Bold,
    Italic,
    Strikethrough,
    Monospace,
    Emoji,
}

/// The formatting that applies to a run of text.
#[derive(Clone, Copy, Debug, PartialEq, Eq, Structural)]
pub struct TextStyle {
    pub bold: bool,
    pub italic: bool,
    pub strikethrough: bool,
    pub monospace: bool,
    pub emoji: bool,
}

/// The style with no formatting at all.
pub open spec fn plain_style() -> TextStyle {
    TextStyle { bold: false, italic: false, strikethrough: false, monospace: false, emoji: false }
}

/// Whether `style` has formatting `kind` switched on.
pub open spec fn style_has(style: TextStyle, kind: StyleType) -> bool {
    match kind {
        StyleType::Bold => style.bold,
        StyleType::Italic => style.italic,
        StyleType::Strikethrough => style.strikethrough,
        StyleType::Monospace => style.monospace,
        StyleType::Emoji => style.emoji,
    }
}

/// `style` with formatting `kind` set to `on`, everything else unchanged.
pub open spec fn style_with(style: TextStyle, kind: StyleType, on: bool) -> TextStyle {
    match kind {
        StyleType::Bold => TextStyle { bold: on, ..style },
        StyleType::Italic => TextStyle { italic: on, ..style },
        StyleType::Strikethrough => TextStyle { strikethrough: on, ..style },
        StyleType::Monospace => TextStyle { monospace: on, ..style },
        StyleType::Emoji => TextStyle { emoji: on, ..style },
    }
}

impl Default for TextStyle {
    fn default() -> (r: Self)
        ensures
            r == plain_style(),
    {
        TextStyle { bold: false, italic: false, strikethrough: false, monospace: false, emoji: false }
    }
}

impl TextStyle {
    /// Switches formatting `style_type` on or off.
    pub fn apply(&mut self, style_type: StyleType, apply: bool)
        ensures
            *final(self) == style_with(*old(self), style_type, apply),
    {
        match style_type {
            StyleType::Bold => self.bold = apply,
            StyleType::Italic => self.italic = apply,
            StyleType::Strikethrough => self.strikethrough = apply,
            StyleType::Monospace => self.monospace = apply,
            StyleType::Emoji => self.emoji = apply,
        }
    }

    /// Whether formatting `style_type` is switched on.
    pub fn get(&self, style_type: StyleType) -> (r: bool)
        ensures
            r == style_has(*self, style_type),
    {
        match style_type {
            StyleType::Bold => self.bold,
            StyleType::Italic => self.italic,
            StyleType::Strikethrough => self.strikethrough,
            StyleType::Monospace => self.monospace,
            StyleType::Emoji => self.emoji,
        }
    }
}

/// The name of a formatting, as listed by [`TextStyle::style_list`].
pub open spec fn style_name(kind: StyleType) -> Seq<char> {
    match kind {
        StyleType::Bold => seq!['B', 'o', 'l', 'd'],
        StyleType::Italic => seq!['I', 't', 'a', 'l', 'i', 'c'],
        StyleType::Strikethrough => seq!['S', 't', 'r', 'i', 'k', 'e', 't', 'h', 'r', 'o', 'u', 'g', 'h'],
        StyleType::Monospace => seq!['M', 'o', 'n', 'o', 's', 'p', 'a', 'c', 'e'],
        StyleType::Emoji => seq!['E', 'm', 'o', 'j', 'i'],
    }
}

/// The formattings in listing order.
pub open spec fn all_kinds() -> Seq<StyleType> {
    seq![StyleType::Bold, StyleType::Italic, StyleType::Strikethrough, StyleType::Monospace, StyleType::Emoji]
}

/// The names of the formattings among the first `k` kinds that `style` has on.
pub open spec fn style_names(style: TextStyle, k: nat) -> Seq<Seq<char>>
    decreases k,
{
    if k == 0 || k > 5 {
        Seq::empty()
    } else {
        let before = style_names(style, (k - 1) as nat);
        if style_has(style, all_kinds()[k - 1]) {
            before.push(style_name(all_kinds()[k - 1]))
        } else {
            before
        }
    }
}

/// Names separated by `, `.
pub open spec fn comma_joined(names: Seq<Seq<char>>) -> Seq<char>
    decreases names.len(),
{
    if names.len() == 0 {
        Seq::empty()
    } else if names.len() == 1 {
        names[0]
    } else {
        comma_joined(names.drop_last()) + seq![',', ' '] + names.last()
    }
}

/// Appends the name of a formatting.
fn push_name(out: &mut String, kind: StyleType)
    ensures
        final(out)@ == old(out)@ + style_name(kind),
{
    let ghost start = out@;
    match kind {
        StyleType::Bold => {
            push_char(out, 'B');
            push_char(out, 'o');
            push_char(out, 'l');
            push_char(out, 'd');
        },
        StyleType::Italic => {
            push_char(out, 'I');
            push_char(out, 't');
            push_char(out, 'a');
            push_char(out, 'l');
            push_char(out, 'i');
            push_char(out, 'c');
        },
        StyleType::Strikethrough => {
            push_char(out, 'S');
            push_char(out, 't');
            push_char(out, 'r');
            push_char(out, 'i');
            push_char(out, 'k');
            push_char(out, 'e');
            push_char(out, 't');
            push_char(out, 'h');
            push_char(out, 'r');
            push_char(out, 'o');
            push_char(out, 'u');
            push_char(out, 'g');
            push_char(out, 'h');
        },
        StyleType::Monospace => {
            push_char(out, 'M');
            push_char(out, 'o');
            push_char(out, 'n');
            push_char(out, 'o');
            push_char(out, 's');
            push_char(out, 'p');
            push_char(out, 'a');
            push_char(out, 'c');
            push_char(out, 'e');
        },
        StyleType::Emoji => {
            push_char(out, 'E');
            push_char(out, 'm');
            push_char(out, 'o');
            push_char(out, 'j');
            push_char(out, 'i');
        },
    }
    assert(out@ =~= start + style_name(kind));
}

impl TextStyle {
    /// The formattings switched on, as a list: `[Bold, Italic]`.
    pub fn style_list(&self) -> (r: String)
        ensures
            r@ == seq!['['] + comma_joined(style_names(*self, 5)) + seq![']'],
    {
        let kinds = [StyleType::Bold, StyleType::Italic, StyleType::Strikethrough, StyleType::Monospace, StyleType::Emoji];
        assert(kinds@ == all_kinds());
        let mut out = String::new();
        push_char(&mut out, '[');
        let mut first = true;
        let mut i: usize = 0;
        while i < 5
            invariant
                i <= 5,
                kinds@ == all_kinds(),
                first == (style_names(*self, i as nat).len() == 0),
                out@ == seq!['['] + comma_joined(style_names(*self, i as nat)),
            decreases 5 - i,
        {
            let kind = kinds[i];
            if self.get(kind) {
                let ghost names = style_names(*self, i as nat);
                if !first {
                    push_char(&mut out, ',');
                    push_char(&mut out, ' ');
                }
                push_name(&mut out, kind);
                first = false;
                assert(style_names(*self, (i + 1) as nat) == names.push(style_name(kind)));
                assert(names.push(style_name(kind)).drop_last() =~= names);
                assert(out@ =~= seq!['['] + comma_joined(names.push(style_name(kind))));
            }
            i += 1;
        }
        push_char(&mut out, ']');
        out
    }
}

/// The formatting that a marker character stands for.
pub open spec fn marker_style(c: char) -> Option<StyleType> {
    if c == '*' {
        Some(StyleType::Bold)
    } else if c == '_' {
        Some(StyleType::Italic)
    } else if c == '~' {
        Some(StyleType::Strikethrough)
    } else if c == '`' {
        Some(StyleType::Monospace)
    } else {
        None
    }
}

/// The marker character of a formatting; emoji runs have none.
pub open spec fn marker_char(s: StyleType) -> Option<char> {
    match s {
        StyleType::Bold => Some('*'),
        StyleType::Italic => Some('_'),
        StyleType::Strikethrough => Some('~'),
        StyleType::Monospace => Some('`'),
        StyleType::Emoji => None,
    }
}

impl StyleType {
    /// The formatting that a marker character opens or closes, if any.
    pub fn from_char(c: char) -> (r: Option<Self>)
        ensures
            r == marker_style(c),
    {
        if c == '*' {
            Some(StyleType::Bold)
        } else if c == '_' {
            Some(StyleType::Italic)
        } else if c == '~' {
            Some(StyleType::Strikethrough)
        } else if c == '`' {
            Some(StyleType::Monospace)
        } else {
            None
        }
    }

    /// The marker character of this formatting, if it has one.
    pub fn to_char(self) -> (r: Option<char>)
        ensures
            r == marker_char(self),
    {
        match self {
            StyleType::Bold => Some('*'),
            StyleType::Italic => Some('_'),
            StyleType::Strikethrough => Some('~'),
            StyleType::Monospace => Some('`'),
            StyleType::Emoji => None,
        }
    }
}

/// Code points treated as emoji: the emoji blocks, miscellaneous symbols and
/// dingbats.
pub open spec fn emoji_char(c: char) -> bool {
    let v = c as u32;
    (0x1F300 <= v <= 0x1FAFF) || (0x2600 <= v <= 0x26FF) || (0x2700 <= v <= 0x27BF)
}

/// Whether `c` is rendered with the emoji font.
pub fn is_emoji(c: char) -> (r: bool)
    ensures
        r == emoji_char(c),
        r == ((0x1F300 <= c as u32 <= 0x1FAFF) || (0x2600 <= c as u32 <= 0x26FF) || (0x2700 <= c as u32
            <= 0x27BF)),
{
    let v = c as u32;
    (0x1F300 <= v && v <= 0x1FAFF) || (0x2600 <= v && v <= 0x26FF) || (0x2700 <= v && v <= 0x27BF)
}

/// The Unicode `White_Space` property.
pub open spec fn white_space(c: char) -> bool {
    let v = c as u32;
    ||| 0x9 <= v <= 0xD
    ||| v == 0x20
    ||| v == 0x85
    ||| v == 0xA0
    ||| v == 0x1680
    ||| 0x2000 <= v <= 0x200A
    ||| v == 0x2028
    ||| v == 0x2029
    ||| v == 0x202F
    ||| v == 0x205F
    ||| v == 0x3000
}

/// Whether `c` is whitespace, as `char::is_whitespace` decides it (the
/// Unicode `White_Space` property).
fn char_is_whitespace(c: char) -> (r: bool)
    ensures
        r == white_space(c),
{
    let v = c as u32;
    (0x9 <= v && v <= 0xD) || v == 0x20 || v == 0x85 || v == 0xA0 || v == 0x1680 || (0x2000 <= v && v <= 0x200A)
        || v == 0x2028 || v == 0x2029 || v == 0x202F || v == 0x205F || v == 0x3000
}

/// Punctuation after or before which a marker may open or close.
pub open spec fn sticky_punctuation(c: char) -> bool {
    ||| c == '-' || c == '=' || c == '+' || c == '!' || c == '@' || c == '#' || c == '$'
    ||| c == '%' || c == '^' || c == '&' || c == '(' || c == ')' || c == '{' || c == '}'
    ||| c == '[' || c == ']' || c == ';' || c == '\'' || c == ':' || c == '"' || c == '\\'
    ||| c == '|' || c == ',' || c == '.' || c == '/' || c == '<' || c == '>' || c == '?'
}

/// Characters next to which a marker counts as a word boundary: whitespace,
/// markers and punctuation.
pub open spec fn sticky_char(c: char) -> bool {
    white_space(c) || marker_style(c) is Some || sticky_punctuation(c)
}

/// Whether a marker next to `c` sits on a word boundary.
pub fn is_sticky(c: char) -> (r: bool)
    ensures
        r == sticky_char(c),
{
    if char_is_whitespace(c) {
        return true;
    }
    if StyleType::from_char(c).is_some() {
        return true;
    }
    c == '-' || c == '=' || c == '+' || c == '!' || c == '@' || c == '#' || c == '$'
        || c == '%' || c == '^' || c == '&' || c == '(' || c == ')' || c == '{' || c == '}'
        || c == '[' || c == ']' || c == ';' || c == '\'' || c == ':' || c == '"' || c == '\\'
        || c == '|' || c == ',' || c == '.' || c == '/' || c == '<' || c == '>' || c == '?'
}


/// One step of the markup scan: a piece of text, a marker that opens or
/// closes a formatting, or a line break.
#[derive(Debug, PartialEq)]
pub enum Command {
    AddText(String),
    Start(StyleType),
    End(StyleType),
    Newline,
}

/// What a [`Command`] holds, with text as a sequence of characters.
pub enum CommandModel {
    AddText(Seq<char>),
    Start(StyleType),
    End(StyleType),
    Newline,
}

impl View for Command {
    type V = CommandModel;

    open spec fn view(&self) -> CommandModel {
        match self {
            Command::AddText(t) => CommandModel::AddText(t@),
            Command::Start(s) => CommandModel::Start(*s),
            Command::End(s) => CommandModel::End(*s),
            Command::Newline => CommandModel::Newline,
        }
    }
}

/// The model of a list of commands.
pub open spec fn commands_model(cmds: Seq<Command>) -> Seq<CommandModel> {
    cmds.map_values(|c: Command| c@)
}

/// Calls `String::push`, which std documents as appending `c` to the end of
/// the string; the contract claims exactly that of the string's characters.
#[verifier::external_body]
pub(crate) fn push_char(s: &mut String, c: char)
    ensures
        final(s)@ == old(s)@.push(c),
{
    s.push(c);
}

/// A string holding the single character `c`.
fn char_string(c: char) -> (r: String)
    ensures
        r@ == seq![c],
{
    let mut s = String::new();
    push_char(&mut s, c);
    s
}

/// Appends one command.
fn push_cmd(cmds: &mut Vec<Command>, c: Command)
    ensures
        commands_model(final(cmds)@) == commands_model(old(cmds)@).push(c@),
{
    cmds.push(c);
    assert(commands_model(cmds@) =~= commands_model(old(cmds)@).push(c@));
}

/// `cmds` with the pending text appended as a text command, if there is any.
pub open spec fn flushed(text: Seq<char>, cmds: Seq<CommandModel>) -> Seq<CommandModel> {
    if text.len() == 0 {
        cmds
    } else {
        cmds.push(CommandModel::AddText(text))
    }
}

/// Moves the pending text, if any, into a text command.
pub fn flush_buf(text: &mut String, cmds: &mut Vec<Command>)
    ensures
        final(text)@ == Seq::<char>::empty(),
        commands_model(final(cmds)@) == flushed(old(text)@, commands_model(old(cmds)@)),
{
    if text.as_str().is_empty() {
        return;
    }
    let mut taken = String::new();
    std::mem::swap(&mut taken, text);
    push_cmd(cmds, Command::AddText(taken));
}

/// Drops leading whitespace.
pub open spec fn trim_start(cs: Seq<char>) -> Seq<char>
    decreases cs.len(),
{
    if cs.len() > 0 && white_space(cs[0]) {
        trim_start(cs.drop_first())
    } else {
        cs
    }
}

/// Drops trailing whitespace.
pub open spec fn trim_end(cs: Seq<char>) -> Seq<char>
    decreases cs.len(),
{
    if cs.len() > 0 && white_space(cs.last()) {
        trim_end(cs.drop_last())
    } else {
        cs
    }
}

/// The text with leading and trailing whitespace removed, as `str::trim` does.
pub open spec fn trimmed(cs: Seq<char>) -> Seq<char> {
    trim_end(trim_start(cs))
}

/// The characters of `input` with surrounding whitespace removed.
fn trimmed_chars(input: &str) -> (r: Vec<char>)
    ensures
        r@ == trimmed(input@),
{
    let n = input.unicode_len();
    let mut i: usize = 0;
    assert(input@.subrange(0, n as int) =~= input@);
    while i < n && char_is_whitespace(input.get_char(i))
        invariant
            n == input@.len(),
            i <= n,
            trim_start(input@) == trim_start(input@.subrange(i as int, n as int)),
        decreases n - i,
    {
        assert(input@.subrange(i as int, n as int).drop_first() =~= input@.subrange(i + 1, n as int));
        i += 1;
    }
    assert(trim_start(input@) == input@.subrange(i as int, n as int));
    let mut j: usize = n;
    while j > i && char_is_whitespace(input.get_char(j - 1))
        invariant
            n == input@.len(),
            i <= j <= n,
            trimmed(input@) == trim_end(input@.subrange(i as int, j as int)),
        decreases j,
    {
        assert(input@.subrange(i as int, j as int).drop_last() =~= input@.subrange(i as int, j - 1));
        j -= 1;
    }
    let mut out: Vec<char> = Vec::new();
    let mut k: usize = i;
    while k < j
        invariant
            n == input@.len(),
            i <= k <= j <= n,
            out@ =~= input@.subrange(i as int, k as int),
        decreases j - k,
    {
        out.push(input.get_char(k));
        k += 1;
    }
    out
}


/// What the markup scan carries from one character to the next.
pub struct ScanState {
    /// Text read since the last command.
    pub text: Seq<char>,
    /// Commands produced so far.
    pub cmds: Seq<CommandModel>,
    /// The formatting opened by the previous character, if it opened one.
    pub just_added: Option<StyleType>,
    /// The formatting open at this point.
    pub style: TextStyle,
    /// Whether a monospace run is open (markers inside it are dropped).
    pub in_mono: bool,
}

/// The formatting that the first character opens, when it is a marker
/// followed by a non-space character.
pub open spec fn opening_marker(cs: Seq<char>) -> Option<StyleType> {
    if cs.len() >= 2 && !white_space(cs[1]) {
        marker_style(cs[0])
    } else {
        None
    }
}

/// `Start(Emoji)` before an emoji character, nothing otherwise.
pub open spec fn emoji_open(c: char) -> Seq<CommandModel> {
    if emoji_char(c) {
        seq![CommandModel::Start(StyleType::Emoji)]
    } else {
        Seq::empty()
    }
}

/// `End(Emoji)` after an emoji character, nothing otherwise.
pub open spec fn emoji_close(c: char) -> Seq<CommandModel> {
    if emoji_char(c) {
        seq![CommandModel::End(StyleType::Emoji)]
    } else {
        Seq::empty()
    }
}

/// The commands for the first character of the text.
pub open spec fn opening_commands(cs: Seq<char>) -> Seq<CommandModel> {
    if cs.len() == 0 {
        Seq::empty()
    } else if cs.len() == 1 {
        emoji_open(cs[0]) + seq![CommandModel::AddText(seq![cs[0]])] + emoji_close(cs[0])
    } else {
        match opening_marker(cs) {
            Some(s) => seq![CommandModel::Start(s)],
            None => emoji_open(cs[0]).push(CommandModel::AddText(seq![cs[0]])),
        }
    }
}

/// The formatting open after the first character.
pub open spec fn opening_style(cs: Seq<char>) -> TextStyle {
    match opening_marker(cs) {
        Some(s) => style_with(plain_style(), s, true),
        None => plain_style(),
    }
}

/// One step of the scan: `c2` is the character being read, `c1` the one
/// before it and `c3` the one after it.
pub open spec fn scan_step(st: ScanState, c1: char, c2: char, c3: char) -> ScanState {
    let m = marker_style(c2);
    let s = m->0;
    let was_just_added = st.just_added == m;
    let out = flushed(st.text, st.cmds);
    if m is Some && sticky_char(c1) && !white_space(c3) && !was_just_added && !style_has(st.style, s) {
        // an opening marker
        if s != StyleType::Monospace && st.in_mono {
            st
        } else {
            ScanState {
                text: Seq::empty(),
                cmds: out.push(CommandModel::Start(s)),
                just_added: Some(s),
                style: style_with(st.style, s, true),
                in_mono: st.in_mono || s == StyleType::Monospace,
            }
        }
    } else if m is Some && !white_space(c1) && sticky_char(c3) && !was_just_added {
        // a closing marker
        if s != StyleType::Monospace && st.in_mono {
            ScanState { text: Seq::empty(), cmds: out, just_added: None, ..st }
        } else {
            ScanState {
                text: Seq::empty(),
                cmds: out.push(CommandModel::End(s)),
                just_added: None,
                style: style_with(st.style, s, false),
                in_mono: st.in_mono && s != StyleType::Monospace,
            }
        }
    } else if c2 == '\n' || c2 == '\r' {
        ScanState {
            text: Seq::empty(),
            cmds: out.push(CommandModel::Newline),
            just_added: None,
            style: plain_style(),
            in_mono: st.in_mono,
        }
    } else if emoji_char(c2) != emoji_char(c1) {
        ScanState {
            text: seq![c2],
            cmds: out.push(
                if emoji_char(c2) {
                    CommandModel::Start(StyleType::Emoji)
                } else {
                    CommandModel::End(StyleType::Emoji)
                },
            ),
            just_added: None,
            ..st
        }
    } else {
        ScanState { text: st.text.push(c2), just_added: None, ..st }
    }
}

/// The scan state after the first `k` inner characters (those with a
/// character on both sides) have been read.
pub open spec fn scan(cs: Seq<char>, k: nat) -> ScanState
    decreases k,
{
    if k == 0 {
        ScanState {
            text: Seq::empty(),
            cmds: opening_commands(cs),
            just_added: opening_marker(cs),
            style: opening_style(cs),
            in_mono: false,
        }
    } else {
        let k1 = (k - 1) as nat;
        scan_step(scan(cs, k1), cs[k1 as int], cs[k as int], cs[(k + 1) as int])
    }
}

/// The commands for the last character `c2`, read after `c1`.
pub open spec fn closing_commands(
    cmds: Seq<CommandModel>,
    just_added: Option<StyleType>,
    style: TextStyle,
    c1: char,
    c2: char,
) -> Seq<CommandModel> {
    let m = marker_style(c2);
    if !white_space(c1) && m is Some && just_added != m && style_has(style, m->0) {
        cmds.push(CommandModel::End(m->0))
    } else {
        let edge = if emoji_char(c1) && !emoji_char(c2) {
            seq![CommandModel::End(StyleType::Emoji)]
        } else if !emoji_char(c1) && emoji_char(c2) {
            seq![CommandModel::Start(StyleType::Emoji)]
        } else {
            Seq::empty()
        };
        cmds + edge + seq![CommandModel::AddText(seq![c2])] + emoji_close(c2)
    }
}

/// The commands that the markup scan produces for the (trimmed) characters `cs`.
pub open spec fn span_commands(cs: Seq<char>) -> Seq<CommandModel> {
    if cs.len() < 2 {
        opening_commands(cs)
    } else {
        let st = scan(cs, (cs.len() - 2) as nat);
        closing_commands(
            flushed(st.text, st.cmds),
            st.just_added,
            st.style,
            cs[cs.len() - 2],
            cs[cs.len() - 1],
        )
    }
}

/// Reads the first character. Returns whether the text is already complete
/// (it has fewer than two characters).
pub fn parse_beginning(
    commands: &mut Vec<Command>,
    chars: &[char],
    just_added: &mut Option<StyleType>,
    temp_style: &mut TextStyle,
) -> (ended: bool)
    ensures
        ended == (chars@.len() < 2),
        commands_model(final(commands)@) == commands_model(old(commands)@) + opening_commands(chars@),
        *final(just_added) == (if opening_marker(chars@) is Some { opening_marker(chars@) } else { *old(just_added) }),
        *final(temp_style) == (match opening_marker(chars@) {
            Some(s) => style_with(*old(temp_style), s, true),
            None => *old(temp_style),
        }),
{
    let ghost before = commands_model(commands@);
    if chars.len() == 0 {
        assert(commands_model(commands@) =~= before + opening_commands(chars@));
        return true;
    }
    let c1 = chars[0];
    if chars.len() == 1 {
        if is_emoji(c1) {
            push_cmd(commands, Command::Start(StyleType::Emoji));
        }
        push_cmd(commands, Command::AddText(char_string(c1)));
        if is_emoji(c1) {
            push_cmd(commands, Command::End(StyleType::Emoji));
        }
        assert(commands_model(commands@) =~= before + opening_commands(chars@));
        return true;
    }
    let c2 = chars[1];
    let marker = StyleType::from_char(c1);
    if !char_is_whitespace(c2) && marker.is_some() {
        let s = marker.unwrap();
        *just_added = Some(s);
        temp_style.apply(s, true);
        push_cmd(commands, Command::Start(s));
    } else {
        if is_emoji(c1) {
            push_cmd(commands, Command::Start(StyleType::Emoji));
        }
        push_cmd(commands, Command::AddText(char_string(c1)));
    }
    assert(commands_model(commands@) =~= before + opening_commands(chars@));
    false
}

/// Reads one inner character `c2`, between `c1` and `c3`.
fn scan_window(
    text: &mut String,
    commands: &mut Vec<Command>,
    just_added: &mut Option<StyleType>,
    temp_style: &mut TextStyle,
    in_monospace: &mut bool,
    c1: char,
    c2: char,
    c3: char,
)
    ensures
        ({
            let before = ScanState {
                text: old(text)@,
                cmds: commands_model(old(commands)@),
                just_added: *old(just_added),
                style: *old(temp_style),
                in_mono: *old(in_monospace),
            };
            let after = ScanState {
                text: final(text)@,
                cmds: commands_model(final(commands)@),
                just_added: *final(just_added),
                style: *final(temp_style),
                in_mono: *final(in_monospace),
            };
            after == scan_step(before, c1, c2, c3)
        }),
{
    if let Some(s) = StyleType::from_char(c2) {
        let was_just_added = match *just_added {
            Some(j) => j == s,
            None => false,
        };
        if is_sticky(c1) && !char_is_whitespace(c3) && !was_just_added && !temp_style.get(s) {
            if s == StyleType::Monospace {
                *in_monospace = true;
            } else if *in_monospace {
                return;
            }
            flush_buf(text, commands);
            push_cmd(commands, Command::Start(s));
            temp_style.apply(s, true);
            *just_added = Some(s);
            return;
        } else if !char_is_whitespace(c1) && is_sticky(c3) && !was_just_added {
            *just_added = None;
            flush_buf(text, commands);
            if s == StyleType::Monospace {
                *in_monospace = false;
            } else if *in_monospace {
                return;
            }
            push_cmd(commands, Command::End(s));
            temp_style.apply(s, false);
            return;
        }
    }
    *just_added = None;
    if c2 == '\n' || c2 == '\r' {
        flush_buf(text, commands);
        push_cmd(commands, Command::Newline);
        *temp_style = TextStyle::default();
    } else if is_emoji(c2) != is_emoji(c1) {
        flush_buf(text, commands);
        push_cmd(
            commands,
            if is_emoji(c2) {
                Command::Start(StyleType::Emoji)
            } else {
                Command::End(StyleType::Emoji)
            },
        );
        push_char(text, c2);
    } else {
        push_char(text, c2);
    }
}

/// Reads the last character. Expects the pending text to be flushed already.
pub fn parse_end(
    commands: &mut Vec<Command>,
    chars: &[char],
    just_added: &Option<StyleType>,
    temp_style: &TextStyle,
)
    requires
        chars@.len() >= 2,
    ensures
        commands_model(final(commands)@) == closing_commands(
            commands_model(old(commands)@),
            *just_added,
            *temp_style,
            chars@[chars@.len() - 2],
            chars@[chars@.len() - 1],
        ),
{
    let ghost before = commands_model(commands@);
    let c1 = chars[chars.len() - 2];
    let c2 = chars[chars.len() - 1];
    let marker = StyleType::from_char(c2);
    let closes = match marker {
        Some(s) => {
            let was_just_added = match *just_added {
                Some(j) => j == s,
                None => false,
            };
            !char_is_whitespace(c1) && !was_just_added && temp_style.get(s)
        },
        None => false,
    };
    if closes {
        push_cmd(commands, Command::End(marker.unwrap()));
    } else {
        let e1 = is_emoji(c1);
        let e2 = is_emoji(c2);
        if e1 && !e2 {
            push_cmd(commands, Command::End(StyleType::Emoji));
        } else if !e1 && e2 {
            push_cmd(commands, Command::Start(StyleType::Emoji));
        }
        push_cmd(commands, Command::AddText(char_string(c2)));
        if e2 {
            push_cmd(commands, Command::End(StyleType::Emoji));
        }
        assert(commands_model(commands@) =~= closing_commands(
            before,
            *just_added,
            *temp_style,
            chars@[chars@.len() - 2],
            chars@[chars@.len() - 1],
        ));
    }
}

/// Scans the (trimmed) text into formatting commands. Markers that open or
/// close nothing are not resolved here; see [`clean_up_span_commands`].
pub fn generate_span_commands(input: &str) -> (commands: Vec<Command>)
    ensures
        commands_model(commands@) == span_commands(trimmed(input@)),
{
    let chars = trimmed_chars(input);
    let ghost cs = chars@;
    let mut commands: Vec<Command> = Vec::new();
    let mut just_added: Option<StyleType> = None;
    let mut temp_style = TextStyle::default();
    assert(commands_model(commands@) =~= Seq::<CommandModel>::empty());
    let ended = parse_beginning(&mut commands, chars.as_slice(), &mut just_added, &mut temp_style);
    assert(commands_model(commands@) =~= opening_commands(cs));
    if ended {
        return commands;
    }
    let mut text = String::new();
    let mut in_monospace = false;
    let n = chars.len();
    let mut k: usize = 0;
    while k + 2 < n
        invariant
            n == cs.len(),
            cs == chars@,
            n >= 2,
            k + 2 <= n,
            (ScanState {
                text: text@,
                cmds: commands_model(commands@),
                just_added,
                style: temp_style,
                in_mono: in_monospace,
            }) == scan(cs, k as nat),
        decreases n - k,
    {
        scan_window(
            &mut text,
            &mut commands,
            &mut just_added,
            &mut temp_style,
            &mut in_monospace,
            chars[k],
            chars[k + 1],
            chars[k + 2],
        );
        k += 1;
    }
    flush_buf(&mut text, &mut commands);
    parse_end(&mut commands, chars.as_slice(), &just_added, &temp_style);
    commands
}


/// The list `s` with every element after its first occurrence dropped.
pub open spec fn dedup<A>(s: Seq<A>) -> Seq<A>
    decreases s.len(),
{
    if s.len() == 0 {
        s
    } else {
        let r = dedup(s.drop_last());
        if r.contains(s.last()) {
            r
        } else {
            r.push(s.last())
        }
    }
}

/// Indices as integers.
pub open spec fn ints(s: Seq<usize>) -> Seq<int> {
    s.map_values(|x: usize| x as int)
}

/// Drops every repeated entry, keeping the first occurrence of each value.
pub fn remove_duplicates(vec: &mut Vec<usize>)
    ensures
        ints(final(vec)@) == dedup(ints(old(vec)@)),
{
    let mut out: Vec<usize> = Vec::new();
    let n = vec.len();
    let mut i: usize = 0;
    while i < n
        invariant
            n == vec@.len(),
            i <= n,
            ints(out@) == dedup(ints(vec@.take(i as int))),
        decreases n - i,
    {
        let v = vec[i];
        let mut seen = false;
        let mut j: usize = 0;
        while j < out.len()
            invariant
                j <= out@.len(),
                seen == exists|t: int| 0 <= t < j && out@[t] == v,
            decreases out@.len() - j,
        {
            if out[j] == v {
                seen = true;
            }
            j += 1;
        }
        assert(ints(vec@.take(i + 1)).drop_last() =~= ints(vec@.take(i as int)));
        assert(ints(vec@.take(i + 1)).last() == v as int);
        if seen {
            proof {
                let t = choose|t: int| 0 <= t < out@.len() && out@[t] == v;
                assert(ints(out@)[t] == v as int);
            }
        } else {
            assert(!ints(out@).contains(v as int)) by {
                if ints(out@).contains(v as int) {
                    let t: int = choose|t: int| 0 <= t < ints(out@).len() && ints(out@)[t] == v as int;
                    assert(out@[t] == v);
                }
            }
            let ghost before = out@;
            out.push(v);
            assert(ints(out@) =~= ints(before).push(v as int));
        }
        i += 1;
    }
    assert(vec@.take(n as int) =~= vec@);
    *vec = out;
}


/// What the marker matching carries from one command to the next.
pub struct MatchState {
    /// Markers opened and not yet closed: (position, formatting).
    pub stack: Seq<(int, StyleType)>,
    /// Positions of the markers found to open or close nothing, in the
    /// order they were found (repetitions possible).
    pub removed: Seq<int>,
}

/// Closes formatting `s`: pops the open markers above the nearest one of
/// kind `s`, recording them as unmatched. Returns the remaining stack, the
/// extended record, and whether a marker of kind `s` was found (and popped).
pub open spec fn pop_unmatched(stack: Seq<(int, StyleType)>, s: StyleType, removed: Seq<int>) -> (
    Seq<(int, StyleType)>,
    Seq<int>,
    bool,
)
    decreases stack.len(),
{
    if stack.len() == 0 {
        (stack, removed, false)
    } else if stack.last().1 == s {
        (stack.drop_last(), removed, true)
    } else {
        pop_unmatched(stack.drop_last(), s, removed.push(stack.last().0))
    }
}

/// The positions held in a marker stack, bottom first.
pub open spec fn stack_positions(stack: Seq<(int, StyleType)>) -> Seq<int> {
    stack.map_values(|e: (int, StyleType)| e.0)
}

/// Matching one command, at position `i`.
pub open spec fn match_step(st: MatchState, i: int, c: CommandModel) -> MatchState {
    match c {
        CommandModel::Start(s) => MatchState { stack: st.stack.push((i, s)), removed: st.removed },
        CommandModel::End(s) => {
            let (stack, removed, found) = pop_unmatched(st.stack, s, st.removed);
            MatchState { stack, removed: if found { removed } else { removed.push(i) } }
        },
        CommandModel::Newline => MatchState {
            stack: Seq::empty(),
            removed: st.removed + stack_positions(st.stack),
        },
        CommandModel::AddText(_) => st,
    }
}

/// The matching state after the first `k` commands.
pub open spec fn match_scan(cmds: Seq<CommandModel>, k: nat) -> MatchState
    decreases k,
{
    if k == 0 {
        MatchState { stack: Seq::empty(), removed: Seq::empty() }
    } else {
        let k1 = (k - 1) as nat;
        match_step(match_scan(cmds, k1), k1 as int, cmds[k1 as int])
    }
}

/// The positions of the unmatched markers, each once, in the order found:
/// closers with no opener, openers still open at a line break, openers
/// skipped over by a closer, and openers never closed.
pub open spec fn unmatched_positions(cmds: Seq<CommandModel>) -> Seq<int> {
    let st = match_scan(cmds, cmds.len());
    dedup(st.removed + stack_positions(st.stack))
}

/// What an unmatched marker becomes: its character as plain text, or nothing
/// for an emoji marker.
pub open spec fn resolved(c: CommandModel) -> Seq<CommandModel> {
    match c {
        CommandModel::Start(s) => match marker_char(s) {
            Some(ch) => seq![CommandModel::AddText(seq![ch])],
            None => Seq::empty(),
        },
        CommandModel::End(s) => match marker_char(s) {
            Some(ch) => seq![CommandModel::AddText(seq![ch])],
            None => Seq::empty(),
        },
        _ => seq![c],
    }
}

/// The first `k` commands, each at a position of `marks` replaced in place
/// by what it resolves to.
pub open spec fn cleaned_prefix(cmds: Seq<CommandModel>, marks: Seq<int>, k: nat) -> Seq<CommandModel>
    decreases k,
{
    if k == 0 {
        Seq::empty()
    } else {
        let k1 = (k - 1) as nat;
        let rest = cleaned_prefix(cmds, marks, k1);
        if marks.contains(k1 as int) {
            rest + resolved(cmds[k1 as int])
        } else {
            rest.push(cmds[k1 as int])
        }
    }
}

/// The commands after the markup is resolved: matched markers stay, every
/// unmatched marker is replaced in place by its character (an emoji marker
/// by nothing), and everything else is kept.
pub open spec fn cleaned_commands(cmds: Seq<CommandModel>) -> Seq<CommandModel> {
    cleaned_prefix(cmds, unmatched_positions(cmds), cmds.len())
}

/// Closing pops only entries of the stack into the record.
proof fn lemma_pop_unmatched(stack: Seq<(int, StyleType)>, s: StyleType, removed: Seq<int>)
    ensures
        ({
            let (stack2, removed2, _) = pop_unmatched(stack, s, removed);
            &&& stack2.len() <= stack.len()
            &&& forall|j: int| 0 <= j < stack2.len() ==> #[trigger] stack2[j] == stack[j]
            &&& removed2.len() >= removed.len()
            &&& forall|j: int| 0 <= j < removed.len() ==> #[trigger] removed2[j] == removed[j]
            &&& forall|j: int|
                removed.len() <= j < removed2.len() ==> exists|t: int|
                    0 <= t < stack.len() && #[trigger] removed2[j] == stack[t].0
        }),
    decreases stack.len(),
{
    if stack.len() > 0 && stack.last().1 != s {
        let r1 = removed.push(stack.last().0);
        lemma_pop_unmatched(stack.drop_last(), s, r1);
        let (stack2, removed2, _) = pop_unmatched(stack, s, removed);
        assert forall|j: int| removed.len() <= j < removed2.len() implies exists|t: int|
            0 <= t < stack.len() && #[trigger] removed2[j] == stack[t].0 by {
            if j == removed.len() {
                assert(removed2[j] == r1[j]);
                assert(removed2[j] == stack[stack.len() - 1].0);
            } else {
                let t = choose|t: int| 0 <= t < stack.drop_last().len() && removed2[j] == stack.drop_last()[t].0;
                assert(stack.drop_last()[t] == stack[t]);
            }
        }
        assert forall|j: int| 0 <= j < removed.len() implies #[trigger] removed2[j] == removed[j] by {
            assert(r1[j] == removed[j]);
        }
    }
}

/// The matching state only holds positions of the first `k` commands.
proof fn lemma_match_positions(cmds: Seq<CommandModel>, k: nat)
    requires
        k <= cmds.len(),
    ensures
        forall|j: int| 0 <= j < match_scan(cmds, k).stack.len() ==> 0 <= #[trigger] match_scan(cmds, k).stack[j].0 < k,
        forall|j: int|
            0 <= j < match_scan(cmds, k).removed.len() ==> 0 <= #[trigger] match_scan(cmds, k).removed[j] < k,
    decreases k,
{
    if k > 0 {
        let k1 = (k - 1) as nat;
        lemma_match_positions(cmds, k1);
        let st = match_scan(cmds, k1);
        let i = k1 as int;
        let next = match_scan(cmds, k);
        match cmds[i] {
            CommandModel::Start(s) => {
                assert forall|j: int| 0 <= j < next.stack.len() implies 0 <= #[trigger] next.stack[j].0 < k by {
                    if j < st.stack.len() {
                        assert(next.stack[j] == st.stack[j]);
                    }
                }
            },
            CommandModel::End(s) => {
                lemma_pop_unmatched(st.stack, s, st.removed);
                let (stack2, removed2, found) = pop_unmatched(st.stack, s, st.removed);
                assert forall|j: int| 0 <= j < removed2.len() implies 0 <= #[trigger] removed2[j] < k by {
                    if j >= st.removed.len() {
                        let t = choose|t: int| 0 <= t < st.stack.len() && removed2[j] == st.stack[t].0;
                    } else {
                        assert(removed2[j] == st.removed[j]);
                    }
                }
                assert forall|j: int| 0 <= j < stack2.len() implies 0 <= #[trigger] stack2[j].0 < k by {
                    assert(stack2[j] == st.stack[j]);
                }
                if !found {
                    let r3 = removed2.push(i);
                    assert forall|j: int| 0 <= j < r3.len() implies 0 <= #[trigger] r3[j] < k by {
                        if j < removed2.len() {
                            assert(r3[j] == removed2[j]);
                        }
                    }
                }
            },
            CommandModel::Newline => {
                let r3 = st.removed + stack_positions(st.stack);
                assert forall|j: int| 0 <= j < r3.len() implies 0 <= #[trigger] r3[j] < k by {
                    if j < st.removed.len() {
                        assert(r3[j] == st.removed[j]);
                    } else {
                        assert(r3[j] == st.stack[j - st.removed.len()].0);
                    }
                }
            },
            CommandModel::AddText(_) => {},
        }
    }
}

/// The first occurrences of `s` are entries of `s`.
proof fn lemma_dedup_entries(s: Seq<int>)
    ensures
        forall|a: int| 0 <= a < dedup(s).len() ==> s.contains(#[trigger] dedup(s)[a]),
    decreases s.len(),
{
    if s.len() > 0 {
        let p = s.drop_last();
        lemma_dedup_entries(p);
        let r = dedup(p);
        assert forall|a: int| 0 <= a < r.len() implies s.contains(#[trigger] r[a]) by {
            let k = choose|k: int| 0 <= k < p.len() && p[k] == r[a];
            assert(s[k] == r[a]);
        }
        assert(s[s.len() - 1] == s.last());
    }
}

/// Every unmatched position is a position of the list.
proof fn lemma_unmatched_in_list(cmds: Seq<CommandModel>)
    ensures
        forall|a: int|
            0 <= a < unmatched_positions(cmds).len() ==> 0 <= #[trigger] unmatched_positions(cmds)[a] < cmds.len(),
{
    lemma_match_positions(cmds, cmds.len());
    let st = match_scan(cmds, cmds.len());
    let all = st.removed + stack_positions(st.stack);
    lemma_dedup_entries(all);
    assert forall|a: int| 0 <= a < dedup(all).len() implies 0 <= #[trigger] dedup(all)[a] < cmds.len() by {
        let t = choose|t: int| 0 <= t < all.len() && all[t] == dedup(all)[a];
        if t < st.removed.len() {
            assert(all[t] == st.removed[t]);
        } else {
            assert(all[t] == st.stack[t - st.removed.len()].0);
        }
    }
}

/// The model of a marker stack.
pub open spec fn stack_model(stack: Seq<(usize, StyleType)>) -> Seq<(int, StyleType)> {
    stack.map_values(|e: (usize, StyleType)| (e.0 as int, e.1))
}

/// Pops markers until one of kind `s`, recording the others in `to_remove`.
fn pop_until_match(stack: &mut Vec<(usize, StyleType)>, to_remove: &mut Vec<usize>, s: StyleType) -> (found: bool)
    ensures
        (stack_model(final(stack)@), ints(final(to_remove)@), found) == pop_unmatched(
            stack_model(old(stack)@),
            s,
            ints(old(to_remove)@),
        ),
{
    loop
        invariant
            pop_unmatched(stack_model(old(stack)@), s, ints(old(to_remove)@)) == pop_unmatched(
                stack_model(stack@),
                s,
                ints(to_remove@),
            ),
        decreases stack@.len(),
    {
        let ghost before = stack@;
        let ghost removed = to_remove@;
        match stack.pop() {
            None => {
                return false;
            },
            Some(top) => {
                assert(stack_model(before).drop_last() =~= stack_model(stack@));
                assert(stack_model(before).last() == (top.0 as int, top.1));
                if top.1 == s {
                    return true;
                }
                to_remove.push(top.0);
                assert(ints(to_remove@) =~= ints(removed).push(top.0 as int));
            },
        }
    }
}

/// Appends the positions held in `stack` to `to_remove`.
fn push_positions(stack: &Vec<(usize, StyleType)>, to_remove: &mut Vec<usize>)
    ensures
        ints(final(to_remove)@) == ints(old(to_remove)@) + stack_positions(stack_model(stack@)),
{
    let mut j: usize = 0;
    while j < stack.len()
        invariant
            j <= stack@.len(),
            ints(to_remove@) =~= ints(old(to_remove)@) + stack_positions(stack_model(stack@)).take(j as int),
        decreases stack@.len() - j,
    {
        let ghost before = to_remove@;
        to_remove.push(stack[j].0);
        assert(stack_positions(stack_model(stack@)).take(j + 1) =~= stack_positions(stack_model(stack@)).take(
            j as int,
        ).push(stack@[j as int].0 as int));
        assert(ints(to_remove@) =~= ints(before).push(stack@[j as int].0 as int));
        j += 1;
    }
    assert(stack_positions(stack_model(stack@)).take(stack@.len() as int) =~= stack_positions(stack_model(stack@)));
}

/// The positions of unmatched markers, as [`unmatched_positions`] describes.
fn unmatched_markers(commands: &Vec<Command>) -> (to_remove: Vec<usize>)
    ensures
        ints(to_remove@) == unmatched_positions(commands_model(commands@)),
{
    let ghost cmds = commands_model(commands@);
    let mut stack: Vec<(usize, StyleType)> = Vec::new();
    let mut to_remove: Vec<usize> = Vec::new();
    let n = commands.len();
    let mut i: usize = 0;
    assert(stack_model(stack@) =~= Seq::<(int, StyleType)>::empty());
    assert(ints(to_remove@) =~= Seq::<int>::empty());
    while i < n
        invariant
            n == commands@.len(),
            cmds == commands_model(commands@),
            i <= n,
            (MatchState { stack: stack_model(stack@), removed: ints(to_remove@) }) == match_scan(cmds, i as nat),
        decreases n - i,
    {
        let ghost st = match_scan(cmds, i as nat);
        assert(cmds[i as int] == commands@[i as int]@);
        match &commands[i] {
            Command::Start(s) => {
                stack.push((i, *s));
                assert(stack_model(stack@) =~= st.stack.push((i as int, *s)));
            },
            Command::End(s) => {
                let found = pop_until_match(&mut stack, &mut to_remove, *s);
                if !found {
                    let ghost removed = to_remove@;
                    to_remove.push(i);
                    assert(ints(to_remove@) =~= ints(removed).push(i as int));
                }
            },
            Command::Newline => {
                push_positions(&stack, &mut to_remove);
                stack.clear();
                assert(stack_model(stack@) =~= Seq::<(int, StyleType)>::empty());
            },
            Command::AddText(_) => {},
        }
        i += 1;
    }
    push_positions(&stack, &mut to_remove);
    remove_duplicates(&mut to_remove);
    to_remove
}

/// A copy of a command.
fn copy_command(c: &Command) -> (r: Command)
    ensures
        r@ == c@,
{
    match c {
        Command::AddText(t) => Command::AddText(t.clone()),
        Command::Start(s) => Command::Start(*s),
        Command::End(s) => Command::End(*s),
        Command::Newline => Command::Newline,
    }
}

/// Rebuilds the list in one pass, replacing the command at each position of
/// `order` in place by what it resolves to.
fn resolve_marked(commands: &mut Vec<Command>, order: &Vec<usize>)
    requires
        forall|a: int| 0 <= a < order@.len() ==> #[trigger] order@[a] < old(commands)@.len(),
    ensures
        commands_model(final(commands)@) == cleaned_prefix(
            commands_model(old(commands)@),
            ints(order@),
            old(commands)@.len() as nat,
        ),
{
    let n = commands.len();
    let mut marked: Vec<bool> = Vec::new();
    let mut i: usize = 0;
    while i < n
        invariant
            i <= n,
            marked@.len() == i,
            forall|t: int| 0 <= t < i ==> !marked@[t],
        decreases n - i,
    {
        marked.push(false);
        i += 1;
    }
    let mut j: usize = 0;
    while j < order.len()
        invariant
            j <= order@.len(),
            n == old(commands)@.len(),
            marked@.len() == n,
            forall|a: int| 0 <= a < order@.len() ==> #[trigger] order@[a] < n,
            forall|t: int| 0 <= t < n ==> marked@[t] == ints(order@).take(j as int).contains(t),
        decreases order@.len() - j,
    {
        let p = order[j];
        marked.set(p, true);
        proof {
            let before = ints(order@).take(j as int);
            let after = ints(order@).take(j + 1);
            assert(after =~= before.push(p as int));
            assert forall|t: int| 0 <= t < n implies marked@[t] == after.contains(t) by {
                if t == p {
                    assert(after[j as int] == t);
                } else {
                    if after.contains(t) {
                        let q = choose|q: int| 0 <= q < after.len() && after[q] == t;
                        assert(before[q] == t);
                    }
                    if before.contains(t) {
                        let q = choose|q: int| 0 <= q < before.len() && before[q] == t;
                        assert(after[q] == t);
                    }
                }
            }
        }
        j += 1;
    }
    assert(ints(order@).take(order@.len() as int) =~= ints(order@));
    let ghost cmds = commands_model(commands@);
    let ghost marks = ints(order@);
    let mut out: Vec<Command> = Vec::new();
    let mut k: usize = 0;
    assert(commands_model(out@) =~= Seq::<CommandModel>::empty());
    while k < n
        invariant
            k <= n,
            n == commands@.len(),
            marked@.len() == n,
            cmds == commands_model(commands@),
            forall|t: int| 0 <= t < n ==> marked@[t] == marks.contains(t),
            commands_model(out@) == cleaned_prefix(cmds, marks, k as nat),
        decreases n - k,
    {
        let ghost before = commands_model(out@);
        assert(cmds[k as int] == commands@[k as int]@);
        if marked[k] {
            match &commands[k] {
                Command::Start(s) | Command::End(s) => {
                    if let Some(c) = s.to_char() {
                        push_cmd(&mut out, Command::AddText(char_string(c)));
                        assert(commands_model(out@) =~= before + resolved(cmds[k as int]));
                    } else {
                        assert(before + resolved(cmds[k as int]) =~= before);
                    }
                },
                _ => {
                    push_cmd(&mut out, copy_command(&commands[k]));
                    assert(commands_model(out@) =~= before + resolved(cmds[k as int]));
                },
            }
        } else {
            push_cmd(&mut out, copy_command(&commands[k]));
        }
        k += 1;
    }
    *commands = out;
}

/// Resolves the markup, left to right with a stack of open markers: an
/// opener is pushed; a closer pops down to the nearest opener of its kind,
/// that pair being kept and the openers popped on the way unmatched (with no
/// such opener the closer itself is unmatched); a line break makes every open
/// marker unmatched and empties the stack; openers still open at the end are
/// unmatched. Each unmatched marker is replaced in place by its character as
/// plain text, an emoji marker by nothing.
pub fn clean_up_span_commands(commands: &mut Vec<Command>)
    ensures
        commands_model(final(commands)@) == cleaned_commands(commands_model(old(commands)@)),
{
    let to_remove = unmatched_markers(commands);
    proof {
        lemma_unmatched_in_list(commands_model(commands@));
        assert forall|a: int| 0 <= a < to_remove@.len() implies #[trigger] to_remove@[a] < commands@.len() by {
            assert(ints(to_remove@)[a] == to_remove@[a] as int);
        }
    }
    resolve_marked(commands, &to_remove);
}


/// What the merging of text commands carries along.
pub struct MergeState {
    /// Commands produced so far.
    pub out: Seq<CommandModel>,
    /// Text read since the last marker.
    pub buf: Seq<char>,
}

/// Merging one command: text and line breaks join the pending text, a marker
/// first emits the pending text.
pub open spec fn merge_step(st: MergeState, c: CommandModel) -> MergeState {
    match c {
        CommandModel::AddText(t) => MergeState { out: st.out, buf: st.buf + t },
        CommandModel::Newline => MergeState { out: st.out, buf: st.buf.push('\n') },
        _ => MergeState { out: flushed(st.buf, st.out).push(c), buf: Seq::empty() },
    }
}

/// The merging state after the first `k` commands.
pub open spec fn merge_scan(cmds: Seq<CommandModel>, k: nat) -> MergeState
    decreases k,
{
    if k == 0 {
        MergeState { out: Seq::empty(), buf: Seq::empty() }
    } else {
        let k1 = (k - 1) as nat;
        merge_step(merge_scan(cmds, k1), cmds[k1 as int])
    }
}

/// The commands with every run of text and line breaks joined into one text
/// command.
pub open spec fn merged(cmds: Seq<CommandModel>) -> Seq<CommandModel> {
    let st = merge_scan(cmds, cmds.len());
    flushed(st.buf, st.out)
}

/// Merges adjacent [`Command::AddText`] commands (and line breaks, as `"\n"`)
/// into a single one.
pub fn merge_commands(commands: &mut Vec<Command>)
    ensures
        commands_model(final(commands)@) == merged(commands_model(old(commands)@)),
{
    let mut input: Vec<Command> = Vec::new();
    std::mem::swap(&mut input, commands);
    let ghost cmds = commands_model(input@);
    let mut out: Vec<Command> = Vec::new();
    let mut buf = String::new();
    let n = input.len();
    let mut i: usize = 0;
    assert(commands_model(out@) =~= Seq::<CommandModel>::empty());
    while i < n
        invariant
            n == input@.len(),
            cmds == commands_model(input@),
            i <= n,
            (MergeState { out: commands_model(out@), buf: buf@ }) == merge_scan(cmds, i as nat),
        decreases n - i,
    {
        assert(cmds[i as int] == input@[i as int]@);
        match &input[i] {
            Command::AddText(t) => {
                buf.append(t.as_str());
            },
            Command::Newline => {
                push_char(&mut buf, '\n');
            },
            Command::Start(s) => {
                flush_buf(&mut buf, &mut out);
                push_cmd(&mut out, Command::Start(*s));
            },
            Command::End(s) => {
                flush_buf(&mut buf, &mut out);
                push_cmd(&mut out, Command::End(*s));
            },
        }
        i += 1;
    }
    flush_buf(&mut buf, &mut out);
    *commands = out;
}

/// A span of text with its formatting.
pub type Span = (String, TextStyle);

/// The model of a list of spans.
pub open spec fn spans_model(spans: Seq<Span>) -> Seq<(Seq<char>, TextStyle)> {
    spans.map_values(|p: Span| (p.0@, p.1))
}

/// Reading one command into spans: text becomes a span in the current
/// formatting, markers switch formatting on and off.
pub open spec fn span_step(st: (Seq<(Seq<char>, TextStyle)>, TextStyle), c: CommandModel) -> (
    Seq<(Seq<char>, TextStyle)>,
    TextStyle,
) {
    match c {
        CommandModel::AddText(t) => (st.0.push((t, st.1)), st.1),
        CommandModel::Start(s) => (st.0, style_with(st.1, s, true)),
        CommandModel::End(s) => (st.0, style_with(st.1, s, false)),
        CommandModel::Newline => (st.0.push((seq!['\n'], st.1)), st.1),
    }
}

/// The spans and formatting after the first `k` commands.
pub open spec fn span_scan(cmds: Seq<CommandModel>, k: nat) -> (Seq<(Seq<char>, TextStyle)>, TextStyle)
    decreases k,
{
    if k == 0 {
        (Seq::empty(), plain_style())
    } else {
        let k1 = (k - 1) as nat;
        span_step(span_scan(cmds, k1), cmds[k1 as int])
    }
}

/// The spans that the commands describe.
pub open spec fn styled_spans(cmds: Seq<CommandModel>) -> Seq<(Seq<char>, TextStyle)> {
    span_scan(cmds, cmds.len()).0
}

/// The styled spans of a message text: scanned, cleaned up, merged and read.
pub open spec fn markup_spans(input: Seq<char>) -> Seq<(Seq<char>, TextStyle)> {
    styled_spans(merged(cleaned_commands(span_commands(trimmed(input)))))
}

/// Reads commands into spans.
fn commands_to_spans(commands: Vec<Command>) -> (spans: Vec<Span>)
    ensures
        spans_model(spans@) == styled_spans(commands_model(commands@)),
{
    let ghost cmds = commands_model(commands@);
    let mut spans: Vec<Span> = Vec::new();
    let mut style = TextStyle::default();
    let n = commands.len();
    let mut i: usize = 0;
    assert(spans_model(spans@) =~= Seq::<(Seq<char>, TextStyle)>::empty());
    while i < n
        invariant
            n == commands@.len(),
            cmds == commands_model(commands@),
            i <= n,
            (spans_model(spans@), style) == span_scan(cmds, i as nat),
        decreases n - i,
    {
        assert(cmds[i as int] == commands@[i as int]@);
        let ghost before = spans@;
        match &commands[i] {
            Command::AddText(s) => {
                spans.push((s.clone(), style));
                assert(spans_model(spans@) =~= spans_model(before).push((s@, style)));
            },
            Command::Start(t) => style.apply(*t, true),
            Command::End(t) => style.apply(*t, false),
            Command::Newline => {
                spans.push((char_string('\n'), style));
                assert(spans_model(spans@) =~= spans_model(before).push((seq!['\n'], style)));
            },
        }
        i += 1;
    }
    spans
}

/// The styled spans of a message text.
pub fn generate_spans(input: &str) -> (spans: Vec<Span>)
    ensures
        spans_model(spans@) == markup_spans(input@),
{
    let mut commands = generate_span_commands(input);
    clean_up_span_commands(&mut commands);
    merge_commands(&mut commands);
    commands_to_spans(commands)
}


/// Which of the application's fonts a span is drawn with.
#[derive(Clone, Copy, Debug, PartialEq, Eq, Structural)]
pub enum FontChoice {
    Emoji,
    Mono,
    Default,
}

/// The font for a formatting: emoji first, then monospace, else the default.
pub open spec fn font_for(style: TextStyle) -> FontChoice {
    if style.emoji {
        FontChoice::Emoji
    } else if style.monospace {
        FontChoice::Mono
    } else {
        FontChoice::Default
    }
}

impl TextStyle {
    /// The font this formatting is drawn with.
    pub fn get_font(self) -> (r: FontChoice)
        ensures
            r == font_for(self),
    {
        if self.emoji {
            FontChoice::Emoji
        } else if self.monospace {
            FontChoice::Mono
        } else {
            FontChoice::Default
        }
    }
}

/// The fonts the application registers, in order: the default text font,
/// the monospace font, the font of masked password characters and the icon
/// font.
pub fn load_fonts(
    default: &'static [u8],
    mono: &'static [u8],
    asterisks: &'static [u8],
    icons: &'static [u8],
) -> (r: Vec<&'static [u8]>)
    ensures
        r@ == seq![default, mono, asterisks, icons],
{
    let mut fonts: Vec<&'static [u8]> = Vec::new();
    fonts.push(default);
    fonts.push(mono);
    fonts.push(asterisks);
    fonts.push(icons);
    assert(fonts@ =~= seq![default, mono, asterisks, icons]);
    fonts
}


/// A span as drawn: its text, font and font variations.
#[derive(Clone, Debug)]
pub struct RichSpan {
    pub text: String,
    pub font: FontChoice,
    pub bold: bool,
    pub italic: bool,
    pub strikethrough: bool,
}

/// How a span with formatting `style` is drawn: emoji are never bold,
/// italic or struck through.
pub open spec fn drawn_as(r: RichSpan, text: Seq<char>, style: TextStyle) -> bool {
    &&& r.text@ == text
    &&& r.font == font_for(style)
    &&& r.bold == (style.bold && !style.emoji)
    &&& r.italic == (style.italic && !style.emoji)
    &&& r.strikethrough == (style.strikethrough && !style.emoji)
}

/// The drawn form of styled spans.
pub fn rich_spans(spans: Vec<Span>) -> (r: Vec<RichSpan>)
    ensures
        r@.len() == spans@.len(),
        forall|i: int| 0 <= i < r@.len() ==> drawn_as(#[trigger] r@[i], spans@[i].0@, spans@[i].1),
{
    let mut out: Vec<RichSpan> = Vec::new();
    let n = spans.len();
    let mut i: usize = 0;
    while i < n
        invariant
            n == spans@.len(),
            i <= n,
            out@.len() == i,
            forall|j: int| 0 <= j < i ==> drawn_as(#[trigger] out@[j], spans@[j].0@, spans@[j].1),
        decreases n - i,
    {
        let style = spans[i].1;
        let font = style.get_font();
        out.push(
            RichSpan {
                text: spans[i].0.clone(),
                font,
                bold: style.bold && !style.emoji,
                italic: style.italic && !style.emoji,
                strikethrough: style.strikethrough && !style.emoji,
            },
        );
        i += 1;
    }
    out
}

/// The drawn spans of a message text.
pub fn rich_text(input: &str) -> (r: Vec<RichSpan>)
    ensures
        r@.len() == markup_spans(input@).len(),
        forall|i: int|
            0 <= i < r@.len() ==> drawn_as(#[trigger] r@[i], markup_spans(input@)[i].0, markup_spans(input@)[i].1),
{
    let spans = generate_spans(input);
    let r = rich_spans(spans);
    assert forall|i: int| 0 <= i < r@.len() implies drawn_as(
        #[trigger] r@[i],
        markup_spans(input@)[i].0,
        markup_spans(input@)[i].1,
    ) by {
        assert(spans_model(spans@)[i] == (spans@[i].0@, spans@[i].1));
    }
    r
}

/// The plain text of drawn spans, joined.
pub open spec fn spans_text(spans: Seq<RichSpan>) -> Seq<char>
    decreases spans.len(),
{
    if spans.len() == 0 {
        Seq::empty()
    } else {
        spans_text(spans.drop_last()) + spans.last().text@
    }
}

/// The plain text of drawn spans, as quoted in a reply.
pub fn plain_text(spans: &Vec<RichSpan>) -> (r: String)
    ensures
        r@ == spans_text(spans@),
{
    let mut out = String::new();
    let mut i: usize = 0;
    while i < spans.len()
        invariant
            i <= spans@.len(),
            out@ == spans_text(spans@.take(i as int)),
        decreases spans@.len() - i,
    {
        assert(spans@.take(i + 1).drop_last() =~= spans@.take(i as int));
        out.append(spans[i].text.as_str());
        i += 1;
    }
    assert(spans@.take(spans@.len() as int) =~= spans@);
    out
}

} // verus!
