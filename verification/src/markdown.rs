//! The part of Markdown that answers are shown with: blocks, and styles within a
//! line of text.
use crate::text;
use vstd::prelude::*;
use vstd::slice::slice_subrange;

verus! {

#[derive(Clone, Copy, Debug, PartialEq, Eq, Structural)]
pub enum InlineKind {
    Text,
    Code,
    Link,
}

impl Default for InlineKind {
    fn default() -> (kind: InlineKind)
        ensures
            kind == InlineKind::Text,
    {
        InlineKind::Text
    }
}

#[derive(Clone, Copy, Debug, PartialEq, Eq, Structural)]
pub struct InlineStyle {
    pub strong: bool,
    pub emphasis: bool,
    pub kind: InlineKind,
}

impl Default for InlineStyle {
    fn default() -> (style: InlineStyle)
        ensures
            style == (InlineStyle { strong: false, emphasis: false, kind: InlineKind::Text }),
    {
        InlineStyle { strong: false, emphasis: false, kind: InlineKind::Text }
    }
}

#[derive(Debug, PartialEq, Eq)]
pub struct InlineSpan {
    pub text: String,
    pub style: InlineStyle,
}

/// A piece of text in one style.
#[verifier::ext_equal]
pub struct SpanShown {
    pub text: Seq<char>,
    pub style: InlineStyle,
}

impl View for InlineSpan {
    type V = SpanShown;

    open spec fn view(&self) -> SpanShown {
        SpanShown { text: self.text@, style: self.style }
    }
}

pub open spec fn spans_shown(spans: Seq<InlineSpan>) -> Seq<SpanShown> {
    spans.map_values(|span: InlineSpan| span@)
}

/// Appends text; it joins the last span where the style is the same.
pub open spec fn with_text(spans: Seq<SpanShown>, added: Seq<char>, style: InlineStyle) -> Seq<
    SpanShown,
> {
    if added.len() == 0 {
        spans
    } else if spans.len() > 0 && spans.last().style == style {
        spans.update(spans.len() - 1, SpanShown { text: spans.last().text + added, style })
    } else {
        spans.push(SpanShown { text: added, style })
    }
}

/// How many backslashes stand directly before `at`.
pub open spec fn backslashes_before(s: Seq<char>, at: int) -> nat
    decreases at,
{
    if at <= 0 || at > s.len() || s[at - 1] != '\\' {
        0
    } else {
        backslashes_before(s, at - 1) + 1
    }
}

/// Where a delimiter stands at or behind `from` without a backslash of its own. A
/// delimiter that is escaped is passed over whole.
pub open spec fn unescaped(s: Seq<char>, delimiter: Seq<char>, from: int) -> Option<int>
    decreases s.len() - from,
{
    if delimiter.len() == 0 || from + delimiter.len() > s.len() {
        None
    } else if !text::occurs_at(s, delimiter, from) {
        unescaped(s, delimiter, from + 1)
    } else if backslashes_before(s, from) % 2 == 0 {
        Some(from)
    } else {
        unescaped(s, delimiter, from + delimiter.len())
    }
}

/// How often a character is repeated from `at` on.
pub open spec fn run_length(s: Seq<char>, at: int, c: char) -> nat
    decreases s.len() - at,
{
    if at < 0 || at >= s.len() || s[at] != c {
        0
    } else {
        run_length(s, at + 1, c) + 1
    }
}

/// A character that a backslash takes literally.
pub open spec fn escapable(c: char) -> bool {
    c == '\\' || c == '`' || c == '*' || c == '_' || c == '[' || c == ']'
}

pub open spec fn repeated(c: char, count: nat) -> Seq<char> {
    Seq::new(count, |i: int| c)
}

/// Whether delimiters at `opening` and `closing` can set off what stands between
/// them: it has no outer blanks, and an underscore does not stand inside a word.
pub open spec fn delimiters_are_valid(
    s: Seq<char>,
    opening: int,
    closing: int,
    marker: char,
    width: int,
) -> bool {
    &&& !text::is_blank(s[opening + width])
    &&& !text::is_blank(s[closing - 1])
    &&& marker == '*' || ((opening == 0 || !text::alphanumeric(s[opening - 1])) && (closing + width
        == s.len() || !text::alphanumeric(s[closing + width])))
}

/// Where a delimiter of `width` markers that opens at `at` closes.
pub open spec fn delimited(s: Seq<char>, at: int, marker: char, width: nat) -> Option<int> {
    match unescaped(s, repeated(marker, width), at + width) {
        Some(end) => if end > at + width && delimiters_are_valid(s, at, end, marker, width as int) {
            Some(end)
        } else {
            None
        },
        None => None,
    }
}

/// What starts at a character.
pub enum InlineToken {
    /// A character behind a backslash.
    Escaped,
    /// Code between runs of backticks.
    Code { ticks: nat, end: int },
    Strong { end: int },
    Link { label_end: int, target_end: int },
    Emphasis { end: int },
    Plain,
}

/// What starts with a bracket at `at`.
pub open spec fn link_at(s: Seq<char>, at: int) -> Option<(int, int)> {
    match unescaped(s, seq![']', '('], at + 1) {
        Some(label_end) => match unescaped(s, seq![')'], label_end + 2) {
            Some(target_end) => if label_end > at + 1 && target_end > label_end + 2 {
                Some((label_end, target_end))
            } else {
                None
            },
            None => None,
        },
        None => None,
    }
}

/// What starts at `at`.
pub open spec fn token_at(s: Seq<char>, at: int) -> InlineToken {
    let c = s[at];
    let ticks = run_length(s, at, '`');
    let marked = c == '*' || c == '_';
    if c == '\\' && at + 1 < s.len() && escapable(s[at + 1]) {
        InlineToken::Escaped
    } else if c == '`' && unescaped(s, repeated('`', ticks), at + ticks) is Some {
        InlineToken::Code { ticks, end: unescaped(s, repeated('`', ticks), at + ticks)->0 }
    } else if marked && at + 1 < s.len() && s[at + 1] == c && delimited(s, at, c, 2) is Some {
        InlineToken::Strong { end: delimited(s, at, c, 2)->0 }
    } else if c == '[' && link_at(s, at) is Some {
        InlineToken::Link {
            label_end: (link_at(s, at)->0).0,
            target_end: (link_at(s, at)->0).1,
        }
    } else if marked && delimited(s, at, c, 1) is Some {
        InlineToken::Emphasis { end: delimited(s, at, c, 1)->0 }
    } else {
        InlineToken::Plain
    }
}

/// A text whose line breaks are blanks.
pub open spec fn on_one_line(s: Seq<char>) -> Seq<char> {
    Seq::new(
        s.len(),
        |i: int|
            if s[i] == '\n' {
                ' '
            } else {
                s[i]
            },
    )
}

/// Code without one blank on either side, where both are there and the code is not
/// blank altogether.
pub open spec fn code_text(s: Seq<char>) -> Seq<char> {
    let line = on_one_line(s);
    if line.len() > 0 && line[0] == ' ' && line.last() == ' ' && !text::all_blank(line) {
        line.subrange(1, line.len() - 1)
    } else {
        line
    }
}

/// The spans of a text from a character on, behind the spans before it.
pub open spec fn styled(s: Seq<char>, at: int, style: InlineStyle, spans: Seq<SpanShown>) -> Seq<
    SpanShown,
>
    decreases s.len(), s.len() - at,
{
    if at < 0 || at >= s.len() {
        spans
    } else {
        proof {
            lemma_token_fits(s, at);
        }
        match token_at(s, at) {
            InlineToken::Escaped => styled(
                s,
                at + 2,
                style,
                with_text(spans, seq![s[at + 1]], style),
            ),
            InlineToken::Code { ticks, end } => styled(
                s,
                end + ticks,
                style,
                with_text(
                    spans,
                    code_text(s.subrange(at + ticks, end)),
                    InlineStyle { kind: InlineKind::Code, ..style },
                ),
            ),
            InlineToken::Strong { end } => styled(
                s,
                end + 2,
                style,
                styled(
                    s.subrange(at + 2, end),
                    0,
                    InlineStyle { strong: true, ..style },
                    spans,
                ),
            ),
            InlineToken::Link { label_end, target_end } => styled(
                s,
                target_end + 1,
                style,
                styled(
                    s.subrange(at + 1, label_end),
                    0,
                    InlineStyle { kind: InlineKind::Link, ..style },
                    spans,
                ),
            ),
            InlineToken::Emphasis { end } => styled(
                s,
                end + 1,
                style,
                styled(
                    s.subrange(at + 1, end),
                    0,
                    InlineStyle { emphasis: true, ..style },
                    spans,
                ),
            ),
            InlineToken::Plain => styled(s, at + 1, style, with_text(spans, seq![s[at]], style)),
        }
    }
}

pub proof fn lemma_unescaped_fits(s: Seq<char>, delimiter: Seq<char>, from: int)
    ensures
        unescaped(s, delimiter, from) matches Some(at) ==> from <= at && at + delimiter.len()
            <= s.len() && delimiter.len() > 0,
    decreases s.len() - from,
{
    if delimiter.len() == 0 || from + delimiter.len() > s.len() {
    } else if !text::occurs_at(s, delimiter, from) {
        lemma_unescaped_fits(s, delimiter, from + 1);
    } else if backslashes_before(s, from) % 2 != 0 {
        lemma_unescaped_fits(s, delimiter, from + delimiter.len());
    }
}

/// What starts at a character lies inside the text and reaches beyond it.
pub proof fn lemma_token_fits(s: Seq<char>, at: int)
    requires
        0 <= at < s.len(),
    ensures
        match token_at(s, at) {
            InlineToken::Escaped => at + 2 <= s.len(),
            InlineToken::Code { ticks, end } => ticks > 0 && at + ticks <= end && end + ticks
                <= s.len(),
            InlineToken::Strong { end } => at + 2 < end && end + 2 <= s.len(),
            InlineToken::Link { label_end, target_end } => at + 1 < label_end && label_end + 2
                < target_end && target_end + 1 <= s.len(),
            InlineToken::Emphasis { end } => at + 1 < end && end + 1 <= s.len(),
            InlineToken::Plain => true,
        },
{
    let ticks = run_length(s, at, '`');
    lemma_unescaped_fits(s, repeated('`', ticks), at + ticks);
    lemma_unescaped_fits(s, repeated(s[at], 2), at + 2);
    lemma_unescaped_fits(s, repeated(s[at], 1), at + 1);
    lemma_unescaped_fits(s, seq![']', '('], at + 1);
    match unescaped(s, seq![']', '('], at + 1) {
        Some(label_end) => {
            lemma_unescaped_fits(s, seq![')'], label_end + 2);
        },
        None => {},
    }
}

/// Tests whether an odd number of backslashes stands before `at`.
fn is_escaped(chars: &[char], at: usize) -> (escaped: bool)
    requires
        at <= chars@.len(),
    ensures
        escaped == (backslashes_before(chars@, at as int) % 2 != 0),
{
    let mut index: usize = at;
    let mut escaped = false;
    while index > 0 && chars[index - 1] == '\\'
        invariant
            index <= at <= chars@.len(),
            (backslashes_before(chars@, at as int) - backslashes_before(chars@, index as int)) % 2
                == (if escaped {
                1int
            } else {
                0int
            }),
        decreases index,
    {
        index = index - 1;
        escaped = !escaped;
    }
    escaped
}

/// Finds a delimiter that no backslash escapes.
fn find_unescaped(chars: &[char], start: usize, delimiter: &[char]) -> (found: Option<usize>)
    requires
        start <= chars@.len(),
    ensures
        match found {
            Some(at) => unescaped(chars@, delimiter@, start as int) == Some(at as int) && start
                <= at && at + delimiter@.len() <= chars@.len(),
            None => unescaped(chars@, delimiter@, start as int) is None,
        },
{
    if delimiter.len() == 0 {
        return None;
    }
    let mut from: usize = start;
    while delimiter.len() <= chars.len() && from <= chars.len() - delimiter.len()
        invariant
            start <= from <= chars@.len(),
            delimiter@.len() > 0,
            chars@.len() == chars.len(),
            delimiter@.len() == delimiter.len(),
            unescaped(chars@, delimiter@, start as int) == unescaped(
                chars@,
                delimiter@,
                from as int,
            ),
        decreases chars@.len() - from,
    {
        if !text::stands_at(chars, delimiter, from) {
            from = from + 1;
        } else if is_escaped(chars, from) {
            from = from + delimiter.len();
        } else {
            return Some(from);
        }
    }
    None
}

/// Counts how often a character is repeated.
fn count_run(chars: &[char], at: usize, wanted: char) -> (count: usize)
    requires
        at <= chars@.len(),
    ensures
        count == run_length(chars@, at as int, wanted),
        at + count <= chars@.len(),
{
    let mut count: usize = 0;
    while count < chars.len() - at && chars[at + count] == wanted
        invariant
            at + count <= chars@.len(),
            chars@.len() == chars.len(),
            run_length(chars@, at as int, wanted) == count + run_length(
                chars@,
                at + count,
                wanted,
            ),
        decreases chars@.len() - at - count,
    {
        count = count + 1;
    }
    count
}

/// Tests whether delimiters can set off what stands between them.
fn emphasis_delimiters_are_valid(
    chars: &[char],
    opening: usize,
    closing: usize,
    marker: char,
    width: usize,
) -> (valid: bool)
    requires
        opening + width < closing,
        closing + width <= chars.len(),
    ensures
        valid == delimiters_are_valid(
            chars@,
            opening as int,
            closing as int,
            marker,
            width as int,
        ),
{
    if text::is_blank_char(chars[opening + width]) || text::is_blank_char(chars[closing - 1]) {
        return false;
    }
    if marker == '*' {
        return true;
    }
    (opening == 0 || !text::is_alphanumeric(chars[opening - 1])) && (closing + width
        == chars.len() || !text::is_alphanumeric(chars[closing + width]))
}

/// Finds where a delimiter of one or two markers closes.
fn find_delimited(chars: &[char], at: usize, marker: char, width: usize) -> (found: Option<usize>)
    requires
        at + width <= chars.len(),
        1 <= width <= 2,
    ensures
        match found {
            Some(end) => delimited(chars@, at as int, marker, width as nat) == Some(end as int)
                && at + width < end && end + width <= chars@.len(),
            None => delimited(chars@, at as int, marker, width as nat) is None,
        },
{
    let one: [char; 1] = [marker];
    let two: [char; 2] = [marker, marker];
    let delimiter: &[char] = if width == 1 {
        one.as_slice()
    } else {
        two.as_slice()
    };
    assert(delimiter@ =~= repeated(marker, width as nat));
    match find_unescaped(chars, at + width, delimiter) {
        Some(end) => {
            if end > at + width && emphasis_delimiters_are_valid(chars, at, end, marker, width) {
                Some(end)
            } else {
                None
            }
        },
        None => None,
    }
}

/// Finds where a link that opens with a bracket at `at` ends.
fn find_link(chars: &[char], at: usize) -> (found: Option<(usize, usize)>)
    requires
        at < chars.len(),
    ensures
        match found {
            Some(link) => link_at(chars@, at as int) == Some((link.0 as int, link.1 as int)) && at
                + 1 < link.0 && link.0 + 2 < link.1 && link.1 < chars@.len(),
            None => link_at(chars@, at as int) is None,
        },
{
    let middle: [char; 2] = [']', '('];
    let last: [char; 1] = [')'];
    assert(middle@ =~= seq![']', '(']);
    assert(last@ =~= seq![')']);
    match find_unescaped(chars, at + 1, middle.as_slice()) {
        Some(label_end) => match find_unescaped(chars, label_end + 2, last.as_slice()) {
            Some(target_end) => {
                if label_end > at + 1 && target_end > label_end + 2 {
                    Some((label_end, target_end))
                } else {
                    None
                }
            },
            None => None,
        },
        None => None,
    }
}

/// Finds where code that opens with backticks at `at` ends.
fn find_code(chars: &[char], at: usize) -> (found: Option<(usize, usize)>)
    requires
        at < chars.len(),
    ensures
        ({
            let ticks = run_length(chars@, at as int, '`');
            match found {
                Some(code) => code.0 == ticks && unescaped(
                    chars@,
                    repeated('`', ticks),
                    at + ticks,
                ) == Some(code.1 as int) && at + ticks <= code.1 && code.1 + ticks <= chars@.len(),
                None => unescaped(chars@, repeated('`', ticks), at + ticks) is None,
            }
        }),
{
    let ticks = count_run(chars, at, '`');
    let delimiter = slice_subrange(chars, at, at + ticks);
    proof {
        lemma_run_is_repeated(chars@, at as int, '`');
        assert(delimiter@ =~= repeated('`', ticks as nat));
    }
    match find_unescaped(chars, at + ticks, delimiter) {
        Some(end) => Some((ticks, end)),
        None => None,
    }
}

proof fn lemma_run_is_repeated(s: Seq<char>, at: int, c: char)
    requires
        0 <= at <= s.len(),
    ensures
        at + run_length(s, at, c) <= s.len(),
        forall|i: int| at <= i < at + run_length(s, at, c) ==> s[i] == c,
    decreases s.len() - at,
{
    if at < s.len() && s[at] == c {
        lemma_run_is_repeated(s, at + 1, c);
    }
}

/// Appends text to the spans.
fn push_inline_span(spans: &mut Vec<InlineSpan>, added: &[char], style: InlineStyle)
    ensures
        spans_shown(final(spans)@) == with_text(spans_shown(old(spans)@), added@, style),
{
    if added.len() == 0 {
        return;
    }
    let count = spans.len();
    if count > 0 && spans[count - 1].style == style {
        text::push_chars(&mut spans[count - 1].text, added);
        assert(spans_shown(spans@) =~= with_text(spans_shown(old(spans)@), added@, style));
    } else {
        spans.push(InlineSpan { text: text::string_of(added), style });
        assert(spans_shown(spans@) =~= with_text(spans_shown(old(spans)@), added@, style));
    }
}

/// Code as it is shown.
fn normalize_code_span(code: &[char]) -> (shown: Vec<char>)
    ensures
        shown@ == code_text(code@),
{
    let mut line: Vec<char> = Vec::new();
    let mut blank = true;
    let mut index: usize = 0;
    while index < code.len()
        invariant
            index <= code@.len(),
            line@ == on_one_line(code@).take(index as int),
            blank == text::all_blank(line@),
        decreases code@.len() - index,
    {
        let character = if code[index] == '\n' {
            ' '
        } else {
            code[index]
        };
        let ghost before = line@;
        line.push(character);
        proof {
            assert(line@ =~= on_one_line(code@).take(index + 1));
            assert(line@.last() == character);
            if !text::all_blank(before) {
                let i = choose|i: int| 0 <= i < before.len() && !text::is_blank(before[i]);
                assert(line@[i] == before[i]);
            }
            if text::all_blank(before) && text::is_blank(character) {
                assert forall|i: int| 0 <= i < line@.len() implies text::is_blank(
                    #[trigger] line@[i],
                ) by {
                    if i < before.len() {
                        assert(line@[i] == before[i]);
                    }
                }
            }
        }
        if !text::is_blank_char(character) {
            blank = false;
        }
        index = index + 1;
    }
    assert(on_one_line(code@).take(code@.len() as int) =~= on_one_line(code@));
    let count = line.len();
    if count > 0 && line[0] == ' ' && line[count - 1] == ' ' && !blank {
        proof {
            if count == 1 {
                assert(text::all_blank(line@));
            }
        }
        let inner = slice_subrange(line.as_slice(), 1, count - 1);
        let mut shown: Vec<char> = Vec::new();
        shown.extend_from_slice(inner);
        assert(shown@ =~= code_text(code@));
        shown
    } else {
        line
    }
}

/// Appends the spans of characters.
fn append_inline(chars: &[char], style: InlineStyle, spans: &mut Vec<InlineSpan>)
    ensures
        spans_shown(final(spans)@) == styled(chars@, 0, style, spans_shown(old(spans)@)),
    decreases chars@.len(),
{
    let ghost given = spans_shown(spans@);
    let mut index: usize = 0;
    while index < chars.len()
        invariant
            index <= chars@.len(),
            chars@.len() == chars.len(),
            styled(chars@, 0, style, given) == styled(
                chars@,
                index as int,
                style,
                spans_shown(spans@),
            ),
        decreases chars@.len() - index,
    {
        proof {
            lemma_token_fits(chars@, index as int);
        }
        let character = chars[index];
        if character == '\\' && index + 1 < chars.len() && is_escapable(chars[index + 1]) {
            let literal: [char; 1] = [chars[index + 1]];
            assert(literal@ =~= seq![chars@[index + 1]]);
            push_inline_span(spans, literal.as_slice(), style);
            index = index + 2;
            continue;
        }
        if character == '`' {
            match find_code(chars, index) {
                Some((ticks, end)) => {
                    let code = normalize_code_span(slice_subrange(chars, index + ticks, end));
                    push_inline_span(
                        spans,
                        code.as_slice(),
                        InlineStyle {
                            strong: style.strong,
                            emphasis: style.emphasis,
                            kind: InlineKind::Code,
                        },
                    );
                    index = end + ticks;
                    continue;
                },
                None => {},
            }
        }
        let marked = character == '*' || character == '_';
        if marked && index + 1 < chars.len() && chars[index + 1] == character {
            match find_delimited(chars, index, character, 2) {
                Some(end) => {
                    append_inline(
                        slice_subrange(chars, index + 2, end),
                        InlineStyle { strong: true, emphasis: style.emphasis, kind: style.kind },
                        spans,
                    );
                    index = end + 2;
                    continue;
                },
                None => {},
            }
        }
        if character == '[' {
            match find_link(chars, index) {
                Some((label_end, target_end)) => {
                    append_inline(
                        slice_subrange(chars, index + 1, label_end),
                        InlineStyle {
                            strong: style.strong,
                            emphasis: style.emphasis,
                            kind: InlineKind::Link,
                        },
                        spans,
                    );
                    index = target_end + 1;
                    continue;
                },
                None => {},
            }
        }
        if marked {
            match find_delimited(chars, index, character, 1) {
                Some(end) => {
                    append_inline(
                        slice_subrange(chars, index + 1, end),
                        InlineStyle { strong: style.strong, emphasis: true, kind: style.kind },
                        spans,
                    );
                    index = end + 1;
                    continue;
                },
                None => {},
            }
        }
        let plain: [char; 1] = [character];
        assert(plain@ =~= seq![chars@[index as int]]);
        push_inline_span(spans, plain.as_slice(), style);
        index = index + 1;
    }
}

fn is_escapable(character: char) -> (found: bool)
    ensures
        found == escapable(character),
{
    character == '\\' || character == '`' || character == '*' || character == '_' || character
        == '[' || character == ']'
}

/// Appends the spans of a text. The spans that are there keep their style, their place
/// and their text, to the end of which only the last may get more; where no span was
/// empty and no two neighbours shared a style, that stays so; and text without markers
/// is appended as it is.
pub fn parse_inline_into(text: &str, style: InlineStyle, spans: &mut Vec<InlineSpan>)
    ensures
        spans_shown(final(spans)@) == styled(text@, 0, style, spans_shown(old(spans)@)),
        spans_kept(spans_shown(old(spans)@), spans_shown(final(spans)@)),
        spans_are_apart(spans_shown(old(spans)@)) ==> spans_are_apart(
            spans_shown(final(spans)@),
        ),
        (forall|i: int| 0 <= i < text@.len() ==> is_literal(#[trigger] text@[i])) ==> spans_shown(
            final(spans)@,
        ) == with_text(spans_shown(old(spans)@), text@, style),
{
    let chars = text::chars_of(text);
    let ghost given = spans_shown(spans@);
    append_inline(chars.as_slice(), style, spans);
    proof {
        law_earlier_spans_are_kept(text@, 0, style, given);
        if spans_are_apart(given) {
            law_spans_are_apart(text@, 0, style, given);
        }
        if forall|i: int| 0 <= i < text@.len() ==> is_literal(#[trigger] text@[i]) {
            law_plain_text_is_appended(text@, style, given);
        }
    }
}

/// The styled spans of a text.
pub fn parse_inline(text: &str, base_style: InlineStyle) -> (spans: Vec<InlineSpan>)
    ensures
        spans_shown(spans@) == styled(text@, 0, base_style, Seq::empty()),
{
    let mut spans: Vec<InlineSpan> = Vec::new();
    assert(spans_shown(spans@) =~= Seq::<SpanShown>::empty());
    parse_inline_into(text, base_style, &mut spans);
    spans
}

#[derive(Debug, PartialEq, Eq)]
pub enum MarkdownBlock {
    Heading { level: usize, text: String },
    Paragraph(String),
    UnorderedItem(String),
    OrderedItem { number: String, text: String },
    Quote(String),
    Code(String),
    Rule,
}

/// A block.
#[verifier::ext_equal]
pub enum BlockShown {
    Heading { level: nat, text: Seq<char> },
    Paragraph(Seq<char>),
    UnorderedItem(Seq<char>),
    OrderedItem { number: Seq<char>, text: Seq<char> },
    Quote(Seq<char>),
    Code(Seq<char>),
    Rule,
}

impl View for MarkdownBlock {
    type V = BlockShown;

    open spec fn view(&self) -> BlockShown {
        match *self {
            MarkdownBlock::Heading { level, text } => BlockShown::Heading {
                level: level as nat,
                text: text@,
            },
            MarkdownBlock::Paragraph(text) => BlockShown::Paragraph(text@),
            MarkdownBlock::UnorderedItem(text) => BlockShown::UnorderedItem(text@),
            MarkdownBlock::OrderedItem { number, text } => BlockShown::OrderedItem {
                number: number@,
                text: text@,
            },
            MarkdownBlock::Quote(text) => BlockShown::Quote(text@),
            MarkdownBlock::Code(text) => BlockShown::Code(text@),
            MarkdownBlock::Rule => BlockShown::Rule,
        }
    }
}

pub open spec fn blocks_shown(blocks: Seq<MarkdownBlock>) -> Seq<BlockShown> {
    blocks.map_values(|block: MarkdownBlock| block@)
}

/// What the lines read so far amount to.
#[verifier::ext_equal]
pub struct BlockState {
    pub blocks: Seq<BlockShown>,
    /// The lines of the paragraph that is open.
    pub paragraph: Seq<Seq<char>>,
    /// The lines of the code that is open.
    pub code: Seq<Seq<char>>,
    /// The character and the length of the fence that the open code began with.
    pub fence: Option<(char, nat)>,
}

/// A line without the carriage return at its end.
pub open spec fn line_text(raw: Seq<char>) -> Seq<char> {
    if raw.len() > 0 && raw.last() == '\r' {
        raw.drop_last()
    } else {
        raw
    }
}

/// The fence that a line opens.
pub open spec fn fence_of(line: Seq<char>) -> Option<(char, nat)> {
    let shown = text::trim_start(line);
    if shown.len() > 0 && (shown[0] == '`' || shown[0] == '~') && run_length(shown, 0, shown[0])
        >= 3 {
        Some((shown[0], run_length(shown, 0, shown[0])))
    } else {
        None
    }
}

/// Whether a line closes a fence: it is a fence that is at least as long, and nothing
/// else.
pub open spec fn closes(line: Seq<char>, fence: (char, nat)) -> bool {
    let shown = text::trim(line);
    let count = run_length(shown, 0, fence.0);
    count >= fence.1 && text::all_blank(shown.skip(count as int))
}

/// How many characters of a text are not blank.
pub open spec fn visible_count(s: Seq<char>) -> nat
    decreases s.len(),
{
    if s.len() == 0 {
        0
    } else if text::is_blank(s.last()) {
        visible_count(s.drop_last())
    } else {
        visible_count(s.drop_last()) + 1
    }
}

/// Whether all that is visible of a text is one character.
pub open spec fn only_shows(s: Seq<char>, c: char) -> bool {
    forall|i: int| 0 <= i < s.len() ==> text::is_blank(#[trigger] s[i]) || s[i] == c
}

/// Whether a line is a rule: three or more of one marker and nothing else.
pub open spec fn is_rule(s: Seq<char>) -> bool {
    visible_count(s) >= 3 && (only_shows(s, '-') || only_shows(s, '_') || only_shows(s, '*'))
}

/// White space within ASCII, except the vertical tab.
pub open spec fn is_ascii_blank(c: char) -> bool {
    c == ' ' || c == '\t' || c == '\n' || c as u32 == 0x0c || c == '\r'
}

/// How many digits a text starts with.
pub open spec fn leading_digits(s: Seq<char>) -> nat
    decreases s.len(),
{
    if s.len() == 0 || !text::is_ascii_digit(s[0]) {
        0
    } else {
        leading_digits(s.drop_first()) + 1
    }
}

/// The block that a line makes by itself, if it is not part of a paragraph.
pub open spec fn block_of(line: Seq<char>) -> Option<BlockShown> {
    let level = run_length(line, 0, '#');
    let digits = leading_digits(line);
    if is_rule(line) {
        Some(BlockShown::Rule)
    } else if 1 <= level <= 6 && level < line.len() && line[level as int] == ' ' {
        Some(BlockShown::Heading { level, text: text::trim(line.skip(level as int + 1)) })
    } else if line.len() >= 2 && (line[0] == '-' || line[0] == '+' || line[0] == '*')
        && is_ascii_blank(line[1]) {
        Some(BlockShown::UnorderedItem(text::trim_start(line.skip(2))))
    } else if 1 <= digits <= 9 && digits + 1 < line.len() && (line[digits as int] == '.'
        || line[digits as int] == ')') && is_ascii_blank(line[digits as int + 1]) {
        Some(
            BlockShown::OrderedItem {
                number: line.take(digits as int),
                text: text::trim_start(line.skip(digits as int + 2)),
            },
        )
    } else if text::starts_with(line, seq!['>', ' ']) {
        Some(BlockShown::Quote(line.skip(2)))
    } else {
        None
    }
}

/// The lines of a paragraph as one text: behind two blanks a line breaks, elsewhere
/// one blank joins it to the next.
pub open spec fn paragraph_text(lines: Seq<Seq<char>>) -> Seq<char>
    decreases lines.len(),
{
    if lines.len() == 0 {
        Seq::empty()
    } else {
        let before = paragraph_text(lines.drop_last());
        if before.len() == 0 {
            lines.last()
        } else if text::ends_with(before, seq![' ', ' ']) {
            text::trim_end(before).push('\n') + lines.last()
        } else {
            before.push(' ') + lines.last()
        }
    }
}

/// Lines with a line break between them.
pub open spec fn lines_joined(lines: Seq<Seq<char>>) -> Seq<char>
    decreases lines.len(),
{
    if lines.len() == 0 {
        Seq::empty()
    } else if lines.len() == 1 {
        lines[0]
    } else {
        lines_joined(lines.drop_last()).push('\n') + lines.last()
    }
}

impl BlockState {
    pub open spec fn start() -> BlockState {
        BlockState {
            blocks: Seq::empty(),
            paragraph: Seq::empty(),
            code: Seq::empty(),
            fence: None,
        }
    }

    /// The open paragraph ends.
    pub open spec fn flushed(self) -> BlockState {
        if self.paragraph.len() == 0 {
            self
        } else {
            BlockState {
                blocks: self.blocks.push(BlockShown::Paragraph(paragraph_text(self.paragraph))),
                paragraph: Seq::empty(),
                ..self
            }
        }
    }

    pub open spec fn with_block(self, block: BlockShown) -> BlockState {
        BlockState { blocks: self.blocks.push(block), ..self }
    }

    /// One more line.
    pub open spec fn after_line(self, line: Seq<char>) -> BlockState {
        let shown = text::trim(line);
        match self.fence {
            Some(fence) => if closes(line, fence) {
                BlockState {
                    blocks: self.blocks.push(BlockShown::Code(lines_joined(self.code))),
                    code: Seq::empty(),
                    fence: None,
                    ..self
                }
            } else {
                BlockState { code: self.code.push(line), ..self }
            },
            None => if fence_of(line) is Some {
                BlockState { fence: fence_of(line), ..self.flushed() }
            } else if shown.len() == 0 {
                self.flushed()
            } else {
                match block_of(shown) {
                    Some(block) => self.flushed().with_block(block),
                    None => BlockState { paragraph: self.paragraph.push(shown), ..self },
                }
            },
        }
    }

    /// Lines that follow, as they stand in the text.
    pub open spec fn after_lines(self, raw_lines: Seq<Seq<char>>) -> BlockState
        decreases raw_lines.len(),
    {
        if raw_lines.len() == 0 {
            self
        } else {
            self.after_lines(raw_lines.drop_last()).after_line(line_text(raw_lines.last()))
        }
    }

    /// The end of the text: code that is still open is shown as well.
    pub open spec fn ended(self) -> Seq<BlockShown> {
        let last = self.flushed();
        if self.fence is Some {
            last.blocks.push(BlockShown::Code(lines_joined(self.code)))
        } else {
            last.blocks
        }
    }
}

/// The blocks of a text.
pub open spec fn blocks_of(s: Seq<char>) -> Seq<BlockShown> {
    BlockState::start().after_lines(text::split_on(s, '\n')).ended()
}

/// Joins the lines of a paragraph.
fn join_paragraph(lines: &Vec<&[char]>) -> (joined: String)
    ensures
        joined@ == paragraph_text(text::slice_views(lines@)),
{
    let ghost views = text::slice_views(lines@);
    let mut joined: Vec<char> = Vec::new();
    let mut index: usize = 0;
    assert(views.take(0) =~= Seq::empty());
    while index < lines.len()
        invariant
            index <= lines@.len(),
            views == text::slice_views(lines@),
            joined@ == paragraph_text(views.take(index as int)),
        decreases lines@.len() - index,
    {
        assert(views.take(index + 1).drop_last() =~= views.take(index as int));
        let line = lines[index];
        if joined.len() > 0 {
            let pause: [char; 2] = [' ', ' '];
            assert(pause@ =~= seq![' ', ' ']);
            if text::chars_end_with(joined.as_slice(), pause.as_slice()) {
                let count = text::trim_end_chars(joined.as_slice()).len();
                proof {
                    lemma_trim_end_is_prefix(joined@);
                }
                joined.truncate(count);
                joined.push('\n');
            } else {
                joined.push(' ');
            }
        }
        joined.extend_from_slice(line);
        assert(joined@ =~= paragraph_text(views.take(index + 1)));
        index = index + 1;
    }
    assert(views.take(lines@.len() as int) =~= views);
    text::string_of(joined.as_slice())
}

proof fn lemma_trim_end_is_prefix(s: Seq<char>)
    ensures
        text::trim_end(s).len() <= s.len(),
        text::trim_end(s) == s.take(text::trim_end(s).len() as int),
    decreases s.len(),
{
    if s.len() > 0 && text::is_blank(s.last()) {
        lemma_trim_end_is_prefix(s.drop_last());
        let count = text::trim_end(s).len() as int;
        assert(s.drop_last().take(count) =~= s.take(count));
    } else {
        assert(s.take(s.len() as int) =~= s);
    }
}

/// Joins lines of code.
fn join_lines(lines: &Vec<&[char]>) -> (joined: String)
    ensures
        joined@ == lines_joined(text::slice_views(lines@)),
{
    let ghost views = text::slice_views(lines@);
    let mut joined = String::new();
    let mut index: usize = 0;
    assert(views.take(0) =~= Seq::empty());
    while index < lines.len()
        invariant
            index <= lines@.len(),
            views == text::slice_views(lines@),
            joined@ == lines_joined(views.take(index as int)),
        decreases lines@.len() - index,
    {
        assert(views.take(index + 1).drop_last() =~= views.take(index as int));
        if index > 0 {
            joined.push('\n');
        }
        text::push_chars(&mut joined, lines[index]);
        assert(joined@ =~= lines_joined(views.take(index + 1)));
        index = index + 1;
    }
    assert(views.take(lines@.len() as int) =~= views);
    joined
}

/// Finds the fence that a line opens.
fn opening_fence(line: &[char]) -> (fence: Option<(char, usize)>)
    ensures
        match fence {
            Some(fence) => fence_of(line@) == Some((fence.0, fence.1 as nat)),
            None => fence_of(line@) is None,
        },
{
    let shown = text::trim_start_chars(line);
    if shown.len() == 0 || !(shown[0] == '`' || shown[0] == '~') {
        return None;
    }
    let count = count_run(shown, 0, shown[0]);
    if count >= 3 {
        Some((shown[0], count))
    } else {
        None
    }
}

/// Tests whether a line closes a fence.
fn is_closing_fence(line: &[char], fence_char: char, minimum_len: usize) -> (closing: bool)
    ensures
        closing == closes(line@, (fence_char, minimum_len as nat)),
{
    let shown = text::trim_chars(line);
    let count = count_run(shown, 0, fence_char);
    if count < minimum_len {
        return false;
    }
    let mut index: usize = count;
    while index < shown.len()
        invariant
            count <= index <= shown@.len(),
            shown@ == text::trim(line@),
            count == run_length(shown@, 0, fence_char),
            forall|i: int| count <= i < index ==> text::is_blank(#[trigger] shown@[i]),
        decreases shown@.len() - index,
    {
        if !text::is_blank_char(shown[index]) {
            assert(shown@.skip(count as int)[index - count] == shown@[index as int]);
            return false;
        }
        index = index + 1;
    }
    assert forall|i: int| 0 <= i < shown@.skip(count as int).len() implies text::is_blank(
        #[trigger] shown@.skip(count as int)[i],
    ) by {
        assert(shown@.skip(count as int)[i] == shown@[count + i]);
    }
    true
}

/// Tests whether a line is a rule.
fn is_markdown_rule(line: &[char]) -> (rule: bool)
    ensures
        rule == is_rule(line@),
{
    let mut marker: Option<char> = None;
    let mut count: usize = 0;
    let mut index: usize = 0;
    while index < line.len()
        invariant
            index <= line@.len(),
            count <= index,
            count == visible_count(line@.take(index as int)),
            match marker {
                Some(c) => (c == '-' || c == '_' || c == '*') && only_shows(
                    line@.take(index as int),
                    c,
                ) && exists|i: int|
                    0 <= i < index && #[trigger] line@[i] == c && !text::is_blank(line@[i]),
                None => count == 0 && text::all_blank(line@.take(index as int)),
            },
        decreases line@.len() - index,
    {
        let character = line[index];
        let ghost before = line@.take(index as int);
        let ghost after = line@.take(index + 1);
        assert(after.drop_last() =~= before);
        assert(after.last() == character);
        if !text::is_blank_char(character) {
            let known = character == '-' || character == '_' || character == '*';
            let same = match marker {
                Some(c) => c == character,
                None => true,
            };
            if !known || !same {
                proof {
                    assert(line@[index as int] == character);
                    match marker {
                        Some(c) => {
                            let i = choose|i: int|
                                0 <= i < index && #[trigger] line@[i] == c && !text::is_blank(
                                    line@[i],
                                );
                            assert(line@[i] == c);
                        },
                        None => {},
                    }
                }
                return false;
            }
            marker = Some(character);
            count = count + 1;
            assert(line@[index as int] == character);
        }
        assert forall|i: int| 0 <= i < after.len() implies i < before.len() && (#[trigger] after[i])
            == before[i] || i == index && after[i] == character by {}
        index = index + 1;
    }
    assert(line@.take(line@.len() as int) =~= line@);
    count >= 3
}

fn is_ascii_blank_char(character: char) -> (blank: bool)
    ensures
        blank == is_ascii_blank(character),
{
    character == ' ' || character == '\t' || character == '\n' || character as u32 == 0x0c
        || character == '\r'
}

fn count_digits(line: &[char]) -> (count: usize)
    ensures
        count == leading_digits(line@),
        count <= line@.len(),
{
    let mut count: usize = 0;
    assert(line@.skip(0) =~= line@);
    while count < line.len() && text::is_ascii_digit_char(line[count])
        invariant
            count <= line@.len(),
            leading_digits(line@) == count + leading_digits(line@.skip(count as int)),
        decreases line@.len() - count,
    {
        assert(line@.skip(count as int).drop_first() =~= line@.skip(count + 1));
        count = count + 1;
    }
    count
}

/// Finds the block that a line makes by itself.
fn parse_line(line: &[char]) -> (block: Option<MarkdownBlock>)
    ensures
        match block {
            Some(block) => block_of(line@) == Some(block@),
            None => block_of(line@) is None,
        },
{
    if is_markdown_rule(line) {
        return Some(MarkdownBlock::Rule);
    }
    let count = line.len();
    let level = count_run(line, 0, '#');
    if 1 <= level && level <= 6 && level < count && line[level] == ' ' {
        let heading = text::trim_chars(slice_subrange(line, level + 1, count));
        assert(line@.subrange(level + 1, count as int) =~= line@.skip(level + 1));
        return Some(MarkdownBlock::Heading { level, text: text::string_of(heading) });
    }
    if count >= 2 && (line[0] == '-' || line[0] == '+' || line[0] == '*') && is_ascii_blank_char(
        line[1],
    ) {
        let item = text::trim_start_chars(slice_subrange(line, 2, count));
        assert(line@.subrange(2, count as int) =~= line@.skip(2));
        return Some(MarkdownBlock::UnorderedItem(text::string_of(item)));
    }
    let digits = count_digits(line);
    if 1 <= digits && digits <= 9 && digits + 1 < count && (line[digits] == '.' || line[digits]
        == ')') && is_ascii_blank_char(line[digits + 1]) {
        let number = slice_subrange(line, 0, digits);
        let item = text::trim_start_chars(slice_subrange(line, digits + 2, count));
        assert(line@.subrange(0, digits as int) =~= line@.take(digits as int));
        assert(line@.subrange(digits + 2, count as int) =~= line@.skip(digits + 2));
        return Some(
            MarkdownBlock::OrderedItem {
                number: text::string_of(number),
                text: text::string_of(item),
            },
        );
    }
    let mark: [char; 2] = ['>', ' '];
    assert(mark@ =~= seq!['>', ' ']);
    if text::chars_start_with(line, mark.as_slice()) {
        let quote = slice_subrange(line, 2, count);
        assert(line@.subrange(2, count as int) =~= line@.skip(2));
        return Some(MarkdownBlock::Quote(text::string_of(quote)));
    }
    None
}

/// Ends the open paragraph.
fn flush_markdown_paragraph(blocks: &mut Vec<MarkdownBlock>, lines: &mut Vec<&[char]>)
    ensures
        final(lines)@.len() == 0,
        blocks_shown(final(blocks)@) == (if old(lines)@.len() == 0 {
            blocks_shown(old(blocks)@)
        } else {
            blocks_shown(old(blocks)@).push(
                BlockShown::Paragraph(paragraph_text(text::slice_views(old(lines)@))),
            )
        }),
{
    if lines.len() == 0 {
        return;
    }
    let paragraph = join_paragraph(lines);
    blocks.push(MarkdownBlock::Paragraph(paragraph));
    lines.clear();
    assert(blocks_shown(blocks@) =~= blocks_shown(old(blocks)@).push(blocks@.last()@));
}

spec fn state_of(
    blocks: Seq<MarkdownBlock>,
    paragraph: Seq<&[char]>,
    code: Seq<&[char]>,
    fence: Option<(char, usize)>,
) -> BlockState {
    BlockState {
        blocks: blocks_shown(blocks),
        paragraph: text::slice_views(paragraph),
        code: text::slice_views(code),
        fence: match fence {
            Some((c, count)) => Some((c, count as nat)),
            None => None,
        },
    }
}

/// The blocks of a text.
pub fn parse_markdown_blocks(text: &str) -> (blocks: Vec<MarkdownBlock>)
    ensures
        blocks_shown(blocks@) == blocks_of(text@),
{
    let chars = text::chars_of(text);
    let raw_lines = text::split_chars(chars.as_slice(), '\n');
    let ghost raw = text::slice_views(raw_lines@);
    let mut blocks: Vec<MarkdownBlock> = Vec::new();
    let mut paragraph: Vec<&[char]> = Vec::new();
    let mut code: Vec<&[char]> = Vec::new();
    let mut fence: Option<(char, usize)> = None;
    let mut index: usize = 0;
    assert(raw.take(0) =~= Seq::empty());
    assert(state_of(blocks@, paragraph@, code@, fence) =~~= BlockState::start());
    while index < raw_lines.len()
        invariant
            index <= raw_lines@.len(),
            raw == text::slice_views(raw_lines@),
            state_of(blocks@, paragraph@, code@, fence) == BlockState::start().after_lines(
                raw.take(index as int),
            ),
            fence is None ==> code@.len() == 0,
        decreases raw_lines@.len() - index,
    {
        assert(raw.take(index + 1).drop_last() =~= raw.take(index as int));
        let raw_line = raw_lines[index];
        let length = raw_line.len();
        let line = if length > 0 && raw_line[length - 1] == '\r' {
            slice_subrange(raw_line, 0, length - 1)
        } else {
            raw_line
        };
        assert(line@ =~= line_text(raw[index as int]));
        let ghost before = state_of(blocks@, paragraph@, code@, fence);
        match fence {
            Some((fence_char, fence_len)) => {
                if is_closing_fence(line, fence_char, fence_len) {
                    let joined = join_lines(&code);
                    blocks.push(MarkdownBlock::Code(joined));
                    code.clear();
                    fence = None;
                } else {
                    code.push(line);
                }
            },
            None => match opening_fence(line) {
                Some(opening) => {
                    flush_markdown_paragraph(&mut blocks, &mut paragraph);
                    fence = Some(opening);
                },
                None => {
                    let shown = text::trim_chars(line);
                    if shown.len() == 0 {
                        flush_markdown_paragraph(&mut blocks, &mut paragraph);
                    } else {
                        match parse_line(shown) {
                            Some(block) => {
                                flush_markdown_paragraph(&mut blocks, &mut paragraph);
                                blocks.push(block);
                            },
                            None => {
                                paragraph.push(shown);
                            },
                        }
                    }
                },
            },
        }
        assert(state_of(blocks@, paragraph@, code@, fence) =~~= before.after_line(line@));
        index = index + 1;
    }
    assert(raw.take(raw_lines@.len() as int) =~= raw);
    let ghost last = state_of(blocks@, paragraph@, code@, fence);
    flush_markdown_paragraph(&mut blocks, &mut paragraph);
    if fence.is_some() {
        let joined = join_lines(&code);
        blocks.push(MarkdownBlock::Code(joined));
    }
    assert(blocks_shown(blocks@) =~~= last.ended());
    blocks
}

/// Whether a character means nothing but itself.
pub open spec fn is_literal(c: char) -> bool {
    c != '\\' && c != '`' && c != '*' && c != '_' && c != '['
}

proof fn lemma_plain_text_is_kept(
    s: Seq<char>,
    at: int,
    style: InlineStyle,
    spans: Seq<SpanShown>,
)
    requires
        0 <= at <= s.len(),
        forall|i: int| 0 <= i < s.len() ==> is_literal(#[trigger] s[i]),
    ensures
        styled(s, at, style, spans) == with_text(spans, s.skip(at), style),
    decreases s.len() - at,
{
    if at < s.len() {
        let next = with_text(spans, seq![s[at]], style);
        assert(is_literal(s[at]));
        lemma_plain_text_is_kept(s, at + 1, style, next);
        assert(s.skip(at) =~= seq![s[at]] + s.skip(at + 1));
        assert(with_text(next, s.skip(at + 1), style) =~~= with_text(spans, s.skip(at), style)) by {
            assert(next.len() > 0 && next.last().style == style);
            if spans.len() > 0 && spans.last().style == style {
                assert(spans.last().text + s.skip(at) =~= next.last().text + s.skip(at + 1));
            }
            if at + 1 == s.len() {
                assert(s.skip(at) =~= seq![s[at]]);
            }
        }
    } else {
        assert(s.skip(at).len() == 0);
    }
}

/// Text without markers is shown as it is, in one span.
pub proof fn law_plain_text_is_kept(s: Seq<char>, style: InlineStyle)
    requires
        s.len() > 0,
        forall|i: int| 0 <= i < s.len() ==> is_literal(#[trigger] s[i]),
    ensures
        styled(s, 0, style, Seq::empty()) == seq![SpanShown { text: s, style }],
{
    lemma_plain_text_is_kept(s, 0, style, Seq::empty());
    assert(s.skip(0) =~= s);
    assert(with_text(Seq::empty(), s, style) =~~= seq![SpanShown { text: s, style }]);
}

/// Text without markers is appended as it is, all of it in the given style.
pub proof fn law_plain_text_is_appended(s: Seq<char>, style: InlineStyle, spans: Seq<SpanShown>)
    requires
        forall|i: int| 0 <= i < s.len() ==> is_literal(#[trigger] s[i]),
    ensures
        styled(s, 0, style, spans) == with_text(spans, s, style),
{
    lemma_plain_text_is_kept(s, 0, style, spans);
    assert(s.skip(0) =~= s);
}

/// The spans `spans` are kept in `after`: each with its style and in its place, and
/// with its text, to the end of which only the last may have had text added.
pub open spec fn spans_kept(spans: Seq<SpanShown>, after: Seq<SpanShown>) -> bool {
    &&& spans.len() <= after.len()
    &&& forall|i: int| 0 <= i < spans.len() - 1 ==> #[trigger] after[i] == spans[i]
    &&& spans.len() > 0 ==> {
        let last = spans.len() - 1;
        &&& after[last].style == spans[last].style
        &&& spans[last].text.is_prefix_of(after[last].text)
    }
}

proof fn lemma_spans_kept(first: Seq<SpanShown>, second: Seq<SpanShown>, third: Seq<SpanShown>)
    requires
        spans_kept(first, second),
        spans_kept(second, third),
    ensures
        spans_kept(first, third),
{
    if first.len() > 0 {
        let last = first.len() - 1;
        let (a, b, c) = (first[last].text, second[last].text, third[last].text);
        if last < second.len() - 1 {
            assert(third[last] == second[last]);
        }
        assert(b.is_prefix_of(c));
        assert(a =~= c.take(a.len() as int));
    }
}

proof fn lemma_with_text_keeps(spans: Seq<SpanShown>, added: Seq<char>, style: InlineStyle)
    ensures
        spans_kept(spans, with_text(spans, added, style)),
{
    let after = with_text(spans, added, style);
    if spans.len() > 0 {
        let last = spans.len() - 1;
        assert(spans[last].text =~= after[last].text.take(spans[last].text.len() as int));
    }
}

/// Appending the spans of a text leaves the spans that are there: each keeps its
/// style, its place and its text, to the end of which only the last may get more.
pub proof fn law_earlier_spans_are_kept(
    s: Seq<char>,
    at: int,
    style: InlineStyle,
    spans: Seq<SpanShown>,
)
    ensures
        spans_kept(spans, styled(s, at, style, spans)),
    decreases s.len(), s.len() - at,
{
    if 0 <= at < s.len() {
        lemma_token_fits(s, at);
        let (middle, next) = match token_at(s, at) {
            InlineToken::Escaped => {
                lemma_with_text_keeps(spans, seq![s[at + 1]], style);
                (with_text(spans, seq![s[at + 1]], style), at + 2)
            },
            InlineToken::Code { ticks, end } => {
                let code = code_text(s.subrange(at + ticks, end));
                let code_style = InlineStyle { kind: InlineKind::Code, ..style };
                lemma_with_text_keeps(spans, code, code_style);
                (with_text(spans, code, code_style), end + ticks)
            },
            InlineToken::Strong { end } => {
                let inner = s.subrange(at + 2, end);
                let inner_style = InlineStyle { strong: true, ..style };
                law_earlier_spans_are_kept(inner, 0, inner_style, spans);
                (styled(inner, 0, inner_style, spans), end + 2)
            },
            InlineToken::Link { label_end, target_end } => {
                let inner = s.subrange(at + 1, label_end);
                let inner_style = InlineStyle { kind: InlineKind::Link, ..style };
                law_earlier_spans_are_kept(inner, 0, inner_style, spans);
                (styled(inner, 0, inner_style, spans), target_end + 1)
            },
            InlineToken::Emphasis { end } => {
                let inner = s.subrange(at + 1, end);
                let inner_style = InlineStyle { emphasis: true, ..style };
                law_earlier_spans_are_kept(inner, 0, inner_style, spans);
                (styled(inner, 0, inner_style, spans), end + 1)
            },
            InlineToken::Plain => {
                lemma_with_text_keeps(spans, seq![s[at]], style);
                (with_text(spans, seq![s[at]], style), at + 1)
            },
        };
        law_earlier_spans_are_kept(s, next, style, middle);
        lemma_spans_kept(spans, middle, styled(s, next, style, middle));
    } else {
        assert(styled(s, at, style, spans) == spans);
        if spans.len() > 0 {
            let last = spans[spans.len() - 1].text;
            assert(last =~= last.take(last.len() as int));
        }
    }
}

/// No span is empty, and no two neighbours have the same style.
pub open spec fn spans_are_apart(spans: Seq<SpanShown>) -> bool {
    &&& forall|i: int| 0 <= i < spans.len() ==> (#[trigger] spans[i]).text.len() > 0
    &&& forall|i: int, j: int|
        0 <= i && j == i + 1 && j < spans.len() ==> #[trigger] spans[i].style
            != #[trigger] spans[j].style
}

proof fn lemma_with_text_keeps_apart(
    spans: Seq<SpanShown>,
    added: Seq<char>,
    style: InlineStyle,
)
    requires
        spans_are_apart(spans),
    ensures
        spans_are_apart(with_text(spans, added, style)),
{
}

/// Spans are as long as their style allows: none is empty, and two neighbours never
/// have the same style.
pub proof fn law_spans_are_apart(
    s: Seq<char>,
    at: int,
    style: InlineStyle,
    spans: Seq<SpanShown>,
)
    requires
        spans_are_apart(spans),
    ensures
        spans_are_apart(styled(s, at, style, spans)),
    decreases s.len(), s.len() - at,
{
    if 0 <= at < s.len() {
        lemma_token_fits(s, at);
        match token_at(s, at) {
            InlineToken::Escaped => {
                lemma_with_text_keeps_apart(spans, seq![s[at + 1]], style);
                law_spans_are_apart(s, at + 2, style, with_text(spans, seq![s[at + 1]], style));
            },
            InlineToken::Code { ticks, end } => {
                let code = code_text(s.subrange(at + ticks, end));
                let code_style = InlineStyle { kind: InlineKind::Code, ..style };
                lemma_with_text_keeps_apart(spans, code, code_style);
                law_spans_are_apart(s, end + ticks, style, with_text(spans, code, code_style));
            },
            InlineToken::Strong { end } => {
                let inner = s.subrange(at + 2, end);
                let inner_style = InlineStyle { strong: true, ..style };
                law_spans_are_apart(inner, 0, inner_style, spans);
                law_spans_are_apart(s, end + 2, style, styled(inner, 0, inner_style, spans));
            },
            InlineToken::Link { label_end, target_end } => {
                let inner = s.subrange(at + 1, label_end);
                let inner_style = InlineStyle { kind: InlineKind::Link, ..style };
                law_spans_are_apart(inner, 0, inner_style, spans);
                law_spans_are_apart(s, target_end + 1, style, styled(inner, 0, inner_style, spans));
            },
            InlineToken::Emphasis { end } => {
                let inner = s.subrange(at + 1, end);
                let inner_style = InlineStyle { emphasis: true, ..style };
                law_spans_are_apart(inner, 0, inner_style, spans);
                law_spans_are_apart(s, end + 1, style, styled(inner, 0, inner_style, spans));
            },
            InlineToken::Plain => {
                lemma_with_text_keeps_apart(spans, seq![s[at]], style);
                law_spans_are_apart(s, at + 1, style, with_text(spans, seq![s[at]], style));
            },
        }
    }
}

/// The lines of a text without their carriage returns.
pub open spec fn line_texts(raw_lines: Seq<Seq<char>>) -> Seq<Seq<char>> {
    raw_lines.map_values(|raw: Seq<char>| line_text(raw))
}

/// Lines between a fence and its end are code, word for word: whatever they would
/// mean elsewhere, they are not read as Markdown.
pub proof fn law_fenced_code_is_verbatim(
    state: BlockState,
    raw_lines: Seq<Seq<char>>,
    closing: Seq<char>,
)
    requires
        state.fence is Some,
        state.code.len() == 0,
        forall|i: int|
            0 <= i < raw_lines.len() ==> !closes(line_text(#[trigger] raw_lines[i]), state.fence->0),
        closes(line_text(closing), state.fence->0),
    ensures
        state.after_lines(raw_lines.push(closing)) == (BlockState {
            blocks: state.blocks.push(BlockShown::Code(lines_joined(line_texts(raw_lines)))),
            fence: None,
            ..state
        }),
{
    lemma_code_is_collected(state, raw_lines);
    assert(raw_lines.push(closing).drop_last() =~= raw_lines);
    assert(state.code + line_texts(raw_lines) =~= line_texts(raw_lines));
    assert(state.code =~= Seq::empty());
}

proof fn lemma_code_is_collected(state: BlockState, raw_lines: Seq<Seq<char>>)
    requires
        state.fence is Some,
        forall|i: int|
            0 <= i < raw_lines.len() ==> !closes(line_text(#[trigger] raw_lines[i]), state.fence->0),
    ensures
        state.after_lines(raw_lines) == (BlockState {
            code: state.code + line_texts(raw_lines),
            ..state
        }),
    decreases raw_lines.len(),
{
    if raw_lines.len() == 0 {
        assert(state.code + line_texts(raw_lines) =~= state.code);
    } else {
        let last = raw_lines.len() - 1;
        assert forall|i: int| 0 <= i < last implies !closes(
            line_text(#[trigger] raw_lines.drop_last()[i]),
            state.fence->0,
        ) by {
            assert(raw_lines.drop_last()[i] == raw_lines[i]);
        }
        lemma_code_is_collected(state, raw_lines.drop_last());
        assert(!closes(line_text(raw_lines[last]), state.fence->0));
        assert((state.code + line_texts(raw_lines.drop_last())).push(line_text(raw_lines.last()))
            =~= state.code + line_texts(raw_lines));
    }
}

} // verus!
