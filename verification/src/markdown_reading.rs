//! How Markdown that is written comes out when it is read.
use crate::markdown;
use crate::markdown::{BlockShown, BlockState, InlineKind, InlineStyle, InlineToken, SpanShown};
use crate::text;
use vstd::prelude::*;

verus! {

/// Whether a text means nothing but itself and has something visible at both ends.
pub open spec fn is_phrase(s: Seq<char>) -> bool {
    &&& s.len() > 0
    &&& forall|i: int| 0 <= i < s.len() ==> markdown::is_literal(#[trigger] s[i])
    &&& !text::is_blank(s[0])
    &&& !text::is_blank(s.last())
}

/// A character so many times.
pub open spec fn row(c: char, count: nat) -> Seq<char> {
    Seq::new(count, |i: int| c)
}

/// How often a character is repeated.
proof fn lemma_run(s: Seq<char>, at: int, c: char, count: nat)
    requires
        0 <= at,
        at + count <= s.len(),
        forall|i: int| at <= i < at + count ==> #[trigger] s[i] == c,
        at + count < s.len() ==> s[at + count] != c,
    ensures
        markdown::run_length(s, at, c) == count,
    decreases count,
{
    if count > 0 {
        lemma_run(s, at + 1, c, (count - 1) as nat);
    }
}

/// Where a delimiter stands first.
proof fn lemma_closing(s: Seq<char>, delimiter: Seq<char>, from: int, end: int)
    requires
        delimiter.len() > 0,
        0 < from <= end,
        end + delimiter.len() <= s.len(),
        text::occurs_at(s, delimiter, end),
        forall|i: int| from <= i < end ==> !#[trigger] text::occurs_at(s, delimiter, i),
        s[end - 1] != '\\',
    ensures
        markdown::unescaped(s, delimiter, from) == Some(end),
    decreases end - from,
{
    if from < end {
        assert(!text::occurs_at(s, delimiter, from));
        lemma_closing(s, delimiter, from + 1, end);
    }
}

/// A phrase between two pairs of markers is strong, and a phrase between two single
/// markers is emphasised, with the markers gone and the rest of its style as it was.
pub proof fn law_marked_phrase_is_styled(phrase: Seq<char>, marker: char, style: InlineStyle)
    requires
        is_phrase(phrase),
        marker == '*' || marker == '_',
    ensures
        markdown::styled(
            seq![marker, marker] + phrase + seq![marker, marker],
            0,
            style,
            Seq::empty(),
        ) == seq![SpanShown { text: phrase, style: InlineStyle { strong: true, ..style } }],
        markdown::styled(seq![marker] + phrase + seq![marker], 0, style, Seq::empty()) == seq![
            SpanShown { text: phrase, style: InlineStyle { emphasis: true, ..style } },
        ],
{
    let size = phrase.len() as int;
    lemma_strong(phrase, marker, style);
    let s = seq![marker] + phrase + seq![marker];
    let end = size + 1;
    assert(forall|i: int| 1 <= i < end ==> #[trigger] s[i] == phrase[i - 1]);
    assert(s[0] == marker && s[end] == marker && s.len() == size + 2);
    let delimiter = markdown::repeated(marker, 1);
    assert(text::occurs_at(s, delimiter, end)) by {
        assert(s.subrange(end, end + 1) =~= delimiter);
    }
    assert forall|i: int| 1 <= i < end implies !#[trigger] text::occurs_at(s, delimiter, i) by {
        assert(markdown::is_literal(phrase[i - 1]));
        assert(s.subrange(i, i + 1)[0] == s[i]);
        assert(delimiter[0] == marker);
    }
    assert(markdown::is_literal(phrase[size - 1]) && markdown::is_literal(phrase[0]));
    assert(s[end - 1] == phrase[size - 1]);
    lemma_closing(s, delimiter, 1, end);
    assert(markdown::delimiters_are_valid(s, 0, end, marker, 1));
    assert(markdown::delimited(s, 0, marker, 1) == Some(end));
    assert(s[1] == phrase[0]);
    assert(markdown::token_at(s, 0) == InlineToken::Emphasis { end });
    assert(s.subrange(1, end) =~= phrase);
    let inner = InlineStyle { emphasis: true, ..style };
    markdown::law_plain_text_is_kept(phrase, inner);
    let spans = markdown::styled(phrase, 0, inner, Seq::empty());
    assert(markdown::styled(s, end + 1, style, spans) == spans);
}

proof fn lemma_strong(phrase: Seq<char>, marker: char, style: InlineStyle)
    requires
        is_phrase(phrase),
        marker == '*' || marker == '_',
    ensures
        markdown::styled(
            seq![marker, marker] + phrase + seq![marker, marker],
            0,
            style,
            Seq::empty(),
        ) == seq![SpanShown { text: phrase, style: InlineStyle { strong: true, ..style } }],
{
    let size = phrase.len() as int;
    let s = seq![marker, marker] + phrase + seq![marker, marker];
    let end = size + 2;
    assert(forall|i: int| 2 <= i < end ==> #[trigger] s[i] == phrase[i - 2]);
    assert(s[0] == marker && s[1] == marker && s[end] == marker && s[end + 1] == marker);
    assert(s.len() == size + 4);
    let delimiter = markdown::repeated(marker, 2);
    assert(text::occurs_at(s, delimiter, end)) by {
        assert(s.subrange(end, end + 2) =~= delimiter);
    }
    assert forall|i: int| 2 <= i < end implies !#[trigger] text::occurs_at(s, delimiter, i) by {
        assert(markdown::is_literal(phrase[i - 2]));
        assert(s.subrange(i, i + 2)[0] == s[i]);
        assert(delimiter[0] == marker);
    }
    assert(markdown::is_literal(phrase[size - 1]));
    assert(s[end - 1] == phrase[size - 1]);
    lemma_closing(s, delimiter, 2, end);
    assert(markdown::delimiters_are_valid(s, 0, end, marker, 2));
    assert(markdown::delimited(s, 0, marker, 2) == Some(end));
    assert(markdown::token_at(s, 0) == InlineToken::Strong { end });
    assert(s.subrange(2, end) =~= phrase);
    let inner = InlineStyle { strong: true, ..style };
    markdown::law_plain_text_is_kept(phrase, inner);
    let spans = markdown::styled(phrase, 0, inner, Seq::empty());
    assert(markdown::styled(s, end + 2, style, spans) == spans);
}

/// A phrase on one line between backticks is code, word for word.
pub proof fn law_ticked_phrase_is_code(phrase: Seq<char>, style: InlineStyle)
    requires
        is_phrase(phrase),
        forall|i: int| 0 <= i < phrase.len() ==> #[trigger] phrase[i] != '\n',
    ensures
        markdown::styled(seq!['`'] + phrase + seq!['`'], 0, style, Seq::empty()) == seq![
            SpanShown { text: phrase, style: InlineStyle { kind: InlineKind::Code, ..style } },
        ],
{
    let size = phrase.len() as int;
    let s = seq!['`'] + phrase + seq!['`'];
    let end = size + 1;
    assert(forall|i: int| 1 <= i < end ==> #[trigger] s[i] == phrase[i - 1]);
    assert(s[0] == '`' && s[end] == '`' && s.len() == size + 2);
    assert(markdown::is_literal(phrase[0]) && markdown::is_literal(phrase[size - 1]));
    assert(s[1] == phrase[0]);
    lemma_run(s, 0, '`', 1);
    let delimiter = markdown::repeated('`', 1);
    assert(text::occurs_at(s, delimiter, end)) by {
        assert(s.subrange(end, end + 1) =~= delimiter);
    }
    assert forall|i: int| 1 <= i < end implies !#[trigger] text::occurs_at(s, delimiter, i) by {
        assert(markdown::is_literal(phrase[i - 1]));
        assert(s.subrange(i, i + 1)[0] == s[i]);
        assert(delimiter[0] == '`');
    }
    assert(s[end - 1] == phrase[size - 1]);
    lemma_closing(s, delimiter, 1, end);
    assert(markdown::token_at(s, 0) == (InlineToken::Code { ticks: 1, end }));
    assert(s.subrange(1, end) =~= phrase);
    assert(markdown::on_one_line(phrase) =~= phrase);
    assert(text::is_blank(' '));
    assert(markdown::code_text(phrase) == phrase);
    let inner = InlineStyle { kind: InlineKind::Code, ..style };
    let spans = markdown::with_text(Seq::empty(), phrase, inner);
    assert(spans =~~= seq![SpanShown { text: phrase, style: inner }]);
    assert(markdown::styled(s, end + 1, style, spans) == spans);
}

/// Of a link its label is shown, as a link, and its target is not.
pub proof fn law_link_shows_its_label(label: Seq<char>, target: Seq<char>, style: InlineStyle)
    requires
        is_phrase(label),
        forall|i: int| 0 <= i < label.len() ==> #[trigger] label[i] != ']',
        target.len() > 0,
        forall|i: int| 0 <= i < target.len() ==> #[trigger] target[i] != ')' && target[i] != '\\',
    ensures
        markdown::styled(
            seq!['['] + label + seq![']', '('] + target + seq![')'],
            0,
            style,
            Seq::empty(),
        ) == seq![
            SpanShown { text: label, style: InlineStyle { kind: InlineKind::Link, ..style } },
        ],
{
    let s = seq!['['] + label + seq![']', '('] + target + seq![')'];
    let size = label.len() as int;
    let label_end = size + 1;
    let target_end = size + 3 + target.len();
    assert(forall|i: int| 1 <= i < label_end ==> #[trigger] s[i] == label[i - 1]);
    assert(forall|i: int|
        label_end + 2 <= i < target_end ==> #[trigger] s[i] == target[i - label_end - 2]);
    assert(s[0] == '[' && s[label_end] == ']' && s[label_end + 1] == '(' && s[target_end] == ')');
    assert(s.len() == target_end + 1);
    let middle = seq![']', '('];
    assert(text::occurs_at(s, middle, label_end)) by {
        assert(s.subrange(label_end, label_end + 2) =~= middle);
    }
    assert forall|i: int| 1 <= i < label_end implies !#[trigger] text::occurs_at(
        s,
        middle,
        i,
    ) by {
        assert(s.subrange(i, i + 2)[0] == s[i]);
        assert(middle[0] == ']');
        assert(label[i - 1] != ']');
    }
    assert(markdown::is_literal(label[size - 1]));
    assert(s[label_end - 1] == label[size - 1]);
    lemma_closing(s, middle, 1, label_end);
    let closing = seq![')'];
    assert(text::occurs_at(s, closing, target_end)) by {
        assert(s.subrange(target_end, target_end + 1) =~= closing);
    }
    assert forall|i: int| label_end + 2 <= i < target_end implies !#[trigger] text::occurs_at(
        s,
        closing,
        i,
    ) by {
        assert(s.subrange(i, i + 1)[0] == s[i]);
        assert(target[i - label_end - 2] != ')');
    }
    assert(s[target_end - 1] == target[target.len() - 1]);
    lemma_closing(s, closing, label_end + 2, target_end);
    assert(markdown::link_at(s, 0) == Some((label_end, target_end)));
    assert(markdown::token_at(s, 0) == (InlineToken::Link { label_end, target_end }));
    assert(s.subrange(1, label_end) =~= label);
    let inner = InlineStyle { kind: InlineKind::Link, ..style };
    markdown::law_plain_text_is_kept(label, inner);
    let spans = markdown::styled(label, 0, inner, Seq::empty());
    assert(markdown::styled(s, target_end + 1, style, spans) == spans);
}

/// A marker behind a backslash is shown as itself, without the backslash.
pub proof fn law_escaped_marker_is_shown(marker: char, style: InlineStyle)
    requires
        marker == '\\' || marker == '`' || marker == '*' || marker == '_' || marker == '['
            || marker == ']',
    ensures
        markdown::styled(seq!['\\', marker], 0, style, Seq::empty()) == seq![
            SpanShown { text: seq![marker], style },
        ],
{
    let s = seq!['\\', marker];
    assert(markdown::token_at(s, 0) == InlineToken::Escaped);
    let spans = markdown::with_text(Seq::empty(), seq![s[1]], style);
    assert(spans =~~= seq![SpanShown { text: seq![marker], style }]);
    assert(markdown::styled(s, 2, style, spans) == spans);
}

/// Whether a text is one line with something visible at both ends.
pub open spec fn is_line(s: Seq<char>) -> bool {
    &&& s.len() > 0
    &&& !text::is_blank(s[0])
    &&& !text::is_blank(s.last())
    &&& forall|i: int| 0 <= i < s.len() ==> #[trigger] s[i] != '\n'
}

proof fn lemma_one_line(line: Seq<char>)
    requires
        is_line(line),
        line[0] != '`' && line[0] != '~',
    ensures
        markdown::blocks_of(line) == match markdown::block_of(line) {
            Some(block) => seq![block],
            None => seq![BlockShown::Paragraph(line)],
        },
{
    text::lemma_index_of(line, '\n');
    assert(text::split_on(line, '\n') =~= seq![line]);
    assert(text::is_blank('\r'));
    assert(markdown::line_text(line) == line);
    assert(text::trim_start(line) == line);
    assert(text::trim(line) == line);
    assert(markdown::fence_of(line) is None);
    let start = BlockState::start();
    assert(seq![line].drop_last() =~= Seq::<Seq<char>>::empty());
    assert(start.after_lines(Seq::empty()) == start);
    let state = start.after_lines(seq![line]);
    assert(state == start.after_line(line));
    assert(start.flushed() == start);
    match markdown::block_of(line) {
        Some(block) => {
            assert(state.blocks =~= seq![block]);
            assert(state.ended() == state.blocks);
        },
        None => {
            assert(state.paragraph =~= seq![line]);
            assert(seq![line].drop_last() =~= Seq::<Seq<char>>::empty());
            assert(markdown::paragraph_text(seq![line]) == line);
            assert(state.ended() =~= seq![BlockShown::Paragraph(line)]);
        },
    }
}

/// A visible character that is no marker of a rule makes a line no rule.
proof fn lemma_no_rule(line: Seq<char>, i: int)
    requires
        0 <= i < line.len(),
        !text::is_blank(line[i]),
        line[i] != '-' && line[i] != '_' && line[i] != '*',
    ensures
        !markdown::is_rule(line),
{
}

/// Text behind one to six number signs and a blank is a heading of that level.
pub proof fn law_heading_is_read(level: nat, title: Seq<char>)
    requires
        1 <= level <= 6,
        is_line(title),
    ensures
        markdown::blocks_of(row('#', level) + seq![' '] + title) == seq![
            BlockShown::Heading { level, text: title },
        ],
{
    let line = row('#', level) + seq![' '] + title;
    assert(forall|i: int| 0 <= i < level ==> #[trigger] line[i] == '#');
    assert(line[level as int] == ' ');
    assert(forall|i: int|
        level + 1 <= i < line.len() ==> #[trigger] line[i] == title[i - level - 1]);
    assert(line.last() == title.last());
    assert(!text::is_blank('#'));
    assert(is_line(line));
    lemma_run(line, 0, '#', level);
    lemma_no_rule(line, 0);
    assert(line.skip(level as int + 1) =~= title);
    assert(text::trim_start(title) == title);
    assert(text::trim(title) == title);
    lemma_one_line(line);
}

/// Text behind a dash, a plus or a star and a blank is an item of a list, as long as it
/// shows something that is no marker of a rule.
pub proof fn law_item_is_read(marker: char, item: Seq<char>, i: int)
    requires
        marker == '-' || marker == '+' || marker == '*',
        is_line(item),
        0 <= i < item.len(),
        !text::is_blank(item[i]),
        item[i] != '-' && item[i] != '_' && item[i] != '*',
    ensures
        markdown::blocks_of(seq![marker, ' '] + item) == seq![BlockShown::UnorderedItem(item)],
{
    let line = seq![marker, ' '] + item;
    assert(line[0] == marker && line[1] == ' ');
    assert(forall|j: int| 2 <= j < line.len() ==> #[trigger] line[j] == item[j - 2]);
    assert(line.last() == item.last());
    assert(!text::is_blank(marker));
    assert(is_line(line));
    assert(line[i + 2] == item[i]);
    lemma_no_rule(line, i + 2);
    lemma_run(line, 0, '#', 0);
    assert(line.skip(2) =~= item);
    assert(text::trim_start(item) == item);
    lemma_one_line(line);
}

/// Text behind a number of up to nine digits, a dot or a parenthesis and a blank is an
/// item of a list with that number.
pub proof fn law_numbered_item_is_read(number: Seq<char>, mark: char, item: Seq<char>)
    requires
        1 <= number.len() <= 9,
        forall|i: int| 0 <= i < number.len() ==> text::is_ascii_digit(#[trigger] number[i]),
        mark == '.' || mark == ')',
        is_line(item),
    ensures
        markdown::blocks_of(number + seq![mark, ' '] + item) == seq![
            BlockShown::OrderedItem { number, text: item },
        ],
{
    let line = number + seq![mark, ' '] + item;
    let count = number.len() as int;
    assert(forall|i: int| 0 <= i < count ==> #[trigger] line[i] == number[i]);
    assert(line[count] == mark && line[count + 1] == ' ');
    assert(forall|j: int| count + 2 <= j < line.len() ==> #[trigger] line[j]
        == item[j - count - 2]);
    assert(line.last() == item.last());
    assert(text::is_ascii_digit(number[0]));
    assert(line[0] == number[0]);
    assert(forall|i: int| 0 <= i < line.len() ==> #[trigger] line[i] != '\n') by {
        assert forall|i: int| 0 <= i < line.len() implies #[trigger] line[i] != '\n' by {
            if i < count {
                assert(text::is_ascii_digit(number[i]));
            } else if i >= count + 2 {
                assert(item[i - count - 2] != '\n');
            }
        }
    }
    assert(is_line(line));
    lemma_no_rule(line, 0);
    lemma_run(line, 0, '#', 0);
    lemma_digits(line, number.len());
    assert(line.take(count) =~= number);
    assert(line.skip(count + 2) =~= item);
    assert(text::trim_start(item) == item);
    lemma_one_line(line);
}

proof fn lemma_digits(line: Seq<char>, count: nat)
    requires
        count < line.len(),
        forall|i: int| 0 <= i < count ==> text::is_ascii_digit(#[trigger] line[i]),
        !text::is_ascii_digit(line[count as int]),
    ensures
        markdown::leading_digits(line) == count,
    decreases count,
{
    if count > 0 {
        let rest = line.drop_first();
        assert(text::is_ascii_digit(line[0]));
        assert forall|i: int| 0 <= i < count - 1 implies text::is_ascii_digit(
            #[trigger] rest[i],
        ) by {
            assert(rest[i] == line[i + 1]);
        }
        lemma_digits(rest, (count - 1) as nat);
    }
}

/// Text behind a greater-than sign and a blank is a quote, with the white space that it
/// begins with.
pub proof fn law_quote_is_read(quote: Seq<char>)
    requires
        quote.len() > 0,
        !text::is_blank(quote.last()),
        forall|i: int| 0 <= i < quote.len() ==> #[trigger] quote[i] != '\n',
    ensures
        markdown::blocks_of(seq!['>', ' '] + quote) == seq![BlockShown::Quote(quote)],
{
    let mark = seq!['>', ' '];
    let line = mark + quote;
    assert(line[0] == '>' && line[1] == ' ');
    assert(forall|j: int| 2 <= j < line.len() ==> #[trigger] line[j] == quote[j - 2]);
    assert(line.last() == quote.last());
    assert(!text::is_blank('>'));
    assert(is_line(line));
    lemma_no_rule(line, 0);
    lemma_run(line, 0, '#', 0);
    assert(line.take(2) =~= mark);
    assert(line.skip(2) =~= quote);
    lemma_one_line(line);
}

/// Three or more of one marker are a rule.
pub proof fn law_rule_is_read(marker: char, count: nat)
    requires
        marker == '-' || marker == '_' || marker == '*',
        count >= 3,
    ensures
        markdown::blocks_of(row(marker, count)) == seq![BlockShown::Rule],
{
    let line = row(marker, count);
    assert(!text::is_blank(marker));
    lemma_all_visible(line, marker);
    assert(is_line(line));
    assert(markdown::only_shows(line, marker));
    lemma_one_line(line);
}

proof fn lemma_all_visible(line: Seq<char>, marker: char)
    requires
        !text::is_blank(marker),
        forall|i: int| 0 <= i < line.len() ==> #[trigger] line[i] == marker,
    ensures
        markdown::visible_count(line) == line.len(),
    decreases line.len(),
{
    if line.len() > 0 {
        lemma_all_visible(line.drop_last(), marker);
    }
}

/// A line that begins with a letter is a paragraph of its own.
pub proof fn law_words_are_a_paragraph(line: Seq<char>)
    requires
        is_line(line),
        text::is_ascii_letter(line[0]),
    ensures
        markdown::blocks_of(line) == seq![BlockShown::Paragraph(line)],
{
    lemma_no_rule(line, 0);
    lemma_run(line, 0, '#', 0);
    if text::starts_with(line, seq!['>', ' ']) {
        assert(line.take(2)[0] == line[0]);
        assert(seq!['>', ' '][0] == '>');
    }
    lemma_one_line(line);
}

/// Lines are read alike whatever blocks came before them.
proof fn lemma_earlier_blocks(state: BlockState, earlier: Seq<BlockShown>, lines: Seq<Seq<char>>)
    ensures
        (BlockState { blocks: earlier + state.blocks, ..state }).after_lines(lines) == ({
            let after = state.after_lines(lines);
            BlockState { blocks: earlier + after.blocks, ..after }
        }),
    decreases lines.len(),
{
    let more = BlockState { blocks: earlier + state.blocks, ..state };
    if lines.len() > 0 {
        lemma_earlier_blocks(state, earlier, lines.drop_last());
        let before = state.after_lines(lines.drop_last());
        let line = markdown::line_text(lines.last());
        let shifted = BlockState { blocks: earlier + before.blocks, ..before };
        let after = before.after_line(line);
        assert(shifted.after_line(line) =~= BlockState { blocks: earlier + after.blocks, ..after });
    }
}

proof fn lemma_lines_appended(state: BlockState, first: Seq<Seq<char>>, second: Seq<Seq<char>>)
    ensures
        state.after_lines(first + second) == state.after_lines(first).after_lines(second),
    decreases second.len(),
{
    if second.len() == 0 {
        assert(first + second =~= first);
    } else {
        lemma_lines_appended(state, first, second.drop_last());
        assert((first + second).drop_last() =~= first + second.drop_last());
    }
}

/// Texts with an empty line between them are read one after the other, as long as the
/// first does not end inside fenced code.
pub proof fn law_empty_line_keeps_texts_apart(first: Seq<char>, second: Seq<char>)
    requires
        BlockState::start().after_lines(text::split_on(first, '\n')).fence is None,
        BlockState::start().after_lines(text::split_on(first, '\n')).code.len() == 0,
    ensures
        markdown::blocks_of(first + seq!['\n', '\n'] + second) == markdown::blocks_of(first)
            + markdown::blocks_of(second),
{
    let start = BlockState::start();
    let left = text::split_on(first, '\n');
    let right = text::split_on(second, '\n');
    let empty = Seq::<char>::empty();
    let tail = empty + seq!['\n'] + second;
    assert(first + seq!['\n', '\n'] + second =~= first + seq!['\n'] + tail);
    text::lemma_split_joined(first, tail, '\n');
    text::lemma_split_joined(empty, second, '\n');
    assert(text::split_on(empty, '\n') =~= seq![empty]);
    let whole = text::split_on(first + seq!['\n', '\n'] + second, '\n');
    assert(whole == left + (seq![empty] + right));
    lemma_lines_appended(start, left, seq![empty] + right);
    let middle = start.after_lines(left);
    lemma_lines_appended(middle, seq![empty], right);
    assert(seq![empty].drop_last() =~= Seq::<Seq<char>>::empty());
    assert(middle.after_lines(Seq::empty()) == middle);
    assert(text::trim(empty).len() == 0);
    assert(middle.after_lines(seq![empty]) == middle.flushed());
    let flushed = middle.flushed();
    assert(flushed.paragraph =~= Seq::empty());
    assert(flushed.code =~= Seq::empty());
    assert(flushed.blocks == markdown::blocks_of(first));
    assert(flushed =~= BlockState { blocks: flushed.blocks + start.blocks, ..start });
    lemma_earlier_blocks(start, flushed.blocks, right);
    let after = start.after_lines(right);
    let shifted = BlockState { blocks: flushed.blocks + after.blocks, ..after };
    assert(shifted.ended() =~= flushed.blocks + after.ended());
}

/// Lines that begin with a letter and follow one another are one paragraph, with a blank
/// between them.
pub proof fn law_lines_make_a_paragraph(first: Seq<char>, second: Seq<char>)
    requires
        is_line(first),
        text::is_ascii_letter(first[0]),
        is_line(second),
        text::is_ascii_letter(second[0]),
    ensures
        markdown::blocks_of(first + seq!['\n'] + second) == seq![
            BlockShown::Paragraph(first + seq![' '] + second),
        ],
{
    let start = BlockState::start();
    lemma_word_line(first);
    lemma_word_line(second);
    text::lemma_split_joined(first, second, '\n');
    let lines = seq![first, second];
    assert(text::split_on(first + seq!['\n'] + second, '\n') =~= lines);
    assert(lines.drop_last() =~= seq![first]);
    assert(seq![first].drop_last() =~= Seq::<Seq<char>>::empty());
    assert(start.after_lines(Seq::empty()) == start);
    let once = start.after_lines(seq![first]);
    assert(once == start.after_line(first));
    assert(once.paragraph =~= seq![first]);
    let twice = start.after_lines(lines);
    assert(twice == once.after_line(second));
    assert(twice.paragraph =~= lines);
    assert(markdown::paragraph_text(Seq::empty()).len() == 0);
    assert(markdown::paragraph_text(seq![first]) == first);
    assert(!text::ends_with(first, seq![' ', ' '])) by {
        if text::ends_with(first, seq![' ', ' ']) {
            assert(first.skip(first.len() - 2)[1] == first.last());
            assert(text::is_blank(' '));
        }
    }
    assert(markdown::paragraph_text(lines) =~= first + seq![' '] + second);
    assert(twice.ended() =~= seq![BlockShown::Paragraph(first + seq![' '] + second)]);
}

proof fn lemma_word_line(line: Seq<char>)
    requires
        is_line(line),
        text::is_ascii_letter(line[0]),
    ensures
        text::split_on(line, '\n') == seq![line],
        markdown::line_text(line) == line,
        text::trim(line) == line,
        markdown::fence_of(line) is None,
        markdown::block_of(line) is None,
{
    text::lemma_index_of(line, '\n');
    assert(text::split_on(line, '\n') =~= seq![line]);
    assert(text::is_blank('\r'));
    assert(text::trim_start(line) == line);
    lemma_no_rule(line, 0);
    lemma_run(line, 0, '#', 0);
    if text::starts_with(line, seq!['>', ' ']) {
        assert(line.take(2)[0] == line[0]);
        assert(seq!['>', ' '][0] == '>');
    }
}

/// A line closes fenced code if and only if, apart from white space around it, it is made
/// of the marker that opened the code, as often as there or more often.
pub proof fn law_fence_is_closed_by_its_marker(line: Seq<char>, marker: char, count: nat)
    requires
        !text::is_blank(marker),
    ensures
        markdown::closes(line, (marker, count)) <==> {
            &&& text::trim(line).len() >= count
            &&& forall|i: int|
                0 <= i < text::trim(line).len() ==> #[trigger] text::trim(line)[i] == marker
        },
{
    let shown = text::trim(line);
    let found = markdown::run_length(shown, 0, marker);
    let cut = text::law_trimmed_text(line);
    lemma_run_end(shown, 0, marker);
    if markdown::closes(line, (marker, count)) {
        assert(found == shown.len()) by {
            if found < shown.len() {
                let rest = shown.skip(found as int);
                assert(rest[rest.len() - 1] == shown.last());
            }
        }
    }
    if forall|i: int| 0 <= i < shown.len() ==> #[trigger] shown[i] == marker {
        lemma_run(shown, 0, marker, shown.len());
        assert(shown.skip(found as int).len() == 0);
    }
}

proof fn lemma_run_end(s: Seq<char>, at: int, c: char)
    requires
        0 <= at <= s.len(),
    ensures
        at + markdown::run_length(s, at, c) <= s.len(),
        forall|i: int| at <= i < at + markdown::run_length(s, at, c) ==> #[trigger] s[i] == c,
    decreases s.len() - at,
{
    if at < s.len() && s[at] == c {
        lemma_run_end(s, at + 1, c);
    }
}

} // verus!
