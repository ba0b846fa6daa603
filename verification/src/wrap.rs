//! Breaking label text into lines of bounded display width.
use crate::text;
use vstd::prelude::*;
use vstd::slice::slice_subrange;

verus! {

/// The characters that an XML document can hold.
pub open spec fn is_xml(c: char) -> bool {
    ||| c as u32 == 0x9
    ||| c as u32 == 0xa
    ||| c as u32 == 0xd
    ||| 0x20 <= c as u32 <= 0xd7ff
    ||| 0xe000 <= c as u32 <= 0xfffd
    ||| 0x10000 <= c as u32 <= 0x10ffff
}

pub fn is_xml_character(character: char) -> (xml: bool)
    ensures
        xml == is_xml(character),
{
    let code: u32 = character as u32;
    code == 0x9 || code == 0xa || code == 0xd || (0x20 <= code && code <= 0xd7ff) || (0xe000 <= code
        && code <= 0xfffd) || (0x10000 <= code && code <= 0x10ffff)
}

/// The characters of a text that an XML document can hold.
pub open spec fn xml_only(s: Seq<char>) -> Seq<char>
    decreases s.len(),
{
    if s.len() == 0 {
        s
    } else if is_xml(s.last()) {
        xml_only(s.drop_last()).push(s.last())
    } else {
        xml_only(s.drop_last())
    }
}

/// The display width of a character: one unit for ASCII, two for the rest.
pub open spec fn char_units(c: char) -> nat {
    if c as u32 <= 0x7f {
        1
    } else {
        2
    }
}

/// The display width of a text.
pub open spec fn units(s: Seq<char>) -> nat
    decreases s.len(),
{
    if s.len() == 0 {
        0
    } else {
        units(s.drop_last()) + char_units(s.last())
    }
}

pub fn character_units(character: char) -> (width: usize)
    ensures
        width == char_units(character),
{
    if (character as u32) <= 0x7f {
        1
    } else {
        2
    }
}

pub proof fn lemma_units_bound(s: Seq<char>)
    ensures
        s.len() <= units(s) <= 2 * s.len(),
    decreases s.len(),
{
    if s.len() > 0 {
        lemma_units_bound(s.drop_last());
    }
}

pub proof fn lemma_units_concat(left: Seq<char>, right: Seq<char>)
    ensures
        units(left + right) == units(left) + units(right),
    decreases right.len(),
{
    if right.len() == 0 {
        assert(left + right =~= left);
    } else {
        lemma_units_concat(left, right.drop_last());
        assert((left + right).drop_last() =~= left + right.drop_last());
    }
}

proof fn lemma_xml_only(s: Seq<char>)
    ensures
        xml_only(s).len() <= s.len(),
        forall|i: int| 0 <= i < xml_only(s).len() ==> is_xml(#[trigger] xml_only(s)[i]),
    decreases s.len(),
{
    if s.len() > 0 {
        lemma_xml_only(s.drop_last());
    }
}

/// The display width of a text that XML can hold is at most twice its length.
pub proof fn lemma_xml_units(s: Seq<char>)
    ensures
        units(xml_only(s)) <= 2 * s.len(),
{
    lemma_xml_only(s);
    lemma_units_bound(xml_only(s));
}

/// The display width of characters.
fn units_of(chars: &[char]) -> (width: usize)
    requires
        2 * chars@.len() <= usize::MAX,
    ensures
        width == units(chars@),
{
    let mut width: usize = 0;
    let mut index: usize = 0;
    while index < chars.len()
        invariant
            index <= chars@.len(),
            2 * chars@.len() <= usize::MAX,
            width == units(chars@.take(index as int)),
        decreases chars@.len() - index,
    {
        assert(chars@.take(index as int + 1).drop_last() =~= chars@.take(index as int));
        proof {
            lemma_units_bound(chars@.take(index as int + 1));
        }
        width = width + character_units(chars[index]);
        index = index + 1;
    }
    assert(chars@.take(chars@.len() as int) =~= chars@);
    width
}

/// The characters of a string that an XML document can hold.
fn xml_chars(value: &str) -> (cleaned: Vec<char>)
    ensures
        cleaned@ == xml_only(value@),
{
    let chars = text::chars_of(value);
    let mut cleaned: Vec<char> = Vec::new();
    let mut index: usize = 0;
    while index < chars.len()
        invariant
            index <= chars@.len(),
            chars@ == value@,
            cleaned@ == xml_only(value@.take(index as int)),
        decreases chars@.len() - index,
    {
        assert(value@.take(index as int + 1).drop_last() =~= value@.take(index as int));
        if is_xml_character(chars[index]) {
            cleaned.push(chars[index]);
        }
        index = index + 1;
    }
    assert(value@.take(value@.len() as int) =~= value@);
    cleaned
}

/// The display width of a string, not counting what XML cannot hold.
pub fn display_units(value: &str) -> (width: usize)
    requires
        2 * value@.len() <= usize::MAX,
    ensures
        width == units(xml_only(value@)),
{
    let cleaned = xml_chars(value);
    proof {
        lemma_xml_only(value@);
    }
    units_of(cleaned.as_slice())
}

/// The index of the first white space character, or the length.
pub open spec fn blank_index(s: Seq<char>) -> nat
    decreases s.len(),
{
    if s.len() == 0 || text::is_blank(s[0]) {
        0
    } else {
        1 + blank_index(s.drop_first())
    }
}

/// The words of a text: its maximal runs without white space.
pub open spec fn words(s: Seq<char>) -> Seq<Seq<char>>
    decreases s.len(),
    via words_decreases
{
    let rest = text::trim_start(s);
    if rest.len() == 0 {
        Seq::empty()
    } else {
        let end = blank_index(rest) as int;
        seq![rest.take(end)] + words(rest.skip(end))
    }
}

#[via_fn]
proof fn words_decreases(s: Seq<char>) {
    text::lemma_trim_start_blank(s);
    lemma_blank_index(text::trim_start(s));
}

proof fn lemma_blank_index(s: Seq<char>)
    ensures
        blank_index(s) <= s.len(),
        s.len() > 0 && !text::is_blank(s[0]) ==> blank_index(s) > 0,
        blank_index(s) < s.len() ==> text::is_blank(s[blank_index(s) as int]),
        forall|i: int| 0 <= i < blank_index(s) ==> !text::is_blank(#[trigger] s[i]),
    decreases s.len(),
{
    if s.len() > 0 && !text::is_blank(s[0]) {
        lemma_blank_index(s.drop_first());
        assert forall|i: int| 0 <= i < blank_index(s) implies !text::is_blank(#[trigger] s[i]) by {
            if i > 0 {
                assert(s[i] == s.drop_first()[i - 1]);
            }
        }
    }
}

proof fn lemma_blank_index_is(s: Seq<char>, at: int)
    requires
        0 <= at <= s.len(),
        at < s.len() ==> text::is_blank(s[at]),
        forall|i: int| 0 <= i < at ==> !text::is_blank(#[trigger] s[i]),
    ensures
        blank_index(s) == at,
{
    lemma_blank_index(s);
    let found = blank_index(s) as int;
    if found < at {
        assert(!text::is_blank(s[found]));
    } else if at < found {
        assert(!text::is_blank(s[at]));
    }
}

/// Splits characters into words.
fn split_words<'a>(chars: &'a [char]) -> (parts: Vec<&'a [char]>)
    ensures
        text::slice_views(parts@) == words(chars@),
{
    let mut parts: Vec<&'a [char]> = Vec::new();
    let mut rest = chars;
    assert(text::slice_views(parts@) + words(rest@) =~= words(chars@));
    loop
        invariant
            text::slice_views(parts@) + words(rest@) == words(chars@),
        decreases rest@.len(),
    {
        let ghost before = rest@;
        let ghost earlier = text::slice_views(parts@);
        rest = text::trim_start_chars(rest);
        proof {
            text::lemma_trim_start_blank(before);
        }
        if rest.len() == 0 {
            assert(words(before) =~= Seq::empty());
            assert(text::slice_views(parts@) =~= words(chars@));
            return parts;
        }
        let mut end: usize = 0;
        while end < rest.len() && !text::is_blank_char(rest[end])
            invariant
                end <= rest@.len(),
                forall|i: int| 0 <= i < end ==> !text::is_blank(#[trigger] rest@[i]),
            decreases rest@.len() - end,
        {
            end = end + 1;
        }
        proof {
            lemma_blank_index_is(rest@, end as int);
            lemma_blank_index(rest@);
        }
        let word = slice_subrange(rest, 0, end);
        let ghost trimmed = rest@;
        assert(word@ =~= rest@.take(end as int));
        parts.push(word);
        assert(text::slice_views(parts@) =~= earlier.push(word@));
        rest = slice_subrange(rest, end, rest.len());
        assert(rest@ =~= trimmed.skip(end as int));
        assert(text::slice_views(parts@) + words(rest@) =~= earlier + words(before));
    }
}

/// The pieces of a word that is cut whenever the next character does not fit.
/// Only the last piece of the result can still grow.
pub open spec fn chunks(word: Seq<char>, maximum: nat) -> Seq<Seq<char>>
    decreases word.len(),
{
    if word.len() == 0 {
        Seq::empty()
    } else {
        let earlier = chunks(word.drop_last(), maximum);
        let c = word.last();
        if earlier.len() == 0 || units(earlier.last()) + char_units(c) > maximum {
            earlier.push(seq![c])
        } else {
            earlier.drop_last().push(earlier.last().push(c))
        }
    }
}

/// Finished lines and the line that is being filled.
pub struct Wrapping {
    pub lines: Seq<Seq<char>>,
    pub current: Seq<char>,
}

/// The finished lines, with the line being filled among them if it holds text.
pub open spec fn finished(state: Wrapping) -> Seq<Seq<char>> {
    if state.current.len() > 0 {
        state.lines.push(state.current)
    } else {
        state.lines
    }
}

/// Adds a word: to the line being filled where it fits, else on a line of its
/// own, cut into pieces where it is too wide for any line.
pub open spec fn with_word(state: Wrapping, word: Seq<char>, maximum: nat) -> Wrapping {
    if units(word) <= maximum {
        if state.current.len() == 0 {
            Wrapping { lines: state.lines, current: word }
        } else if units(state.current) + 1 + units(word) <= maximum {
            Wrapping { lines: state.lines, current: state.current.push(' ') + word }
        } else {
            Wrapping { lines: finished(state), current: word }
        }
    } else {
        let pieces = chunks(word, maximum);
        Wrapping { lines: finished(state) + pieces.drop_last(), current: pieces.last() }
    }
}

/// The state after adding words in order.
pub open spec fn with_words(list: Seq<Seq<char>>, maximum: nat) -> Wrapping
    decreases list.len(),
{
    if list.len() == 0 {
        Wrapping { lines: Seq::empty(), current: Seq::empty() }
    } else {
        with_word(with_words(list.drop_last(), maximum), list.last(), maximum)
    }
}

/// The lines of a wrapped text; a text without words has one empty line.
pub open spec fn wrapped(value: Seq<char>, maximum: nat) -> Seq<Seq<char>> {
    let lines = finished(with_words(words(xml_only(value)), maximum));
    if lines.len() == 0 {
        seq![Seq::empty()]
    } else {
        lines
    }
}

/// The views of a sequence of strings.
pub open spec fn string_views(strings: Seq<String>) -> Seq<Seq<char>> {
    strings.map_values(|string: String| string@)
}

proof fn lemma_chunks_nonempty(word: Seq<char>, maximum: nat)
    ensures
        word.len() > 0 ==> chunks(word, maximum).len() > 0,
        forall|i: int|
            0 <= i < chunks(word, maximum).len() ==> (#[trigger] chunks(word, maximum)[i]).len()
                > 0,
    decreases word.len(),
{
    if word.len() > 0 {
        lemma_chunks_nonempty(word.drop_last(), maximum);
        let earlier = chunks(word.drop_last(), maximum);
        let all = chunks(word, maximum);
        assert forall|i: int| 0 <= i < all.len() implies (#[trigger] all[i]).len() > 0 by {
            if i < all.len() - 1 {
                assert(all[i] == earlier[i]);
            }
        }
    }
}

/// Appends the pieces of a wide word to the finished lines and returns the last.
fn push_chunks(lines: &mut Vec<String>, word: &[char], maximum: usize) -> (last: Vec<char>)
    requires
        word@.len() > 0,
    ensures
        string_views(final(lines)@) == string_views(old(lines)@) + chunks(
            word@,
            maximum as nat,
        ).drop_last(),
        last@ == chunks(word@, maximum as nat).last(),
{
    let mut current: Vec<char> = Vec::new();
    let mut current_units: usize = 0;
    let mut index: usize = 0;
    while index < word.len()
        invariant
            index <= word@.len(),
            index == 0 ==> current@.len() == 0 && string_views(lines@) == string_views(
                old(lines)@,
            ),
            index > 0 ==> {
                let pieces = chunks(word@.take(index as int), maximum as nat);
                &&& pieces.len() > 0
                &&& current@ == pieces.last()
                &&& string_views(lines@) == string_views(old(lines)@) + pieces.drop_last()
            },
            current_units == units(current@),
            current_units <= maximum || current_units <= 2,
        decreases word@.len() - index,
    {
        let ghost shorter = word@.take(index as int);
        let ghost longer = word@.take(index as int + 1);
        assert(longer.drop_last() =~= shorter);
        proof {
            lemma_chunks_nonempty(shorter, maximum as nat);
        }
        let character = word[index];
        let width = character_units(character);
        if current.len() > 0 && (width > maximum || current_units > maximum - width) {
            let ghost before = lines@;
            lines.push(text::string_of(current.as_slice()));
            assert(string_views(lines@) =~= string_views(before).push(current@));
            current = Vec::new();
            current_units = 0;
            assert(string_views(lines@) =~= string_views(old(lines)@) + chunks(
                shorter,
                maximum as nat,
            ));
        }
        let ghost kept = current@;
        assert(units(kept) == current_units);
        current.push(character);
        assert(current@.drop_last() =~= kept);
        assert(units(current@) == units(kept) + char_units(character));
        current_units = current_units + width;
        index = index + 1;
        assert(chunks(longer, maximum as nat).last() =~= current@);
        proof {
            if kept.len() == 0 {
                assert(chunks(longer, maximum as nat).drop_last() =~= chunks(shorter, maximum as nat));
                if shorter.len() == 0 {
                    assert(string_views(old(lines)@) + chunks(longer, maximum as nat).drop_last()
                        =~= string_views(old(lines)@));
                }
            } else {
                assert(chunks(longer, maximum as nat).drop_last() =~= chunks(
                    shorter,
                    maximum as nat,
                ).drop_last());
            }
        }
    }
    assert(word@.take(word@.len() as int) =~= word@);
    current
}

/// Breaks a string into lines of at most `maximum_units` display units.
pub fn wrap_text(value: &str, maximum_units: usize) -> (lines: Vec<String>)
    requires
        2 * value@.len() <= usize::MAX,
    ensures
        string_views(lines@) == wrapped(value@, maximum_units as nat),
{
    let cleaned = xml_chars(value);
    let list = split_words(cleaned.as_slice());
    let ghost all = words(xml_only(value@));
    let ghost maximum = maximum_units as nat;
    proof {
        lemma_xml_only(value@);
        lemma_words(xml_only(value@));
    }
    let mut lines: Vec<String> = Vec::new();
    let mut current: Vec<char> = Vec::new();
    let mut current_units: usize = 0;
    let mut index: usize = 0;
    assert(string_views(lines@) =~= Seq::empty());
    while index < list.len()
        invariant
            index <= list@.len(),
            text::slice_views(list@) == all,
            maximum == maximum_units as nat,
            2 * value@.len() <= usize::MAX,
            forall|i: int| 0 <= i < all.len() ==> 0 < (#[trigger] all[i]).len() <= value@.len(),
            string_views(lines@) == with_words(all.take(index as int), maximum).lines,
            current@ == with_words(all.take(index as int), maximum).current,
            current_units == units(current@),
        decreases list@.len() - index,
    {
        let word = list[index];
        assert(text::slice_views(list@)[index as int] == word@);
        assert(all.take(index as int + 1).drop_last() =~= all.take(index as int));
        let ghost state = with_words(all.take(index as int), maximum);
        let ghost before = lines@;
        let width = units_of(word);
        if width <= maximum_units {
            if current.len() == 0 {
                text_extend(&mut current, word);
                current_units = width;
                assert(current@ =~= word@);
            } else if width < maximum_units && current_units <= maximum_units - width - 1 {
                let ghost kept = current@;
                current.push(' ');
                assert(current@.drop_last() =~= kept);
                text_extend(&mut current, word);
                proof {
                    lemma_units_concat(kept.push(' '), word@);
                }
                current_units = current_units + 1 + width;
            } else {
                lines.push(text::string_of(current.as_slice()));
                assert(string_views(lines@) =~= string_views(before).push(current@));
                current = Vec::new();
                text_extend(&mut current, word);
                assert(current@ =~= word@);
                current_units = width;
            }
        } else {
            if current.len() > 0 {
                lines.push(text::string_of(current.as_slice()));
                assert(string_views(lines@) =~= string_views(before).push(current@));
            }
            assert(string_views(lines@) =~= finished(state));
            current = push_chunks(&mut lines, word, maximum_units);
            proof {
                lemma_chunk_units(word@, maximum);
                lemma_units_bound(current@);
                lemma_chunk_lengths(word@, maximum);
            }
            current_units = units_of(current.as_slice());
        }
        index = index + 1;
    }
    assert(all.take(all.len() as int) =~= all);
    if current.len() > 0 {
        let ghost before = lines@;
        lines.push(text::string_of(current.as_slice()));
        assert(string_views(lines@) =~= string_views(before).push(current@));
    }
    if lines.len() == 0 {
        lines.push(String::new());
        assert(string_views(lines@) =~= seq![Seq::<char>::empty()]);
    }
    lines
}

fn text_extend(target: &mut Vec<char>, chars: &[char])
    ensures
        final(target)@ == old(target)@ + chars@,
{
    let mut index: usize = 0;
    while index < chars.len()
        invariant
            index <= chars@.len(),
            target@ == old(target)@ + chars@.take(index as int),
        decreases chars@.len() - index,
    {
        assert(chars@.take(index as int + 1) =~= chars@.take(index as int).push(chars@[index as int]));
        target.push(chars[index]);
        index = index + 1;
    }
    assert(chars@.take(chars@.len() as int) =~= chars@);
}

proof fn lemma_words(s: Seq<char>)
    ensures
        forall|i: int| 0 <= i < words(s).len() ==> 0 < (#[trigger] words(s)[i]).len() <= s.len(),
        words(s).len() <= s.len(),
    decreases s.len(),
{
    text::lemma_trim_start_blank(s);
    let rest = text::trim_start(s);
    lemma_blank_index(rest);
    if rest.len() > 0 {
        let end = blank_index(rest) as int;
        lemma_words(rest.skip(end));
        let tail = words(rest.skip(end));
        assert forall|i: int| 0 <= i < words(s).len() implies 0 < (#[trigger] words(s)[i]).len()
            <= s.len() by {
            if i > 0 {
                assert(words(s)[i] == tail[i - 1]);
            }
        }
    }
}

proof fn lemma_chunk_lengths(word: Seq<char>, maximum: nat)
    ensures
        forall|i: int|
            0 <= i < chunks(word, maximum).len() ==> (#[trigger] chunks(word, maximum)[i]).len()
                <= word.len(),
        chunks(word, maximum).len() <= word.len(),
    decreases word.len(),
{
    if word.len() > 0 {
        lemma_chunk_lengths(word.drop_last(), maximum);
        lemma_chunks_nonempty(word.drop_last(), maximum);
    }
}

proof fn lemma_chunk_units(word: Seq<char>, maximum: nat)
    ensures
        maximum >= 2 ==> forall|i: int|
            0 <= i < chunks(word, maximum).len() ==> units(#[trigger] chunks(word, maximum)[i])
                <= maximum,
    decreases word.len(),
{
    if word.len() > 0 && maximum >= 2 {
        let earlier = chunks(word.drop_last(), maximum);
        lemma_chunk_units(word.drop_last(), maximum);
        let c = word.last();
        assert(seq![c].drop_last() =~= Seq::empty());
        assert(units(seq![c].drop_last()) == 0);
        assert(units(seq![c]) == char_units(c));
        if earlier.len() > 0 {
            assert(earlier.last().push(c).drop_last() =~= earlier.last());
        }
    }
}

/// Wrapping keeps every line within the display width, provided that the widest
/// character fits a line.
pub proof fn law_wrapped_lines_fit(value: Seq<char>, maximum: nat)
    requires
        maximum >= 2,
    ensures
        forall|i: int|
            0 <= i < wrapped(value, maximum).len() ==> units(#[trigger] wrapped(value, maximum)[i])
                <= maximum,
{
    lemma_words(xml_only(value));
    lemma_with_words_fit(words(xml_only(value)), maximum);
    assert(units(Seq::empty()) == 0);
}

proof fn lemma_with_words_fit(list: Seq<Seq<char>>, maximum: nat)
    requires
        maximum >= 2,
        forall|i: int| 0 <= i < list.len() ==> 0 < (#[trigger] list[i]).len(),
    ensures
        units(with_words(list, maximum).current) <= maximum,
        forall|i: int|
            0 <= i < with_words(list, maximum).lines.len() ==> units(
                #[trigger] with_words(list, maximum).lines[i],
            ) <= maximum,
    decreases list.len(),
{
    if list.len() > 0 {
        assert forall|i: int| 0 <= i < list.drop_last().len() implies 0 < (
        #[trigger] list.drop_last()[i]).len() by {
            assert(list.drop_last()[i] == list[i]);
        }
        lemma_with_words_fit(list.drop_last(), maximum);
        let state = with_words(list.drop_last(), maximum);
        let word = list.last();
        assert(list[list.len() - 1].len() > 0);
        let after = with_words(list, maximum);
        if units(word) <= maximum {
            if state.current.len() > 0 {
                assert(state.current.push(' ').drop_last() =~= state.current);
                lemma_units_concat(state.current.push(' '), word);
            }
        } else {
            lemma_chunk_units(word, maximum);
            lemma_chunks_nonempty(word, maximum);
            let pieces = chunks(word, maximum);
            assert forall|i: int| 0 <= i < after.lines.len() implies units(
                #[trigger] after.lines[i],
            ) <= maximum by {
                let base = finished(state);
                if i >= base.len() {
                    assert(after.lines[i] == pieces[i - base.len()]);
                } else {
                    assert(after.lines[i] == base[i]);
                }
            }
        }
    } else {
        assert(units(Seq::empty()) == 0);
    }
}

/// The texts of a list put together.
pub open spec fn joined(list: Seq<Seq<char>>) -> Seq<char>
    decreases list.len(),
{
    if list.len() == 0 {
        Seq::empty()
    } else {
        joined(list.drop_last()) + list.last()
    }
}

/// The characters of a text that are no white space.
pub open spec fn without_blanks(s: Seq<char>) -> Seq<char>
    decreases s.len(),
{
    if s.len() == 0 {
        s
    } else if text::is_blank(s.last()) {
        without_blanks(s.drop_last())
    } else {
        without_blanks(s.drop_last()).push(s.last())
    }
}

proof fn lemma_without_blanks_concat(left: Seq<char>, right: Seq<char>)
    ensures
        without_blanks(left + right) == without_blanks(left) + without_blanks(right),
    decreases right.len(),
{
    if right.len() == 0 {
        assert(left + right =~= left);
        assert(without_blanks(left) + right =~= without_blanks(left));
    } else {
        lemma_without_blanks_concat(left, right.drop_last());
        assert((left + right).drop_last() =~= left + right.drop_last());
        assert(without_blanks(left + right) =~= without_blanks(left) + without_blanks(right));
    }
}

proof fn lemma_without_blanks_same(s: Seq<char>)
    requires
        forall|i: int| 0 <= i < s.len() ==> !text::is_blank(#[trigger] s[i]),
    ensures
        without_blanks(s) == s,
    decreases s.len(),
{
    if s.len() > 0 {
        assert(!text::is_blank(s[s.len() - 1]));
        assert forall|i: int| 0 <= i < s.drop_last().len() implies !text::is_blank(
            #[trigger] s.drop_last()[i],
        ) by {
            assert(s.drop_last()[i] == s[i]);
        }
        lemma_without_blanks_same(s.drop_last());
        assert(without_blanks(s) =~= s);
    }
}

proof fn lemma_joined_concat(left: Seq<Seq<char>>, right: Seq<Seq<char>>)
    ensures
        joined(left + right) == joined(left) + joined(right),
    decreases right.len(),
{
    if right.len() == 0 {
        assert(left + right =~= left);
        assert(joined(left) + joined(right) =~= joined(left));
    } else {
        lemma_joined_concat(left, right.drop_last());
        assert((left + right).drop_last() =~= left + right.drop_last());
        assert(joined(left + right) =~= joined(left) + joined(right));
    }
}

proof fn lemma_joined_push(list: Seq<Seq<char>>, last: Seq<char>)
    ensures
        joined(list.push(last)) == joined(list) + last,
{
    assert(list.push(last).drop_last() =~= list);
}

proof fn lemma_joined_chunks(word: Seq<char>, maximum: nat)
    ensures
        joined(chunks(word, maximum)) == word,
    decreases word.len(),
{
    if word.len() == 0 {
        assert(word =~= Seq::empty());
    } else {
        let earlier = chunks(word.drop_last(), maximum);
        lemma_joined_chunks(word.drop_last(), maximum);
        let c = word.last();
        if earlier.len() == 0 || units(earlier.last()) + char_units(c) > maximum {
            lemma_joined_push(earlier, seq![c]);
        } else {
            lemma_joined_push(earlier.drop_last(), earlier.last().push(c));
            assert(joined(earlier) == joined(earlier.drop_last()) + earlier.last());
            assert(joined(earlier.drop_last()) + earlier.last().push(c) =~= joined(earlier).push(c));
        }
        assert(word.drop_last().push(c) =~= word);
        assert(word.drop_last() + seq![c] =~= word);
    }
}

proof fn lemma_trim_start_without_blanks(s: Seq<char>)
    ensures
        without_blanks(text::trim_start(s)) == without_blanks(s),
    decreases s.len(),
{
    if s.len() > 0 && text::is_blank(s[0]) {
        lemma_trim_start_without_blanks(s.drop_first());
        assert(seq![s[0]] + s.drop_first() =~= s);
        lemma_without_blanks_concat(seq![s[0]], s.drop_first());
        assert(seq![s[0]].drop_last() =~= Seq::empty());
        assert(without_blanks(seq![s[0]].drop_last()) =~= Seq::empty());
        assert(without_blanks(seq![s[0]]) =~= Seq::empty());
        assert(without_blanks(s) =~= without_blanks(s.drop_first()));
    }
}

proof fn lemma_joined_words(s: Seq<char>)
    ensures
        joined(words(s)) == without_blanks(s),
        forall|k: int, i: int|
            0 <= k < words(s).len() && 0 <= i < words(s)[k].len() ==> !text::is_blank(
                #[trigger] words(s)[k][i],
            ),
    decreases s.len(),
{
    text::lemma_trim_start_blank(s);
    lemma_trim_start_without_blanks(s);
    let rest = text::trim_start(s);
    lemma_blank_index(rest);
    if rest.len() > 0 {
        let end = blank_index(rest) as int;
        let tail = words(rest.skip(end));
        lemma_joined_words(rest.skip(end));
        assert(seq![rest.take(end)] =~= Seq::<Seq<char>>::empty().push(rest.take(end)));
        lemma_joined_push(Seq::empty(), rest.take(end));
        lemma_joined_concat(seq![rest.take(end)], tail);
        assert(rest.take(end) + rest.skip(end) =~= rest);
        lemma_without_blanks_concat(rest.take(end), rest.skip(end));
        lemma_without_blanks_same(rest.take(end));
        assert(joined(words(s)) =~= without_blanks(s));
        assert forall|k: int, i: int|
            0 <= k < words(s).len() && 0 <= i < words(s)[k].len() implies !text::is_blank(
            #[trigger] words(s)[k][i],
        ) by {
            if k > 0 {
                assert(words(s)[k] == tail[k - 1]);
                assert(!text::is_blank(tail[k - 1][i]));
            } else {
                assert(words(s)[k][i] == rest[i]);
            }
        }
    } else {
        assert(rest =~= Seq::empty());
    }
}

proof fn lemma_with_words_keep(list: Seq<Seq<char>>, maximum: nat)
    requires
        forall|i: int| 0 <= i < list.len() ==> 0 < (#[trigger] list[i]).len(),
        forall|k: int, i: int|
            0 <= k < list.len() && 0 <= i < list[k].len() ==> !text::is_blank(
                #[trigger] list[k][i],
            ),
    ensures
        without_blanks(joined(finished(with_words(list, maximum)))) == joined(list),
    decreases list.len(),
{
    let after = with_words(list, maximum);
    if list.len() == 0 {
        assert(joined(finished(after)) =~= Seq::empty());
    } else {
        let shorter = list.drop_last();
        assert forall|i: int| 0 <= i < shorter.len() implies 0 < (#[trigger] shorter[i]).len() by {
            assert(shorter[i] == list[i]);
        }
        assert forall|k: int, i: int|
            0 <= k < shorter.len() && 0 <= i < shorter[k].len() implies !text::is_blank(
            #[trigger] shorter[k][i],
        ) by {
            assert(!text::is_blank(list[k][i]));
        }
        lemma_with_words_keep(shorter, maximum);
        let state = with_words(shorter, maximum);
        let word = list.last();
        assert(list[list.len() - 1].len() > 0);
        assert forall|i: int| 0 <= i < word.len() implies !text::is_blank(#[trigger] word[i]) by {
            assert(!text::is_blank(list[list.len() - 1][i]));
        }
        lemma_without_blanks_same(word);
        let base = joined(finished(state));
        lemma_without_blanks_concat(base, word);
        if state.current.len() > 0 {
            lemma_joined_push(state.lines, state.current);
        }
        lemma_joined_push(state.lines, word);
        lemma_joined_push(finished(state), word);
        if units(word) <= maximum {
            if state.current.len() == 0 {
                assert(joined(finished(after)) =~= base + word);
            } else if units(state.current) + 1 + units(word) <= maximum {
                let line = state.current.push(' ') + word;
                lemma_joined_push(state.lines, line);
                assert(joined(finished(after)) =~= joined(state.lines) + line);
                assert(joined(state.lines) + line =~= (base + seq![' ']) + word);
                lemma_without_blanks_concat(base + seq![' '], word);
                lemma_without_blanks_concat(base, seq![' ']);
                assert(seq![' '].drop_last() =~= Seq::empty());
                assert(without_blanks(seq![' '].drop_last()) =~= Seq::empty());
                assert(without_blanks(seq![' ']) =~= Seq::empty());
                assert(without_blanks(base) + Seq::<char>::empty() =~= without_blanks(base));
            } else {
                assert(joined(finished(after)) =~= base + word);
            }
        } else {
            let pieces = chunks(word, maximum);
            lemma_chunks_nonempty(word, maximum);
            lemma_joined_chunks(word, maximum);
            assert(pieces.last().len() > 0) by {
                assert(pieces[pieces.len() - 1].len() > 0);
            }
            lemma_joined_concat(finished(state), pieces);
            assert(finished(after) =~= finished(state) + pieces);
            assert(joined(finished(after)) =~= base + word);
        }
    }
}

/// Wrapping drops and adds nothing but white space and what XML cannot hold: the
/// lines put together hold the other characters of the text, in order.
pub proof fn law_wrapping_keeps_text(value: Seq<char>, maximum: nat)
    ensures
        without_blanks(joined(wrapped(value, maximum))) == without_blanks(xml_only(value)),
{
    let cleaned = xml_only(value);
    lemma_words(cleaned);
    lemma_joined_words(cleaned);
    lemma_with_words_keep(words(cleaned), maximum);
    let lines = finished(with_words(words(cleaned), maximum));
    if lines.len() == 0 {
        assert(seq![Seq::<char>::empty()] =~= Seq::<Seq<char>>::empty().push(Seq::empty()));
        lemma_joined_push(Seq::empty(), Seq::empty());
        assert(joined(wrapped(value, maximum)) =~= Seq::empty());
        assert(joined(lines) =~= Seq::empty());
    }
}

proof fn lemma_with_words_count(list: Seq<Seq<char>>, maximum: nat)
    ensures
        finished(with_words(list, maximum)).len() <= joined(list).len() + list.len(),
    decreases list.len(),
{
    if list.len() > 0 {
        lemma_with_words_count(list.drop_last(), maximum);
        lemma_chunk_lengths(list.last(), maximum);
    }
}

proof fn lemma_without_blanks_len(s: Seq<char>)
    ensures
        without_blanks(s).len() <= s.len(),
    decreases s.len(),
{
    if s.len() > 0 {
        lemma_without_blanks_len(s.drop_last());
    }
}

/// A text has at most twice as many lines as characters, and at least one.
pub proof fn lemma_wrapped_count(value: Seq<char>, maximum: nat)
    ensures
        1 <= wrapped(value, maximum).len() <= 2 * value.len() + 1,
{
    let cleaned = xml_only(value);
    lemma_xml_only(value);
    lemma_words(cleaned);
    lemma_joined_words(cleaned);
    lemma_without_blanks_len(cleaned);
    lemma_with_words_count(words(cleaned), maximum);
}

/// Words with one blank between them.
pub open spec fn with_blanks(list: Seq<Seq<char>>) -> Seq<char>
    decreases list.len(),
{
    if list.len() == 0 {
        Seq::empty()
    } else if list.len() == 1 {
        list[0]
    } else {
        with_blanks(list.drop_last()).push(' ') + list.last()
    }
}

/// A text whose words have one blank between them.
pub fn single_spaced(value: &str) -> (spaced: String)
    ensures
        spaced@ == with_blanks(words(value@)),
{
    let chars = text::chars_of(value);
    let parts = split_words(chars.as_slice());
    let ghost list = text::slice_views(parts@);
    let mut spaced = String::new();
    let mut index: usize = 0;
    assert(list.take(0) =~= Seq::empty());
    while index < parts.len()
        invariant
            index <= parts@.len(),
            list == text::slice_views(parts@),
            spaced@ == with_blanks(list.take(index as int)),
        decreases parts@.len() - index,
    {
        assert(list.take(index + 1).drop_last() =~= list.take(index as int));
        if index > 0 {
            spaced.push(' ');
        }
        text::push_chars(&mut spaced, parts[index]);
        assert(spaced@ =~= with_blanks(list.take(index + 1)));
        index = index + 1;
    }
    assert(list.take(parts@.len() as int) =~= list);
    spaced
}

/// The characters of a text that are no white space.
pub fn compact_text(value: &str) -> (compact: String)
    ensures
        compact@ == without_blanks(value@),
{
    let chars = text::chars_of(value);
    let mut compact = String::new();
    let mut index: usize = 0;
    assert(value@.take(0) =~= Seq::empty());
    while index < chars.len()
        invariant
            index <= chars@.len(),
            chars@ == value@,
            compact@ == without_blanks(value@.take(index as int)),
        decreases chars@.len() - index,
    {
        assert(value@.take(index + 1).drop_last() =~= value@.take(index as int));
        if !text::is_blank_char(chars[index]) {
            compact.push(chars[index]);
        }
        index = index + 1;
    }
    assert(value@.take(value@.len() as int) =~= value@);
    compact
}

/// Whether a text has no white space.
pub open spec fn unbroken(s: Seq<char>) -> bool {
    forall|i: int| 0 <= i < s.len() ==> !text::is_blank(#[trigger] s[i])
}

/// Whether `word` is the first word of a line: unbroken, and followed by white space or
/// by nothing.
pub open spec fn begins_with_word(line: Seq<char>, word: Seq<char>) -> bool {
    &&& word.len() <= line.len()
    &&& line.take(word.len() as int) == word
    &&& unbroken(word)
    &&& word.len() < line.len() ==> text::is_blank(line[word.len() as int])
}

/// Whether no line has room for the first word of the line below it.
pub open spec fn lines_filled(lines: Seq<Seq<char>>, maximum: nat) -> bool {
    forall|i: int, word: Seq<char>|
        0 < i < lines.len() && #[trigger] begins_with_word(lines[i], word) ==> units(lines[i - 1])
            + 1 + units(word) > maximum
}

proof fn lemma_words_unbroken(s: Seq<char>)
    ensures
        forall|i: int| 0 <= i < words(s).len() ==> unbroken(#[trigger] words(s)[i]),
    decreases s.len(),
{
    text::lemma_trim_start_blank(s);
    let rest = text::trim_start(s);
    lemma_blank_index(rest);
    if rest.len() > 0 {
        let end = blank_index(rest) as int;
        lemma_words_unbroken(rest.skip(end));
        let tail = words(rest.skip(end));
        assert forall|i: int| 0 <= i < words(s).len() implies unbroken(
            #[trigger] words(s)[i],
        ) by {
            if i > 0 {
                assert(words(s)[i] == tail[i - 1]);
            } else {
                assert(words(s)[i] == rest.take(end));
            }
        }
    }
}

proof fn lemma_chunks_full(word: Seq<char>, maximum: nat)
    requires
        unbroken(word),
    ensures
        forall|i: int|
            0 <= i < chunks(word, maximum).len() - 1 ==> units(
                #[trigger] chunks(word, maximum)[i],
            ) + 2 > maximum,
        forall|i: int|
            0 <= i < chunks(word, maximum).len() ==> unbroken(
                #[trigger] chunks(word, maximum)[i],
            ) && chunks(word, maximum)[i].len() > 0,
    decreases word.len(),
{
    if word.len() > 0 {
        let fewer = word.drop_last();
        assert forall|i: int| 0 <= i < fewer.len() implies !text::is_blank(
            #[trigger] fewer[i],
        ) by {
            assert(fewer[i] == word[i]);
        }
        lemma_chunks_full(fewer, maximum);
        let earlier = chunks(fewer, maximum);
        let now = chunks(word, maximum);
        let c = word.last();
        assert(!text::is_blank(word[word.len() - 1]));
        let last = now.len() - 1;
        assert(unbroken(now[last]) && now[last].len() > 0) by {
            assert forall|j: int| 0 <= j < now[last].len() implies !text::is_blank(
                #[trigger] now[last][j],
            ) by {
                if j < now[last].len() - 1 {
                    assert(unbroken(earlier[earlier.len() - 1]));
                    assert(earlier[earlier.len() - 1][j] == now[last][j]);
                }
            }
        }
        assert forall|i: int| 0 <= i < now.len() - 1 implies units(#[trigger] now[i]) + 2
            > maximum && unbroken(now[i]) && now[i].len() > 0 by {
            assert(now[i] == earlier[i]);
        }
    }
}

proof fn lemma_some_units(s: Seq<char>)
    ensures
        units(s) >= s.len(),
    decreases s.len(),
{
    if s.len() > 0 {
        lemma_some_units(s.drop_last());
    }
}

/// An unbroken line has itself as its first word.
proof fn lemma_first_word(line: Seq<char>, word: Seq<char>)
    requires
        unbroken(line),
        begins_with_word(line, word),
    ensures
        word == line,
{
    if word.len() < line.len() {
        assert(text::is_blank(line[word.len() as int]));
    }
    assert(line.take(line.len() as int) =~= line);
}

/// A line keeps its first word when another word is added to it.
proof fn lemma_first_word_stays(line: Seq<char>, further: Seq<char>, word: Seq<char>)
    requires
        line.len() > 0,
        begins_with_word(line.push(' ') + further, word),
    ensures
        begins_with_word(line, word),
{
    let whole = line.push(' ') + further;
    assert(whole[line.len() as int] == ' ');
    if word.len() > line.len() {
        assert(word[line.len() as int] == whole[line.len() as int]);
        assert(text::is_blank(' '));
    }
    assert(line.take(word.len() as int) =~= word);
    if word.len() < line.len() {
        assert(whole[word.len() as int] == line[word.len() as int]);
    }
}

/// One more line below lines that are filled.
proof fn lemma_filled_on(lines: Seq<Seq<char>>, line: Seq<char>, maximum: nat)
    requires
        lines_filled(lines, maximum),
        lines.len() > 0 ==> forall|word: Seq<char>| #[trigger]
            begins_with_word(line, word) ==> units(lines.last()) + 1 + units(word) > maximum,
    ensures
        lines_filled(lines.push(line), maximum),
{
    let now = lines.push(line);
    assert forall|i: int, word: Seq<char>|
        0 < i < now.len() && #[trigger] begins_with_word(now[i], word) implies units(now[i - 1])
        + 1 + units(word) > maximum by {
        assert(now[i - 1] == lines[i - 1]);
        if i < lines.len() {
            assert(now[i] == lines[i]);
            assert(begins_with_word(lines[i], word));
        }
    }
}

/// The pieces of a word below lines that are filled.
proof fn lemma_filled_pieces(
    lines: Seq<Seq<char>>,
    pieces: Seq<Seq<char>>,
    maximum: nat,
    count: nat,
)
    requires
        maximum >= 2,
        lines_filled(lines, maximum),
        lines.len() > 0 ==> lines.last().len() > 0,
        count <= pieces.len(),
        pieces.len() >= 2,
        forall|i: int|
            0 <= i < pieces.len() ==> unbroken(#[trigger] pieces[i]) && pieces[i].len() > 0,
        forall|i: int|
            0 <= i < pieces.len() - 1 ==> units(#[trigger] pieces[i]) + 2 > maximum,
    ensures
        lines_filled(lines + pieces.take(count as int), maximum),
    decreases count,
{
    if count == 0 {
        assert(lines + pieces.take(0) =~= lines);
    } else {
        let before = lines + pieces.take(count - 1);
        let piece = pieces[count - 1];
        lemma_filled_pieces(lines, pieces, maximum, (count - 1) as nat);
        assert(lines + pieces.take(count as int) =~= before.push(piece));
        if before.len() > 0 {
            lemma_some_units(before.last());
            lemma_some_units(piece);
            assert(units(before.last()) + 1 + units(piece) > maximum) by {
                if count == 1 {
                    assert(before.last() == lines.last());
                    assert(units(pieces[0]) + 2 > maximum);
                } else {
                    assert(before.last() == pieces[count - 2]);
                }
            }
            assert forall|word: Seq<char>| #[trigger] begins_with_word(piece, word) implies units(
                before.last(),
            ) + 1 + units(word) > maximum by {
                lemma_first_word(piece, word);
            }
        }
        lemma_filled_on(before, piece, maximum);
    }
}

proof fn lemma_with_words_filled(list: Seq<Seq<char>>, maximum: nat)
    requires
        maximum >= 2,
        forall|i: int|
            0 <= i < list.len() ==> unbroken(#[trigger] list[i]) && list[i].len() > 0,
    ensures
        lines_filled(finished(with_words(list, maximum)), maximum),
        list.len() > 0 ==> with_words(list, maximum).current.len() > 0,
    decreases list.len(),
{
    if list.len() > 0 {
        let fewer = list.drop_last();
        assert forall|i: int| 0 <= i < fewer.len() implies unbroken(#[trigger] fewer[i])
            && fewer[i].len() > 0 by {
            assert(fewer[i] == list[i]);
        }
        lemma_with_words_filled(fewer, maximum);
        let state = with_words(fewer, maximum);
        let after = with_words(list, maximum);
        let word = list[list.len() - 1];
        let lines = finished(state);
        if units(word) > maximum {
            let pieces = chunks(word, maximum);
            lemma_chunks_full(word, maximum);
            lemma_chunks_nonempty(word, maximum);
            lemma_chunk_units(word, maximum);
            lemma_joined_chunks(word, maximum);
            assert(pieces.len() >= 2) by {
                if pieces.len() == 1 {
                    assert(pieces =~= Seq::<Seq<char>>::empty().push(pieces[0]));
                    lemma_joined_push(Seq::empty(), pieces[0]);
                    assert(joined(Seq::<Seq<char>>::empty()) =~= Seq::empty());
                    assert(joined(pieces) =~= pieces[0]);
                    assert(units(pieces[0]) <= maximum);
                }
            }
            lemma_filled_pieces(lines, pieces, maximum, pieces.len());
            assert(pieces[pieces.len() - 1].len() > 0);
            assert(finished(after) =~= lines + pieces.take(pieces.len() as int));
        } else if state.current.len() == 0 {
            assert(fewer.len() == 0);
            assert(finished(after) =~= seq![word]);
        } else if units(state.current) + 1 + units(word) <= maximum {
            let current = state.current;
            let now = current.push(' ') + word;
            assert(lines =~= state.lines.push(current));
            assert(lines_filled(state.lines, maximum)) by {
                assert forall|i: int, first: Seq<char>|
                    0 < i < state.lines.len() && #[trigger] begins_with_word(
                        state.lines[i],
                        first,
                    ) implies units(state.lines[i - 1]) + 1 + units(first) > maximum by {
                    assert(lines[i] == state.lines[i] && lines[i - 1] == state.lines[i - 1]);
                    assert(begins_with_word(lines[i], first));
                }
            }
            if state.lines.len() > 0 {
                let at = state.lines.len() as int;
                assert(lines[at] == current && lines[at - 1] == state.lines.last());
                assert forall|first: Seq<char>| #[trigger]
                    begins_with_word(now, first) implies units(state.lines.last()) + 1 + units(
                    first,
                ) > maximum by {
                    lemma_first_word_stays(current, word, first);
                    assert(begins_with_word(lines[at], first));
                }
            }
            lemma_filled_on(state.lines, now, maximum);
        } else {
            assert(lines.last() == state.current);
            assert forall|first: Seq<char>| #[trigger]
                begins_with_word(word, first) implies units(lines.last()) + 1 + units(first)
                > maximum by {
                lemma_first_word(word, first);
            }
            lemma_filled_on(lines, word, maximum);
        }
    }
}

/// Wrapping fills the lines: a word stands on a line below only where the line above it
/// has no room for it and a space.
pub proof fn law_wrapped_lines_are_filled(value: Seq<char>, maximum: nat)
    requires
        maximum >= 2,
    ensures
        lines_filled(wrapped(value, maximum), maximum),
{
    let list = words(xml_only(value));
    lemma_words(xml_only(value));
    lemma_words_unbroken(xml_only(value));
    assert forall|i: int| 0 <= i < list.len() implies unbroken(#[trigger] list[i])
        && list[i].len() > 0 by {}
    lemma_with_words_filled(list, maximum);
}

} // verus!
