//! Text as sequences of Unicode scalar values: the string operations that the
//! rest of the library is stated and built on.
use vstd::prelude::*;
use vstd::slice::slice_subrange;

verus! {

/// `String::push` appends one character to the end of the string.
pub assume_specification[ String::push ](string: &mut String, character: char)
    ensures
        final(string)@ == old(string)@.push(character),
;

/// `String::push_str` appends a string slice to the end of the string.
pub assume_specification[ String::push_str ](string: &mut String, slice: &str)
    ensures
        final(string)@ == old(string)@ + slice@,
;

/// The text that Rust's debug format has for a string.
pub uninterp spec fn debug_text(value: Seq<char>) -> Seq<char>;

/// The debug format of `str`: the string in quotes, with escapes that depend on
/// its characters alone.
#[verifier::external_body]
pub(crate) fn quoted(value: &str) -> (shown: String)
    ensures
        shown@ == debug_text(value@),
{
    format!("{value:?}")
}

/// The text that Rust's debug format has for a character.
pub uninterp spec fn debug_char(value: char) -> Seq<char>;

/// The debug format of `char`: the character in quotes, with an escape that depends
/// on the character alone.
#[verifier::external_body]
pub(crate) fn quoted_char(value: char) -> (shown: String)
    ensures
        shown@ == debug_char(value),
{
    format!("{value:?}")
}

/// The text that std has for the error of decoding bytes that are not UTF-8.
pub uninterp spec fn utf8_error_text(bytes: Seq<u8>) -> Seq<char>;

/// `String::from_utf8` decodes bytes that are UTF-8 and refuses all others; the
/// text of its error depends on the bytes alone.
#[verifier::external_body]
pub(crate) fn decode_source(bytes: Vec<u8>) -> (decoded: Result<String, String>)
    ensures
        match decoded {
            Ok(source) => vstd::utf8::valid_utf8(bytes@) && vstd::utf8::encode_utf8(source@)
                == bytes@,
            Err(message) => !vstd::utf8::valid_utf8(bytes@) && message@ == utf8_error_text(bytes@),
        },
{
    match String::from_utf8(bytes) {
        Ok(source) => Ok(source),
        Err(error) => Err(error.to_string()),
    }
}

/// Whether a character is a letter or a number in the sense of Unicode.
pub uninterp spec fn alphanumeric(c: char) -> bool;

/// `char::is_alphanumeric`: whether a character has the Unicode `Alphabetic`
/// property or is a number; among the ASCII characters these are the letters and
/// the digits.
#[verifier::external_body]
pub(crate) fn is_alphanumeric(character: char) -> (found: bool)
    ensures
        found == alphanumeric(character),
        (character as u32) < 128 ==> found == (is_ascii_letter(character) || is_ascii_digit(
            character,
        )),
{
    character.is_alphanumeric()
}

/// Whether a character is an upper-case letter in the sense of Unicode.
pub uninterp spec fn uppercase(c: char) -> bool;

/// `char::is_uppercase`: whether a character has the Unicode `Uppercase` property;
/// among the ASCII characters these are the letters from `A` to `Z`.
#[verifier::external_body]
pub(crate) fn is_uppercase(character: char) -> (found: bool)
    ensures
        found == uppercase(character),
        (character as u32) < 128 ==> found == ('A' <= character && character <= 'Z'),
{
    character.is_uppercase()
}

/// Whether a character is a number in the sense of Unicode.
pub uninterp spec fn numeric(c: char) -> bool;

/// `char::is_numeric`: whether a character is in one of the Unicode categories for
/// numbers; among the ASCII characters these are the digits.
#[verifier::external_body]
pub(crate) fn is_numeric(character: char) -> (found: bool)
    ensures
        found == numeric(character),
        (character as u32) < 128 ==> found == is_ascii_digit(character),
{
    character.is_numeric()
}

/// Whether a character has the Unicode `White_Space` property.
pub open spec fn is_blank(c: char) -> bool {
    ||| 0x09 <= c as u32 <= 0x0d
    ||| c as u32 == 0x20
    ||| c as u32 == 0x85
    ||| c as u32 == 0xa0
    ||| c as u32 == 0x1680
    ||| 0x2000 <= c as u32 <= 0x200a
    ||| c as u32 == 0x2028
    ||| c as u32 == 0x2029
    ||| c as u32 == 0x202f
    ||| c as u32 == 0x205f
    ||| c as u32 == 0x3000
}

/// Tests whether a character has the Unicode `White_Space` property.
pub fn is_blank_char(character: char) -> (blank: bool)
    ensures
        blank == is_blank(character),
{
    let code: u32 = character as u32;
    (0x09 <= code && code <= 0x0d) || code == 0x20 || code == 0x85 || code == 0xa0 || code == 0x1680
        || (0x2000 <= code && code <= 0x200a) || code == 0x2028 || code == 0x2029 || code == 0x202f
        || code == 0x205f || code == 0x3000
}

/// An ASCII letter.
pub open spec fn is_ascii_letter(c: char) -> bool {
    ('a' <= c && c <= 'z') || ('A' <= c && c <= 'Z')
}

/// An ASCII decimal digit.
pub open spec fn is_ascii_digit(c: char) -> bool {
    '0' <= c && c <= '9'
}

pub fn is_ascii_digit_char(character: char) -> (digit: bool)
    ensures
        digit == is_ascii_digit(character),
{
    '0' <= character && character <= '9'
}

pub fn is_ascii_letter_char(character: char) -> (letter: bool)
    ensures
        letter == is_ascii_letter(character),
{
    ('a' <= character && character <= 'z') || ('A' <= character && character <= 'Z')
}

/// An ASCII upper-case letter maps to its lower-case letter, every other
/// character to itself.
pub open spec fn ascii_lower(c: char) -> char {
    if 'A' <= c && c <= 'Z' {
        (c as u32 + 32) as char
    } else {
        c
    }
}

pub fn ascii_lower_char(character: char) -> (lower: char)
    ensures
        lower == ascii_lower(character),
{
    if 'A' <= character && character <= 'Z' {
        (character as u8 + 32) as char
    } else {
        character
    }
}

/// An ASCII lower-case letter maps to its upper-case letter, every other
/// character to itself.
pub open spec fn ascii_upper(c: char) -> char {
    if 'a' <= c && c <= 'z' {
        (c as u32 - 32) as char
    } else {
        c
    }
}

pub fn ascii_upper_char(character: char) -> (upper: char)
    ensures
        upper == ascii_upper(character),
{
    if 'a' <= character && character <= 'z' {
        (character as u8 - 32) as char
    } else {
        character
    }
}

/// The text with leading white space removed.
pub open spec fn trim_start(s: Seq<char>) -> Seq<char>
    decreases s.len(),
{
    if s.len() > 0 && is_blank(s[0]) {
        trim_start(s.drop_first())
    } else {
        s
    }
}

/// The text with trailing white space removed.
pub open spec fn trim_end(s: Seq<char>) -> Seq<char>
    decreases s.len(),
{
    if s.len() > 0 && is_blank(s.last()) {
        trim_end(s.drop_last())
    } else {
        s
    }
}

/// The text with surrounding white space removed.
pub open spec fn trim(s: Seq<char>) -> Seq<char> {
    trim_end(trim_start(s))
}

/// A text is blank when it holds nothing but white space.
pub open spec fn all_blank(s: Seq<char>) -> bool {
    forall|i: int| 0 <= i < s.len() ==> is_blank(#[trigger] s[i])
}

pub proof fn lemma_trim_start_blank(s: Seq<char>)
    ensures
        all_blank(s) <==> trim_start(s).len() == 0,
        trim_start(s).len() > 0 ==> !is_blank(trim_start(s)[0]),
        trim_start(s).len() <= s.len(),
    decreases s.len(),
{
    if s.len() > 0 && is_blank(s[0]) {
        lemma_trim_start_blank(s.drop_first());
        assert(all_blank(s) <==> all_blank(s.drop_first())) by {
            if all_blank(s.drop_first()) {
                assert forall|i: int| 0 <= i < s.len() implies is_blank(#[trigger] s[i]) by {
                    if i > 0 {
                        assert(s[i] == s.drop_first()[i - 1]);
                    }
                }
            }
        }
    }
}

/// A copy of an optional string.
pub fn copy_option(value: &Option<String>) -> (copy: Option<String>)
    ensures
        copy == *value,
{
    match value {
        Some(text) => Some(text.clone()),
        None => None,
    }
}

/// The characters of a string, in order.
pub fn chars_of(text: &str) -> (chars: Vec<char>)
    ensures
        chars@ == text@,
{
    let mut chars: Vec<char> = Vec::new();
    for character in iter: text.chars()
        invariant
            chars@ == text@.take(iter.index()),
            iter.seq() == text@,
    {
        assert(text@.take(iter.index() + 1) =~= text@.take(iter.index()).push(character));
        chars.push(character);
    }
    assert(text@.take(text@.len() as int) =~= text@);
    chars
}

/// Appends characters to a string.
pub fn push_chars(string: &mut String, chars: &[char])
    ensures
        final(string)@ == old(string)@ + chars@,
{
    let mut index: usize = 0;
    while index < chars.len()
        invariant
            index <= chars@.len(),
            string@ == old(string)@ + chars@.take(index as int),
        decreases chars@.len() - index,
    {
        assert(chars@.take(index as int + 1) =~= chars@.take(index as int).push(chars@[index as int]));
        string.push(chars[index]);
        index = index + 1;
    }
    assert(chars@.take(chars@.len() as int) =~= chars@);
}

/// The string that holds the given characters.
pub fn string_of(chars: &[char]) -> (string: String)
    ensures
        string@ == chars@,
{
    let mut string = String::new();
    push_chars(&mut string, chars);
    assert(string@ =~= chars@);
    string
}

/// Removes surrounding white space from a character slice.
pub fn trim_chars(chars: &[char]) -> (trimmed: &[char])
    ensures
        trimmed@ == trim(chars@),
{
    trim_end_chars(trim_start_chars(chars))
}

pub fn trim_start_chars(chars: &[char]) -> (trimmed: &[char])
    ensures
        trimmed@ == trim_start(chars@),
{
    let mut start: usize = 0;
    assert(chars@.skip(0) =~= chars@);
    while start < chars.len() && is_blank_char(chars[start])
        invariant
            start <= chars@.len(),
            trim_start(chars@.skip(start as int)) == trim_start(chars@),
        decreases chars@.len() - start,
    {
        assert(chars@.skip(start as int).drop_first() =~= chars@.skip(start as int + 1));
        start = start + 1;
    }
    assert(chars@.skip(start as int) =~= chars@.subrange(start as int, chars@.len() as int));
    slice_subrange(chars, start, chars.len())
}

pub fn trim_end_chars(chars: &[char]) -> (trimmed: &[char])
    ensures
        trimmed@ == trim_end(chars@),
{
    let mut end: usize = chars.len();
    assert(chars@.take(end as int) =~= chars@);
    while end > 0 && is_blank_char(chars[end - 1])
        invariant
            end <= chars@.len(),
            trim_end(chars@.take(end as int)) == trim_end(chars@),
        decreases end,
    {
        assert(chars@.take(end as int).drop_last() =~= chars@.take(end as int - 1));
        end = end - 1;
    }
    assert(chars@.take(end as int) =~= chars@.subrange(0, end as int));
    slice_subrange(chars, 0, end)
}

/// Tests whether a string holds nothing but white space.
pub fn is_blank_text(text: &str) -> (blank: bool)
    ensures
        blank == all_blank(text@),
{
    let chars = chars_of(text);
    let mut index: usize = 0;
    while index < chars.len()
        invariant
            index <= chars@.len(),
            chars@ == text@,
            forall|i: int| 0 <= i < index ==> is_blank(#[trigger] text@[i]),
        decreases chars@.len() - index,
    {
        if !is_blank_char(chars[index]) {
            assert(!is_blank(text@[index as int]));
            return false;
        }
        index = index + 1;
    }
    true
}

/// Whether `s` begins with `prefix`.
pub open spec fn starts_with(s: Seq<char>, prefix: Seq<char>) -> bool {
    prefix.len() <= s.len() && s.take(prefix.len() as int) == prefix
}

/// Whether `s` ends with `suffix`.
pub open spec fn ends_with(s: Seq<char>, suffix: Seq<char>) -> bool {
    suffix.len() <= s.len() && s.skip(s.len() - suffix.len()) == suffix
}

/// Whether `part` stands in `s` at `at`.
pub open spec fn occurs_at(s: Seq<char>, part: Seq<char>, at: int) -> bool {
    0 <= at && at + part.len() <= s.len() && s.subrange(at, at + part.len()) == part
}

/// Tests whether `part` stands in `chars` at `at`.
pub fn stands_at(chars: &[char], part: &[char], at: usize) -> (found: bool)
    ensures
        found == occurs_at(chars@, part@, at as int),
{
    if at > chars.len() || part.len() > chars.len() - at {
        return false;
    }
    let mut index: usize = 0;
    while index < part.len()
        invariant
            index <= part@.len(),
            at + part@.len() <= chars.len(),
            forall|i: int| 0 <= i < index ==> chars@[at + i] == #[trigger] part@[i],
        decreases part@.len() - index,
    {
        if chars[at + index] != part[index] {
            assert(chars@.subrange(at as int, at + part@.len())[index as int] != part@[index as int]);
            return false;
        }
        index = index + 1;
    }
    assert(chars@.subrange(at as int, at + part@.len()) =~= part@);
    true
}

/// Whether `part` stands anywhere in `s`.
pub open spec fn contains(s: Seq<char>, part: Seq<char>) -> bool {
    exists|at: int| occurs_at(s, part, at)
}

/// Tests whether `part` stands anywhere in `text`.
pub fn contains_text(text: &str, part: &str) -> (found: bool)
    ensures
        found == contains(text@, part@),
{
    let chars = chars_of(text);
    let wanted = chars_of(part);
    let mut at: usize = 0;
    while at < chars.len()
        invariant
            at <= chars@.len(),
            chars@ == text@,
            wanted@ == part@,
            forall|i: int| 0 <= i < at ==> !occurs_at(text@, part@, i),
        decreases chars@.len() - at,
    {
        if stands_at(chars.as_slice(), wanted.as_slice(), at) {
            return true;
        }
        at = at + 1;
    }
    stands_at(chars.as_slice(), wanted.as_slice(), at)
}

pub fn chars_start_with(chars: &[char], prefix: &[char]) -> (found: bool)
    ensures
        found == starts_with(chars@, prefix@),
{
    proof {
        if prefix@.len() <= chars@.len() {
            assert(chars@.subrange(0, prefix@.len() as int) =~= chars@.take(prefix@.len() as int));
        }
    }
    stands_at(chars, prefix, 0)
}

pub fn chars_end_with(chars: &[char], suffix: &[char]) -> (found: bool)
    ensures
        found == ends_with(chars@, suffix@),
{
    if suffix.len() > chars.len() {
        return false;
    }
    let at: usize = chars.len() - suffix.len();
    assert(chars@.subrange(at as int, at + suffix@.len()) =~= chars@.skip(at as int));
    stands_at(chars, suffix, at)
}

/// Tests whether two character slices hold the same text.
pub fn same_chars(left: &[char], right: &[char]) -> (same: bool)
    ensures
        same == (left@ == right@),
{
    proof {
        if left@.len() == right@.len() {
            assert(left@.subrange(0, right@.len() as int) =~= left@);
        }
    }
    left.len() == right.len() && stands_at(left, right, 0)
}

/// Tests whether two texts are the same.
pub(crate) fn same_text(left: &str, right: &str) -> (same: bool)
    ensures
        same == (left@ == right@),
{
    let (a, b) = (left.as_bytes(), right.as_bytes());
    proof {
        vstd::utf8::encode_utf8_decode_utf8(left@);
        vstd::utf8::encode_utf8_decode_utf8(right@);
    }
    if a.len() != b.len() {
        return false;
    }
    let mut index: usize = 0;
    while index < a.len()
        invariant
            index <= a@.len(),
            a@.len() == b@.len(),
            a@ == vstd::utf8::encode_utf8(left@),
            b@ == vstd::utf8::encode_utf8(right@),
            forall|i: int| 0 <= i < index ==> #[trigger] a@[i] == b@[i],
        decreases a@.len() - index,
    {
        if a[index] != b[index] {
            assert(a@[index as int] != b@[index as int]);
            return false;
        }
        index = index + 1;
    }
    assert(a@ =~= b@);
    true
}

/// Whether a character occurs in a text.
pub open spec fn has_char(s: Seq<char>, c: char) -> bool {
    exists|i: int| 0 <= i < s.len() && #[trigger] s[i] == c
}

pub fn chars_contain(chars: &[char], wanted: char) -> (found: bool)
    ensures
        found == has_char(chars@, wanted),
{
    let mut index: usize = 0;
    while index < chars.len()
        invariant
            index <= chars@.len(),
            forall|i: int| 0 <= i < index ==> #[trigger] chars@[i] != wanted,
        decreases chars@.len() - index,
    {
        if chars[index] == wanted {
            assert(chars@[index as int] == wanted);
            return true;
        }
        index = index + 1;
    }
    false
}

/// The decimal digit of a value below ten.
pub open spec fn digit(value: int) -> char {
    (48 + value) as u8 as char
}

/// The decimal numeral of a natural number, without leading zeros.
pub open spec fn decimal(value: nat) -> Seq<char>
    decreases value,
{
    if value < 10 {
        seq![digit(value as int)]
    } else {
        decimal(value / 10).push(digit((value % 10) as int))
    }
}

/// Different numbers have different numerals.
pub proof fn law_decimal_is_injective(left: nat, right: nat)
    requires
        decimal(left) == decimal(right),
    ensures
        left == right,
    decreases left,
{
    lemma_decimal_length(left);
    lemma_decimal_length(right);
    if left < 10 {
        assert(decimal(left)[0] == digit(left as int));
        if right < 10 {
            assert(decimal(right)[0] == digit(right as int));
        } else {
            lemma_decimal_length(right / 10);
            assert(decimal(right).len() == decimal(right / 10).len() + 1);
        }
    } else if right < 10 {
        lemma_decimal_length(left / 10);
        assert(decimal(left).len() == decimal(left / 10).len() + 1);
    } else {
        assert(decimal(left).drop_last() =~= decimal(left / 10));
        assert(decimal(right).drop_last() =~= decimal(right / 10));
        assert(decimal(left).last() == digit((left % 10) as int));
        assert(decimal(right).last() == digit((right % 10) as int));
        law_decimal_is_injective(left / 10, right / 10);
    }
}

proof fn lemma_decimal_length(value: nat)
    ensures
        decimal(value).len() >= 1,
    decreases value,
{
    if value >= 10 {
        lemma_decimal_length(value / 10);
    }
}

/// Appends the decimal numeral of `value`.
pub fn push_decimal(string: &mut String, value: u64)
    ensures
        final(string)@ == old(string)@ + decimal(value as nat),
    decreases value,
{
    if value < 10 {
        string.push((48u8 + value as u8) as char);
        assert(string@ =~= old(string)@ + decimal(value as nat));
    } else {
        push_decimal(string, value / 10);
        string.push((48u8 + (value % 10) as u8) as char);
        assert(string@ =~= old(string)@ + decimal(value as nat));
    }
}

/// The decimal numeral of `value`.
pub fn decimal_text(value: u64) -> (string: String)
    ensures
        string@ == decimal(value as nat),
{
    let mut string = String::new();
    push_decimal(&mut string, value);
    assert(string@ =~= decimal(value as nat));
    string
}

/// The views of a sequence of string slices.
pub open spec fn views(parts: Seq<&str>) -> Seq<Seq<char>> {
    parts.map_values(|part: &str| part@)
}

/// Whether `left` comes before `right` in byte-wise lexicographic order.
pub open spec fn bytes_before(left: Seq<u8>, right: Seq<u8>) -> bool
    decreases left.len(),
{
    if right.len() == 0 {
        false
    } else if left.len() == 0 {
        true
    } else if left[0] != right[0] {
        left[0] < right[0]
    } else {
        bytes_before(left.drop_first(), right.drop_first())
    }
}

/// The order of strings: byte-wise lexicographic on their UTF-8 encodings.
pub open spec fn before(left: Seq<char>, right: Seq<char>) -> bool {
    bytes_before(vstd::utf8::encode_utf8(left), vstd::utf8::encode_utf8(right))
}

/// Tests whether `left` comes before `right` in the order of strings.
pub fn text_before(left: &str, right: &str) -> (less: bool)
    ensures
        less == before(left@, right@),
{
    let left_bytes = left.as_bytes();
    let right_bytes = right.as_bytes();
    let mut index: usize = 0;
    assert(left_bytes@.skip(0) =~= left_bytes@);
    assert(right_bytes@.skip(0) =~= right_bytes@);
    while index < left_bytes.len() && index < right_bytes.len()
        invariant
            index <= left_bytes@.len(),
            index <= right_bytes@.len(),
            left_bytes@ == vstd::utf8::encode_utf8(left@),
            right_bytes@ == vstd::utf8::encode_utf8(right@),
            bytes_before(left_bytes@, right_bytes@) == bytes_before(
                left_bytes@.skip(index as int),
                right_bytes@.skip(index as int),
            ),
        decreases left_bytes@.len() - index,
    {
        if left_bytes[index] != right_bytes[index] {
            return left_bytes[index] < right_bytes[index];
        }
        assert(left_bytes@.skip(index as int).drop_first() =~= left_bytes@.skip(index as int + 1));
        assert(right_bytes@.skip(index as int).drop_first() =~= right_bytes@.skip(index as int + 1));
        index = index + 1;
    }
    index < right_bytes.len()
}

pub proof fn lemma_bytes_before_irreflexive(a: Seq<u8>)
    ensures
        !bytes_before(a, a),
    decreases a.len(),
{
    if a.len() > 0 {
        lemma_bytes_before_irreflexive(a.drop_first());
    }
}

pub proof fn lemma_bytes_before_transitive(a: Seq<u8>, b: Seq<u8>, c: Seq<u8>)
    requires
        bytes_before(a, b),
        bytes_before(b, c),
    ensures
        bytes_before(a, c),
    decreases a.len(),
{
    if a.len() > 0 && a[0] == b[0] && b[0] == c[0] {
        lemma_bytes_before_transitive(a.drop_first(), b.drop_first(), c.drop_first());
    }
}

pub proof fn lemma_bytes_before_total(a: Seq<u8>, b: Seq<u8>)
    ensures
        bytes_before(a, b) || bytes_before(b, a) || a == b,
    decreases a.len(),
{
    if a.len() > 0 && b.len() > 0 && a[0] == b[0] {
        lemma_bytes_before_total(a.drop_first(), b.drop_first());
        if a.drop_first() == b.drop_first() {
            assert(a =~= seq![a[0]] + a.drop_first());
            assert(b =~= seq![b[0]] + b.drop_first());
        }
    } else if a.len() == 0 && b.len() == 0 {
        assert(a =~= b);
    }
}

/// The order of strings is a strict total order.
pub proof fn law_text_order(a: Seq<char>, b: Seq<char>, c: Seq<char>)
    ensures
        !before(a, a),
        before(a, b) && before(b, c) ==> before(a, c),
        before(a, b) || before(b, a) || a == b,
{
    let ea = vstd::utf8::encode_utf8(a);
    let eb = vstd::utf8::encode_utf8(b);
    let ec = vstd::utf8::encode_utf8(c);
    lemma_bytes_before_irreflexive(ea);
    if bytes_before(ea, eb) && bytes_before(eb, ec) {
        lemma_bytes_before_transitive(ea, eb, ec);
    }
    lemma_bytes_before_total(ea, eb);
    if ea == eb {
        vstd::utf8::encode_utf8_decode_utf8(a);
        vstd::utf8::encode_utf8_decode_utf8(b);
    }
}

/// Whether every text comes before the later ones.
pub open spec fn ascending(texts: Seq<Seq<char>>) -> bool {
    forall|i: int, j: int|
        0 <= i < j < texts.len() ==> before(#[trigger] texts[i], #[trigger] texts[j])
}

/// Texts in order, each once, are fixed by which texts they are.
pub proof fn lemma_ascending_is_unique(first: Seq<Seq<char>>, second: Seq<Seq<char>>)
    requires
        ascending(first),
        ascending(second),
        forall|other: Seq<char>| first.contains(other) == second.contains(other),
    ensures
        first == second,
    decreases first.len(),
{
    if first.len() == 0 || second.len() == 0 {
        if first.len() > 0 {
            assert(first.contains(first[0]));
        }
        if second.len() > 0 {
            assert(second.contains(second[0]));
        }
        assert(first =~= second);
    } else {
        let (a, b) = (first[0], second[0]);
        assert(first.contains(a) && second.contains(b));
        assert(second.contains(a) && first.contains(b));
        let i = choose|i: int| 0 <= i < second.len() && second[i] == a;
        let j = choose|j: int| 0 <= j < first.len() && first[j] == b;
        law_text_order(a, b, a);
        if i > 0 && j > 0 {
            assert(before(second[0], second[i]));
            assert(before(first[0], first[j]));
        }
        assert(a == b);
        let (rest, more) = (first.drop_first(), second.drop_first());
        assert forall|m: int, n: int| 0 <= m < n < rest.len() implies before(
            #[trigger] rest[m],
            #[trigger] rest[n],
        ) by {
            assert(before(first[m + 1], first[n + 1]));
        }
        assert forall|m: int, n: int| 0 <= m < n < more.len() implies before(
            #[trigger] more[m],
            #[trigger] more[n],
        ) by {
            assert(before(second[m + 1], second[n + 1]));
        }
        assert forall|other: Seq<char>| rest.contains(other) == more.contains(other) by {
            lemma_rest_contains(first, other);
            lemma_rest_contains(second, other);
        }
        lemma_ascending_is_unique(rest, more);
        assert(first =~= seq![a] + rest);
        assert(second =~= seq![b] + more);
    }
}

proof fn lemma_rest_contains(texts: Seq<Seq<char>>, other: Seq<char>)
    requires
        ascending(texts),
        texts.len() > 0,
    ensures
        texts.drop_first().contains(other) == (texts.contains(other) && other != texts[0]),
{
    let rest = texts.drop_first();
    if rest.contains(other) {
        let i = choose|i: int| 0 <= i < rest.len() && rest[i] == other;
        assert(texts[i + 1] == other);
        assert(before(texts[0], texts[i + 1]));
        law_text_order(other, other, other);
    }
    if texts.contains(other) && other != texts[0] {
        let i = choose|i: int| 0 <= i < texts.len() && texts[i] == other;
        assert(rest[i - 1] == other);
    }
}

/// The index of the first occurrence of `c`, or the length when it does not occur.
pub open spec fn index_of(s: Seq<char>, c: char) -> int
    decreases s.len(),
{
    if s.len() == 0 || s[0] == c {
        0
    } else {
        1 + index_of(s.drop_first(), c)
    }
}

/// The parts of a text between the occurrences of a separator.
pub open spec fn split_on(s: Seq<char>, separator: char) -> Seq<Seq<char>>
    decreases s.len(),
    via split_on_decreases
{
    let at = index_of(s, separator);
    if at >= s.len() {
        seq![s]
    } else {
        seq![s.take(at)] + split_on(s.skip(at + 1), separator)
    }
}

#[via_fn]
proof fn split_on_decreases(s: Seq<char>, separator: char) {
    lemma_index_of(s, separator);
}

pub proof fn lemma_index_of(s: Seq<char>, c: char)
    ensures
        0 <= index_of(s, c) <= s.len(),
        index_of(s, c) < s.len() ==> s[index_of(s, c)] == c,
        forall|i: int| 0 <= i < index_of(s, c) ==> #[trigger] s[i] != c,
    decreases s.len(),
{
    if s.len() > 0 && s[0] != c {
        lemma_index_of(s.drop_first(), c);
        assert forall|i: int| 0 <= i < index_of(s, c) implies #[trigger] s[i] != c by {
            if i > 0 {
                assert(s[i] == s.drop_first()[i - 1]);
            }
        }
    }
}

/// The only index that is preceded by no occurrence and holds one, or is the
/// length, is the index of the first occurrence.
pub proof fn lemma_index_of_unique(s: Seq<char>, c: char, at: int)
    requires
        0 <= at <= s.len(),
        at < s.len() ==> s[at] == c,
        forall|i: int| 0 <= i < at ==> #[trigger] s[i] != c,
    ensures
        index_of(s, c) == at,
{
    lemma_index_of(s, c);
    let found = index_of(s, c);
    if found < at {
        assert(s[found] != c);
    } else if at < found {
        assert(s[at] != c);
    }
}

/// The index of the first occurrence of `wanted` at or behind `from`, or the
/// length when there is none.
pub fn find_char(chars: &[char], wanted: char, from: usize) -> (at: usize)
    requires
        from <= chars@.len(),
    ensures
        from <= at <= chars@.len(),
        at - from == index_of(chars@.skip(from as int), wanted),
        at < chars@.len() ==> chars@[at as int] == wanted,
        forall|i: int| from <= i < at ==> #[trigger] chars@[i] != wanted,
{
    let mut at: usize = from;
    while at < chars.len() && chars[at] != wanted
        invariant
            from <= at <= chars@.len(),
            forall|i: int| from <= i < at ==> #[trigger] chars@[i] != wanted,
        decreases chars@.len() - at,
    {
        at = at + 1;
    }
    proof {
        let tail = chars@.skip(from as int);
        assert forall|i: int| 0 <= i < at - from implies #[trigger] tail[i] != wanted by {
            assert(tail[i] == chars@[from + i]);
        }
        lemma_index_of_unique(tail, wanted, at - from);
    }
    at
}

/// The views of a sequence of character slices.
pub open spec fn slice_views(parts: Seq<&[char]>) -> Seq<Seq<char>> {
    parts.map_values(|part: &[char]| part@)
}

/// Splits a character slice at every occurrence of a separator.
pub fn split_chars<'a>(chars: &'a [char], separator: char) -> (parts: Vec<&'a [char]>)
    ensures
        slice_views(parts@) == split_on(chars@, separator),
{
    let mut parts: Vec<&'a [char]> = Vec::new();
    let mut start: usize = 0;
    assert(chars@.skip(0) =~= chars@);
    assert(slice_views(parts@) + split_on(chars@, separator) =~= split_on(chars@, separator));
    loop
        invariant
            start <= chars@.len(),
            slice_views(parts@) + split_on(chars@.skip(start as int), separator) == split_on(
                chars@,
                separator,
            ),
        decreases chars@.len() - start,
    {
        let end = find_char(chars, separator, start);
        let part = slice_subrange(chars, start, end);
        let ghost rest = chars@.skip(start as int);
        let ghost earlier = slice_views(parts@);
        parts.push(part);
        assert(slice_views(parts@) =~= earlier.push(part@));
        assert(part@ =~= rest.take(end - start));
        if end == chars.len() {
            assert(rest.take(end - start) =~= rest);
            assert(slice_views(parts@) =~= split_on(chars@, separator));
            return parts;
        }
        assert(rest.skip(end - start + 1) =~= chars@.skip(end as int + 1));
        assert(slice_views(parts@) + split_on(chars@.skip(end as int + 1), separator) =~= earlier
            + split_on(rest, separator));
        start = end + 1;
    }
}

/// Splitting leaves at least one part; the first starts the text and the last
/// ends it.
pub proof fn lemma_split_ends(s: Seq<char>, separator: char)
    ensures
        split_on(s, separator).len() > 0,
        s.len() == 0 || s[0] == separator ==> split_on(s, separator)[0].len() == 0,
        s.len() == 0 || s.last() == separator ==> split_on(s, separator).last().len() == 0,
    decreases s.len(),
{
    lemma_index_of(s, separator);
    let at = index_of(s, separator);
    if at < s.len() {
        lemma_split_ends(s.skip(at + 1), separator);
        let rest = s.skip(at + 1);
        assert(rest.len() > 0 ==> rest.last() == s.last());
    } else if s.len() > 0 {
        assert(s.last() == s[s.len() - 1]);
    }
}

/// The decimal numeral of an integer, with a minus sign if it is negative.
pub open spec fn signed(value: int) -> Seq<char> {
    if value < 0 {
        seq!['-'] + decimal((-value) as nat)
    } else {
        decimal(value as nat)
    }
}

/// The decimal numeral of `value`, with a minus sign if it is negative.
pub fn signed_text(value: i64) -> (string: String)
    ensures
        string@ == signed(value as int),
{
    let mut string = String::new();
    if value < 0 {
        string.push('-');
        push_decimal(&mut string, (-(value + 1)) as u64 + 1);
    } else {
        push_decimal(&mut string, value as u64);
    }
    assert(string@ =~= signed(value as int));
    string
}

/// The encoding of two texts put together is their encodings put together.
pub proof fn lemma_encode_concat(left: Seq<char>, right: Seq<char>)
    ensures
        vstd::utf8::encode_utf8(left + right) == vstd::utf8::encode_utf8(left)
            + vstd::utf8::encode_utf8(right),
    decreases left.len(),
{
    if left.len() == 0 {
        assert(left + right =~= right);
        assert(vstd::utf8::encode_utf8(left) =~= Seq::empty());
        assert(vstd::utf8::encode_utf8(left) + vstd::utf8::encode_utf8(right)
            =~= vstd::utf8::encode_utf8(right));
    } else {
        lemma_encode_concat(left.drop_first(), right);
        assert((left + right).drop_first() =~= left.drop_first() + right);
        assert(vstd::utf8::encode_utf8(left + right) =~= vstd::utf8::encode_utf8(left)
            + vstd::utf8::encode_utf8(right));
    }
}

/// The text between two byte offsets, if both are boundaries of characters.
pub open spec fn between_bytes(s: Seq<char>, start: int, end: int) -> Option<Seq<char>> {
    let bytes = vstd::utf8::encode_utf8(s);
    if 0 <= start <= end <= bytes.len() && vstd::utf8::is_char_boundary(bytes, start)
        && vstd::utf8::is_char_boundary(bytes, end) {
        Some(vstd::utf8::decode_utf8(bytes.subrange(start, end)))
    } else {
        None
    }
}

proof fn lemma_boundary_before(bytes: Seq<u8>, start: int, end: int)
    requires
        vstd::utf8::valid_utf8(bytes),
        0 <= start <= end <= bytes.len(),
        vstd::utf8::is_char_boundary(bytes, start),
        vstd::utf8::is_char_boundary(bytes, end),
    ensures
        vstd::utf8::valid_utf8(bytes.subrange(0, end)),
        vstd::utf8::is_char_boundary(bytes.subrange(0, end), start),
    decreases bytes.len(),
{
    vstd::utf8::valid_utf8_split(bytes, end);
    let head = bytes.subrange(0, end);
    if start > 0 {
        let width = vstd::utf8::length_of_first_scalar(bytes);
        let rest = vstd::utf8::pop_first_scalar(bytes);
        assert(vstd::utf8::is_char_boundary(rest, end - width));
        assert(vstd::utf8::is_char_boundary(rest, start - width));
        lemma_boundary_is_in_range(rest, start - width);
        lemma_boundary_before(rest, start - width, end - width);
        assert(vstd::utf8::length_of_first_scalar(head) == width);
        assert(vstd::utf8::pop_first_scalar(head) =~= rest.subrange(0, end - width));
    }
}

proof fn lemma_boundary_is_in_range(bytes: Seq<u8>, at: int)
    requires
        vstd::utf8::valid_utf8(bytes),
        vstd::utf8::is_char_boundary(bytes, at),
    ensures
        0 <= at <= bytes.len(),
    decreases bytes.len(),
{
    reveal_with_fuel(vstd::utf8::is_char_boundary, 2);
}

/// The text between two byte offsets, if both are boundaries of characters.
pub fn text_between(source: &str, start: usize, end: usize) -> (found: Option<&str>)
    ensures
        match found {
            Some(part) => between_bytes(source@, start as int, end as int) == Some(part@)
                && vstd::utf8::encode_utf8(part@) == vstd::utf8::encode_utf8(source@).subrange(
                start as int,
                end as int,
            ),
            None => between_bytes(source@, start as int, end as int) is None,
        },
{
    proof {
        vstd::utf8::encode_utf8_valid_utf8(source@);
    }
    let length = source.as_bytes().len();
    if start > end || end > length || !source.is_char_boundary(start) || !source.is_char_boundary(
        end,
    ) {
        return None;
    }
    proof {
        lemma_boundary_before(vstd::utf8::encode_utf8(source@), start as int, end as int);
    }
    let head = source.split_at(end).0;
    let part = head.split_at(start).1;
    proof {
        let bytes = vstd::utf8::encode_utf8(source@);
        assert(bytes.subrange(0, end as int).subrange(start as int, end as int) =~= bytes.subrange(
            start as int,
            end as int,
        ));
        vstd::utf8::encode_utf8_decode_utf8(part@);
    }
    Some(part)
}

/// Where `part` stands last in `s`, at or before `at`.
pub open spec fn last_occurrence(s: Seq<char>, part: Seq<char>, at: int) -> Option<int>
    decreases at + 1,
{
    if at < 0 {
        None
    } else if occurs_at(s, part, at) {
        Some(at)
    } else {
        last_occurrence(s, part, at - 1)
    }
}

/// Finds where `part` stands last.
pub fn find_last(chars: &[char], part: &[char]) -> (found: Option<usize>)
    ensures
        match found {
            Some(at) => last_occurrence(chars@, part@, chars@.len() as int) == Some(at as int) && at
                + part@.len() <= chars@.len(),
            None => last_occurrence(chars@, part@, chars@.len() as int) is None,
        },
{
    let mut count: usize = chars.len();
    if stands_at(chars, part, count) {
        return Some(count);
    }
    while count > 0
        invariant
            count <= chars@.len(),
            last_occurrence(chars@, part@, chars@.len() as int) == last_occurrence(
                chars@,
                part@,
                count - 1,
            ),
        decreases count,
    {
        count = count - 1;
        if stands_at(chars, part, count) {
            return Some(count);
        }
    }
    None
}

/// A text without the white space around it.
pub fn trimmed_text(value: &str) -> (trimmed: String)
    ensures
        trimmed@ == trim(value@),
{
    let chars = chars_of(value);
    string_of(trim_chars(chars.as_slice()))
}

/// What stands before and behind a separator is split apart.
pub proof fn lemma_split_joined(left: Seq<char>, right: Seq<char>, separator: char)
    ensures
        split_on(left + seq![separator] + right, separator) == split_on(
            left,
            separator,
        ) + split_on(right, separator),
    decreases left.len(),
{
    let whole = left + seq![separator] + right;
    lemma_index_of(left, separator);
    let at = index_of(left, separator);
    assert forall|i: int| 0 <= i < at implies #[trigger] whole[i] != separator by {
        assert(whole[i] == left[i]);
    }
    assert(whole[at] == separator);
    lemma_index_of_unique(whole, separator, at);
    if at >= left.len() {
        assert(whole.take(at) =~= left);
        assert(whole.skip(at + 1) =~= right);
    } else {
        let rest = left.skip(at + 1);
        lemma_split_joined(rest, right, separator);
        assert(whole.take(at) =~= left.take(at));
        assert(whole.skip(at + 1) =~= rest + seq![separator] + right);
        assert(split_on(whole, separator) =~= split_on(left, separator)
            + split_on(right, separator));
    }
}

proof fn lemma_trim_start_cut(s: Seq<char>) -> (from: int)
    ensures
        0 <= from <= s.len(),
        trim_start(s) == s.skip(from),
        all_blank(s.take(from)),
        from < s.len() ==> !is_blank(s[from]),
    decreases s.len(),
{
    if s.len() > 0 && is_blank(s[0]) {
        let rest = s.drop_first();
        let further = lemma_trim_start_cut(rest);
        let from = further + 1;
        assert(s.skip(from) =~= rest.skip(further));
        assert forall|i: int| 0 <= i < from implies is_blank(#[trigger] s.take(from)[i]) by {
            if i > 0 {
                assert(rest.take(further)[i - 1] == s.take(from)[i]);
            }
        }
        if from < s.len() {
            assert(rest[further] == s[from]);
        }
        from
    } else {
        assert(s.skip(0) =~= s);
        0
    }
}

proof fn lemma_trim_end_cut(s: Seq<char>) -> (to: int)
    ensures
        0 <= to <= s.len(),
        trim_end(s) == s.take(to),
        all_blank(s.skip(to)),
        to > 0 ==> !is_blank(s[to - 1]),
    decreases s.len(),
{
    if s.len() > 0 && is_blank(s.last()) {
        let rest = s.drop_last();
        let to = lemma_trim_end_cut(rest);
        assert(s.take(to) =~= rest.take(to));
        assert forall|i: int| 0 <= i < s.len() - to implies is_blank(
            #[trigger] s.skip(to)[i],
        ) by {
            if i < rest.len() - to {
                assert(rest.skip(to)[i] == s.skip(to)[i]);
            }
        }
        to
    } else {
        assert(s.take(s.len() as int) =~= s);
        s.len() as int
    }
}

/// Trimming a text takes the white space from both of its ends, and nothing else.
pub proof fn law_trimmed_text(s: Seq<char>) -> (cut: (Seq<char>, Seq<char>))
    ensures
        s == cut.0 + trim(s) + cut.1,
        all_blank(cut.0),
        all_blank(cut.1),
        trim(s).len() > 0 ==> !is_blank(trim(s)[0]) && !is_blank(trim(s).last()),
{
    let from = lemma_trim_start_cut(s);
    let rest = trim_start(s);
    let to = lemma_trim_end_cut(rest);
    let front = s.take(from);
    let back = rest.skip(to);
    assert(s =~= front + rest.take(to) + back);
    if to > 0 {
        assert(trim(s)[0] == s[from]);
        assert(trim(s).last() == rest[to - 1]);
    }
    (front, back)
}

} // verus!
