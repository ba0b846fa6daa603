//! Stable, typed identities.
//!
//! An ID is the first 16 bytes of a SHA-256 digest over a fixed domain, a
//! namespace and the identity components, each behind its length. It is written
//! as 32 hexadecimal characters.
use crate::digest;
use crate::text;
use vstd::prelude::*;

verus! {

/// The number of hexadecimal characters of a serialized ID.
pub const ID_HEX_LEN: usize = 32;

/// Error returned when a serialized stable ID is malformed.
#[derive(Clone, Copy, Debug, PartialEq, Eq, Structural)]
pub enum IdParseError {
    InvalidLength { expected: usize, actual: usize },
    InvalidCharacter { index: usize, character: char },
}

/// The bytes that are hashed for an identity: the domain, then the namespace and
/// every component behind its length.
pub open spec fn preimage(namespace: Seq<char>, parts: Seq<Seq<char>>) -> Seq<u8> {
    vstd::utf8::encode_utf8("codeatlas-stable-id-v1"@) + digest::component(namespace)
        + digest::components(parts)
}

/// The value of the first 16 bytes of a digest.
pub open spec fn leading_value(digest: Seq<u8>) -> u128 {
    digest::be_value(digest.take(16)) as u128
}

/// The value of the identity with these components in this namespace.
pub open spec fn stable_value(namespace: Seq<char>, parts: Seq<Seq<char>>) -> u128 {
    leading_value(digest::sha256_digest(preimage(namespace, parts)))
}

/// The text of an identity: 32 lower-case hexadecimal digits.
pub open spec fn id_text(value: u128) -> Seq<char> {
    digest::hex_text(value as nat, 32)
}

/// The value of a hexadecimal character, upper or lower case.
pub open spec fn nibble(byte: u8) -> Option<nat> {
    if 48 <= byte <= 57 {
        Some((byte - 48) as nat)
    } else if 97 <= byte <= 102 {
        Some((byte - 87) as nat)
    } else if 65 <= byte <= 70 {
        Some((byte - 55) as nat)
    } else {
        None
    }
}

/// The number that hexadecimal characters denote, most significant first.
pub open spec fn hex_number(bytes: Seq<u8>) -> nat
    decreases bytes.len(),
{
    if bytes.len() == 0 {
        0
    } else {
        hex_number(bytes.drop_last()) * 16 + nibble(bytes.last())->0
    }
}

/// The outcome of parsing a text as an identity. The length is counted in bytes;
/// the first byte that is no hexadecimal character is the one that is reported.
pub open spec fn parses_to(value: Seq<char>, outcome: Result<u128, IdParseError>) -> bool {
    let bytes = vstd::utf8::encode_utf8(value);
    match outcome {
        Ok(number) => {
            &&& bytes.len() == 32
            &&& forall|i: int| 0 <= i < 32 ==> nibble(#[trigger] bytes[i]) is Some
            &&& number as nat == hex_number(bytes)
        },
        Err(IdParseError::InvalidLength { expected, actual }) => {
            &&& bytes.len() != 32
            &&& expected == 32
            &&& actual == bytes.len()
        },
        Err(IdParseError::InvalidCharacter { index, character }) => {
            &&& bytes.len() == 32
            &&& index < 32
            &&& nibble(bytes[index as int]) is None
            &&& forall|i: int| 0 <= i < index ==> nibble(#[trigger] bytes[i]) is Some
            &&& character == bytes[index as int] as char
        },
    }
}

/// Builds the bytes that are hashed for an identity.
pub fn stable_preimage(namespace: &str, parts: &[&str]) -> (bytes: Vec<u8>)
    ensures
        bytes@ == preimage(namespace@, text::views(parts@)),
{
    let mut bytes: Vec<u8> = Vec::new();
    digest::push_bytes(&mut bytes, "codeatlas-stable-id-v1".as_bytes());
    digest::push_component(&mut bytes, namespace);
    let ghost head = bytes@;
    let mut index: usize = 0;
    while index < parts.len()
        invariant
            index <= parts@.len(),
            bytes@ == head + digest::components(text::views(parts@).take(index as int)),
        decreases parts@.len() - index,
    {
        assert(text::views(parts@).take(index as int + 1).drop_last() =~= text::views(parts@).take(
            index as int,
        ));
        digest::push_component(&mut bytes, parts[index]);
        index = index + 1;
        assert(bytes@ =~= head + digest::components(text::views(parts@).take(index as int)));
    }
    assert(text::views(parts@).take(parts@.len() as int) =~= text::views(parts@));
    assert(bytes@ =~= preimage(namespace@, text::views(parts@)));
    bytes
}

/// The value of the first 16 bytes of a digest.
pub fn value_of_digest(digest: &[u8]) -> (value: u128)
    requires
        digest@.len() >= 16,
    ensures
        value == leading_value(digest@),
{
    let mut value: u128 = 0;
    let mut index: usize = 0;
    while index < 16
        invariant
            index <= 16,
            digest@.len() >= 16,
            value == digest::be_value(digest@.take(index as int)),
        decreases 16 - index,
    {
        let ghost next = digest@.take(index as int + 1);
        assert(next.drop_last() =~= digest@.take(index as int));
        proof {
            digest::lemma_be_value_bound(next);
            lemma_pow256_monotonic(next.len(), 16);
            digest::lemma_pow256_values();
        }
        value = value * 256 + digest[index] as u128;
        index = index + 1;
    }
    value
}

fn derive_value(namespace: &str, parts: &[&str]) -> (value: u128)
    ensures
        value == stable_value(namespace@, text::views(parts@)),
{
    let bytes = stable_preimage(namespace, parts);
    let digest = digest::sha256(bytes.as_slice());
    value_of_digest(digest.as_slice())
}

fn nibble_of(byte: u8) -> (value: Option<u8>)
    ensures
        match value {
            Some(number) => nibble(byte) == Some(number as nat) && number < 16,
            None => nibble(byte) is None,
        },
{
    if 48 <= byte && byte <= 57 {
        Some(byte - 48)
    } else if 97 <= byte && byte <= 102 {
        Some(byte - 87)
    } else if 65 <= byte && byte <= 70 {
        Some(byte - 55)
    } else {
        None
    }
}

fn parse_value(value: &str) -> (parsed: Result<u128, IdParseError>)
    ensures
        parses_to(value@, parsed),
{
    let bytes = value.as_bytes();
    if bytes.len() != ID_HEX_LEN {
        return Err(IdParseError::InvalidLength { expected: ID_HEX_LEN, actual: bytes.len() });
    }
    let mut number: u128 = 0;
    let mut index: usize = 0;
    while index < ID_HEX_LEN
        invariant
            index <= 32,
            bytes@ == vstd::utf8::encode_utf8(value@),
            bytes@.len() == 32,
            forall|i: int| 0 <= i < index ==> nibble(#[trigger] bytes@[i]) is Some,
            number == hex_number(bytes@.take(index as int)),
        decreases 32 - index,
    {
        match nibble_of(bytes[index]) {
            None => {
                return Err(
                    IdParseError::InvalidCharacter { index, character: bytes[index] as char },
                );
            },
            Some(low) => {
                let ghost next = bytes@.take(index as int + 1);
                assert(next.drop_last() =~= bytes@.take(index as int));
                proof {
                    assert forall|i: int| 0 <= i < next.len() implies nibble(
                        #[trigger] next[i],
                    ) is Some by {
                        assert(next[i] == bytes@[i]);
                    }
                    lemma_hex_number_bound(next);
                    lemma_pow16_monotonic(next.len(), 32);
                    lemma_pow16_value();
                }
                number = number * 16 + low as u128;
                index = index + 1;
            },
        }
    }
    assert(bytes@.take(32) =~= bytes@);
    Ok(number)
}

fn value_text(value: u128) -> (text: String)
    ensures
        text@ == id_text(value),
{
    let mut text = String::new();
    digest::push_hex(&mut text, value, 32);
    assert(text@ =~= id_text(value));
    text
}

proof fn lemma_pow256_monotonic(low: nat, high: nat)
    requires
        low <= high,
    ensures
        digest::pow256(low) <= digest::pow256(high),
    decreases high,
{
    if low < high {
        lemma_pow256_monotonic(low, (high - 1) as nat);
    }
}

/// The powers of 16.
pub open spec fn pow16(exponent: nat) -> nat
    decreases exponent,
{
    if exponent == 0 {
        1
    } else {
        16 * pow16((exponent - 1) as nat)
    }
}

proof fn lemma_pow16_monotonic(low: nat, high: nat)
    requires
        low <= high,
    ensures
        pow16(low) <= pow16(high),
    decreases high,
{
    if low < high {
        lemma_pow16_monotonic(low, (high - 1) as nat);
    }
}

proof fn lemma_pow16_value()
    ensures
        pow16(32) == 0x1_0000_0000_0000_0000 * 0x1_0000_0000_0000_0000,
{
    reveal_with_fuel(pow16, 33);
}

proof fn lemma_hex_number_bound(bytes: Seq<u8>)
    requires
        forall|i: int| 0 <= i < bytes.len() ==> nibble(#[trigger] bytes[i]) is Some,
    ensures
        hex_number(bytes) < pow16(bytes.len()),
    decreases bytes.len(),
{
    if bytes.len() > 0 {
        assert(nibble(bytes[bytes.len() - 1]) is Some);
        lemma_hex_number_bound(bytes.drop_last());
    }
}

/// The bytes of a hexadecimal text.
pub open spec fn hex_ascii(value: nat, width: nat) -> Seq<u8> {
    let text = digest::hex_text(value, width);
    Seq::new(text.len(), |i: int| text[i] as u8)
}

proof fn lemma_hex_text(value: nat, width: nat)
    requires
        value < pow16(width),
    ensures
        digest::hex_text(value, width).len() == width,
        vstd::utf8::is_ascii_chars(digest::hex_text(value, width)),
        forall|i: int|
            0 <= i < width ==> nibble(#[trigger] hex_ascii(value, width)[i]) is Some,
        hex_number(hex_ascii(value, width)) == value,
    decreases width,
{
    if width > 0 {
        let high = (width - 1) as nat;
        lemma_hex_text(value / 16, high);
        let bytes = hex_ascii(value, width);
        assert(bytes.drop_last() =~= hex_ascii(value / 16, high));
        assert(nibble(bytes.last()) == Some((value % 16) as nat));
        assert forall|i: int| 0 <= i < width implies nibble(#[trigger] bytes[i]) is Some by {
            if i < high {
                assert(bytes[i] == hex_ascii(value / 16, high)[i]);
            }
        }
    }
}

/// Parsing the text of an identity gives the identity back.
pub proof fn law_id_text_parses_back(value: u128)
    ensures
        parses_to(id_text(value), Ok(value)),
{
    lemma_pow16_value();
    lemma_hex_text(value as nat, 32);
    vstd::utf8::is_ascii_chars_encode_utf8(id_text(value));
    assert(vstd::utf8::encode_utf8(id_text(value)) =~= hex_ascii(value as nat, 32));
}

proof fn lemma_same_digits(left: Seq<u8>, right: Seq<u8>)
    requires
        left.len() == right.len(),
        forall|i: int| 0 <= i < left.len() ==> nibble(#[trigger] left[i]) == nibble(right[i]),
    ensures
        hex_number(left) == hex_number(right),
    decreases left.len(),
{
    if left.len() > 0 {
        assert(nibble(left[left.len() - 1]) == nibble(right[left.len() - 1]));
        assert forall|i: int| 0 <= i < left.len() - 1 implies nibble(
            #[trigger] left.drop_last()[i],
        ) == nibble(right.drop_last()[i]) by {
            assert(nibble(left[i]) == nibble(right[i]));
        }
        lemma_same_digits(left.drop_last(), right.drop_last());
    }
}

/// A text in ASCII lower case.
pub open spec fn lower_text(s: Seq<char>) -> Seq<char> {
    s.map_values(|c: char| text::ascii_lower(c))
}

/// A text in ASCII upper case.
pub open spec fn upper_text(s: Seq<char>) -> Seq<char> {
    s.map_values(|c: char| text::ascii_upper(c))
}

/// A text that parses holds hexadecimal characters alone.
proof fn lemma_parsed_characters(value: Seq<char>, number: u128)
    requires
        parses_to(value, Ok(number)),
    ensures
        value.len() == 32,
        vstd::utf8::is_ascii_chars(value),
        forall|i: int|
            0 <= i < 32 ==> nibble(#[trigger] value[i] as u8) is Some
                && vstd::utf8::encode_utf8(value)[i] == value[i] as u8,
{
    let bytes = vstd::utf8::encode_utf8(value);
    let low = Seq::new(bytes.len(), |i: int| bytes[i] as char);
    assert(vstd::utf8::is_ascii_chars(low)) by {
        assert forall|i: int| 0 <= i < low.len() implies '\0' <= #[trigger] low[i] <= '\u{7f}' by {
            assert(nibble(bytes[i]) is Some);
        }
    }
    vstd::utf8::is_ascii_chars_encode_utf8(low);
    assert(vstd::utf8::encode_utf8(low) =~= bytes);
    vstd::utf8::encode_utf8_decode_utf8(low);
    vstd::utf8::encode_utf8_decode_utf8(value);
    assert(low == value);
    assert forall|i: int| 0 <= i < 32 implies nibble(#[trigger] value[i] as u8) is Some
        && bytes[i] == value[i] as u8 by {
        assert(nibble(bytes[i]) is Some);
    }
}

/// The digits of two texts of one number are the same, but for their case.
proof fn lemma_digits_agree(left: Seq<u8>, right: Seq<u8>)
    requires
        left.len() == right.len(),
        forall|i: int| 0 <= i < left.len() ==> nibble(#[trigger] left[i]) is Some,
        forall|i: int| 0 <= i < right.len() ==> nibble(#[trigger] right[i]) is Some,
        hex_number(left) == hex_number(right),
    ensures
        forall|i: int| 0 <= i < left.len() ==> nibble(#[trigger] left[i]) == nibble(right[i]),
    decreases left.len(),
{
    if left.len() > 0 {
        let (a, b) = (left.drop_last(), right.drop_last());
        assert(nibble(left[left.len() - 1]) is Some && nibble(right[left.len() - 1]) is Some);
        assert forall|i: int| 0 <= i < a.len() implies nibble(#[trigger] a[i]) is Some by {
            assert(nibble(left[i]) is Some);
        }
        assert forall|i: int| 0 <= i < b.len() implies nibble(#[trigger] b[i]) is Some by {
            assert(nibble(right[i]) is Some);
        }
        lemma_digits_agree(a, b);
        assert forall|i: int| 0 <= i < left.len() implies nibble(#[trigger] left[i]) == nibble(
            right[i],
        ) by {
            if i < a.len() {
                assert(nibble(a[i]) == nibble(b[i]));
            }
        }
    }
}

/// Parsing takes upper and lower case alike: the text of an identity in upper case
/// parses to the identity.
pub proof fn law_upper_case_parses_too(value: u128)
    ensures
        parses_to(upper_text(id_text(value)), Ok(value)),
{
    let shown = id_text(value);
    let upper = upper_text(shown);
    law_id_text_parses_back(value);
    lemma_parsed_characters(shown, value);
    assert(vstd::utf8::is_ascii_chars(upper)) by {
        assert forall|i: int| 0 <= i < upper.len() implies '\0' <= #[trigger] upper[i]
            <= '\u{7f}' by {
            assert(nibble(shown[i] as u8) is Some);
        }
    }
    vstd::utf8::is_ascii_chars_encode_utf8(upper);
    let (left, right) = (vstd::utf8::encode_utf8(upper), vstd::utf8::encode_utf8(shown));
    assert forall|i: int| 0 <= i < left.len() implies nibble(#[trigger] left[i]) == nibble(
        right[i],
    ) by {
        assert(nibble(shown[i] as u8) is Some);
        assert(left[i] == upper[i] as u8);
    }
    lemma_same_digits(left, right);
}

/// The text of an identity that was parsed is what was parsed, in lower case.
pub proof fn law_parsed_text_in_lower_case(value: Seq<char>, number: u128)
    requires
        parses_to(value, Ok(number)),
    ensures
        id_text(number) == lower_text(value),
{
    let shown = id_text(number);
    law_id_text_parses_back(number);
    lemma_parsed_characters(value, number);
    lemma_parsed_characters(shown, number);
    let (left, right) = (vstd::utf8::encode_utf8(value), vstd::utf8::encode_utf8(shown));
    lemma_digits_agree(left, right);
    assert forall|i: int| 0 <= i < 32 implies shown[i] == #[trigger] lower_text(value)[i] by {
        assert(nibble(value[i] as u8) is Some && nibble(shown[i] as u8) is Some);
        assert(nibble(left[i]) == nibble(right[i]));
        lemma_lower_hex(number as nat, 32, i);
    }
    assert(shown =~= lower_text(value));
}

/// No hexadecimal character of an identity is an upper-case letter.
proof fn lemma_lower_hex(value: nat, width: nat, i: int)
    requires
        0 <= i < digest::hex_text(value, width).len(),
    ensures
        !('A' <= digest::hex_text(value, width)[i] <= 'Z'),
    decreases width,
{
    if width > 0 && i < digest::hex_text(value / 16, (width - 1) as nat).len() {
        lemma_lower_hex(value / 16, (width - 1) as nat, i);
    }
}

/// Parsing has one outcome for each text.
pub proof fn law_parse_is_deterministic(
    value: Seq<char>,
    first: Result<u128, IdParseError>,
    second: Result<u128, IdParseError>,
)
    requires
        parses_to(value, first),
        parses_to(value, second),
    ensures
        first == second,
{
    let bytes = vstd::utf8::encode_utf8(value);
    match (first, second) {
        (
            Err(IdParseError::InvalidCharacter { index: i, .. }),
            Err(IdParseError::InvalidCharacter { index: j, .. }),
        ) => {
            if i < j {
                assert(nibble(bytes[i as int]) is Some);
            } else if j < i {
                assert(nibble(bytes[j as int]) is Some);
            }
        },
        (Err(IdParseError::InvalidCharacter { index: i, .. }), Ok(_)) => {
            assert(nibble(bytes[i as int]) is Some);
        },
        (Ok(_), Err(IdParseError::InvalidCharacter { index: j, .. })) => {
            assert(nibble(bytes[j as int]) is Some);
        },
        _ => {},
    }
}

/// Whether every text is short enough for its length to fit the eight bytes in
/// front of it.
pub open spec fn texts_fit(parts: Seq<Seq<char>>) -> bool {
    forall|i: int|
        0 <= i < parts.len() ==> vstd::utf8::encode_utf8(#[trigger] parts[i]).len()
            < digest::pow256(8)
}

proof fn lemma_components_split_first(parts: Seq<Seq<char>>)
    requires
        parts.len() > 0,
    ensures
        digest::components(parts) == digest::component(parts[0]) + digest::components(
            parts.drop_first(),
        ),
    decreases parts.len(),
{
    if parts.len() == 1 {
        assert(parts.drop_last() =~= Seq::empty());
        assert(parts.drop_first() =~= Seq::empty());
        assert(digest::components(parts.drop_last()) =~= Seq::empty());
        assert(digest::components(parts) =~= digest::component(parts[0]) + digest::components(
            parts.drop_first(),
        ));
    } else {
        lemma_components_split_first(parts.drop_last());
        assert(parts.drop_last().drop_first() =~= parts.drop_first().drop_last());
        assert(digest::components(parts) =~= digest::component(parts[0]) + digest::components(
            parts.drop_first(),
        ));
    }
}

proof fn lemma_components_injective(left: Seq<Seq<char>>, right: Seq<Seq<char>>)
    requires
        texts_fit(left),
        texts_fit(right),
        digest::components(left) == digest::components(right),
    ensures
        left == right,
    decreases left.len(),
{
    if left.len() == 0 || right.len() == 0 {
        if left.len() > 0 {
            digest::lemma_be_bytes_len(vstd::utf8::encode_utf8(left.last()).len(), 8);
            assert(digest::components(left).len() >= 8);
        }
        if right.len() > 0 {
            digest::lemma_be_bytes_len(vstd::utf8::encode_utf8(right.last()).len(), 8);
            assert(digest::components(right).len() >= 8);
        }
        assert(left =~= right);
    } else {
        lemma_components_split_first(left);
        lemma_components_split_first(right);
        let a = vstd::utf8::encode_utf8(left[0]);
        let b = vstd::utf8::encode_utf8(right[0]);
        digest::lemma_frame_is_prefix_free(
            a,
            digest::components(left.drop_first()),
            b,
            digest::components(right.drop_first()),
        );
        vstd::utf8::encode_utf8_decode_utf8(left[0]);
        vstd::utf8::encode_utf8_decode_utf8(right[0]);
        assert forall|i: int| 0 <= i < left.drop_first().len() implies vstd::utf8::encode_utf8(
            #[trigger] left.drop_first()[i],
        ).len() < digest::pow256(8) by {
            assert(left.drop_first()[i] == left[i + 1]);
        }
        assert forall|i: int| 0 <= i < right.drop_first().len() implies vstd::utf8::encode_utf8(
            #[trigger] right.drop_first()[i],
        ).len() < digest::pow256(8) by {
            assert(right.drop_first()[i] == right[i + 1]);
        }
        lemma_components_injective(left.drop_first(), right.drop_first());
        assert(left =~= seq![left[0]] + left.drop_first());
        assert(right =~= seq![right[0]] + right.drop_first());
    }
}

/// Identities are namespaced and their components are delimited: two identities
/// hash the same bytes only when namespace and components are the same, so no
/// regrouping of text across components and no other namespace is hashed alike.
pub proof fn law_preimage_is_injective(
    left_namespace: Seq<char>,
    left: Seq<Seq<char>>,
    right_namespace: Seq<char>,
    right: Seq<Seq<char>>,
)
    requires
        texts_fit(left.push(left_namespace)),
        texts_fit(right.push(right_namespace)),
        preimage(left_namespace, left) == preimage(right_namespace, right),
    ensures
        left_namespace == right_namespace,
        left == right,
{
    let domain = vstd::utf8::encode_utf8("codeatlas-stable-id-v1"@);
    let a = vstd::utf8::encode_utf8(left_namespace);
    let b = vstd::utf8::encode_utf8(right_namespace);
    assert(left.push(left_namespace)[left.len() as int] == left_namespace);
    assert(right.push(right_namespace)[right.len() as int] == right_namespace);
    assert forall|i: int| 0 <= i < left.len() implies vstd::utf8::encode_utf8(
        #[trigger] left[i],
    ).len() < digest::pow256(8) by {
        assert(left.push(left_namespace)[i] == left[i]);
    }
    assert forall|i: int| 0 <= i < right.len() implies vstd::utf8::encode_utf8(
        #[trigger] right[i],
    ).len() < digest::pow256(8) by {
        assert(right.push(right_namespace)[i] == right[i]);
    }
    let tail_a = digest::framed(a) + digest::components(left);
    let tail_b = digest::framed(b) + digest::components(right);
    assert(preimage(left_namespace, left).skip(domain.len() as int) =~= tail_a);
    assert(preimage(right_namespace, right).skip(domain.len() as int) =~= tail_b);
    digest::lemma_frame_is_prefix_free(a, digest::components(left), b, digest::components(right));
    vstd::utf8::encode_utf8_decode_utf8(left_namespace);
    vstd::utf8::encode_utf8_decode_utf8(right_namespace);
    lemma_components_injective(left, right);
}

/// The deterministic identity of a repository.
#[derive(Clone, Copy, Debug, PartialEq, Eq, PartialOrd, Ord, Hash, Structural)]
pub struct RepositoryId {
    pub value: u128,
}

impl RepositoryId {
    /// The identity that a list of components has.
    pub open spec fn of(parts: Seq<Seq<char>>) -> RepositoryId {
        RepositoryId { value: stable_value("repository"@, parts) }
    }

    /// Derives an ID from ordered canonical identity components, which are
    /// length-delimited and hashed.
    pub fn from_stable_parts(parts: &[&str]) -> (id: RepositoryId)
        ensures
            id == RepositoryId::of(text::views(parts@)),
    {
        RepositoryId { value: derive_value("repository", parts) }
    }

    /// Parses 32 hexadecimal characters.
    pub fn parse(value: &str) -> (parsed: Result<RepositoryId, IdParseError>)
        ensures
            match parsed {
                Ok(id) => parses_to(value@, Ok(id.value)),
                Err(error) => parses_to(value@, Err(error)),
            },
    {
        match parse_value(value) {
            Ok(value) => Ok(RepositoryId { value }),
            Err(error) => Err(error),
        }
    }

    /// The 32 lower-case hexadecimal characters of this ID.
    pub fn to_string(&self) -> (text: String)
        ensures
            text@ == id_text(self.value),
    {
        value_text(self.value)
    }
}

impl core::str::FromStr for RepositoryId {
    type Err = IdParseError;

    fn from_str(value: &str) -> (parsed: Result<RepositoryId, IdParseError>)
        ensures
            match parsed {
                Ok(id) => parses_to(value@, Ok(id.value)),
                Err(error) => parses_to(value@, Err(error)),
            },
    {
        RepositoryId::parse(value)
    }
}

/// The deterministic identity of a file.
#[derive(Clone, Copy, Debug, PartialEq, Eq, PartialOrd, Ord, Hash, Structural)]
pub struct FileId {
    pub value: u128,
}

impl FileId {
    /// The identity that a list of components has.
    pub open spec fn of(parts: Seq<Seq<char>>) -> FileId {
        FileId { value: stable_value("file"@, parts) }
    }

    /// Derives an ID from ordered canonical identity components, which are
    /// length-delimited and hashed.
    pub fn from_stable_parts(parts: &[&str]) -> (id: FileId)
        ensures
            id == FileId::of(text::views(parts@)),
    {
        FileId { value: derive_value("file", parts) }
    }

    /// Parses 32 hexadecimal characters.
    pub fn parse(value: &str) -> (parsed: Result<FileId, IdParseError>)
        ensures
            match parsed {
                Ok(id) => parses_to(value@, Ok(id.value)),
                Err(error) => parses_to(value@, Err(error)),
            },
    {
        match parse_value(value) {
            Ok(value) => Ok(FileId { value }),
            Err(error) => Err(error),
        }
    }

    /// The 32 lower-case hexadecimal characters of this ID.
    pub fn to_string(&self) -> (text: String)
        ensures
            text@ == id_text(self.value),
    {
        value_text(self.value)
    }
}

impl core::str::FromStr for FileId {
    type Err = IdParseError;

    fn from_str(value: &str) -> (parsed: Result<FileId, IdParseError>)
        ensures
            match parsed {
                Ok(id) => parses_to(value@, Ok(id.value)),
                Err(error) => parses_to(value@, Err(error)),
            },
    {
        FileId::parse(value)
    }
}

/// The deterministic identity of a module.
#[derive(Clone, Copy, Debug, PartialEq, Eq, PartialOrd, Ord, Hash, Structural)]
pub struct ModuleId {
    pub value: u128,
}

impl ModuleId {
    /// The identity that a list of components has.
    pub open spec fn of(parts: Seq<Seq<char>>) -> ModuleId {
        ModuleId { value: stable_value("module"@, parts) }
    }

    /// Derives an ID from ordered canonical identity components, which are
    /// length-delimited and hashed.
    pub fn from_stable_parts(parts: &[&str]) -> (id: ModuleId)
        ensures
            id == ModuleId::of(text::views(parts@)),
    {
        ModuleId { value: derive_value("module", parts) }
    }

    /// Parses 32 hexadecimal characters.
    pub fn parse(value: &str) -> (parsed: Result<ModuleId, IdParseError>)
        ensures
            match parsed {
                Ok(id) => parses_to(value@, Ok(id.value)),
                Err(error) => parses_to(value@, Err(error)),
            },
    {
        match parse_value(value) {
            Ok(value) => Ok(ModuleId { value }),
            Err(error) => Err(error),
        }
    }

    /// The 32 lower-case hexadecimal characters of this ID.
    pub fn to_string(&self) -> (text: String)
        ensures
            text@ == id_text(self.value),
    {
        value_text(self.value)
    }
}

impl core::str::FromStr for ModuleId {
    type Err = IdParseError;

    fn from_str(value: &str) -> (parsed: Result<ModuleId, IdParseError>)
        ensures
            match parsed {
                Ok(id) => parses_to(value@, Ok(id.value)),
                Err(error) => parses_to(value@, Err(error)),
            },
    {
        ModuleId::parse(value)
    }
}

/// The deterministic identity of a symbol.
#[derive(Clone, Copy, Debug, PartialEq, Eq, PartialOrd, Ord, Hash, Structural)]
pub struct SymbolId {
    pub value: u128,
}

impl SymbolId {
    /// The identity that a list of components has.
    pub open spec fn of(parts: Seq<Seq<char>>) -> SymbolId {
        SymbolId { value: stable_value("symbol"@, parts) }
    }

    /// Derives an ID from ordered canonical identity components, which are
    /// length-delimited and hashed.
    pub fn from_stable_parts(parts: &[&str]) -> (id: SymbolId)
        ensures
            id == SymbolId::of(text::views(parts@)),
    {
        SymbolId { value: derive_value("symbol", parts) }
    }

    /// Parses 32 hexadecimal characters.
    pub fn parse(value: &str) -> (parsed: Result<SymbolId, IdParseError>)
        ensures
            match parsed {
                Ok(id) => parses_to(value@, Ok(id.value)),
                Err(error) => parses_to(value@, Err(error)),
            },
    {
        match parse_value(value) {
            Ok(value) => Ok(SymbolId { value }),
            Err(error) => Err(error),
        }
    }

    /// The 32 lower-case hexadecimal characters of this ID.
    pub fn to_string(&self) -> (text: String)
        ensures
            text@ == id_text(self.value),
    {
        value_text(self.value)
    }
}

impl core::str::FromStr for SymbolId {
    type Err = IdParseError;

    fn from_str(value: &str) -> (parsed: Result<SymbolId, IdParseError>)
        ensures
            match parsed {
                Ok(id) => parses_to(value@, Ok(id.value)),
                Err(error) => parses_to(value@, Err(error)),
            },
    {
        SymbolId::parse(value)
    }
}

/// The deterministic identity of an import edge.
#[derive(Clone, Copy, Debug, PartialEq, Eq, PartialOrd, Ord, Hash, Structural)]
pub struct ImportEdgeId {
    pub value: u128,
}

impl ImportEdgeId {
    /// The identity that a list of components has.
    pub open spec fn of(parts: Seq<Seq<char>>) -> ImportEdgeId {
        ImportEdgeId { value: stable_value("import-edge"@, parts) }
    }

    /// Derives an ID from ordered canonical identity components, which are
    /// length-delimited and hashed.
    pub fn from_stable_parts(parts: &[&str]) -> (id: ImportEdgeId)
        ensures
            id == ImportEdgeId::of(text::views(parts@)),
    {
        ImportEdgeId { value: derive_value("import-edge", parts) }
    }

    /// Parses 32 hexadecimal characters.
    pub fn parse(value: &str) -> (parsed: Result<ImportEdgeId, IdParseError>)
        ensures
            match parsed {
                Ok(id) => parses_to(value@, Ok(id.value)),
                Err(error) => parses_to(value@, Err(error)),
            },
    {
        match parse_value(value) {
            Ok(value) => Ok(ImportEdgeId { value }),
            Err(error) => Err(error),
        }
    }

    /// The 32 lower-case hexadecimal characters of this ID.
    pub fn to_string(&self) -> (text: String)
        ensures
            text@ == id_text(self.value),
    {
        value_text(self.value)
    }
}

impl core::str::FromStr for ImportEdgeId {
    type Err = IdParseError;

    fn from_str(value: &str) -> (parsed: Result<ImportEdgeId, IdParseError>)
        ensures
            match parsed {
                Ok(id) => parses_to(value@, Ok(id.value)),
                Err(error) => parses_to(value@, Err(error)),
            },
    {
        ImportEdgeId::parse(value)
    }
}

/// The deterministic identity of a reference edge.
#[derive(Clone, Copy, Debug, PartialEq, Eq, PartialOrd, Ord, Hash, Structural)]
pub struct ReferenceEdgeId {
    pub value: u128,
}

impl ReferenceEdgeId {
    /// The identity that a list of components has.
    pub open spec fn of(parts: Seq<Seq<char>>) -> ReferenceEdgeId {
        ReferenceEdgeId { value: stable_value("reference-edge"@, parts) }
    }

    /// Derives an ID from ordered canonical identity components, which are
    /// length-delimited and hashed.
    pub fn from_stable_parts(parts: &[&str]) -> (id: ReferenceEdgeId)
        ensures
            id == ReferenceEdgeId::of(text::views(parts@)),
    {
        ReferenceEdgeId { value: derive_value("reference-edge", parts) }
    }

    /// Parses 32 hexadecimal characters.
    pub fn parse(value: &str) -> (parsed: Result<ReferenceEdgeId, IdParseError>)
        ensures
            match parsed {
                Ok(id) => parses_to(value@, Ok(id.value)),
                Err(error) => parses_to(value@, Err(error)),
            },
    {
        match parse_value(value) {
            Ok(value) => Ok(ReferenceEdgeId { value }),
            Err(error) => Err(error),
        }
    }

    /// The 32 lower-case hexadecimal characters of this ID.
    pub fn to_string(&self) -> (text: String)
        ensures
            text@ == id_text(self.value),
    {
        value_text(self.value)
    }
}

impl core::str::FromStr for ReferenceEdgeId {
    type Err = IdParseError;

    fn from_str(value: &str) -> (parsed: Result<ReferenceEdgeId, IdParseError>)
        ensures
            match parsed {
                Ok(id) => parses_to(value@, Ok(id.value)),
                Err(error) => parses_to(value@, Err(error)),
            },
    {
        ReferenceEdgeId::parse(value)
    }
}

/// The deterministic identity of a call edge.
#[derive(Clone, Copy, Debug, PartialEq, Eq, PartialOrd, Ord, Hash, Structural)]
pub struct CallEdgeId {
    pub value: u128,
}

impl CallEdgeId {
    /// The identity that a list of components has.
    pub open spec fn of(parts: Seq<Seq<char>>) -> CallEdgeId {
        CallEdgeId { value: stable_value("call-edge"@, parts) }
    }

    /// Derives an ID from ordered canonical identity components, which are
    /// length-delimited and hashed.
    pub fn from_stable_parts(parts: &[&str]) -> (id: CallEdgeId)
        ensures
            id == CallEdgeId::of(text::views(parts@)),
    {
        CallEdgeId { value: derive_value("call-edge", parts) }
    }

    /// Parses 32 hexadecimal characters.
    pub fn parse(value: &str) -> (parsed: Result<CallEdgeId, IdParseError>)
        ensures
            match parsed {
                Ok(id) => parses_to(value@, Ok(id.value)),
                Err(error) => parses_to(value@, Err(error)),
            },
    {
        match parse_value(value) {
            Ok(value) => Ok(CallEdgeId { value }),
            Err(error) => Err(error),
        }
    }

    /// The 32 lower-case hexadecimal characters of this ID.
    pub fn to_string(&self) -> (text: String)
        ensures
            text@ == id_text(self.value),
    {
        value_text(self.value)
    }
}

impl core::str::FromStr for CallEdgeId {
    type Err = IdParseError;

    fn from_str(value: &str) -> (parsed: Result<CallEdgeId, IdParseError>)
        ensures
            match parsed {
                Ok(id) => parses_to(value@, Ok(id.value)),
                Err(error) => parses_to(value@, Err(error)),
            },
    {
        CallEdgeId::parse(value)
    }
}

/// The deterministic identity of an entry point.
#[derive(Clone, Copy, Debug, PartialEq, Eq, PartialOrd, Ord, Hash, Structural)]
pub struct EntryPointId {
    pub value: u128,
}

impl EntryPointId {
    /// The identity that a list of components has.
    pub open spec fn of(parts: Seq<Seq<char>>) -> EntryPointId {
        EntryPointId { value: stable_value("entry-point"@, parts) }
    }

    /// Derives an ID from ordered canonical identity components, which are
    /// length-delimited and hashed.
    pub fn from_stable_parts(parts: &[&str]) -> (id: EntryPointId)
        ensures
            id == EntryPointId::of(text::views(parts@)),
    {
        EntryPointId { value: derive_value("entry-point", parts) }
    }

    /// Parses 32 hexadecimal characters.
    pub fn parse(value: &str) -> (parsed: Result<EntryPointId, IdParseError>)
        ensures
            match parsed {
                Ok(id) => parses_to(value@, Ok(id.value)),
                Err(error) => parses_to(value@, Err(error)),
            },
    {
        match parse_value(value) {
            Ok(value) => Ok(EntryPointId { value }),
            Err(error) => Err(error),
        }
    }

    /// The 32 lower-case hexadecimal characters of this ID.
    pub fn to_string(&self) -> (text: String)
        ensures
            text@ == id_text(self.value),
    {
        value_text(self.value)
    }
}

impl core::str::FromStr for EntryPointId {
    type Err = IdParseError;

    fn from_str(value: &str) -> (parsed: Result<EntryPointId, IdParseError>)
        ensures
            match parsed {
                Ok(id) => parses_to(value@, Ok(id.value)),
                Err(error) => parses_to(value@, Err(error)),
            },
    {
        EntryPointId::parse(value)
    }
}

/// The deterministic identity of a piece of evidence.
#[derive(Clone, Copy, Debug, PartialEq, Eq, PartialOrd, Ord, Hash, Structural)]
pub struct EvidenceId {
    pub value: u128,
}

impl EvidenceId {
    /// The identity that a list of components has.
    pub open spec fn of(parts: Seq<Seq<char>>) -> EvidenceId {
        EvidenceId { value: stable_value("evidence"@, parts) }
    }

    /// Derives an ID from ordered canonical identity components, which are
    /// length-delimited and hashed.
    pub fn from_stable_parts(parts: &[&str]) -> (id: EvidenceId)
        ensures
            id == EvidenceId::of(text::views(parts@)),
    {
        EvidenceId { value: derive_value("evidence", parts) }
    }

    /// Parses 32 hexadecimal characters.
    pub fn parse(value: &str) -> (parsed: Result<EvidenceId, IdParseError>)
        ensures
            match parsed {
                Ok(id) => parses_to(value@, Ok(id.value)),
                Err(error) => parses_to(value@, Err(error)),
            },
    {
        match parse_value(value) {
            Ok(value) => Ok(EvidenceId { value }),
            Err(error) => Err(error),
        }
    }

    /// The 32 lower-case hexadecimal characters of this ID.
    pub fn to_string(&self) -> (text: String)
        ensures
            text@ == id_text(self.value),
    {
        value_text(self.value)
    }
}

impl core::str::FromStr for EvidenceId {
    type Err = IdParseError;

    fn from_str(value: &str) -> (parsed: Result<EvidenceId, IdParseError>)
        ensures
            match parsed {
                Ok(id) => parses_to(value@, Ok(id.value)),
                Err(error) => parses_to(value@, Err(error)),
            },
    {
        EvidenceId::parse(value)
    }
}

/// The deterministic identity of a claim.
#[derive(Clone, Copy, Debug, PartialEq, Eq, PartialOrd, Ord, Hash, Structural)]
pub struct ClaimId {
    pub value: u128,
}

impl ClaimId {
    /// The identity that a list of components has.
    pub open spec fn of(parts: Seq<Seq<char>>) -> ClaimId {
        ClaimId { value: stable_value("claim"@, parts) }
    }

    /// Derives an ID from ordered canonical identity components, which are
    /// length-delimited and hashed.
    pub fn from_stable_parts(parts: &[&str]) -> (id: ClaimId)
        ensures
            id == ClaimId::of(text::views(parts@)),
    {
        ClaimId { value: derive_value("claim", parts) }
    }

    /// Parses 32 hexadecimal characters.
    pub fn parse(value: &str) -> (parsed: Result<ClaimId, IdParseError>)
        ensures
            match parsed {
                Ok(id) => parses_to(value@, Ok(id.value)),
                Err(error) => parses_to(value@, Err(error)),
            },
    {
        match parse_value(value) {
            Ok(value) => Ok(ClaimId { value }),
            Err(error) => Err(error),
        }
    }

    /// The 32 lower-case hexadecimal characters of this ID.
    pub fn to_string(&self) -> (text: String)
        ensures
            text@ == id_text(self.value),
    {
        value_text(self.value)
    }
}

impl core::str::FromStr for ClaimId {
    type Err = IdParseError;

    fn from_str(value: &str) -> (parsed: Result<ClaimId, IdParseError>)
        ensures
            match parsed {
                Ok(id) => parses_to(value@, Ok(id.value)),
                Err(error) => parses_to(value@, Err(error)),
            },
    {
        ClaimId::parse(value)
    }
}

/// The deterministic identity of a diagram.
#[derive(Clone, Copy, Debug, PartialEq, Eq, PartialOrd, Ord, Hash, Structural)]
pub struct DiagramId {
    pub value: u128,
}

impl DiagramId {
    /// The identity that a list of components has.
    pub open spec fn of(parts: Seq<Seq<char>>) -> DiagramId {
        DiagramId { value: stable_value("diagram"@, parts) }
    }

    /// Derives an ID from ordered canonical identity components, which are
    /// length-delimited and hashed.
    pub fn from_stable_parts(parts: &[&str]) -> (id: DiagramId)
        ensures
            id == DiagramId::of(text::views(parts@)),
    {
        DiagramId { value: derive_value("diagram", parts) }
    }

    /// Parses 32 hexadecimal characters.
    pub fn parse(value: &str) -> (parsed: Result<DiagramId, IdParseError>)
        ensures
            match parsed {
                Ok(id) => parses_to(value@, Ok(id.value)),
                Err(error) => parses_to(value@, Err(error)),
            },
    {
        match parse_value(value) {
            Ok(value) => Ok(DiagramId { value }),
            Err(error) => Err(error),
        }
    }

    /// The 32 lower-case hexadecimal characters of this ID.
    pub fn to_string(&self) -> (text: String)
        ensures
            text@ == id_text(self.value),
    {
        value_text(self.value)
    }
}

impl core::str::FromStr for DiagramId {
    type Err = IdParseError;

    fn from_str(value: &str) -> (parsed: Result<DiagramId, IdParseError>)
        ensures
            match parsed {
                Ok(id) => parses_to(value@, Ok(id.value)),
                Err(error) => parses_to(value@, Err(error)),
            },
    {
        DiagramId::parse(value)
    }
}

/// The deterministic identity of a call path.
#[derive(Clone, Copy, Debug, PartialEq, Eq, PartialOrd, Ord, Hash, Structural)]
pub struct CallPathId {
    pub value: u128,
}

impl CallPathId {
    /// The identity that a list of components has.
    pub open spec fn of(parts: Seq<Seq<char>>) -> CallPathId {
        CallPathId { value: stable_value("call-path"@, parts) }
    }

    /// Derives an ID from ordered canonical identity components, which are
    /// length-delimited and hashed.
    pub fn from_stable_parts(parts: &[&str]) -> (id: CallPathId)
        ensures
            id == CallPathId::of(text::views(parts@)),
    {
        CallPathId { value: derive_value("call-path", parts) }
    }

    /// Parses 32 hexadecimal characters.
    pub fn parse(value: &str) -> (parsed: Result<CallPathId, IdParseError>)
        ensures
            match parsed {
                Ok(id) => parses_to(value@, Ok(id.value)),
                Err(error) => parses_to(value@, Err(error)),
            },
    {
        match parse_value(value) {
            Ok(value) => Ok(CallPathId { value }),
            Err(error) => Err(error),
        }
    }

    /// The 32 lower-case hexadecimal characters of this ID.
    pub fn to_string(&self) -> (text: String)
        ensures
            text@ == id_text(self.value),
    {
        value_text(self.value)
    }
}

impl core::str::FromStr for CallPathId {
    type Err = IdParseError;

    fn from_str(value: &str) -> (parsed: Result<CallPathId, IdParseError>)
        ensures
            match parsed {
                Ok(id) => parses_to(value@, Ok(id.value)),
                Err(error) => parses_to(value@, Err(error)),
            },
    {
        CallPathId::parse(value)
    }
}

/// The deterministic identity of a tool call.
#[derive(Clone, Copy, Debug, PartialEq, Eq, PartialOrd, Ord, Hash, Structural)]
pub struct ToolCallId {
    pub value: u128,
}

impl ToolCallId {
    /// The identity that a list of components has.
    pub open spec fn of(parts: Seq<Seq<char>>) -> ToolCallId {
        ToolCallId { value: stable_value("tool-call"@, parts) }
    }

    /// Derives an ID from ordered canonical identity components, which are
    /// length-delimited and hashed.
    pub fn from_stable_parts(parts: &[&str]) -> (id: ToolCallId)
        ensures
            id == ToolCallId::of(text::views(parts@)),
    {
        ToolCallId { value: derive_value("tool-call", parts) }
    }

    /// Parses 32 hexadecimal characters.
    pub fn parse(value: &str) -> (parsed: Result<ToolCallId, IdParseError>)
        ensures
            match parsed {
                Ok(id) => parses_to(value@, Ok(id.value)),
                Err(error) => parses_to(value@, Err(error)),
            },
    {
        match parse_value(value) {
            Ok(value) => Ok(ToolCallId { value }),
            Err(error) => Err(error),
        }
    }

    /// The 32 lower-case hexadecimal characters of this ID.
    pub fn to_string(&self) -> (text: String)
        ensures
            text@ == id_text(self.value),
    {
        value_text(self.value)
    }
}

impl core::str::FromStr for ToolCallId {
    type Err = IdParseError;

    fn from_str(value: &str) -> (parsed: Result<ToolCallId, IdParseError>)
        ensures
            match parsed {
                Ok(id) => parses_to(value@, Ok(id.value)),
                Err(error) => parses_to(value@, Err(error)),
            },
    {
        ToolCallId::parse(value)
    }
}

/// The deterministic identity of a model call.
#[derive(Clone, Copy, Debug, PartialEq, Eq, PartialOrd, Ord, Hash, Structural)]
pub struct ModelCallId {
    pub value: u128,
}

impl ModelCallId {
    /// The identity that a list of components has.
    pub open spec fn of(parts: Seq<Seq<char>>) -> ModelCallId {
        ModelCallId { value: stable_value("model-call"@, parts) }
    }

    /// Derives an ID from ordered canonical identity components, which are
    /// length-delimited and hashed.
    pub fn from_stable_parts(parts: &[&str]) -> (id: ModelCallId)
        ensures
            id == ModelCallId::of(text::views(parts@)),
    {
        ModelCallId { value: derive_value("model-call", parts) }
    }

    /// Parses 32 hexadecimal characters.
    pub fn parse(value: &str) -> (parsed: Result<ModelCallId, IdParseError>)
        ensures
            match parsed {
                Ok(id) => parses_to(value@, Ok(id.value)),
                Err(error) => parses_to(value@, Err(error)),
            },
    {
        match parse_value(value) {
            Ok(value) => Ok(ModelCallId { value }),
            Err(error) => Err(error),
        }
    }

    /// The 32 lower-case hexadecimal characters of this ID.
    pub fn to_string(&self) -> (text: String)
        ensures
            text@ == id_text(self.value),
    {
        value_text(self.value)
    }
}

impl core::str::FromStr for ModelCallId {
    type Err = IdParseError;

    fn from_str(value: &str) -> (parsed: Result<ModelCallId, IdParseError>)
        ensures
            match parsed {
                Ok(id) => parses_to(value@, Ok(id.value)),
                Err(error) => parses_to(value@, Err(error)),
            },
    {
        ModelCallId::parse(value)
    }
}

/// The deterministic identity of a request.
#[derive(Clone, Copy, Debug, PartialEq, Eq, PartialOrd, Ord, Hash, Structural)]
pub struct RequestId {
    pub value: u128,
}

impl RequestId {
    /// The identity that a list of components has.
    pub open spec fn of(parts: Seq<Seq<char>>) -> RequestId {
        RequestId { value: stable_value("request"@, parts) }
    }

    /// Derives an ID from ordered canonical identity components, which are
    /// length-delimited and hashed.
    pub fn from_stable_parts(parts: &[&str]) -> (id: RequestId)
        ensures
            id == RequestId::of(text::views(parts@)),
    {
        RequestId { value: derive_value("request", parts) }
    }

    /// Parses 32 hexadecimal characters.
    pub fn parse(value: &str) -> (parsed: Result<RequestId, IdParseError>)
        ensures
            match parsed {
                Ok(id) => parses_to(value@, Ok(id.value)),
                Err(error) => parses_to(value@, Err(error)),
            },
    {
        match parse_value(value) {
            Ok(value) => Ok(RequestId { value }),
            Err(error) => Err(error),
        }
    }

    /// The 32 lower-case hexadecimal characters of this ID.
    pub fn to_string(&self) -> (text: String)
        ensures
            text@ == id_text(self.value),
    {
        value_text(self.value)
    }
}

impl core::str::FromStr for RequestId {
    type Err = IdParseError;

    fn from_str(value: &str) -> (parsed: Result<RequestId, IdParseError>)
        ensures
            match parsed {
                Ok(id) => parses_to(value@, Ok(id.value)),
                Err(error) => parses_to(value@, Err(error)),
            },
    {
        RequestId::parse(value)
    }
}

/// The deterministic identity of a session.
#[derive(Clone, Copy, Debug, PartialEq, Eq, PartialOrd, Ord, Hash, Structural)]
pub struct SessionId {
    pub value: u128,
}

impl SessionId {
    /// The identity that a list of components has.
    pub open spec fn of(parts: Seq<Seq<char>>) -> SessionId {
        SessionId { value: stable_value("session"@, parts) }
    }

    /// Derives an ID from ordered canonical identity components, which are
    /// length-delimited and hashed.
    pub fn from_stable_parts(parts: &[&str]) -> (id: SessionId)
        ensures
            id == SessionId::of(text::views(parts@)),
    {
        SessionId { value: derive_value("session", parts) }
    }

    /// Parses 32 hexadecimal characters.
    pub fn parse(value: &str) -> (parsed: Result<SessionId, IdParseError>)
        ensures
            match parsed {
                Ok(id) => parses_to(value@, Ok(id.value)),
                Err(error) => parses_to(value@, Err(error)),
            },
    {
        match parse_value(value) {
            Ok(value) => Ok(SessionId { value }),
            Err(error) => Err(error),
        }
    }

    /// The 32 lower-case hexadecimal characters of this ID.
    pub fn to_string(&self) -> (text: String)
        ensures
            text@ == id_text(self.value),
    {
        value_text(self.value)
    }
}

impl core::str::FromStr for SessionId {
    type Err = IdParseError;

    fn from_str(value: &str) -> (parsed: Result<SessionId, IdParseError>)
        ensures
            match parsed {
                Ok(id) => parses_to(value@, Ok(id.value)),
                Err(error) => parses_to(value@, Err(error)),
            },
    {
        SessionId::parse(value)
    }
}

/// The deterministic identity of an answer.
#[derive(Clone, Copy, Debug, PartialEq, Eq, PartialOrd, Ord, Hash, Structural)]
pub struct AnswerId {
    pub value: u128,
}

impl AnswerId {
    /// The identity that a list of components has.
    pub open spec fn of(parts: Seq<Seq<char>>) -> AnswerId {
        AnswerId { value: stable_value("answer"@, parts) }
    }

    /// Derives an ID from ordered canonical identity components, which are
    /// length-delimited and hashed.
    pub fn from_stable_parts(parts: &[&str]) -> (id: AnswerId)
        ensures
            id == AnswerId::of(text::views(parts@)),
    {
        AnswerId { value: derive_value("answer", parts) }
    }

    /// Parses 32 hexadecimal characters.
    pub fn parse(value: &str) -> (parsed: Result<AnswerId, IdParseError>)
        ensures
            match parsed {
                Ok(id) => parses_to(value@, Ok(id.value)),
                Err(error) => parses_to(value@, Err(error)),
            },
    {
        match parse_value(value) {
            Ok(value) => Ok(AnswerId { value }),
            Err(error) => Err(error),
        }
    }

    /// The 32 lower-case hexadecimal characters of this ID.
    pub fn to_string(&self) -> (text: String)
        ensures
            text@ == id_text(self.value),
    {
        value_text(self.value)
    }
}

impl core::str::FromStr for AnswerId {
    type Err = IdParseError;

    fn from_str(value: &str) -> (parsed: Result<AnswerId, IdParseError>)
        ensures
            match parsed {
                Ok(id) => parses_to(value@, Ok(id.value)),
                Err(error) => parses_to(value@, Err(error)),
            },
    {
        AnswerId::parse(value)
    }
}

} // verus!
