//! Byte encodings that are hashed, and the SHA-256 digest of bytes.
use vstd::prelude::*;

verus! {

/// The digest that SHA-256 assigns to a byte sequence.
pub uninterp spec fn sha256_digest(data: Seq<u8>) -> Seq<u8>;

/// `sha2::Sha256::digest` returns the SHA-256 digest of its argument, which is a
/// function of the bytes alone and always 32 bytes long.
#[verifier::external_body]
pub(crate) fn sha256(data: &[u8]) -> (digest: Vec<u8>)
    ensures
        digest@ == sha256_digest(data@),
        digest@.len() == 32,
{
    <sha2::Sha256 as sha2::Digest>::digest(data).to_vec()
}

/// The big-endian encoding of a number in `width` bytes.
pub open spec fn be_bytes(value: nat, width: nat) -> Seq<u8>
    decreases width,
{
    if width == 0 {
        Seq::empty()
    } else {
        be_bytes(value / 256, (width - 1) as nat).push((value % 256) as u8)
    }
}

/// The number that a byte sequence denotes, most significant byte first.
pub open spec fn be_value(bytes: Seq<u8>) -> nat
    decreases bytes.len(),
{
    if bytes.len() == 0 {
        0
    } else {
        be_value(bytes.drop_last()) * 256 + bytes.last() as nat
    }
}

/// The powers of 256.
pub open spec fn pow256(exponent: nat) -> nat
    decreases exponent,
{
    if exponent == 0 {
        1
    } else {
        256 * pow256((exponent - 1) as nat)
    }
}

/// A length-delimited component: eight bytes of length, then the UTF-8 text.
pub open spec fn component(text: Seq<char>) -> Seq<u8> {
    framed(vstd::utf8::encode_utf8(text))
}

/// Bytes behind their length as eight big-endian bytes.
pub open spec fn framed(bytes: Seq<u8>) -> Seq<u8> {
    be_bytes(bytes.len(), 8) + bytes
}

/// The components of a list of texts, one after the other.
pub open spec fn components(parts: Seq<Seq<char>>) -> Seq<u8>
    decreases parts.len(),
{
    if parts.len() == 0 {
        Seq::empty()
    } else {
        components(parts.drop_last()) + component(parts.last())
    }
}

pub fn push_bytes(out: &mut Vec<u8>, bytes: &[u8])
    ensures
        final(out)@ == old(out)@ + bytes@,
{
    let mut index: usize = 0;
    while index < bytes.len()
        invariant
            index <= bytes@.len(),
            out@ == old(out)@ + bytes@.take(index as int),
        decreases bytes@.len() - index,
    {
        assert(bytes@.take(index as int + 1) =~= bytes@.take(index as int).push(bytes@[index as int]));
        out.push(bytes[index]);
        index = index + 1;
    }
    assert(bytes@.take(bytes@.len() as int) =~= bytes@);
}

/// Appends the big-endian encoding of `value` in `width` bytes.
pub fn push_be(out: &mut Vec<u8>, value: u64, width: u8)
    ensures
        final(out)@ == old(out)@ + be_bytes(value as nat, width as nat),
    decreases width,
{
    if width > 0 {
        push_be(out, value / 256, width - 1);
        out.push((value % 256) as u8);
    }
    assert(out@ =~= old(out)@ + be_bytes(value as nat, width as nat));
}

/// Appends bytes behind their length.
pub fn push_framed(out: &mut Vec<u8>, bytes: &[u8])
    ensures
        final(out)@ == old(out)@ + framed(bytes@),
{
    push_be(out, bytes.len() as u64, 8);
    push_bytes(out, bytes);
    assert(out@ =~= old(out)@ + framed(bytes@));
}

/// Appends one length-delimited text component.
pub fn push_component(out: &mut Vec<u8>, text: &str)
    ensures
        final(out)@ == old(out)@ + component(text@),
{
    push_framed(out, text.as_bytes());
}

/// The lower-case hexadecimal digit of a value below sixteen.
pub open spec fn hex_digit(value: int) -> char {
    if value < 10 {
        (48 + value) as u8 as char
    } else {
        (87 + value) as u8 as char
    }
}

/// The last `width` lower-case hexadecimal digits of a number.
pub open spec fn hex_text(value: nat, width: nat) -> Seq<char>
    decreases width,
{
    if width == 0 {
        Seq::empty()
    } else {
        hex_text(value / 16, (width - 1) as nat).push(hex_digit((value % 16) as int))
    }
}

/// Two lower-case hexadecimal digits for each byte.
pub open spec fn hex_of_bytes(bytes: Seq<u8>) -> Seq<char>
    decreases bytes.len(),
{
    if bytes.len() == 0 {
        Seq::empty()
    } else {
        hex_of_bytes(bytes.drop_last()) + hex_text(bytes.last() as nat, 2)
    }
}

fn hex_digit_char(value: u8) -> (digit: char)
    requires
        value < 16,
    ensures
        digit == hex_digit(value as int),
{
    if value < 10 {
        (48u8 + value) as char
    } else {
        (87u8 + value) as char
    }
}

/// Appends the last `width` lower-case hexadecimal digits of `value`.
pub fn push_hex(string: &mut String, value: u128, width: u8)
    ensures
        final(string)@ == old(string)@ + hex_text(value as nat, width as nat),
    decreases width,
{
    if width > 0 {
        push_hex(string, value / 16, width - 1);
        string.push(hex_digit_char((value % 16) as u8));
    }
    assert(string@ =~= old(string)@ + hex_text(value as nat, width as nat));
}

/// The lower-case hexadecimal text of bytes.
pub fn hex_of(bytes: &[u8]) -> (text: String)
    ensures
        text@ == hex_of_bytes(bytes@),
{
    let mut text = String::new();
    let mut index: usize = 0;
    while index < bytes.len()
        invariant
            index <= bytes@.len(),
            text@ == hex_of_bytes(bytes@.take(index as int)),
        decreases bytes@.len() - index,
    {
        assert(bytes@.take(index as int + 1).drop_last() =~= bytes@.take(index as int));
        push_hex(&mut text, bytes[index] as u128, 2);
        index = index + 1;
    }
    assert(bytes@.take(bytes@.len() as int) =~= bytes@);
    text
}

pub proof fn lemma_be_bytes_len(value: nat, width: nat)
    ensures
        be_bytes(value, width).len() == width,
    decreases width,
{
    if width > 0 {
        lemma_be_bytes_len(value / 256, (width - 1) as nat);
    }
}

/// Encoding and decoding a number that fits its width gives the number back.
pub proof fn lemma_be_round_trip(value: nat, width: nat)
    requires
        value < pow256(width),
    ensures
        be_value(be_bytes(value, width)) == value,
    decreases width,
{
    if width > 0 {
        let high = be_bytes(value / 256, (width - 1) as nat);
        lemma_be_round_trip(value / 256, (width - 1) as nat);
        assert(high.push((value % 256) as u8).drop_last() =~= high);
    }
}

pub proof fn lemma_be_value_bound(bytes: Seq<u8>)
    ensures
        be_value(bytes) < pow256(bytes.len()),
    decreases bytes.len(),
{
    if bytes.len() > 0 {
        lemma_be_value_bound(bytes.drop_last());
    }
}

pub proof fn lemma_pow256_values()
    ensures
        pow256(8) == 0x1_0000_0000_0000_0000,
        pow256(16) == 0x1_0000_0000_0000_0000 * 0x1_0000_0000_0000_0000,
{
    reveal_with_fuel(pow256, 17);
}

/// A length-delimited frame at the head of a byte sequence is recovered from it:
/// when two sequences that start with frames are equal, the frames and the rests
/// are equal.
pub proof fn lemma_frame_is_prefix_free(a: Seq<u8>, rest_a: Seq<u8>, b: Seq<u8>, rest_b: Seq<u8>)
    requires
        framed(a) + rest_a == framed(b) + rest_b,
        a.len() < pow256(8),
        b.len() < pow256(8),
    ensures
        a == b,
        rest_a == rest_b,
{
    lemma_be_bytes_len(a.len(), 8);
    lemma_be_bytes_len(b.len(), 8);
    let whole_a = framed(a) + rest_a;
    let whole_b = framed(b) + rest_b;
    assert(whole_a.take(8) =~= be_bytes(a.len(), 8));
    assert(whole_b.take(8) =~= be_bytes(b.len(), 8));
    lemma_be_round_trip(a.len(), 8);
    lemma_be_round_trip(b.len(), 8);
    assert(a.len() == b.len());
    assert(whole_a.subrange(8, 8 + a.len() as int) =~= a);
    assert(whole_b.subrange(8, 8 + b.len() as int) =~= b);
    assert(whole_a.skip(8 + a.len() as int) =~= rest_a);
    assert(whole_b.skip(8 + b.len() as int) =~= rest_b);
}

} // verus!
