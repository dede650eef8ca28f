//! Text of ASCII characters, kept as bytes until it is handed out.
use vstd::prelude::*;
use vstd::string::{is_ascii, is_ascii_spec_bytes, StringSliceAdditionalSpecFns};

verus! {

/// The text that spells `bytes`: one character for each byte.
pub open spec fn text_of(bytes: Seq<u8>) -> Seq<char> {
    Seq::new(bytes.len(), |i: int| bytes[i] as char)
}

/// Every byte is below 128.
pub open spec fn all_ascii(bytes: Seq<u8>) -> bool {
    forall|i: int| 0 <= i < bytes.len() ==> #[trigger] bytes[i] < 128
}

/// The decimal digits of `n`, the highest first, without leading zeros.
pub open spec fn decimal_digits(n: nat) -> Seq<u8>
    decreases n,
{
    if n < 10 {
        seq![(48 + n) as u8]
    } else {
        decimal_digits(n / 10).push((48 + n % 10) as u8)
    }
}

/// The digit of a value below 16, in lower case.
pub open spec fn hex_digit(d: int) -> u8 {
    if d < 10 {
        (48 + d) as u8
    } else {
        (87 + d) as u8
    }
}

/// `0x` and the two hexadecimal digits of `b`.
pub open spec fn hex_byte(b: u8) -> Seq<u8> {
    seq![48u8, 120u8, hex_digit(b as int / 16), hex_digit(b as int % 16)]
}

/// `String::from_utf8` on bytes below 128. Every such byte is a whole
/// character of UTF-8 with the byte's own code, so the call succeeds and the
/// string holds one character for each byte.
#[verifier::external_body]
pub(crate) fn string_from_ascii(bytes: Vec<u8>) -> (s: String)
    requires
        all_ascii(bytes@),
    ensures
        s@ == text_of(bytes@),
{
    String::from_utf8(bytes).unwrap()
}

/// The bytes of a text of ASCII characters spell that text.
pub proof fn lemma_ascii_text(s: &str)
    requires
        is_ascii(s),
    ensures
        all_ascii(s.spec_bytes()),
        text_of(s.spec_bytes()) == s@,
{
    is_ascii_spec_bytes(s);
    assert(text_of(s.spec_bytes()) =~= s@);
}

/// The text of bytes put together is the texts put together.
pub proof fn lemma_text_of_concat(a: Seq<u8>, b: Seq<u8>)
    ensures
        text_of(a + b) == text_of(a) + text_of(b),
{
    assert(text_of(a + b) =~= text_of(a) + text_of(b));
}

/// Appends the bytes of an ASCII text.
pub(crate) fn push_ascii(buf: &mut Vec<u8>, s: &str)
    requires
        is_ascii(s),
        all_ascii(old(buf)@),
    ensures
        final(buf)@ == old(buf)@ + s.spec_bytes(),
        text_of(final(buf)@) == text_of(old(buf)@) + s@,
        all_ascii(final(buf)@),
{
    proof {
        lemma_ascii_text(s);
        lemma_text_of_concat(buf@, s.spec_bytes());
    }
    buf.extend_from_slice(s.as_bytes());
}

/// Appends the decimal digits of `n`.
pub(crate) fn push_decimal(buf: &mut Vec<u8>, n: usize)
    requires
        all_ascii(old(buf)@),
    ensures
        final(buf)@ == old(buf)@ + decimal_digits(n as nat),
        text_of(final(buf)@) == text_of(old(buf)@) + text_of(decimal_digits(n as nat)),
        all_ascii(final(buf)@),
    decreases n,
{
    if n >= 10 {
        push_decimal(buf, n / 10);
    }
    buf.push(48 + (n % 10) as u8);
    proof {
        assert(buf@ =~= old(buf)@ + decimal_digits(n as nat));
        lemma_text_of_concat(old(buf)@, decimal_digits(n as nat));
    }
}

/// The digit of a value below 16, in lower case.
fn hex_digit_of(d: u8) -> (c: u8)
    requires
        d < 16,
    ensures
        c == hex_digit(d as int),
        c < 128,
{
    if d < 10 {
        48 + d
    } else {
        87 + d
    }
}

/// Appends `0x` and the two hexadecimal digits of `b`.
pub(crate) fn push_hex(buf: &mut Vec<u8>, b: u8)
    requires
        all_ascii(old(buf)@),
    ensures
        final(buf)@ == old(buf)@ + hex_byte(b),
        text_of(final(buf)@) == text_of(old(buf)@) + text_of(hex_byte(b)),
        all_ascii(final(buf)@),
{
    buf.push(48);
    buf.push(120);
    buf.push(hex_digit_of(b / 16));
    buf.push(hex_digit_of(b % 16));
    proof {
        assert(buf@ =~= old(buf)@ + hex_byte(b));
        lemma_text_of_concat(old(buf)@, hex_byte(b));
    }
}

} // verus!
