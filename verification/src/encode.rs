//! Encoding: bytes to symbols, five bits at a time.
use vstd::prelude::*;
use crate::alphabet::{is_printable, zbase32, zbase32_model, Alphabet, AlphabetModel, EncodeOrder};
use crate::text::{string_from_ascii, text_of};

verus! {

/// Number of symbols that encode `n` bytes: eight for every five bytes, and
/// 2, 4, 5 or 7 for the 1, 2, 3 or 4 bytes that are left.
pub open spec fn encoded_len_spec(n: int) -> int {
    8 * (n / 5) + (8 * (n % 5) + 4) / 5
}

/// Byte `i` of `bytes`, and zero past the end.
pub open spec fn octet(bytes: Seq<u8>, i: int) -> u32 {
    if 0 <= i < bytes.len() {
        bytes[i] as u32
    } else {
        0
    }
}

/// The 5-bit value that symbol `j` stands for: bits `5j` to `5j + 4` of the
/// input read as one stream of bits, padded with zeros.  In inversed order
/// the stream takes each byte from its lowest bit, and the first bit of the
/// five is the lowest bit of the value; in normal order it takes each byte
/// from its highest bit, and the first bit is the highest of the value.
pub open spec fn quintet(bytes: Seq<u8>, order: EncodeOrder, j: int) -> u32 {
    let first = (5 * j) / 8;
    let skip = ((5 * j) % 8) as u32;
    let a = octet(bytes, first);
    let b = octet(bytes, first + 1);
    match order {
        EncodeOrder::OrderInversed => ((a | (b << 8)) >> skip) & 0x1f,
        EncodeOrder::OrderNormal => (((a << 8) | b) >> ((11 - skip) as u32)) & 0x1f,
    }
}

/// The symbols that encode `bytes` in alphabet `a`.
pub open spec fn encoded_symbols(bytes: Seq<u8>, a: AlphabetModel) -> Seq<u8> {
    Seq::new(
        encoded_len_spec(bytes.len() as int) as nat,
        |j: int| a.symbols[quintet(bytes, a.order, j) as int],
    )
}

proof fn lemma_quintet_range(x: u32)
    by (bit_vector)
    ensures
        x & 0x1f < 32,
{
}

/// Every symbol stands for a value below 32.
pub proof fn lemma_quintet_bound(bytes: Seq<u8>, order: EncodeOrder, j: int)
    ensures
        quintet(bytes, order, j) < 32,
{
    let first = (5 * j) / 8;
    let skip = ((5 * j) % 8) as u32;
    let a = octet(bytes, first);
    let b = octet(bytes, first + 1);
    lemma_quintet_range((a | (b << 8)) >> skip);
    lemma_quintet_range(((a << 8) | b) >> ((11 - skip) as u32));
}

proof fn lemma_inversed_step(prev: u32, cur: u32, next: u32, pending: u32, skip: u32)
    by (bit_vector)
    requires
        prev < 256,
        cur < 256,
        next < 256,
        pending == 0 && skip == 8 || pending == 1 && skip == 7 || pending == 2 && skip == 6
            || pending == 3 && skip == 5 || pending == 4 && skip == 4,
    ensures
        ({
            let x = (prev >> skip) | (cur << pending);
            &&& pending > 0 ==> x & 0x1f == ((prev | (cur << 8)) >> skip) & 0x1f
            &&& pending == 0 ==> x & 0x1f == ((cur | (next << 8)) >> 0) & 0x1f
            &&& pending == 2 ==> (x >> 5) & 0x1f == ((cur | (next << 8)) >> 3) & 0x1f
            &&& pending == 3 ==> (x >> 5) & 0x1f == ((cur | (next << 8)) >> 2) & 0x1f
            &&& pending == 4 ==> (x >> 5) & 0x1f == ((cur | (next << 8)) >> 1) & 0x1f
            &&& pending == 0 ==> x >> 5 == cur >> 5
            &&& pending == 1 ==> x >> 5 == cur >> 4
            &&& pending == 2 ==> x >> 10 == cur >> 8
            &&& pending == 3 ==> x >> 10 == cur >> 7
            &&& pending == 4 ==> x >> 10 == cur >> 6
            &&& x >> 10 < 256
            &&& x >> 5 < 65536
            &&& cur >> 8 == 0
            &&& pending > 0 ==> (prev >> skip) & 0x1f == ((prev | (0u32 << 8)) >> skip) & 0x1f
        }),
{
}

fn encode_inversed(input: &[u8], output_buf: &mut [u8], table: &[u8; 32]) -> (o: usize)
    requires
        old(output_buf)@.len() >= encoded_len_spec(input@.len() as int),
    ensures
        o == encoded_len_spec(input@.len() as int),
        final(output_buf)@.len() == old(output_buf)@.len(),
        forall|j: int| 0 <= j < o ==> final(output_buf)@[j] == table@[quintet(input@, EncodeOrder::OrderInversed, j) as int],
        forall|j: int| o <= j < old(output_buf)@.len() ==> final(output_buf)@[j] == old(output_buf)@[j],
{
    let n = input.len();
    let mut acc: u32 = 0;
    let mut pending: u32 = 0;
    let mut o: usize = 0;
    let mut i: usize = 0;
    proof {
        lemma_inversed_step(0, 0, 0, 0, 8);
    }
    while i < n
        invariant
            n == input@.len(),
            i <= n,
            pending < 5,
            pending == 8 * i - 5 * o,
            acc == octet(input@, i - 1) >> ((8 - pending) as u32),
            output_buf@.len() == old(output_buf)@.len(),
            output_buf@.len() >= encoded_len_spec(n as int),
            forall|j: int| 0 <= j < o ==> output_buf@[j] == table@[quintet(input@, EncodeOrder::OrderInversed, j) as int],
            forall|j: int| o <= j < output_buf@.len() ==> output_buf@[j] == old(output_buf)@[j],
        decreases n - i,
    {
        let cur = input[i] as u32;
        let x = acc | (cur << pending);
        proof {
            lemma_inversed_step(octet(input@, i - 1), cur, octet(input@, i + 1), pending, (8 - pending) as u32);
            lemma_quintet_range(x);
            lemma_quintet_range(x >> 5);
        }
        output_buf[o] = table[(x & 0x1f) as usize];
        o = o + 1;
        if pending >= 2 {
            output_buf[o] = table[((x >> 5) & 0x1f) as usize];
            o = o + 1;
            acc = x >> 10;
            pending = pending - 2;
        } else {
            acc = x >> 5;
            pending = pending + 3;
        }
        i = i + 1;
    }
    if pending > 0 {
        proof {
            lemma_inversed_step(octet(input@, n - 1), 0, 0, pending, (8 - pending) as u32);
            lemma_quintet_range(acc);
        }
        output_buf[o] = table[(acc & 0x1f) as usize];
        o = o + 1;
    }
    o
}

proof fn lemma_normal_step(prev: u32, cur: u32, next: u32, pending: u32, skip: u32)
    by (bit_vector)
    requires
        prev < 256,
        cur < 256,
        next < 256,
        pending == 0 && skip == 8 || pending == 1 && skip == 7 || pending == 2 && skip == 6
            || pending == 3 && skip == 5 || pending == 4 && skip == 4,
    ensures
        ({
            let acc = prev & (0xffu32 >> skip);
            let x = (acc << 8) | cur;
            &&& acc < 16
            &&& prev == 0 ==> acc == 0
            &&& pending == 0 ==> (x >> 3) & 0x1f == (((cur << 8) | next) >> 11) & 0x1f
            &&& pending == 1 ==> (x >> 4) & 0x1f == (((prev << 8) | cur) >> 4) & 0x1f
            &&& pending == 2 ==> (x >> 5) & 0x1f == (((prev << 8) | cur) >> 5) & 0x1f
            &&& pending == 3 ==> (x >> 6) & 0x1f == (((prev << 8) | cur) >> 6) & 0x1f
            &&& pending == 4 ==> (x >> 7) & 0x1f == (((prev << 8) | cur) >> 7) & 0x1f
            &&& pending == 2 ==> (x >> 0) & 0x1f == (((cur << 8) | next) >> 8) & 0x1f
            &&& pending == 3 ==> (x >> 1) & 0x1f == (((cur << 8) | next) >> 9) & 0x1f
            &&& pending == 4 ==> (x >> 2) & 0x1f == (((cur << 8) | next) >> 10) & 0x1f
            &&& pending == 0 ==> x & (0xffu32 >> 5) == cur & (0xffu32 >> 5)
            &&& pending == 1 ==> x & (0xffu32 >> 4) == cur & (0xffu32 >> 4)
            &&& pending == 2 ==> x & (0xffu32 >> 8) == cur & (0xffu32 >> 8)
            &&& pending == 3 ==> x & (0xffu32 >> 7) == cur & (0xffu32 >> 7)
            &&& pending == 4 ==> x & (0xffu32 >> 6) == cur & (0xffu32 >> 6)
            &&& pending == 1 ==> (acc << 4) & 0x1f == (((prev << 8) | 0) >> 4) & 0x1f
            &&& pending == 2 ==> (acc << 3) & 0x1f == (((prev << 8) | 0) >> 5) & 0x1f
            &&& pending == 3 ==> (acc << 2) & 0x1f == (((prev << 8) | 0) >> 6) & 0x1f
            &&& pending == 4 ==> (acc << 1) & 0x1f == (((prev << 8) | 0) >> 7) & 0x1f
        }),
{
}

fn encode_normal(input: &[u8], output_buf: &mut [u8], table: &[u8; 32]) -> (o: usize)
    requires
        old(output_buf)@.len() >= encoded_len_spec(input@.len() as int),
    ensures
        o == encoded_len_spec(input@.len() as int),
        final(output_buf)@.len() == old(output_buf)@.len(),
        forall|j: int| 0 <= j < o ==> final(output_buf)@[j] == table@[quintet(input@, EncodeOrder::OrderNormal, j) as int],
        forall|j: int| o <= j < old(output_buf)@.len() ==> final(output_buf)@[j] == old(output_buf)@[j],
{
    let n = input.len();
    let mut acc: u32 = 0;
    let mut pending: u32 = 0;
    let mut o: usize = 0;
    let mut i: usize = 0;
    proof {
        lemma_normal_step(0, 0, 0, 0, 8);
    }
    while i < n
        invariant
            n == input@.len(),
            i <= n,
            pending < 5,
            pending == 8 * i - 5 * o,
            acc == octet(input@, i - 1) & (0xffu32 >> ((8 - pending) as u32)),
            output_buf@.len() == old(output_buf)@.len(),
            output_buf@.len() >= encoded_len_spec(n as int),
            forall|j: int| 0 <= j < o ==> output_buf@[j] == table@[quintet(input@, EncodeOrder::OrderNormal, j) as int],
            forall|j: int| o <= j < output_buf@.len() ==> output_buf@[j] == old(output_buf)@[j],
        decreases n - i,
    {
        let cur = input[i] as u32;
        proof {
            lemma_normal_step(octet(input@, i - 1), cur, octet(input@, i + 1), pending, (8 - pending) as u32);
        }
        let x = (acc << 8) | cur;
        proof {
            lemma_quintet_range(x >> (pending + 3) as u32);
            if pending >= 2 {
                lemma_quintet_range(x >> (pending - 2) as u32);
            }
        }
        output_buf[o] = table[((x >> (pending + 3)) & 0x1f) as usize];
        o = o + 1;
        if pending >= 2 {
            output_buf[o] = table[((x >> (pending - 2)) & 0x1f) as usize];
            o = o + 1;
            acc = x & (0xff >> (10 - pending));
            pending = pending - 2;
        } else {
            acc = x & (0xff >> (5 - pending));
            pending = pending + 3;
        }
        i = i + 1;
    }
    if pending > 0 {
        proof {
            lemma_normal_step(octet(input@, n - 1), 0, 0, pending, (8 - pending) as u32);
            lemma_quintet_range(acc << (5 - pending) as u32);
        }
        output_buf[o] = table[((acc << (5 - pending)) & 0x1f) as usize];
        o = o + 1;
    }
    o
}

/// Number of symbols that encode `bytes_len` bytes, or `None` where that
/// number does not fit in `usize`.
pub fn encoded_len(bytes_len: usize) -> (r: Option<usize>)
    ensures
        r == if encoded_len_spec(bytes_len as int) <= usize::MAX {
            Some(encoded_len_spec(bytes_len as int) as usize)
        } else {
            None
        },
{
    let groups = bytes_len / 5;
    let rem = bytes_len % 5;
    let tail = (8 * rem + 4) / 5;
    match groups.checked_mul(8) {
        Some(c) => c.checked_add(tail),
        None => None,
    }
}

/// Encodes `input` into the front of `output_buf` and returns the number of
/// symbols written; the rest of the buffer keeps what it held.
pub fn encode_alphabet_slice(input: &[u8], output_buf: &mut [u8], alphabet: &Alphabet) -> (o: usize)
    requires
        old(output_buf)@.len() >= encoded_len_spec(input@.len() as int),
    ensures
        o == encoded_len_spec(input@.len() as int),
        final(output_buf)@.len() == old(output_buf)@.len(),
        final(output_buf)@.subrange(0, o as int) == encoded_symbols(input@, alphabet@),
        forall|j: int| 0 <= j < o ==> is_printable(#[trigger] final(output_buf)@[j]),
        final(output_buf)@.subrange(o as int, old(output_buf)@.len() as int)
            == old(output_buf)@.subrange(o as int, old(output_buf)@.len() as int),
{
    let table = alphabet.symbols();
    let o = match alphabet.order() {
        EncodeOrder::OrderInversed => encode_inversed(input, output_buf, table),
        EncodeOrder::OrderNormal => encode_normal(input, output_buf, table),
    };
    proof {
        assert forall|j: int| 0 <= j < o implies is_printable(#[trigger] output_buf@[j]) by {
            lemma_quintet_bound(input@, alphabet@.order, j);
        }
        assert(output_buf@.subrange(0, o as int) =~= encoded_symbols(input@, alphabet@));
        assert(output_buf@.subrange(o as int, old(output_buf)@.len() as int)
            =~= old(output_buf)@.subrange(o as int, old(output_buf)@.len() as int));
    }
    o
}

/// Encodes `input` in `alphabet` as a string. The number of symbols has to
/// fit in `usize`.
pub fn encode_alphabet(input: &[u8], alphabet: &Alphabet) -> (s: String)
    requires
        encoded_len_spec(input@.len() as int) <= usize::MAX,
    ensures
        s@ == text_of(encoded_symbols(input@, alphabet@)),
{
    let encoded_size = encoded_len(input.len()).unwrap();
    let mut buf: Vec<u8> = vec![0u8; encoded_size];
    let enc_len = encode_alphabet_slice(input, buf.as_mut_slice(), alphabet);
    buf.truncate(enc_len);
    proof {
        assert(buf@ =~= encoded_symbols(input@, alphabet@));
    }
    string_from_ascii(buf)
}

/// Encodes `input` in zbase32.
pub fn encode(input: &[u8]) -> (s: String)
    requires
        encoded_len_spec(input@.len() as int) <= usize::MAX,
    ensures
        s@ == text_of(encoded_symbols(input@, zbase32_model())),
{
    encode_alphabet(input, &zbase32())
}

} // verus!
