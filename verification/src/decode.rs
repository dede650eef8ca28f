//! Decoding: symbols to bytes, eight bits at a time.
use vstd::prelude::*;
use crate::text::{decimal_digits, push_ascii, push_decimal, string_from_ascii, text_of};
use crate::alphabet::{is_reverse_table, valid_symbols, zbase32, zbase32_model, Alphabet, AlphabetModel, EncodeOrder, INVALID};

verus! {

/// Why a text could not be decoded.
#[derive(Clone, Copy, Debug, PartialEq, Eq, Structural)]
pub enum DecodeError {
    /// The byte, found at the offset, is no symbol of the alphabet.
    InvalidByte(usize, u8),
    /// The length of the text is invalid. Decoding accepts every length and
    /// never returns this.
    InvalidLength(usize),
}

/// What a decoding error says of itself.
pub open spec fn decode_error_text(e: DecodeError) -> Seq<char> {
    match e {
        DecodeError::InvalidByte(offset, byte) => "Invalid byte "@ + text_of(
            decimal_digits(byte as nat),
        ) + ", offset "@ + text_of(decimal_digits(offset as nat)) + "."@,
        DecodeError::InvalidLength(len) => "Encoded text cannot have a 5-bit remainder: length = "@
            + text_of(decimal_digits(len as nat)),
    }
}

impl DecodeError {
    /// The kind of the error in two words.
    pub fn description(&self) -> (s: &'static str)
        ensures
            s@ == match *self {
                DecodeError::InvalidByte(_, _) => "invalid byte"@,
                DecodeError::InvalidLength(_) => "invalid length"@,
            },
    {
        match *self {
            DecodeError::InvalidByte(_, _) => "invalid byte",
            DecodeError::InvalidLength(_) => "invalid length",
        }
    }

    /// The error in a sentence, with its numbers in decimal.
    pub fn to_string(&self) -> (s: String)
        ensures
            s@ == decode_error_text(*self),
    {
        let mut buf: Vec<u8> = Vec::new();
        proof {
            reveal_strlit("Invalid byte ");
            reveal_strlit(", offset ");
            reveal_strlit(".");
            reveal_strlit("Encoded text cannot have a 5-bit remainder: length = ");
            assert(text_of(buf@) =~= Seq::<char>::empty());
        }
        match *self {
            DecodeError::InvalidByte(index, byte) => {
                push_ascii(&mut buf, "Invalid byte ");
                push_decimal(&mut buf, byte as usize);
                push_ascii(&mut buf, ", offset ");
                push_decimal(&mut buf, index);
                push_ascii(&mut buf, ".");
            },
            DecodeError::InvalidLength(sz) => {
                push_ascii(&mut buf, "Encoded text cannot have a 5-bit remainder: length = ");
                push_decimal(&mut buf, sz);
            },
        }
        string_from_ascii(buf)
    }
}

/// Size of a buffer that holds what `n` symbols decode to: five bytes for
/// every eight symbols, and one byte for each symbol that is left.
pub open spec fn decoded_len_spec(n: int) -> int {
    5 * (n / 8) + n % 8
}

/// Number of bytes that `n` symbols decode to: one for every eight whole bits.
pub open spec fn decoded_count(n: int) -> int {
    (5 * n) / 8
}

/// The 5-bit value that `b` stands for in `symbols`, and zero where it is no
/// symbol.
pub open spec fn symbol_value(symbols: Seq<u8>, b: u8) -> u8 {
    if symbols.contains(b) {
        symbols.index_of(b) as u8
    } else {
        0
    }
}

/// The 5-bit values of a text, symbol by symbol.
pub open spec fn symbol_values(text: Seq<u8>, symbols: Seq<u8>) -> Seq<u8> {
    Seq::new(text.len(), |i: int| symbol_value(symbols, text[i]))
}

/// Value `i` of `values`, and zero past the end.
pub open spec fn quintet_at(values: Seq<u8>, i: int) -> u32 {
    if 0 <= i < values.len() {
        values[i] as u32
    } else {
        0
    }
}

/// Byte `k` of what `values` decode to: bits `8k` to `8k + 7` of the values
/// read as one stream of bits, five from each, in the order of `quintet`.
pub open spec fn decoded_octet(values: Seq<u8>, order: EncodeOrder, k: int) -> u32 {
    let first = (8 * k) / 5;
    let skip = ((8 * k) % 5) as u32;
    let a = quintet_at(values, first);
    let b = quintet_at(values, first + 1);
    let c = quintet_at(values, first + 2);
    match order {
        EncodeOrder::OrderInversed => ((a | (b << 5) | (c << 10)) >> skip) & 0xff,
        EncodeOrder::OrderNormal => (((a << 10) | (b << 5) | c) >> ((7 - skip) as u32)) & 0xff,
    }
}

/// The bytes that the 5-bit values decode to; bits left after the last whole
/// byte are dropped.
pub open spec fn decoded_values(values: Seq<u8>, order: EncodeOrder) -> Seq<u8> {
    Seq::new(
        decoded_count(values.len() as int) as nat,
        |k: int| decoded_octet(values, order, k) as u8,
    )
}

/// The bytes that a text of symbols of `a` decodes to.
pub open spec fn decoded_bytes(text: Seq<u8>, a: AlphabetModel) -> Seq<u8> {
    decoded_values(symbol_values(text, a.symbols), a.order)
}

/// `offset` is the place of the first byte of `text` that is no symbol.
pub open spec fn is_first_invalid(text: Seq<u8>, symbols: Seq<u8>, offset: int) -> bool {
    &&& 0 <= offset < text.len()
    &&& !symbols.contains(text[offset])
    &&& forall|i: int| 0 <= i < offset ==> symbols.contains(#[trigger] text[i])
}

/// Every byte of `text` is a symbol.
pub open spec fn all_symbols(text: Seq<u8>, symbols: Seq<u8>) -> bool {
    forall|i: int| 0 <= i < text.len() ==> symbols.contains(#[trigger] text[i])
}

/// What decoding `text` returns and leaves in the buffer.
pub open spec fn decode_result(
    text: Seq<u8>,
    a: AlphabetModel,
    r: Result<(), DecodeError>,
    buffer: Seq<u8>,
) -> bool {
    match r {
        Ok(_) => all_symbols(text, a.symbols) && buffer == decoded_bytes(text, a),
        Err(DecodeError::InvalidByte(offset, byte)) => {
            &&& is_first_invalid(text, a.symbols, offset as int)
            &&& byte == text[offset as int]
            &&& buffer.len() == 0
        },
        Err(DecodeError::InvalidLength(_)) => false,
    }
}

/// Size of a buffer that holds what `bytes_len` symbols decode to. It never
/// exceeds `bytes_len`, so it is always there.
pub fn decoded_len(bytes_len: usize) -> (r: Option<usize>)
    ensures
        r == Some(decoded_len_spec(bytes_len as int) as usize),
        decoded_count(bytes_len as int) <= decoded_len_spec(bytes_len as int) <= bytes_len,
{
    let full_chunks = bytes_len / 8;
    let remainder = bytes_len % 8;
    match full_chunks.checked_mul(5) {
        Some(c) => c.checked_add(remainder),
        None => None,
    }
}

/// Looks one byte up: its 5-bit value, or `None` where it is no symbol.
fn lookup(table: &[u8; 256], c: u8, Ghost(symbols): Ghost<Seq<u8>>) -> (v: Option<u32>)
    requires
        valid_symbols(symbols),
        is_reverse_table(table@, symbols),
    ensures
        v is Some <==> symbols.contains(c),
        v is Some ==> v->0 == symbol_value(symbols, c) && v->0 < 32,
{
    let decoded = table[c as usize];
    if decoded == INVALID {
        proof {
            if symbols.contains(c) {
                let k = symbols.index_of(c);
                assert(table@[symbols[k] as int] == k);
            }
        }
        None
    } else {
        proof {
            let k = symbols.index_of(c);
            assert(table@[symbols[k] as int] == k);
        }
        Some(decoded as u32)
    }
}

proof fn lemma_inversed_step(a: u32, b: u32, c: u32, d: u32, pending: u32, skip: u32)
    by (bit_vector)
    requires
        a < 32,
        b < 32,
        c < 32,
        d < 32,
        pending == 0 && skip == 10 || pending == 1 && skip == 9 || pending == 2 && skip == 8
            || pending == 3 && skip == 7 || pending == 4 && skip == 6 || pending == 5 && skip == 5
            || pending == 6 && skip == 4 || pending == 7 && skip == 3,
    ensures
        ({
            let acc = (a | (b << 5)) >> skip;
            let x = acc | (c << pending);
            &&& x < 4096
            &&& a == 0 && b == 0 ==> acc == 0
            &&& pending == 0 ==> x == (b | (c << 5)) >> 5
            &&& pending == 1 ==> x == (b | (c << 5)) >> 4
            &&& pending == 2 ==> x == (b | (c << 5)) >> 3
            &&& pending == 3 ==> x >> 8 == (b | (c << 5)) >> 10
            &&& pending == 4 ==> x >> 8 == (b | (c << 5)) >> 9
            &&& pending == 5 ==> x >> 8 == (b | (c << 5)) >> 8
            &&& pending == 6 ==> x >> 8 == (b | (c << 5)) >> 7
            &&& pending == 7 ==> x >> 8 == (b | (c << 5)) >> 6
            &&& pending == 3 ==> x & 0xff == ((b | (c << 5) | (d << 10)) >> 2) & 0xff
            &&& pending == 4 ==> x & 0xff == ((b | (c << 5) | (d << 10)) >> 1) & 0xff
            &&& pending == 5 ==> x & 0xff == ((b | (c << 5) | (d << 10)) >> 0) & 0xff
            &&& pending == 6 ==> x & 0xff == ((a | (b << 5) | (c << 10)) >> 4) & 0xff
            &&& pending == 7 ==> x & 0xff == ((a | (b << 5) | (c << 10)) >> 3) & 0xff
            &&& x & 0xff < 256
        }),
{
}

fn decode_inversed(input: &[u8], buffer: &mut Vec<u8>, table: &[u8; 256], Ghost(symbols): Ghost<Seq<u8>>) -> (r: Result<(), DecodeError>)
    requires
        old(buffer)@.len() == 0,
        valid_symbols(symbols),
        is_reverse_table(table@, symbols),
    ensures
        decode_result(
            input@,
            AlphabetModel { symbols, order: EncodeOrder::OrderInversed },
            r,
            final(buffer)@,
        ),
{
    let ghost values = symbol_values(input@, symbols);
    let n = input.len();
    let mut acc: u32 = 0;
    let mut pending: u32 = 0;
    let mut i: usize = 0;
    proof {
        lemma_inversed_step(0, 0, 0, 0, 0, 10);
    }
    while i < n
        invariant
            n == input@.len(),
            i <= n,
            valid_symbols(symbols),
            is_reverse_table(table@, symbols),
            values == symbol_values(input@, symbols),
            pending < 8,
            pending == 5 * i - 8 * buffer@.len(),
            acc == (quintet_at(values, i - 2) | (quintet_at(values, i - 1) << 5)) >> ((10 - pending) as u32),
            forall|j: int| 0 <= j < i ==> symbols.contains(#[trigger] input@[j]),
            forall|k: int| 0 <= k < buffer@.len() ==> buffer@[k] == decoded_octet(values, EncodeOrder::OrderInversed, k) as u8,
        decreases n - i,
    {
        let c = input[i];
        let v = match lookup(table, c, Ghost(symbols)) {
            Some(v) => v,
            None => {
                buffer.clear();
                return Err(DecodeError::InvalidByte(i, c));
            },
        };
        proof {
            assert(forall|j: int| 0 <= j < values.len() ==> #[trigger] values[j] < 32);
            lemma_inversed_step(
                quintet_at(values, i - 2),
                quintet_at(values, i - 1),
                v,
                quintet_at(values, i + 1),
                pending,
                (10 - pending) as u32,
            );
        }
        acc = acc | (v << pending);
        pending = pending + 5;
        if pending >= 8 {
            buffer.push((acc & 0xff) as u8);
            acc = acc >> 8;
            pending = pending - 8;
        }
        i = i + 1;
    }
    proof {
        assert(buffer@ =~= decoded_values(values, EncodeOrder::OrderInversed));
    }
    Ok(())
}

proof fn lemma_normal_step(a: u32, b: u32, c: u32, d: u32, pending: u32, skip: u32)
    by (bit_vector)
    requires
        a < 32,
        b < 32,
        c < 32,
        d < 32,
        pending == 0 && skip == 8 || pending == 1 && skip == 7 || pending == 2 && skip == 6
            || pending == 3 && skip == 5 || pending == 4 && skip == 4 || pending == 5 && skip == 3
            || pending == 6 && skip == 2 || pending == 7 && skip == 1,
    ensures
        ({
            let acc = ((a << 5) | b) & (0xffu32 >> skip);
            let x = (acc << 5) | c;
            &&& acc < 128
            &&& x < 4096
            &&& a == 0 && b == 0 ==> acc == 0
            &&& pending == 0 ==> x == ((b << 5) | c) & (0xffu32 >> 3)
            &&& pending == 1 ==> x == ((b << 5) | c) & (0xffu32 >> 2)
            &&& pending == 2 ==> x == ((b << 5) | c) & (0xffu32 >> 1)
            &&& pending == 3 ==> x & (0xffu32 >> 8) == ((b << 5) | c) & (0xffu32 >> 8)
            &&& pending == 4 ==> x & (0xffu32 >> 7) == ((b << 5) | c) & (0xffu32 >> 7)
            &&& pending == 5 ==> x & (0xffu32 >> 6) == ((b << 5) | c) & (0xffu32 >> 6)
            &&& pending == 6 ==> x & (0xffu32 >> 5) == ((b << 5) | c) & (0xffu32 >> 5)
            &&& pending == 7 ==> x & (0xffu32 >> 4) == ((b << 5) | c) & (0xffu32 >> 4)
            &&& pending == 3 ==> (x >> 0) & 0xff == (((b << 10) | (c << 5) | d) >> 5) & 0xff
            &&& pending == 4 ==> (x >> 1) & 0xff == (((b << 10) | (c << 5) | d) >> 6) & 0xff
            &&& pending == 5 ==> (x >> 2) & 0xff == (((b << 10) | (c << 5) | d) >> 7) & 0xff
            &&& pending == 6 ==> (x >> 3) & 0xff == (((a << 10) | (b << 5) | c) >> 3) & 0xff
            &&& pending == 7 ==> (x >> 4) & 0xff == (((a << 10) | (b << 5) | c) >> 4) & 0xff
        }),
{
}

proof fn lemma_octet_range(x: u32)
    by (bit_vector)
    ensures
        x & 0xff < 256,
{
}

fn decode_normal(input: &[u8], buffer: &mut Vec<u8>, table: &[u8; 256], Ghost(symbols): Ghost<Seq<u8>>) -> (r: Result<(), DecodeError>)
    requires
        old(buffer)@.len() == 0,
        valid_symbols(symbols),
        is_reverse_table(table@, symbols),
    ensures
        decode_result(
            input@,
            AlphabetModel { symbols, order: EncodeOrder::OrderNormal },
            r,
            final(buffer)@,
        ),
{
    let ghost values = symbol_values(input@, symbols);
    let n = input.len();
    let mut acc: u32 = 0;
    let mut pending: u32 = 0;
    let mut i: usize = 0;
    proof {
        lemma_normal_step(0, 0, 0, 0, 0, 8);
    }
    while i < n
        invariant
            n == input@.len(),
            i <= n,
            valid_symbols(symbols),
            is_reverse_table(table@, symbols),
            values == symbol_values(input@, symbols),
            pending < 8,
            pending == 5 * i - 8 * buffer@.len(),
            acc == ((quintet_at(values, i - 2) << 5) | quintet_at(values, i - 1)) & (0xffu32 >> ((8 - pending) as u32)),
            forall|j: int| 0 <= j < i ==> symbols.contains(#[trigger] input@[j]),
            forall|k: int| 0 <= k < buffer@.len() ==> buffer@[k] == decoded_octet(values, EncodeOrder::OrderNormal, k) as u8,
        decreases n - i,
    {
        let c = input[i];
        let v = match lookup(table, c, Ghost(symbols)) {
            Some(v) => v,
            None => {
                buffer.clear();
                return Err(DecodeError::InvalidByte(i, c));
            },
        };
        proof {
            assert(forall|j: int| 0 <= j < values.len() ==> #[trigger] values[j] < 32);
            lemma_normal_step(
                quintet_at(values, i - 2),
                quintet_at(values, i - 1),
                v,
                quintet_at(values, i + 1),
                pending,
                (8 - pending) as u32,
            );
        }
        acc = (acc << 5) | v;
        pending = pending + 5;
        if pending >= 8 {
            pending = pending - 8;
            proof {
                lemma_octet_range(acc >> pending);
            }
            buffer.push(((acc >> pending) & 0xff) as u8);
            acc = acc & (0xff >> (8 - pending));
        }
        i = i + 1;
    }
    proof {
        assert(buffer@ =~= decoded_values(values, EncodeOrder::OrderNormal));
    }
    Ok(())
}

/// Decodes `input` into `buffer`, replacing what it held. Where a byte of
/// `input` is no symbol of `alphabet`, the error names the first such byte
/// and its offset, and `buffer` is left empty.
pub fn decode_alphabet_vec(input: &[u8], buffer: &mut Vec<u8>, alphabet: &Alphabet) -> (r: Result<(), DecodeError>)
    ensures
        decode_result(input@, alphabet@, r, final(buffer)@),
{
    let table = alphabet.reverse_table();
    buffer.clear();
    match decoded_len(input.len()) {
        Some(estimate) => buffer.reserve(estimate),
        None => {},
    }
    match alphabet.order() {
        EncodeOrder::OrderInversed => decode_inversed(input, buffer, table, Ghost(alphabet@.symbols)),
        EncodeOrder::OrderNormal => decode_normal(input, buffer, table, Ghost(alphabet@.symbols)),
    }
}

/// Decodes `input`, a text of symbols of `alphabet`, or names the first byte
/// that is no symbol.
pub fn decode_alphabet(input: &[u8], alphabet: &Alphabet) -> (r: Result<Vec<u8>, DecodeError>)
    ensures
        match r {
            Ok(bytes) => decode_result(input@, alphabet@, Ok(()), bytes@),
            Err(e) => decode_result(input@, alphabet@, Err(e), Seq::empty()),
        },
{
    let mut buffer: Vec<u8> = Vec::new();
    match decode_alphabet_vec(input, &mut buffer, alphabet) {
        Ok(_) => Ok(buffer),
        Err(e) => Err(e),
    }
}

/// Decodes `input`, a text of zbase32.
pub fn decode(input: &[u8]) -> (r: Result<Vec<u8>, DecodeError>)
    ensures
        match r {
            Ok(bytes) => decode_result(input@, zbase32_model(), Ok(()), bytes@),
            Err(e) => decode_result(input@, zbase32_model(), Err(e), Seq::empty()),
        },
{
    decode_alphabet(input, &zbase32())
}

} // verus!
