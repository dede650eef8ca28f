//! What holds of encoding and decoding together.
use vstd::prelude::*;
use crate::alphabet::{
    bech32_model, build_result, lemma_bech32_valid, lemma_rfc_valid, lemma_zbase32_valid,
    rfc_model, valid_symbols, zbase32_model, Alphabet, AlphabetModel, EncodeOrder,
    ParseAlphabetError,
};
use crate::decode::{all_symbols, decoded_bytes, decoded_count, decoded_octet, quintet_at, symbol_value, symbol_values};
use crate::encode::{encoded_len_spec, encoded_symbols, lemma_quintet_bound, octet, quintet};

verus! {

/// The 5-bit values of the symbols that encode `bytes`.
pub open spec fn encoded_values(bytes: Seq<u8>, order: EncodeOrder) -> Seq<u8> {
    Seq::new(encoded_len_spec(bytes.len() as int) as nat, |j: int| quintet(bytes, order, j) as u8)
}

proof fn lemma_no_bits(skip: u32)
    by (bit_vector)
    ensures
        ((0u32 | (0u32 << 8)) >> skip) & 0x1f == 0,
        (((0u32 << 8) | 0u32) >> skip) & 0x1f == 0,
{
}

proof fn lemma_inversed_octet_0(b0: u32, b1: u32, b2: u32)
    by (bit_vector)
    requires
        b0 < 256,
        b1 < 256,
        b2 < 256,
    ensures
        ({
            let q0 = ((b0 | (b1 << 8)) >> 0) & 0x1f;
            let q1 = ((b0 | (b1 << 8)) >> 5) & 0x1f;
            let q2 = ((b1 | (b2 << 8)) >> 2) & 0x1f;
            ((q0 | (q1 << 5) | (q2 << 10)) >> 0) & 0xff == b0
        }),
{
}

proof fn lemma_inversed_octet_1(b0: u32, b1: u32, b2: u32)
    by (bit_vector)
    requires
        b0 < 256,
        b1 < 256,
        b2 < 256,
    ensures
        ({
            let q0 = ((b0 | (b1 << 8)) >> 5) & 0x1f;
            let q1 = ((b1 | (b2 << 8)) >> 2) & 0x1f;
            let q2 = ((b1 | (b2 << 8)) >> 7) & 0x1f;
            ((q0 | (q1 << 5) | (q2 << 10)) >> 3) & 0xff == b1
        }),
{
}

proof fn lemma_inversed_octet_2(b1: u32, b2: u32, b3: u32, b4: u32)
    by (bit_vector)
    requires
        b1 < 256,
        b2 < 256,
        b3 < 256,
        b4 < 256,
    ensures
        ({
            let q0 = ((b1 | (b2 << 8)) >> 7) & 0x1f;
            let q1 = ((b2 | (b3 << 8)) >> 4) & 0x1f;
            let q2 = ((b3 | (b4 << 8)) >> 1) & 0x1f;
            ((q0 | (q1 << 5) | (q2 << 10)) >> 1) & 0xff == b2
        }),
{
}

proof fn lemma_inversed_octet_3(b2: u32, b3: u32, b4: u32)
    by (bit_vector)
    requires
        b2 < 256,
        b3 < 256,
        b4 < 256,
    ensures
        ({
            let q0 = ((b2 | (b3 << 8)) >> 4) & 0x1f;
            let q1 = ((b3 | (b4 << 8)) >> 1) & 0x1f;
            let q2 = ((b3 | (b4 << 8)) >> 6) & 0x1f;
            ((q0 | (q1 << 5) | (q2 << 10)) >> 4) & 0xff == b3
        }),
{
}

proof fn lemma_inversed_octet_4(b3: u32, b4: u32, b5: u32, b6: u32)
    by (bit_vector)
    requires
        b3 < 256,
        b4 < 256,
        b5 < 256,
        b6 < 256,
    ensures
        ({
            let q0 = ((b3 | (b4 << 8)) >> 6) & 0x1f;
            let q1 = ((b4 | (b5 << 8)) >> 3) & 0x1f;
            let q2 = ((b5 | (b6 << 8)) >> 0) & 0x1f;
            ((q0 | (q1 << 5) | (q2 << 10)) >> 2) & 0xff == b4
        }),
{
}

proof fn lemma_normal_octet_0(b0: u32, b1: u32, b2: u32)
    by (bit_vector)
    requires
        b0 < 256,
        b1 < 256,
        b2 < 256,
    ensures
        ({
            let q0 = (((b0 << 8) | b1) >> 11) & 0x1f;
            let q1 = (((b0 << 8) | b1) >> 6) & 0x1f;
            let q2 = (((b1 << 8) | b2) >> 9) & 0x1f;
            (((q0 << 10) | (q1 << 5) | q2) >> 7) & 0xff == b0
        }),
{
}

proof fn lemma_normal_octet_1(b0: u32, b1: u32, b2: u32)
    by (bit_vector)
    requires
        b0 < 256,
        b1 < 256,
        b2 < 256,
    ensures
        ({
            let q0 = (((b0 << 8) | b1) >> 6) & 0x1f;
            let q1 = (((b1 << 8) | b2) >> 9) & 0x1f;
            let q2 = (((b1 << 8) | b2) >> 4) & 0x1f;
            (((q0 << 10) | (q1 << 5) | q2) >> 4) & 0xff == b1
        }),
{
}

proof fn lemma_normal_octet_2(b1: u32, b2: u32, b3: u32, b4: u32)
    by (bit_vector)
    requires
        b1 < 256,
        b2 < 256,
        b3 < 256,
        b4 < 256,
    ensures
        ({
            let q0 = (((b1 << 8) | b2) >> 4) & 0x1f;
            let q1 = (((b2 << 8) | b3) >> 7) & 0x1f;
            let q2 = (((b3 << 8) | b4) >> 10) & 0x1f;
            (((q0 << 10) | (q1 << 5) | q2) >> 6) & 0xff == b2
        }),
{
}

proof fn lemma_normal_octet_3(b2: u32, b3: u32, b4: u32)
    by (bit_vector)
    requires
        b2 < 256,
        b3 < 256,
        b4 < 256,
    ensures
        ({
            let q0 = (((b2 << 8) | b3) >> 7) & 0x1f;
            let q1 = (((b3 << 8) | b4) >> 10) & 0x1f;
            let q2 = (((b3 << 8) | b4) >> 5) & 0x1f;
            (((q0 << 10) | (q1 << 5) | q2) >> 3) & 0xff == b3
        }),
{
}

proof fn lemma_normal_octet_4(b3: u32, b4: u32, b5: u32, b6: u32)
    by (bit_vector)
    requires
        b3 < 256,
        b4 < 256,
        b5 < 256,
        b6 < 256,
    ensures
        ({
            let q0 = (((b3 << 8) | b4) >> 5) & 0x1f;
            let q1 = (((b4 << 8) | b5) >> 8) & 0x1f;
            let q2 = (((b5 << 8) | b6) >> 11) & 0x1f;
            (((q0 << 10) | (q1 << 5) | q2) >> 5) & 0xff == b4
        }),
{
}

/// Bit `t` of `x`, counted from the lowest.
pub open spec fn bit(x: u32, t: u32) -> bool {
    (x >> t) & 1 == 1
}

/// Where the bit that comes `t`-th in the stream stands in a value of
/// `width` bits: in inversed order the first bit is the lowest, in normal
/// order the highest.
pub open spec fn place(order: EncodeOrder, width: int, t: int) -> u32 {
    match order {
        EncodeOrder::OrderInversed => t as u32,
        EncodeOrder::OrderNormal => (width - 1 - t) as u32,
    }
}

/// Bit `p` of the stream of bits that `bytes` are read as, eight from each
/// byte, and zero past the end.
pub open spec fn byte_stream_bit(bytes: Seq<u8>, order: EncodeOrder, p: int) -> bool {
    bit(octet(bytes, p / 8), place(order, 8, p % 8))
}

/// Bit `p` of the stream of bits that 5-bit values are read as, five from
/// each value, and zero past the end.
pub open spec fn value_stream_bit(values: Seq<u8>, order: EncodeOrder, p: int) -> bool {
    bit(quintet_at(values, p / 5), place(order, 5, p % 5))
}

proof fn lemma_inversed_quintet_bit(a: u32, b: u32, skip: u32, t: u32, u: u32)
    by (bit_vector)
    requires
        a < 256,
        b < 256,
        skip < 8,
        t < 5,
        u < 8,
        skip + t == u || skip + t == u + 8,
    ensures
        skip + t == u ==> (((((a | (b << 8)) >> skip) & 0x1f) >> t) & 1 == 1) == ((a >> u) & 1
            == 1),
        skip + t == u + 8 ==> (((((a | (b << 8)) >> skip) & 0x1f) >> t) & 1 == 1) == ((b >> u) & 1
            == 1),
{
}

proof fn lemma_normal_quintet_bit(a: u32, b: u32, skip: u32, t: u32, u: u32, shift: u32, at: u32, from: u32)
    by (bit_vector)
    requires
        a < 256,
        b < 256,
        skip < 8,
        t < 5,
        u < 8,
        skip + t == u || skip + t == u + 8,
        shift + skip == 11,
        at + t == 4,
        from + u == 7,
    ensures
        skip + t == u ==> ((((((a << 8) | b) >> shift) & 0x1f) >> at) & 1 == 1) == ((a >> from) & 1
            == 1),
        skip + t == u + 8 ==> ((((((a << 8) | b) >> shift) & 0x1f) >> at) & 1 == 1) == ((b >> from)
            & 1 == 1),
{
}

proof fn lemma_inversed_octet_bit(a: u32, b: u32, c: u32, skip: u32, t: u32, u: u32)
    by (bit_vector)
    requires
        a < 32,
        b < 32,
        c < 32,
        skip < 5,
        t < 8,
        u < 5,
        skip + t == u || skip + t == u + 5 || skip + t == u + 10,
    ensures
        skip + t == u ==> (((((a | (b << 5) | (c << 10)) >> skip) & 0xff) >> t) & 1 == 1) == ((a
            >> u) & 1 == 1),
        skip + t == u + 5 ==> (((((a | (b << 5) | (c << 10)) >> skip) & 0xff) >> t) & 1 == 1) == ((b
            >> u) & 1 == 1),
        skip + t == u + 10 ==> (((((a | (b << 5) | (c << 10)) >> skip) & 0xff) >> t) & 1 == 1) == ((
        c >> u) & 1 == 1),
{
}

proof fn lemma_normal_octet_bit(a: u32, b: u32, c: u32, skip: u32, t: u32, u: u32, shift: u32, at: u32, from: u32)
    by (bit_vector)
    requires
        a < 32,
        b < 32,
        c < 32,
        skip < 5,
        t < 8,
        u < 5,
        skip + t == u || skip + t == u + 5 || skip + t == u + 10,
        shift + skip == 7,
        at + t == 7,
        from + u == 4,
    ensures
        skip + t == u ==> ((((((a << 10) | (b << 5) | c) >> shift) & 0xff) >> at) & 1 == 1) == ((a
            >> from) & 1 == 1),
        skip + t == u + 5 ==> ((((((a << 10) | (b << 5) | c) >> shift) & 0xff) >> at) & 1 == 1) == (
        (b >> from) & 1 == 1),
        skip + t == u + 10 ==> ((((((a << 10) | (b << 5) | c) >> shift) & 0xff) >> at) & 1 == 1)
            == ((c >> from) & 1 == 1),
{
}

/// The bits of symbol `j` are bits `5j` to `5j + 4` of the stream of the
/// input's bits.
pub proof fn lemma_quintet_bits(bytes: Seq<u8>, order: EncodeOrder, j: int, t: int)
    requires
        0 <= j,
        0 <= t < 5,
    ensures
        bit(quintet(bytes, order, j), place(order, 5, t)) == byte_stream_bit(bytes, order, 5 * j + t),
{
    let first = (5 * j) / 8;
    let skip = ((5 * j) % 8) as u32;
    let a = octet(bytes, first);
    let b = octet(bytes, first + 1);
    let p = 5 * j + t;
    let u = (p % 8) as u32;
    match order {
        EncodeOrder::OrderInversed => {
            lemma_inversed_quintet_bit(a, b, skip, t as u32, u);
        },
        EncodeOrder::OrderNormal => {
            lemma_normal_quintet_bit(
                a,
                b,
                skip,
                t as u32,
                u,
                (11 - skip) as u32,
                (4 - t) as u32,
                (7 - u) as u32,
            );
        },
    }
}

/// The bits of decoded byte `k` are bits `8k` to `8k + 7` of the stream of
/// the values' bits.
pub proof fn lemma_decoded_octet_bits(values: Seq<u8>, order: EncodeOrder, k: int, t: int)
    requires
        0 <= k,
        0 <= t < 8,
        forall|i: int| 0 <= i < values.len() ==> #[trigger] values[i] < 32,
    ensures
        bit(decoded_octet(values, order, k), place(order, 8, t)) == value_stream_bit(
            values,
            order,
            8 * k + t,
        ),
{
    let first = (8 * k) / 5;
    let skip = ((8 * k) % 5) as u32;
    let a = quintet_at(values, first);
    let b = quintet_at(values, first + 1);
    let c = quintet_at(values, first + 2);
    let p = 8 * k + t;
    let u = (p % 5) as u32;
    match order {
        EncodeOrder::OrderInversed => {
            lemma_inversed_octet_bit(a, b, c, skip, t as u32, u);
        },
        EncodeOrder::OrderNormal => {
            lemma_normal_octet_bit(
                a,
                b,
                c,
                skip,
                t as u32,
                u,
                (7 - skip) as u32,
                (7 - t) as u32,
                (4 - u) as u32,
            );
        },
    }
}

/// Past the last symbol every value is zero, and before it the values are
/// those of `quintet`.
proof fn lemma_encoded_value_at(bytes: Seq<u8>, order: EncodeOrder, j: int)
    requires
        0 <= j,
    ensures
        quintet_at(encoded_values(bytes, order), j) == quintet(bytes, order, j),
{
    lemma_quintet_bound(bytes, order, j);
    if j >= encoded_len_spec(bytes.len() as int) {
        lemma_no_bits(((5 * j) % 8) as u32);
        lemma_no_bits((11 - ((5 * j) % 8) as u32) as u32);
    }
}

/// Byte `k` of what the encoded values decode to is byte `k` of the input.
proof fn lemma_octet_round_trip(bytes: Seq<u8>, order: EncodeOrder, k: int)
    requires
        0 <= k < bytes.len(),
    ensures
        decoded_octet(encoded_values(bytes, order), order, k) == bytes[k] as u32,
{
    let base = 5 * (k / 5);
    let first = (8 * k) / 5;
    lemma_encoded_value_at(bytes, order, first);
    lemma_encoded_value_at(bytes, order, first + 1);
    lemma_encoded_value_at(bytes, order, first + 2);
    match order {
        EncodeOrder::OrderInversed => {
            if k % 5 == 0 {
                lemma_inversed_octet_0(octet(bytes, base + 0), octet(bytes, base + 1), octet(bytes, base + 2));
            } else if k % 5 == 1 {
                lemma_inversed_octet_1(octet(bytes, base + 0), octet(bytes, base + 1), octet(bytes, base + 2));
            } else if k % 5 == 2 {
                lemma_inversed_octet_2(octet(bytes, base + 1), octet(bytes, base + 2), octet(bytes, base + 3), octet(bytes, base + 4));
            } else if k % 5 == 3 {
                lemma_inversed_octet_3(octet(bytes, base + 2), octet(bytes, base + 3), octet(bytes, base + 4));
            } else {
                lemma_inversed_octet_4(octet(bytes, base + 3), octet(bytes, base + 4), octet(bytes, base + 5), octet(bytes, base + 6));
            }
        },
        EncodeOrder::OrderNormal => {
            if k % 5 == 0 {
                lemma_normal_octet_0(octet(bytes, base + 0), octet(bytes, base + 1), octet(bytes, base + 2));
            } else if k % 5 == 1 {
                lemma_normal_octet_1(octet(bytes, base + 0), octet(bytes, base + 1), octet(bytes, base + 2));
            } else if k % 5 == 2 {
                lemma_normal_octet_2(octet(bytes, base + 1), octet(bytes, base + 2), octet(bytes, base + 3), octet(bytes, base + 4));
            } else if k % 5 == 3 {
                lemma_normal_octet_3(octet(bytes, base + 2), octet(bytes, base + 3), octet(bytes, base + 4));
            } else {
                lemma_normal_octet_4(octet(bytes, base + 3), octet(bytes, base + 4), octet(bytes, base + 5), octet(bytes, base + 6));
            }
        },
    }
}

/// Decoding turns the symbols of an encoded text back into the 5-bit values
/// that they were written for.
pub proof fn lemma_encoded_symbols_values(bytes: Seq<u8>, a: AlphabetModel)
    requires
        valid_symbols(a.symbols),
    ensures
        all_symbols(encoded_symbols(bytes, a), a.symbols),
        symbol_values(encoded_symbols(bytes, a), a.symbols) == encoded_values(bytes, a.order),
{
    let text = encoded_symbols(bytes, a);
    assert forall|j: int| 0 <= j < text.len() implies a.symbols.contains(#[trigger] text[j])
        && symbol_value(a.symbols, text[j]) == quintet(bytes, a.order, j) as u8 by {
        lemma_quintet_bound(bytes, a.order, j);
        let q = quintet(bytes, a.order, j) as int;
        assert(a.symbols[q] == text[j]);
    }
    assert(symbol_values(text, a.symbols) =~= encoded_values(bytes, a.order));
}

/// Round trip: in every alphabet, the text that encodes `bytes` holds only
/// symbols of the alphabet and decodes to `bytes`.
pub proof fn lemma_round_trip(bytes: Seq<u8>, a: AlphabetModel)
    requires
        valid_symbols(a.symbols),
    ensures
        all_symbols(encoded_symbols(bytes, a), a.symbols),
        decoded_bytes(encoded_symbols(bytes, a), a) == bytes,
{
    lemma_encoded_symbols_values(bytes, a);
    let values = encoded_values(bytes, a.order);
    assert(decoded_count(values.len() as int) == bytes.len());
    assert forall|k: int| 0 <= k < bytes.len() implies decoded_octet(values, a.order, k) as u8 == bytes[k] by {
        lemma_octet_round_trip(bytes, a.order, k);
    }
    assert(decoded_bytes(encoded_symbols(bytes, a), a) =~= bytes);
}

/// Round trip in the three built-in alphabets.
pub proof fn lemma_round_trip_builtin(bytes: Seq<u8>)
    ensures
        decoded_bytes(encoded_symbols(bytes, zbase32_model()), zbase32_model()) == bytes,
        decoded_bytes(encoded_symbols(bytes, bech32_model()), bech32_model()) == bytes,
        decoded_bytes(encoded_symbols(bytes, rfc_model()), rfc_model()) == bytes,
{
    lemma_zbase32_valid();
    lemma_bech32_valid();
    lemma_rfc_valid();
    lemma_round_trip(bytes, zbase32_model());
    lemma_round_trip(bytes, bech32_model());
    lemma_round_trip(bytes, rfc_model());
}

/// Building an alphabet from 32 distinct printable bytes succeeds, with those
/// symbols and the order that was asked for.
pub proof fn lemma_build_valid(
    bytes: Seq<u8>,
    order: EncodeOrder,
    r: Result<Alphabet, ParseAlphabetError>,
)
    requires
        valid_symbols(bytes),
        build_result(bytes, order, r),
    ensures
        r is Ok,
        r->Ok_0@ == (AlphabetModel { symbols: bytes, order }),
{
}

/// Building an alphabet from the symbols and the order of a built-in one
/// gives that alphabet: the same symbols, order and lookup table.
pub proof fn lemma_build_builtin(built: Result<Alphabet, ParseAlphabetError>, builtin: Alphabet)
    requires
        builtin.wf(),
        builtin@ == zbase32_model() || builtin@ == bech32_model() || builtin@ == rfc_model(),
        build_result(builtin@.symbols, builtin@.order, built),
    ensures
        built == Ok::<Alphabet, ParseAlphabetError>(builtin),
{
    lemma_zbase32_valid();
    lemma_bech32_valid();
    lemma_rfc_valid();
    lemma_build_valid(builtin@.symbols, builtin@.order, built);
    built->Ok_0.lemma_model_decides(&builtin);
}

/// Nothing encodes to nothing: in every alphabet the empty byte sequence
/// encodes to the empty text, and the empty text decodes to no bytes.
pub proof fn lemma_empty(a: AlphabetModel)
    ensures
        encoded_symbols(Seq::<u8>::empty(), a) == Seq::<u8>::empty(),
        decoded_bytes(Seq::<u8>::empty(), a) == Seq::<u8>::empty(),
{
    assert(encoded_symbols(Seq::<u8>::empty(), a) =~= Seq::<u8>::empty());
    assert(decoded_bytes(Seq::<u8>::empty(), a) =~= Seq::<u8>::empty());
}

} // verus!
