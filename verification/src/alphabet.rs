//! The 32-symbol alphabets that the codec reads and writes with.
use vstd::prelude::*;
use vstd::string::{is_ascii, is_ascii_spec_bytes, StringSliceAdditionalSpecFns};
use crate::text::{hex_byte, push_ascii, push_hex, string_from_ascii, text_of};

verus! {

/// Number of symbols in every alphabet.
pub const ALPHABET_SIZE: usize = 32;

/// Reverse-table entry of a byte that is no symbol.
pub const INVALID: u8 = 0xff;

/// The lowest printable byte, a space.
pub const FIRST_PRINTABLE: u8 = 32;

/// The highest printable byte, a tilde.
pub const LAST_PRINTABLE: u8 = 126;

/// How the bits of a byte stream are grouped into 5-bit values.
#[derive(Clone, Copy, Debug, PartialEq, Eq, Structural)]
pub enum EncodeOrder {
    /// Least significant bit first.
    OrderInversed,
    /// Most significant bit first.
    OrderNormal,
}

/// Why a symbol string is no alphabet.
#[derive(Debug, PartialEq, Eq, Structural)]
pub enum ParseAlphabetError {
    /// The string is not 32 bytes long.
    InvalidLength,
    /// The byte occurs more than once.
    DuplicatedByte(u8),
    /// The byte lies outside the printable range `[32, 126]`.
    UnprintableByte(u8),
}

/// What a validation error says of itself.
pub open spec fn parse_error_text(e: ParseAlphabetError) -> Seq<char> {
    match e {
        ParseAlphabetError::InvalidLength => "Invalid length - must be 32 bytes"@,
        ParseAlphabetError::DuplicatedByte(b) => "Duplicated byte: "@ + text_of(hex_byte(b)),
        ParseAlphabetError::UnprintableByte(b) => "Unprintable byte: "@ + text_of(hex_byte(b)),
    }
}

impl ParseAlphabetError {
    /// The error in words, with its byte in hexadecimal.
    pub fn to_string(&self) -> (s: String)
        ensures
            s@ == parse_error_text(*self),
    {
        let mut buf: Vec<u8> = Vec::new();
        proof {
            reveal_strlit("Invalid length - must be 32 bytes");
            reveal_strlit("Duplicated byte: ");
            reveal_strlit("Unprintable byte: ");
            assert(text_of(buf@) =~= Seq::<char>::empty());
        }
        match *self {
            ParseAlphabetError::InvalidLength => {
                push_ascii(&mut buf, "Invalid length - must be 32 bytes");
            },
            ParseAlphabetError::DuplicatedByte(b) => {
                push_ascii(&mut buf, "Duplicated byte: ");
                push_hex(&mut buf, b);
            },
            ParseAlphabetError::UnprintableByte(b) => {
                push_ascii(&mut buf, "Unprintable byte: ");
                push_hex(&mut buf, b);
            },
        }
        string_from_ascii(buf)
    }
}

/// A printable byte: code points 32 to 126.
pub open spec fn is_printable(b: u8) -> bool {
    32 <= b <= 126
}

/// 32 printable bytes, no two equal.
pub open spec fn valid_symbols(s: Seq<u8>) -> bool {
    &&& s.len() == 32
    &&& forall|i: int| 0 <= i < s.len() ==> is_printable(#[trigger] s[i])
    &&& forall|i: int, j: int| 0 <= i < j < s.len() ==> s[i] != s[j]
}

/// Every byte is printable.
pub open spec fn all_printable(s: Seq<u8>) -> bool {
    forall|i: int| 0 <= i < s.len() ==> is_printable(#[trigger] s[i])
}

/// `k` is the place of the first byte that is not printable.
pub open spec fn is_first_unprintable(s: Seq<u8>, k: int) -> bool {
    &&& 0 <= k < s.len()
    &&& !is_printable(s[k])
    &&& forall|i: int| 0 <= i < k ==> is_printable(#[trigger] s[i])
}

/// Byte `k` occurs before place `k` too.
pub open spec fn repeats(s: Seq<u8>, k: int) -> bool {
    exists|i: int| 0 <= i < k && s[i] == s[k]
}

/// `k` is the first place whose byte occurs before it too.
pub open spec fn is_first_repeat(s: Seq<u8>, k: int) -> bool {
    &&& 0 <= k < s.len()
    &&& repeats(s, k)
    &&& forall|j: int| 0 <= j < k ==> !repeats(s, j)
}

/// What building an alphabet from `bytes` returns: the length is tested
/// first, then that every byte is printable, then that none repeats.
pub open spec fn build_result(
    bytes: Seq<u8>,
    order: EncodeOrder,
    r: Result<Alphabet, ParseAlphabetError>,
) -> bool {
    match r {
        Ok(a) => valid_symbols(bytes) && a.wf() && a@ == (AlphabetModel { symbols: bytes, order }),
        Err(ParseAlphabetError::InvalidLength) => bytes.len() != 32,
        Err(ParseAlphabetError::UnprintableByte(b)) => {
            &&& bytes.len() == 32
            &&& exists|k: int| is_first_unprintable(bytes, k) && bytes[k] == b
        },
        Err(ParseAlphabetError::DuplicatedByte(b)) => {
            &&& bytes.len() == 32
            &&& all_printable(bytes)
            &&& exists|k: int| is_first_repeat(bytes, k) && bytes[k] == b
        },
    }
}

/// `table` maps each symbol to its index and every other byte to `INVALID`.
pub open spec fn is_reverse_table(table: Seq<u8>, s: Seq<u8>) -> bool {
    &&& table.len() == 256
    &&& forall|i: int| 0 <= i < s.len() ==> table[#[trigger] s[i] as int] == i
    &&& forall|b: u8| !s.contains(b) ==> #[trigger] table[b as int] == INVALID
}

/// The symbols decide the reverse lookup table.
pub proof fn lemma_reverse_table_unique(t1: Seq<u8>, t2: Seq<u8>, s: Seq<u8>)
    requires
        is_reverse_table(t1, s),
        is_reverse_table(t2, s),
    ensures
        t1 == t2,
{
    assert forall|b: int| 0 <= b < 256 implies t1[b] == t2[b] by {
        if s.contains(b as u8) {
            let i = s.index_of(b as u8);
            assert(t1[s[i] as int] == i);
            assert(t2[s[i] as int] == i);
        } else {
            assert(t1[(b as u8) as int] == INVALID);
            assert(t2[(b as u8) as int] == INVALID);
        }
    }
    assert(t1 =~= t2);
}

/// What an alphabet is, apart from its lookup table.
pub ghost struct AlphabetModel {
    /// The symbol of each 5-bit value, by value.
    pub symbols: Seq<u8>,
    /// The order in which bits are taken from bytes and put into values.
    pub order: EncodeOrder,
}

/// 32 distinct printable symbols, their reverse lookup table and a bit order.
#[derive(Debug, PartialEq, Eq)]
pub struct Alphabet {
    pub(crate) encode_symbols: [u8; 32],
    pub(crate) decode_bytes: [u8; 256],
    pub(crate) encode_order: EncodeOrder,
}

impl View for Alphabet {
    type V = AlphabetModel;

    closed spec fn view(&self) -> AlphabetModel {
        AlphabetModel { symbols: self.encode_symbols@, order: self.encode_order }
    }
}

impl Clone for Alphabet {
    fn clone(&self) -> (a: Alphabet)
        ensures
            a == *self,
    {
        proof {
            use_type_invariant(self);
        }
        Alphabet {
            encode_symbols: self.encode_symbols,
            decode_bytes: self.decode_bytes,
            encode_order: self.encode_order,
        }
    }
}

impl Alphabet {
    /// The symbols are 32 distinct printable bytes and the lookup table is
    /// their reverse. It holds of every alphabet that the program has.
    pub closed spec fn wf(&self) -> bool {
        &&& valid_symbols(self.encode_symbols@)
        &&& is_reverse_table(self.decode_bytes@, self.encode_symbols@)
    }

    #[verifier::type_invariant]
    spec fn inv(&self) -> bool {
        self.wf()
    }

    /// A well-formed alphabet has valid symbols.
    pub proof fn lemma_wf_symbols(&self)
        requires
            self.wf(),
        ensures
            valid_symbols(self@.symbols),
    {
    }

    /// Well-formed alphabets with the same symbols and order are equal,
    /// lookup table and all.
    pub proof fn lemma_model_decides(&self, other: &Alphabet)
        requires
            self.wf(),
            other.wf(),
            self@ == other@,
        ensures
            *self == *other,
    {
        lemma_reverse_table_unique(self.decode_bytes@, other.decode_bytes@, self.encode_symbols@);
        assert(self.encode_symbols =~= other.encode_symbols);
        assert(self.decode_bytes =~= other.decode_bytes);
    }

    /// The symbols, by the 5-bit value that each stands for.
    pub fn symbols(&self) -> (s: &[u8; 32])
        ensures
            s@ == self@.symbols,
            valid_symbols(s@),
            self.wf(),
    {
        proof {
            use_type_invariant(self);
        }
        &self.encode_symbols
    }

    /// The bit order.
    pub fn order(&self) -> (o: EncodeOrder)
        ensures
            o == self@.order,
    {
        self.encode_order
    }

    /// The reverse lookup table, by byte value.
    pub(crate) fn reverse_table(&self) -> (t: &[u8; 256])
        ensures
            valid_symbols(self@.symbols),
            is_reverse_table(t@, self@.symbols),
    {
        proof {
            use_type_invariant(self);
        }
        &self.decode_bytes
    }

    /// Builds the alphabet of the 32 symbols in `alphabet` with the given bit
    /// order, or says why the string is no alphabet.
    pub fn from_str_order(alphabet: &str, encode_order: EncodeOrder) -> (r: Result<Alphabet, ParseAlphabetError>)
        ensures
            build_result(alphabet.spec_bytes(), encode_order, r),
            r is Ok <==> valid_symbols(alphabet.spec_bytes()),
            r == Err::<Alphabet, ParseAlphabetError>(ParseAlphabetError::InvalidLength)
                <==> alphabet.spec_bytes().len() != 32,
            r matches Err(ParseAlphabetError::UnprintableByte(_)) <==> alphabet.spec_bytes().len()
                == 32 && !all_printable(alphabet.spec_bytes()),
            r matches Err(ParseAlphabetError::DuplicatedByte(_)) <==> alphabet.spec_bytes().len()
                == 32 && all_printable(alphabet.spec_bytes()) && !valid_symbols(
                alphabet.spec_bytes(),
            ),
    {
        let source_bytes = alphabet.as_bytes();
        if source_bytes.len() != ALPHABET_SIZE {
            return Err(ParseAlphabetError::InvalidLength);
        }
        let mut index: usize = 0;
        while index < ALPHABET_SIZE
            invariant
                index <= 32,
                source_bytes@ == alphabet.spec_bytes(),
                source_bytes@.len() == 32,
                forall|i: int| 0 <= i < index ==> is_printable(#[trigger] source_bytes@[i]),
            decreases 32 - index,
        {
            let byte = source_bytes[index];
            if !(byte >= FIRST_PRINTABLE && byte <= LAST_PRINTABLE) {
                proof {
                    assert(is_first_unprintable(source_bytes@, index as int));
                }
                return Err(ParseAlphabetError::UnprintableByte(byte));
            }
            index = index + 1;
        }
        let mut seen = [false; 95];
        index = 0;
        while index < ALPHABET_SIZE
            invariant
                index <= 32,
                source_bytes@ == alphabet.spec_bytes(),
                source_bytes@.len() == 32,
                all_printable(source_bytes@),
                forall|j: int| 0 <= j < index ==> !repeats(source_bytes@, j),
                forall|b: u8| is_printable(b) ==> (#[trigger] seen@[b - 32]
                    <==> source_bytes@.take(index as int).contains(b)),
            decreases 32 - index,
        {
            let byte = source_bytes[index];
            let slot = (byte - FIRST_PRINTABLE) as usize;
            let ghost before = source_bytes@.take(index as int);
            let ghost after = source_bytes@.take(index + 1);
            if seen[slot] {
                proof {
                    let i = before.index_of(byte);
                    assert(source_bytes@[i] == source_bytes@[index as int]);
                    assert(is_first_repeat(source_bytes@, index as int));
                }
                return Err(ParseAlphabetError::DuplicatedByte(byte));
            }
            seen[slot] = true;
            proof {
                assert(after[index as int] == byte);
                assert forall|b: u8| #[trigger] after.contains(b) implies b == byte || before.contains(b) by {
                    let k = choose|k: int| 0 <= k < after.len() && after[k] == b;
                    if k < index {
                        assert(before[k] == b);
                    }
                }
                assert forall|b: u8| #[trigger] before.contains(b) implies after.contains(b) by {
                    let k = choose|k: int| 0 <= k < before.len() && before[k] == b;
                    assert(after[k] == b);
                }
                if repeats(source_bytes@, index as int) {
                    let i = choose|i: int| 0 <= i < index && source_bytes@[i] == source_bytes@[index as int];
                    assert(before[i] == byte);
                }
            }
            index = index + 1;
        }
        proof {
            assert forall|i: int, j: int| 0 <= i < j < 32 implies source_bytes@[i] != source_bytes@[j] by {
                assert(!repeats(source_bytes@, j));
            }
        }
        Ok(Self::from_str_unsafe(alphabet, encode_order))
    }

    /// Builds the alphabet of the 32 symbols in `alphabet`, most significant
    /// bit first.
    pub fn from_str(alphabet: &str) -> (r: Result<Alphabet, ParseAlphabetError>)
        ensures
            build_result(alphabet.spec_bytes(), EncodeOrder::OrderNormal, r),
            r is Ok <==> valid_symbols(alphabet.spec_bytes()),
            r == Err::<Alphabet, ParseAlphabetError>(ParseAlphabetError::InvalidLength)
                <==> alphabet.spec_bytes().len() != 32,
            r matches Err(ParseAlphabetError::UnprintableByte(_)) <==> alphabet.spec_bytes().len()
                == 32 && !all_printable(alphabet.spec_bytes()),
            r matches Err(ParseAlphabetError::DuplicatedByte(_)) <==> alphabet.spec_bytes().len()
                == 32 && all_printable(alphabet.spec_bytes()) && !valid_symbols(
                alphabet.spec_bytes(),
            ),
    {
        Self::from_str_order(alphabet, EncodeOrder::OrderNormal)
    }

    /// Builds the alphabet of 32 symbols that are known to be valid.
    pub(crate) fn from_str_unsafe(alphabet: &str, encode_order: EncodeOrder) -> (a: Alphabet)
        requires
            valid_symbols(alphabet.spec_bytes()),
        ensures
            a.wf(),
            a@ == (AlphabetModel { symbols: alphabet.spec_bytes(), order: encode_order }),
    {
        let mut symbols = [0u8; 32];
        let source_bytes = alphabet.as_bytes();
        let mut decode_bytes = [INVALID; 256];
        let mut index: usize = 0;
        while index < ALPHABET_SIZE
            invariant
                index <= 32,
                source_bytes@ == alphabet.spec_bytes(),
                valid_symbols(source_bytes@),
                forall|i: int| 0 <= i < index ==> symbols@[i] == source_bytes@[i],
                forall|i: int| 0 <= i < index ==> decode_bytes@[#[trigger] source_bytes@[i] as int] == i,
                forall|b: u8| !source_bytes@.take(index as int).contains(b)
                    ==> #[trigger] decode_bytes@[b as int] == INVALID,
            decreases 32 - index,
        {
            let sym = source_bytes[index];
            symbols[index] = sym;
            decode_bytes[sym as usize] = index as u8;
            proof {
                let ghost t0 = source_bytes@.take(index as int);
                let ghost t1 = source_bytes@.take(index + 1);
                assert(t1[index as int] == sym);
                assert forall|b: u8| b != sym && #[trigger] t1.contains(b) implies t0.contains(b) by {
                    let k = choose|k: int| 0 <= k < t1.len() && t1[k] == b;
                    assert(t0[k] == b);
                }
            }
            index = index + 1;
        }
        proof {
            assert(source_bytes@.take(32) =~= source_bytes@);
            assert(symbols@ =~= source_bytes@);
        }
        Alphabet { encode_symbols: symbols, decode_bytes, encode_order }
    }
}

/// The symbols of zbase32.
pub open spec fn zbase32_symbols() -> Seq<u8> {
    "ybndrfg8ejkmcpqxot1uwisza345h769".spec_bytes()
}

/// The symbols of Bech32.
pub open spec fn bech32_symbols() -> Seq<u8> {
    "qpzry9x8gf2tvdw0s3jn54khce6mua7l".spec_bytes()
}

/// The symbols of RFC 4648 base32.
pub open spec fn rfc_symbols() -> Seq<u8> {
    "ABCDEFGHIJKLMNOPQRSTUVWXYZ234567".spec_bytes()
}

/// zbase32, least significant bit first.
pub open spec fn zbase32_model() -> AlphabetModel {
    AlphabetModel { symbols: zbase32_symbols(), order: EncodeOrder::OrderInversed }
}

/// Bech32, most significant bit first.
pub open spec fn bech32_model() -> AlphabetModel {
    AlphabetModel { symbols: bech32_symbols(), order: EncodeOrder::OrderNormal }
}

/// RFC 4648 base32, most significant bit first and without padding.
pub open spec fn rfc_model() -> AlphabetModel {
    AlphabetModel { symbols: rfc_symbols(), order: EncodeOrder::OrderNormal }
}

/// The zbase32 symbol string is an alphabet.
pub proof fn lemma_zbase32_valid()
    ensures
        valid_symbols(zbase32_symbols()),
{
    reveal_strlit("ybndrfg8ejkmcpqxot1uwisza345h769");
    assert(is_ascii("ybndrfg8ejkmcpqxot1uwisza345h769"));
    is_ascii_spec_bytes("ybndrfg8ejkmcpqxot1uwisza345h769");
}

/// The Bech32 symbol string is an alphabet.
pub proof fn lemma_bech32_valid()
    ensures
        valid_symbols(bech32_symbols()),
{
    reveal_strlit("qpzry9x8gf2tvdw0s3jn54khce6mua7l");
    assert(is_ascii("qpzry9x8gf2tvdw0s3jn54khce6mua7l"));
    is_ascii_spec_bytes("qpzry9x8gf2tvdw0s3jn54khce6mua7l");
}

/// The RFC 4648 symbol string is an alphabet.
pub proof fn lemma_rfc_valid()
    ensures
        valid_symbols(rfc_symbols()),
{
    reveal_strlit("ABCDEFGHIJKLMNOPQRSTUVWXYZ234567");
    assert(is_ascii("ABCDEFGHIJKLMNOPQRSTUVWXYZ234567"));
    is_ascii_spec_bytes("ABCDEFGHIJKLMNOPQRSTUVWXYZ234567");
}

/// The zbase32 alphabet, which is the default.
pub fn zbase32() -> (a: Alphabet)
    ensures
        a.wf(),
        a@ == zbase32_model(),
{
    proof {
        lemma_zbase32_valid();
    }
    Alphabet::from_str_unsafe("ybndrfg8ejkmcpqxot1uwisza345h769", EncodeOrder::OrderInversed)
}

/// The Bech32 alphabet.
pub fn bech32() -> (a: Alphabet)
    ensures
        a.wf(),
        a@ == bech32_model(),
{
    proof {
        lemma_bech32_valid();
    }
    Alphabet::from_str_unsafe("qpzry9x8gf2tvdw0s3jn54khce6mua7l", EncodeOrder::OrderNormal)
}

/// The RFC 4648 base32 alphabet.
pub fn rfc() -> (a: Alphabet)
    ensures
        a.wf(),
        a@ == rfc_model(),
{
    proof {
        lemma_rfc_valid();
    }
    Alphabet::from_str_unsafe("ABCDEFGHIJKLMNOPQRSTUVWXYZ234567", EncodeOrder::OrderNormal)
}

} // verus!
