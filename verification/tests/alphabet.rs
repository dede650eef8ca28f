use rspamd_base32::alphabet::{bech32, rfc, zbase32, Alphabet, EncodeOrder, ParseAlphabetError};

#[test]
fn detects_duplicate_start() {
    assert_eq!(
        ParseAlphabetError::DuplicatedByte(b'A'),
        Alphabet::from_str("AACDEFGHIJKLMNOPQRSTUVWXYZ234567").unwrap_err()
    );
}

#[test]
fn detects_duplicate_end() {
    assert_eq!(
        ParseAlphabetError::DuplicatedByte(b'7'),
        Alphabet::from_str("ABCDEFGHIJKLMNOPQRSTUVWXYZ234577").unwrap_err()
    );
}

#[test]
fn detects_duplicate_middle() {
    assert_eq!(
        ParseAlphabetError::DuplicatedByte(b'Z'),
        Alphabet::from_str("ABCDEFGHIJKLMNOPQRSTUVWXZZ234567").unwrap_err()
    );
}

#[test]
fn detects_length() {
    assert_eq!(
        ParseAlphabetError::InvalidLength,
        Alphabet::from_str("ABCDEFGHIJKLMNOPQRSTUVWXYZ234567xxx").unwrap_err()
    );
}

#[test]
fn detects_unprintable() {
    // form feed
    assert_eq!(
        ParseAlphabetError::UnprintableByte(0xc),
        Alphabet::from_str("\x0cBCDEFGHIJKLMNOPQRSTUVWXYZ234567").unwrap_err()
    );
}

#[test]
fn same_as_unchecked() {
    assert_eq!(
        rfc(),
        Alphabet::from_str("ABCDEFGHIJKLMNOPQRSTUVWXYZ234567").unwrap()
    )
}

#[test]
fn zbase32_same_as_checked() {
    assert_eq!(
        zbase32(),
        Alphabet::from_str_order("ybndrfg8ejkmcpqxot1uwisza345h769", EncodeOrder::OrderInversed)
            .unwrap()
    );
}

#[test]
fn bech32_same_as_checked() {
    assert_eq!(
        bech32(),
        Alphabet::from_str_order("qpzry9x8gf2tvdw0s3jn54khce6mua7l", EncodeOrder::OrderNormal)
            .unwrap()
    );
}

#[test]
fn order_is_part_of_the_alphabet() {
    let normal = Alphabet::from_str("ybndrfg8ejkmcpqxot1uwisza345h769").unwrap();
    assert_ne!(zbase32(), normal);
    assert_eq!(EncodeOrder::OrderNormal, normal.order());
    assert_eq!(EncodeOrder::OrderInversed, zbase32().order());
}

#[test]
fn symbols_are_kept_in_order() {
    assert_eq!(b"ABCDEFGHIJKLMNOPQRSTUVWXYZ234567", rfc().symbols());
    assert_eq!(b"ybndrfg8ejkmcpqxot1uwisza345h769", zbase32().symbols());
    assert_eq!(b"qpzry9x8gf2tvdw0s3jn54khce6mua7l", bech32().symbols());
}

#[test]
fn clone_is_equal() {
    let a = bech32();
    assert_eq!(a, a.clone());
}

#[test]
fn detects_short_and_empty() {
    assert_eq!(
        ParseAlphabetError::InvalidLength,
        Alphabet::from_str("ABCDEFGHIJKLMNOPQRSTUVWXYZ23456").unwrap_err()
    );
    assert_eq!(ParseAlphabetError::InvalidLength, Alphabet::from_str("").unwrap_err());
}

#[test]
fn length_is_counted_in_bytes() {
    // 31 characters, 32 bytes: the last byte is not printable
    assert_eq!(
        ParseAlphabetError::UnprintableByte(0xc3),
        Alphabet::from_str("ABCDEFGHIJKLMNOPQRSTUVWXYZ2345\u{e9}").unwrap_err()
    );
}

#[test]
fn accepts_both_ends_of_the_printable_range() {
    let a = Alphabet::from_str(" BCDEFGHIJKLMNOPQRSTUVWXYZ23456~").unwrap();
    assert_eq!(b' ', a.symbols()[0]);
    assert_eq!(b'~', a.symbols()[31]);
}

#[test]
fn detects_delete_as_unprintable() {
    assert_eq!(
        ParseAlphabetError::UnprintableByte(0x7f),
        Alphabet::from_str("ABCDEFGHIJKLMNOPQRSTUVWXYZ23456\x7f").unwrap_err()
    );
}

#[test]
fn reports_the_first_unprintable_byte() {
    assert_eq!(
        ParseAlphabetError::UnprintableByte(0x1f),
        Alphabet::from_str("AB\x1fDEFGHIJKLMNOPQRSTUVWXYZ2345\x0c7").unwrap_err()
    );
}

#[test]
fn unprintable_is_tested_before_duplicates() {
    assert_eq!(
        ParseAlphabetError::UnprintableByte(0xc),
        Alphabet::from_str("AACDEFGHIJKLMNOPQRSTUVWXYZ23456\x0c").unwrap_err()
    );
}

#[test]
fn reports_the_first_repeat() {
    // 'B' repeats at place 3, 'A' only at place 5
    assert_eq!(
        ParseAlphabetError::DuplicatedByte(b'B'),
        Alphabet::from_str("ABCBEAGHIJKLMNOPQRSTUVWXYZ234567").unwrap_err()
    );
}
