use rspamd_base32::alphabet::{Alphabet, ParseAlphabetError};
use rspamd_base32::decode::{decode, DecodeError};

#[test]
fn parse_error_messages() {
    assert_eq!(
        "Invalid length - must be 32 bytes",
        ParseAlphabetError::InvalidLength.to_string()
    );
    assert_eq!(
        "Duplicated byte: 0x41",
        ParseAlphabetError::DuplicatedByte(b'A').to_string()
    );
    assert_eq!(
        "Unprintable byte: 0x0c",
        ParseAlphabetError::UnprintableByte(0xc).to_string()
    );
    assert_eq!(
        "Unprintable byte: 0xff",
        ParseAlphabetError::UnprintableByte(0xff).to_string()
    );
    assert_eq!(
        "Unprintable byte: 0x00",
        ParseAlphabetError::UnprintableByte(0).to_string()
    );
    assert_eq!(
        "Duplicated byte: 0x7e",
        ParseAlphabetError::DuplicatedByte(b'~').to_string()
    );
}

#[test]
fn parse_error_message_of_every_byte() {
    for b in 0..=255u8 {
        assert_eq!(
            format!("Duplicated byte: {:#04x}", b),
            ParseAlphabetError::DuplicatedByte(b).to_string()
        );
        assert_eq!(
            format!("Unprintable byte: {:#04x}", b),
            ParseAlphabetError::UnprintableByte(b).to_string()
        );
    }
}

#[test]
fn decode_error_messages() {
    assert_eq!(
        "Invalid byte 33, offset 3.",
        DecodeError::InvalidByte(3, 33).to_string()
    );
    assert_eq!(
        "Invalid byte 0, offset 0.",
        DecodeError::InvalidByte(0, 0).to_string()
    );
    assert_eq!(
        "Invalid byte 255, offset 1000.",
        DecodeError::InvalidByte(1000, 255).to_string()
    );
    assert_eq!(
        "Encoded text cannot have a 5-bit remainder: length = 12",
        DecodeError::InvalidLength(12).to_string()
    );
    assert_eq!(
        "Encoded text cannot have a 5-bit remainder: length = 10",
        DecodeError::InvalidLength(10).to_string()
    );
}

#[test]
fn decode_error_message_of_large_numbers() {
    for n in [9usize, 99, 100, 101, 65535, 1234567890, usize::MAX] {
        assert_eq!(
            format!("Invalid byte {}, offset {}.", 7, n),
            DecodeError::InvalidByte(n, 7).to_string()
        );
        assert_eq!(
            format!("Encoded text cannot have a 5-bit remainder: length = {}", n),
            DecodeError::InvalidLength(n).to_string()
        );
    }
}

#[test]
fn decode_error_descriptions() {
    assert_eq!("invalid byte", DecodeError::InvalidByte(1, 2).description());
    assert_eq!("invalid length", DecodeError::InvalidLength(3).description());
}

#[test]
fn errors_of_real_inputs_say_what_was_wrong() {
    assert_eq!(
        "Invalid byte 33, offset 3.",
        decode(b"em3!gs7p").unwrap_err().to_string()
    );
    assert_eq!(
        "Duplicated byte: 0x5a",
        Alphabet::from_str("ABCDEFGHIJKLMNOPQRSTUVWXZZ234567")
            .unwrap_err()
            .to_string()
    );
}
