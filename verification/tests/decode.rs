use rspamd_base32::alphabet::{bech32, rfc, zbase32};
use rspamd_base32::decode::{decode, decode_alphabet, decode_alphabet_vec, decoded_len, DecodeError};
use rspamd_base32::encode::{encode, encode_alphabet};

#[test]
fn simple_decode_zbase() {
    assert_eq!(
        "test123".as_bytes(),
        decode("wm3g84fg13cy".as_bytes()).expect("undecoded!"),
    );
    assert_eq!(
        "hello".as_bytes(),
        decode("em3ags7p".as_bytes()).expect("undecoded"),
    );
}

#[test]
fn simple_encode_decode_zbase() {
    assert_eq!(
        "test123".as_bytes(),
        decode(encode("test123".as_bytes()).as_bytes()).expect("undecoded")
    );
}

#[test]
fn simple_decode_rfc() {
    assert_eq!(
        "test123".as_bytes(),
        decode_alphabet("ORSXG5BRGIZQ".as_bytes(), &rfc()).expect("undecoded!"),
    );
    assert_eq!(
        "hello".as_bytes(),
        decode_alphabet("NBSWY3DP".as_bytes(), &rfc()).expect("undecoded"),
    );
}

#[test]
fn simple_encode_decode_rfc() {
    assert_eq!(
        "test123".as_bytes(),
        decode_alphabet(encode_alphabet("test123".as_bytes(), &rfc()).as_bytes(), &rfc())
            .expect("undecoded")
    );
}

#[test]
fn decode_empty() {
    assert_eq!(Ok(vec![]), decode(b""));
    assert_eq!(Ok(vec![]), decode_alphabet(b"", &rfc()));
    assert_eq!(Ok(vec![]), decode_alphabet(b"", &bech32()));
}

#[test]
fn decode_hello_world_zbase() {
    assert_eq!(b"hello world".to_vec(), decode(b"em3ags7py376g3tprd").unwrap());
}

#[test]
fn decode_bech32() {
    assert_eq!(b"hello".to_vec(), decode_alphabet(b"dpjkcmr0", &bech32()).unwrap());
}

#[test]
fn decode_reports_offset_and_byte() {
    assert_eq!(Err(DecodeError::InvalidByte(0, b'l')), decode(b"l"));
    assert_eq!(Err(DecodeError::InvalidByte(3, b'!')), decode(b"em3!gs7p"));
    assert_eq!(Err(DecodeError::InvalidByte(7, b'v')), decode(b"em3ags7v"));
    assert_eq!(
        Err(DecodeError::InvalidByte(2, b'n')),
        decode_alphabet(b"NBnWY3DP", &rfc())
    );
    assert_eq!(
        Err(DecodeError::InvalidByte(8, b'=')),
        decode_alphabet(b"NBSWY3DP=", &rfc())
    );
    assert_eq!(
        Err(DecodeError::InvalidByte(1, b'b')),
        decode_alphabet(b"qb", &bech32())
    );
}

#[test]
fn decode_reports_the_first_invalid_byte() {
    assert_eq!(Err(DecodeError::InvalidByte(2, b'0')), decode(b"em0ag2lp"));
    assert_eq!(
        Err(DecodeError::InvalidByte(1, b'1')),
        decode_alphabet(b"N1SWY8DP", &rfc())
    );
}

#[test]
fn decode_rejects_every_byte_value_outside_the_alphabet() {
    let a = rfc();
    for b in 0..=255u8 {
        let text = [b'A', b];
        let r = decode_alphabet(&text, &a);
        if a.symbols().contains(&b) {
            assert!(r.is_ok());
        } else {
            assert_eq!(Err(DecodeError::InvalidByte(1, b)), r);
        }
    }
}

#[test]
fn decode_drops_the_bits_that_fill_no_byte() {
    // one symbol holds five bits: no byte
    assert_eq!(Ok(vec![]), decode(b"b"));
    assert_eq!(Ok(vec![]), decode_alphabet(b"M", &rfc()));
    // three symbols hold one byte and seven bits
    assert_eq!(Ok(vec![b'a']), decode(b"bmy"));
    assert_eq!(Ok(vec![b'a']), decode_alphabet(b"MFQ", &rfc()));
    // six symbols hold three bytes and six bits
    assert_eq!(Ok(b"aaa".to_vec()), decode(b"bmangy"));
    assert_eq!(Ok(b"aaa".to_vec()), decode_alphabet(b"MFQWCY", &rfc()));
}

#[test]
fn decode_accepts_padding_bits_that_are_not_zero() {
    // "ME" encodes "a"; 'F' differs from 'E' in a padding bit only
    assert_eq!(Ok(vec![b'a']), decode_alphabet(b"MF", &rfc()));
    assert_eq!(Ok(vec![b'a']), decode_alphabet(b"MH", &rfc()));
    // "bd" encodes "a"; the high bits of the second symbol are padding
    assert_eq!(Ok(vec![b'a']), decode(b"bu"));
}

#[test]
fn decode_vec_replaces_the_buffer() {
    let mut buffer = vec![1u8, 2, 3, 4, 5, 6, 7, 8, 9];
    assert_eq!(Ok(()), decode_alphabet_vec(b"em3ags7p", &mut buffer, &zbase32()));
    assert_eq!(b"hello".to_vec(), buffer);
    assert_eq!(Ok(()), decode_alphabet_vec(b"", &mut buffer, &zbase32()));
    assert!(buffer.is_empty());
}

#[test]
fn decode_vec_leaves_nothing_on_error() {
    let mut buffer = vec![1u8, 2, 3];
    assert_eq!(
        Err(DecodeError::InvalidByte(9, b'@')),
        decode_alphabet_vec(b"ORSXG5BRG@ZQ", &mut buffer, &rfc())
    );
    assert!(buffer.is_empty());
}

#[test]
fn decoded_len_values() {
    assert_eq!(Some(0), decoded_len(0));
    assert_eq!(Some(1), decoded_len(1));
    assert_eq!(Some(7), decoded_len(7));
    assert_eq!(Some(5), decoded_len(8));
    assert_eq!(Some(6), decoded_len(9));
    assert_eq!(Some(10), decoded_len(16));
    assert_eq!(Some(9), decoded_len(12));
    assert_eq!(Some(usize::MAX / 8 * 5 + 7), decoded_len(usize::MAX));
}

#[test]
fn decoded_len_bounds_the_decoded_bytes() {
    for n in 0..64usize {
        let text = vec![b'y'; n];
        let bytes = decode(&text).unwrap();
        assert_eq!(5 * n / 8, bytes.len());
        assert!(bytes.len() <= decoded_len(n).unwrap());
    }
}

#[test]
fn decode_error_is_a_value() {
    let e = decode(b"!").unwrap_err();
    assert_eq!(e.clone(), e);
    assert_ne!(DecodeError::InvalidLength(1), e);
}
