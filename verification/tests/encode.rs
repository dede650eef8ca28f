use rspamd_base32::alphabet::{bech32, rfc, zbase32};
use rspamd_base32::encode::{encode, encode_alphabet, encode_alphabet_slice, encoded_len};

#[test]
fn simple_encode_zbase() {
    assert_eq!("wm3g84fg13cy", encode("test123".as_bytes()),);
    assert_eq!("em3ags7p", encode("hello".as_bytes()),);
}

#[test]
fn empty_encode_zbase() {
    assert_eq!("", encode("".as_bytes()),);
}

#[test]
fn series_encode_zbase() {
    assert_eq!("bd", encode("a".as_bytes()),);
    assert_eq!("bmay", encode("aa".as_bytes()),);
    assert_eq!("bmang", encode("aaa".as_bytes()),);
    assert_eq!("bmansob", encode("aaaa".as_bytes()),);
    assert_eq!("bmansofc", encode("aaaaa".as_bytes()),);
    assert_eq!("bmansofcbd", encode("aaaaaa".as_bytes()),);
    assert_eq!("bmansofcbmay", encode("aaaaaaa".as_bytes()),);
    assert_eq!("bmansofcbmang", encode("aaaaaaaa".as_bytes()),);
}

#[test]
fn simple_encode_rfc() {
    assert_eq!("ORSXG5BRGIZQ", encode_alphabet("test123".as_bytes(), &rfc()),);
    assert_eq!("NBSWY3DP", encode_alphabet("hello".as_bytes(), &rfc()),);
}

#[test]
fn empty_encode_rfc() {
    assert_eq!("", encode_alphabet("".as_bytes(), &rfc()),);
}

#[test]
fn series_encode_rfc() {
    assert_eq!("ME", encode_alphabet("a".as_bytes(), &rfc()),);
    assert_eq!("MFQQ", encode_alphabet("aa".as_bytes(), &rfc()),);
    assert_eq!("MFQWC", encode_alphabet("aaa".as_bytes(), &rfc()),);
    assert_eq!("MFQWCYI", encode_alphabet("aaaa".as_bytes(), &rfc()),);
    assert_eq!("MFQWCYLB", encode_alphabet("aaaaa".as_bytes(), &rfc()),);
    assert_eq!("MFQWCYLBME", encode_alphabet("aaaaaa".as_bytes(), &rfc()),);
    assert_eq!("MFQWCYLBMFQQ", encode_alphabet("aaaaaaa".as_bytes(), &rfc()),);
    assert_eq!("MFQWCYLBMFQWC", encode_alphabet("aaaaaaaa".as_bytes(), &rfc()),);
}

#[test]
fn empty_encode_bech32() {
    assert_eq!("", encode_alphabet(&[], &bech32()));
}

#[test]
fn simple_encode_bech32() {
    // the values of "NBSWY3DP" in RFC 4648, spelled in Bech32
    assert_eq!("dpjkcmr0", encode_alphabet("hello".as_bytes(), &bech32()));
}

#[test]
fn encode_hello_world_zbase() {
    assert_eq!("em3ags7py376g3tprd", encode(b"hello world"));
}

#[test]
fn encode_extreme_bytes() {
    assert_eq!("AA", encode_alphabet(&[0x00], &rfc()));
    assert_eq!("74", encode_alphabet(&[0xff], &rfc()));
    assert_eq!("77777777", encode_alphabet(&[0xff; 5], &rfc()));
    assert_eq!("yy", encode(&[0x00]));
    assert_eq!("98", encode(&[0xff]));
    assert_eq!("99999999", encode(&[0xff; 5]));
}

#[test]
fn encoded_len_of_each_remainder() {
    assert_eq!(Some(0), encoded_len(0));
    assert_eq!(Some(2), encoded_len(1));
    assert_eq!(Some(4), encoded_len(2));
    assert_eq!(Some(5), encoded_len(3));
    assert_eq!(Some(7), encoded_len(4));
    assert_eq!(Some(8), encoded_len(5));
    assert_eq!(Some(10), encoded_len(6));
    assert_eq!(Some(16), encoded_len(10));
    assert_eq!(Some(1639), encoded_len(1024));
}

#[test]
fn encoded_len_is_the_length_of_the_text() {
    for n in 0..64usize {
        let input = vec![0x5a_u8; n];
        assert_eq!(Some(encode(&input).len()), encoded_len(n));
        assert_eq!(Some(encode_alphabet(&input, &rfc()).len()), encoded_len(n));
    }
}

#[test]
fn encoded_len_overflow() {
    assert_eq!(None, encoded_len(usize::MAX));
    assert_eq!(None, encoded_len(usize::MAX / 8 * 5 + 5));
    let n = usize::MAX / 8 * 5;
    assert_eq!(Some(usize::MAX / 8 * 8), encoded_len(n));
    // the last length whose symbols can be counted
    assert_eq!(Some(usize::MAX), encoded_len(n + 4));
}

#[test]
fn encode_slice_counts_and_keeps_the_rest() {
    let mut buf = [b'#'; 12];
    let written = encode_alphabet_slice(b"hello", &mut buf, &rfc());
    assert_eq!(8, written);
    assert_eq!(b"NBSWY3DP####", &buf);

    let mut buf = [b'#'; 6];
    let written = encode_alphabet_slice(b"aa", &mut buf, &zbase32());
    assert_eq!(4, written);
    assert_eq!(b"bmay##", &buf);
}

#[test]
fn encode_slice_of_nothing_writes_nothing() {
    let mut buf = [b'#'; 3];
    assert_eq!(0, encode_alphabet_slice(&[], &mut buf, &zbase32()));
    assert_eq!(b"###", &buf);
    let mut none: [u8; 0] = [];
    assert_eq!(0, encode_alphabet_slice(&[], &mut none, &rfc()));
}

#[test]
fn encode_slice_fills_an_exact_buffer() {
    let mut buf = [0u8; 12];
    assert_eq!(12, encode_alphabet_slice(b"test123", &mut buf, &rfc()));
    assert_eq!(b"ORSXG5BRGIZQ", &buf);
}
