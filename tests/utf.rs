use smol_base_x::utf_base::UtfBase;
use smol_base_x::{Base10, Base58Btc, DecodeError};

#[test]
fn utf_decode_abc() {
    let mut buf = [0u8; 32];
    let n = Base58Btc::utf_decode_mut("ZiCa", &mut buf).unwrap();
    assert_eq!(&buf[..n], b"abc");
}

#[test]
fn utf_encode_abc() {
    let mut buf = [0u8; 32];
    let n = Base58Btc::utf_encode_mut(b"abc", &mut buf).unwrap();
    assert_eq!(core::str::from_utf8(&buf[..n]).unwrap(), "ZiCa");
}

#[test]
fn utf_full_cycle() {
    let text = "44Y6qTgSvRMkdqpQ5ufkN";
    let mut bytes = [0u8; 64];
    let n = Base58Btc::utf_decode_mut(text, &mut bytes).unwrap();
    assert_eq!(n, 15);
    let mut out = [0u8; 64];
    let m = Base58Btc::utf_encode_mut(&bytes[..n], &mut out).unwrap();
    assert_eq!(&out[..m], text.as_bytes());
}

#[test]
fn utf_leading_zeros_and_spaces() {
    let mut buf = [0u8; 8];
    let n = Base10::utf_decode_mut("  001  ", &mut buf).unwrap();
    assert_eq!(&buf[..n], &[0, 0, 1]);
    let n = Base10::utf_encode_mut(&[0, 0, 1], &mut buf).unwrap();
    assert_eq!(&buf[..n], b"001");
}

#[test]
fn utf_errors() {
    let mut buf = [0u8; 8];
    assert_eq!(Base58Btc::utf_decode_mut("Zi0a", &mut buf), Err(DecodeError::InvalidChar));
    assert_eq!(Base58Btc::utf_decode_mut("Ziä", &mut buf), Err(DecodeError::InvalidChar));
    // A character whose low byte is an alphabet symbol is still no symbol.
    assert_eq!(Base58Btc::utf_decode_mut("\u{15a}", &mut buf), Err(DecodeError::InvalidChar));
    assert_eq!(
        Base58Btc::utf_decode_mut("ZiCa x", &mut buf),
        Err(DecodeError::CharAfterTrailingSpaces)
    );
    let mut two = [0u8; 2];
    assert_eq!(Base58Btc::utf_decode_mut("ZiCa", &mut two), Err(DecodeError::InvalidLength(3)));
    assert_eq!(Base58Btc::utf_decode_mut("111", &mut two), Err(DecodeError::InvalidLength(3)));
    assert_eq!(Base58Btc::utf_encode_mut(b"abc", &mut two), Err(DecodeError::InvalidLength(5)));
}

#[test]
fn char_lookup() {
    assert_eq!(Base58Btc::lookup_char('1'), Some(0));
    assert_eq!(Base58Btc::lookup_char('z'), Some(57));
    assert_eq!(Base58Btc::lookup_char('0'), None);
    assert_eq!(Base58Btc::lookup_char('\u{17a}'), None);
    assert_eq!(Base58Btc::char_alphabet()[9], 'A');
}

#[test]
fn longest_symbol() {
    assert_eq!(Base58Btc::max_char_len(), 1);
    assert_eq!(smol_base_x::util::max_utf8_char_len(['a', 'é', '€', '😀']), 4);
    assert_eq!(smol_base_x::util::max_utf8_char_len(['a', 'é']), 2);
    assert_eq!(smol_base_x::util::max_utf8_char_len(['€']), 3);
    let none: [char; 0] = [];
    assert_eq!(smol_base_x::util::max_utf8_char_len(none), 0);
}

#[test]
fn ascii_chars() {
    assert_eq!(smol_base_x::util::ascii_to_char_arr(*b"aZ1"), ['a', 'Z', '1']);
}
