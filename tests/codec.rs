use smol_base_x::util::{self, decoded_arr_size, decoded_size, encoded_arr_size, encoded_size, gen_lut};
use smol_base_x::{
    Base, Base10, Base11, Base2, Base36, Base58Btc, Base58Flickr, Base62, Base67, Base8, DecodeError,
};

#[test]
fn full_cycle() {
    let input = "44Y6qTgSvRMkdqpQ5ufkN";
    let mut output = [0u8; 128];

    let written = Base58Btc::decode_mut(input.as_bytes(), &mut output).unwrap();
    let expected: [u8; 15] = [
        0x6d, 0x69, 0x1b, 0xdd, 0x73, 0x63, 0x46, 0xaa, 0x5a, 0x0a, 0x95, 0xb3, 0x73, 0xb2, 0xab,
    ];

    println!("{:x?}\n{:x?}", &output[..written], &expected.as_slice());
    assert!(&output[..written] == expected.as_slice());

    let expected = input;

    let mut input = [0u8; 128];
    input.copy_from_slice(&output);
    output.fill(0);

    let written = Base58Btc::encode_mut(&input[..written], &mut output).unwrap();

    println!("{:x?}\n{:x?}", &output[..written], expected.as_bytes());
    assert!(&output[..written] == expected.as_bytes());
}

#[test]
fn abc_decode() {
    let mut output = [0u8; 32];

    let written = Base58Btc::decode_mut(b"ZiCa", &mut output).unwrap();

    let expected = b"abc";

    println!("{:x?}\n{:x?}", &output[..written], &expected.as_slice());

    assert!(&output[..written] == expected.as_ref());
}

#[test]
fn abc_encode() {
    let mut output = [0u8; 32];

    let written = Base58Btc::encode_mut(b"abc", &mut output).unwrap();

    let expected = "ZiCa";

    let output = core::str::from_utf8(&output[..written]).unwrap();

    println!("{:x?}\n{:x?}", output, expected);

    assert!(output == expected);
}

#[test]
fn arr_decode() {
    let (output, written) = Base58Btc::decode_arr(*b"ZiCa").unwrap();

    let expected = b"abc";

    println!("{:x?}\n{:x?}", &output[..written], &expected.as_slice());

    assert!(&output[..written] == expected.as_ref());
}

#[test]
fn arr_encode() {
    let (output, written) = Base58Btc::encode_arr(*b"abc").unwrap();

    let expected = "ZiCa";

    let output = core::str::from_utf8(&output[..written]).unwrap();
    println!("{:x?}\n{:x?}", output, expected);

    assert!(output == expected);
}

#[test]
fn size_util() {
    for base in 2..98 {
        for size in 1..256 {
            assert_eq!(util::decoded_size(base, size), decoded_arr_size(base, size));
            assert_eq!(util::encoded_size(base, size), encoded_arr_size(base, size));
        }
    }
}

fn decode58(input: &[u8], cap: usize) -> Result<Vec<u8>, DecodeError> {
    let mut buf = vec![0u8; cap];
    let n = Base58Btc::decode_mut(input, &mut buf)?;
    Ok(buf[..n].to_vec())
}

#[test]
fn size_estimates_exact_values() {
    assert_eq!(decoded_size(58, 4), 3);
    assert_eq!(encoded_size(58, 3), 5);
    assert_eq!(decoded_size(58, 21), 16);
    assert_eq!(encoded_size(58, 15), 21);
    assert_eq!(decoded_size(256, 10), 11);
    assert_eq!(encoded_size(256, 10), 11);
    assert_eq!(encoded_size(2, 1), 9);
    assert_eq!(decoded_size(2, 8), 2);
    assert_eq!(encoded_size(10, 0), 1);
    assert_eq!(decoded_size(10, 0), 1);
    assert_eq!(encoded_size(2, usize::MAX), usize::MAX);
}

#[test]
fn size_estimates_stay_within_one_on_long_inputs() {
    // 600 * log(58) / log(256) = 439.35.., 440 * log(256) / log(58) = 600.89..
    assert_eq!(decoded_size(58, 600), 440);
    assert_eq!(encoded_size(58, 440), 601);
    // 10000 * log(10) / log(256) = 4152.41.., 4153 * log(256) / log(10) = 10001.6..
    assert_eq!(decoded_size(10, 10000), 4153);
    assert_eq!(encoded_size(10, 4153), 10002);
    // Powers of two are exact: 1000 * 4 / 8 = 500.
    assert_eq!(decoded_size(16, 1000), 501);
    assert_eq!(encoded_size(16, 500), 1001);
}

#[test]
fn size_estimates_suffice_for_all_ones() {
    // The largest value of n digits needs at most decoded_size(base, n) bytes.
    for n in 1..40usize {
        let text = vec![b'z'; n];
        let mut buf = vec![0u8; decoded_size(58, n)];
        assert!(Base58Btc::decode_mut(&text, &mut buf).is_ok());
        let bytes = vec![0xffu8; n];
        let mut out = vec![0u8; encoded_size(58, n)];
        assert!(Base58Btc::encode_mut(&bytes, &mut out).is_ok());
    }
}

#[test]
fn round_trip_every_preset() {
    let data: [u8; 9] = [0, 0, 1, 2, 0xfe, 0xff, 0, 7, 128];
    fn check<const B: usize, T: Base<B>>(data: &[u8]) {
        let mut text = vec![0u8; 200];
        let n = T::encode_mut(data, &mut text).unwrap();
        let mut back = vec![0u8; data.len()];
        let m = T::decode_mut(&text[..n], &mut back).unwrap();
        assert_eq!(&back[..m], data);
        let zeros = data.iter().take_while(|&&b| b == 0).count();
        let alphabet = T::alphabet();
        let zero_syms = text[..n].iter().take_while(|&&c| c == alphabet[0]).count();
        assert_eq!(zeros, zero_syms);
    }
    check::<2, Base2>(&data);
    check::<8, Base8>(&data);
    check::<10, Base10>(&data);
    check::<11, Base11>(&data);
    check::<36, Base36>(&data);
    check::<58, Base58Btc>(&data);
    check::<58, Base58Flickr>(&data);
    check::<62, Base62>(&data);
    check::<67, Base67>(&data);
}

#[test]
fn empty_input_gives_empty_output() {
    let mut buf = [0u8; 4];
    assert_eq!(Base58Btc::decode_mut(b"", &mut buf), Ok(0));
    assert_eq!(Base58Btc::encode_mut(b"", &mut buf), Ok(0));
    let mut none: [u8; 0] = [];
    assert_eq!(Base58Btc::decode_mut(b"", &mut none), Ok(0));
}

#[test]
fn encode_empty_needs_the_estimated_symbol() {
    let mut none: [u8; 0] = [];
    assert_eq!(Base58Btc::encode_mut(b"", &mut none), Err(DecodeError::InvalidLength(1)));
}

#[test]
fn base10_leading_zeros() {
    let mut buf = [0u8; 8];
    let n = Base10::encode_mut(&[0x00, 0x00, 0x01], &mut buf).unwrap();
    assert_eq!(&buf[..n], b"001");
    let n = Base10::decode_mut(b"001", &mut buf).unwrap();
    assert_eq!(&buf[..n], &[0x00, 0x00, 0x01]);
}

#[test]
fn base58_leading_ones() {
    assert_eq!(decode58(b"11ZiCa", 8), Ok(vec![0, 0, b'a', b'b', b'c']));
    let mut buf = [0u8; 16];
    let n = Base58Btc::encode_mut(&[0, 0, b'a', b'b', b'c'], &mut buf).unwrap();
    assert_eq!(&buf[..n], b"11ZiCa");
}

#[test]
fn invalid_char() {
    assert_eq!(decode58(b"abc0def", 32), Err(DecodeError::InvalidChar));
    assert_eq!(decode58(&[b'Z', 0xc3, 0xa9], 32), Err(DecodeError::InvalidChar));
    assert_eq!(decode58(b"ZiCa  \xff", 32), Err(DecodeError::InvalidChar));
}

#[test]
fn invalid_length() {
    // The leading zero run alone does not fit.
    assert_eq!(decode58(b"111", 2), Err(DecodeError::InvalidLength(3)));
    // The magnitude does not fit: "abc" takes three bytes.
    assert_eq!(decode58(b"ZiCa", 2), Err(DecodeError::InvalidLength(3)));
    assert_eq!(decode58(b"1ZiCa", 3), Err(DecodeError::InvalidLength(4)));
    let mut small = [0u8; 3];
    assert_eq!(
        Base58Btc::encode_mut(b"abc", &mut small),
        Err(DecodeError::InvalidLength(5))
    );
    let mut five = [0u8; 5];
    assert_eq!(
        Base58Btc::encode_mut(&[0, 0, b'a', b'b', b'c'], &mut five),
        Err(DecodeError::InvalidLength(6))
    );
}

#[test]
fn char_after_trailing_spaces() {
    assert_eq!(decode58(b"ZiCa  x", 32), Err(DecodeError::CharAfterTrailingSpaces));
    assert_eq!(decode58(b"Zi Ca", 32), Err(DecodeError::CharAfterTrailingSpaces));
}

#[test]
fn spaces_around_content() {
    let trimmed = decode58(b"ZiCa", 32);
    assert_eq!(decode58(b"  ZiCa  ", 32), trimmed);
    assert_eq!(decode58(b" ZiCa", 32), trimmed);
    assert_eq!(decode58(b"ZiCa   ", 32), trimmed);
    assert_eq!(decode58(b"   ", 32), Ok(vec![]));
    assert_eq!(decode58(b"  11  ", 32), Ok(vec![0, 0]));
}

#[test]
fn lookup_ascii_values() {
    assert_eq!(Base58Btc::lookup_ascii(b'1'), Some(0));
    assert_eq!(Base58Btc::lookup_ascii(b'z'), Some(57));
    assert_eq!(Base58Btc::lookup_ascii(b'0'), None);
    assert_eq!(Base58Btc::lookup_ascii(b'l'), None);
    assert_eq!(Base62::lookup_ascii(b'A'), Some(36));
    assert_eq!(Base67::lookup_ascii(b'~'), Some(66));
}

#[test]
fn lut_from_alphabet() {
    let lut = gen_lut(&[b'x', b'y', b'z']);
    assert_eq!(lut[b'x' as usize], 0);
    assert_eq!(lut[b'z' as usize], 2);
    assert_eq!(lut[b'a' as usize], -1);
    assert_eq!(lut.iter().filter(|&&v| v >= 0).count(), 3);
}

#[test]
fn arr_sizes_follow_estimates() {
    let (out, n) = Base58Btc::decode_arr(*b"44Y6qTgSvRMkdqpQ5ufkN").unwrap();
    assert_eq!(out.len(), decoded_size(58, 21));
    assert_eq!(n, 15);
    let (out, n) = Base10::encode_arr([0u8, 0, 1]).unwrap();
    assert_eq!(out.len(), encoded_size(10, 3));
    assert_eq!(&out[..n], b"001");
}

#[test]
fn other_alphabets_exact() {
    let mut buf = [0u8; 16];
    let n = Base2::encode_mut(&[5], &mut buf).unwrap();
    assert_eq!(&buf[..n], b"101");
    let n = Base36::encode_mut(&[1, 0], &mut buf).unwrap();
    assert_eq!(&buf[..n], b"74");
    let n = Base58Flickr::encode_mut(b"abc", &mut buf).unwrap();
    assert_eq!(&buf[..n], b"yHcz");
    let n = Base62::decode_mut(b"10", &mut buf).unwrap();
    assert_eq!(&buf[..n], &[62]);
    let n = Base8::encode_mut(&[255], &mut buf).unwrap();
    assert_eq!(&buf[..n], b"377");
    let n = Base11::encode_mut(&[10], &mut buf).unwrap();
    assert_eq!(&buf[..n], b"a");
}

#[test]
fn lorem_ipsum_round_trip() {
    let text = "Lorem ipsum dolor sit amet, consectetur adipiscing elit, sed do eiusmod tempor incididunt ut labore et dolore magna aliqua. Ut enim ad minim veniam, quis nostrud exercitation ullamco laboris nisi ut aliquip ex ea commodo consequat. Duis aute irure dolor in reprehenderit in voluptate velit esse cillum dolore eu fugiat nulla pariatur. Excepteur sint occaecat cupidatat non proident, sunt in culpa qui officia deserunt mollit anim id est laborum.";
    let encoded = "6WWAVR6RaTut2Av6UM6awEwUE5NwgCpoRmC9WQmcjKLWSwQVE6rcRW23MBinCQ1xxPcFgZB9z2jp1igKVp1f6sdJxmf1c9GpMFxi4e1fp7zEJgJrFYD6yrVxqo2kfLAEV8xYYBJPGJTzkKMq7kfZXuTxnoNdPCjqsYDaCvsLsbwdNWgyHW6Ub9K1f5FXZTVobWAsRBNwaXmDRi78ZWz5h5fnUVRnPiq3HHvSu8DBqdxPngorx8rRkswtDsz1KbFyzDTE7W5eFYoAYbszBmkfR2CTHfoT4yZXYkU4YSLPnLGPZeEaMQonDjr3vN35aCcgeHiJq34kVbENgqet8n8cdh2phNEWyRS8ok6A62Ynb5qFnCVzuDqXYHKJCAyrqudpWS2zbRHEivNAe7B6WBuyPUg86mXZEgyGwsEiv517fWQL6hZcj4NfaqNpGsGJMgvUhu6MGgLruphbqQYEpZeLUk3zcfWqGHoVLW3iwi6i9ULDefXvVEU2SdtfkBQi7xGnZurxPxgShbofmx3QxVTLWntL7gB2LGQ2NWtEyUuxrE2h1UKeEDvPjC6dZpNdemDL8FiMQ15nSSnsEj6GEYaPScox6mjCvouw";
    let mut buf = [0u8; 1024];
    let n = Base58Btc::decode_mut(encoded.as_bytes(), &mut buf).unwrap();
    assert_eq!(text.as_bytes(), &buf[..n]);
    let n = Base58Btc::encode_mut(text.as_bytes(), &mut buf).unwrap();
    assert_eq!(encoded.as_bytes(), &buf[..n]);
}
