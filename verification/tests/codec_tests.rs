use qr_base44::{decode, decode_103bits, encode, encode_103bits, Base44Error};

#[test]
fn roundtrips() {
    let cases: &[&[u8]] = &[
        b"",
        b"A",
        b"AB",
        b"Hello, world!",
        &[0x00],
        &[0x00, 0x01, 0xFF, 0x80, 0x7F],
    ];
    for &case in cases {
        let s = encode(case);
        let dec = decode(&s).unwrap();
        assert_eq!(case, dec.as_slice());
    }
}

#[test]
fn known_vectors() {
    // Base44 uses least-significant digit first (lsd-first): output order is c, b, a.
    // For a 2-byte group [u, v], form x = u*256 + v, then:
    // c = x % 44; x /= 44; b = x % 44; a = x / 44; and output chars are [c, b, a].
    // For a 1-byte group [u], b = u % 44; a = u / 44; and output chars are [b, a].
    // [0x00, 0x00] -> x = 0; digits: c=0, b=0, a=0; output lsd-first -> "000"
    assert_eq!(encode(&[0x00, 0x00]), "000");

    // [0x41] (ASCII 'A' = 65) -> b = 65 % 44 = 21 (L), a = 65 / 44 = 1 (1) -> "L1"
    assert_eq!(encode(&[0x41]), "L1");

    // [0x00, 0x01] -> x = 1; c = 1 % 44 = 1, x = 0, b = 0, a = 0 -> "100"
    assert_eq!(encode(&[0x00, 0x01]), "100");

    assert_eq!(decode("000").unwrap(), &[0x00, 0x00]);
    assert_eq!(decode("L1").unwrap(), &[0x41]);
    assert_eq!(decode("100").unwrap(), &[0x00, 0x01]);
}

#[test]
fn errors() {
    // InvalidChar: character not in the alphabet; Dangling: incomplete group;
    // Overflow: numeric value exceeds the maximum for the group.
    assert!(matches!(decode("\t"), Err(Base44Error::InvalidChar)));
    assert!(matches!(decode("\n"), Err(Base44Error::InvalidChar)));
    assert!(matches!(decode(" "), Err(Base44Error::InvalidChar)));
    // ':::' -> 43*44^2 + 43*44 + 43 = 85183 > 65535
    assert!(matches!(decode(":::"), Err(Base44Error::Overflow)));
    // '//' -> 42*44 + 42 = 1890 > 255
    assert!(matches!(decode("//"), Err(Base44Error::Overflow)));

    assert!(matches!(decode("A"), Err(Base44Error::Dangling)));
    assert!(matches!(decode("😀"), Err(Base44Error::InvalidChar)));
}

#[test]
fn boundary_cases() {
    // Max single byte: 255 = 5*44 + 35, so encoding is alphabet[35] + alphabet[5] = "Z5"
    assert_eq!(encode(&[0xFF]), "Z5");
    assert_eq!(decode("Z5").unwrap(), &[0xFF]);

    // Max 2-byte value: x = 65535; c = 19 (J), b = 37 (%), a = 33 (X)
    assert_eq!(encode(&[0xFF, 0xFF]), "J%X");
    assert_eq!(decode("J%X").unwrap(), &[0xFF, 0xFF]);

    // Every alphabet character decodes somewhere.
    let alphabet = "0123456789ABCDEFGHIJKLMNOPQRSTUVWXYZ$%*+-./:";
    for (idx, ch) in alphabet.chars().enumerate() {
        // Positions 0-33 fit in "00{ch}"; 34 onwards would overflow there,
        // so use "{ch}0" (a 2-character group below 255).
        if idx < 34 {
            let s = format!("00{}", ch);
            decode(&s).expect(&format!("Character {} should be valid in 3-char group", ch));
        } else {
            let s = format!("{}0", ch);
            decode(&s).expect(&format!("Character {} should be valid", ch));
        }
    }

    assert_eq!(encode(&[]), "");
    assert_eq!(decode("").unwrap(), Vec::<u8>::new());

    let data = &[0x01, 0x02, 0x03];
    let encoded = encode(data);
    assert_eq!(decode(&encoded).unwrap(), data);
}

#[test]
fn url_safe_characters() {
    let test_data = &[
        &[0x00][..],
        &[0xFF],
        &[0x00, 0xFF],
        &[0x12, 0x34, 0x56, 0x78, 0x9A, 0xBC, 0xDE, 0xF0],
    ];

    let alphabet = "0123456789ABCDEFGHIJKLMNOPQRSTUVWXYZ$%*+-./:";
    for data in test_data {
        let encoded = encode(data);
        assert!(!encoded.contains(' '), "Encoded should not contain space");
        for ch in encoded.chars() {
            assert!(alphabet.contains(ch), "Character {} not in alphabet", ch);
        }
    }
}

#[test]
fn fixed_length_roundtrip() {
    let test_cases: &[[u8; 13]] = &[
        [0x00; 13],
        [
            0x01, 0x02, 0x03, 0x04, 0x05, 0x06, 0x07, 0x08, 0x09, 0x0A, 0x0B, 0x0C, 0x0D,
        ],
        // Max value for 103 bits: last byte (byte 12) MSB must be 0
        [
            0xFF, 0xFF, 0xFF, 0xFF, 0xFF, 0xFF, 0xFF, 0xFF, 0xFF, 0xFF, 0xFF, 0xFF, 0x7F,
        ],
    ];

    for &data in test_cases {
        let encoded = encode_103bits(&data);
        assert_eq!(encoded.len(), 19, "Encoded length should be exactly 19");

        let decoded =
            decode_103bits(&encoded).unwrap_or_else(|_| panic!("Failed to decode: {}", encoded));
        assert_eq!(data, decoded, "Roundtrip failed for {:02X?}", data);
    }
}

#[test]
fn fixed_length_exactly_19_chars() {
    // 100 pseudo-random patterns all encode to exactly 19 characters.
    for i in 0..100 {
        let mut data = [0u8; 13];
        for j in 0..13 {
            data[j] = ((i * 17 + j * 23) % 256) as u8;
        }
        // Keep the MSB of the last byte 0 to stay within 103 bits
        data[12] &= 0x7F;

        let encoded = encode_103bits(&data);
        assert_eq!(encoded.len(), 19);

        let decoded = decode_103bits(&encoded).unwrap();
        assert_eq!(data, decoded);
    }
}

#[test]
fn fixed_invalid_length() {
    assert!(matches!(
        decode_103bits("TOOSHORT"),
        Err(Base44Error::Dangling)
    ));

    // 23 chars
    assert!(matches!(
        decode_103bits("WAYTOOLONGFORBASE44SURE"),
        Err(Base44Error::Dangling)
    ));

    // 18 chars
    assert!(matches!(
        decode_103bits("012345678901234567"),
        Err(Base44Error::Dangling)
    ));

    // 20 chars
    assert!(matches!(
        decode_103bits("01234567890123456789"),
        Err(Base44Error::Dangling)
    ));
}

#[test]
fn fixed_invalid_chars() {
    assert!(matches!(
        decode_103bits("ABC!EFGHIJ123456789"), // '!' not in alphabet
        Err(Base44Error::InvalidChar)
    ));

    assert!(matches!(
        decode_103bits("abcdefghij123456789"), // lowercase not allowed
        Err(Base44Error::InvalidChar)
    ));

    assert!(matches!(
        decode_103bits("ABC EFGHIJ123456789"), // space not in alphabet
        Err(Base44Error::InvalidChar)
    ));
}

#[test]
fn comparison_with_byte_pair_encoding() {
    let data = [
        0x01, 0x02, 0x03, 0x04, 0x05, 0x06, 0x07, 0x08, 0x09, 0x0A, 0x0B, 0x0C, 0x0D,
    ];

    let optimal = encode_103bits(&data);
    let byte_pair = encode(&data);

    assert_eq!(optimal.len(), 19);
    assert_eq!(byte_pair.len(), 20);

    let decoded_optimal = decode_103bits(&optimal).unwrap();
    let decoded_byte_pair = decode(&byte_pair).unwrap();

    assert_eq!(data.as_slice(), decoded_optimal.as_slice());
    assert_eq!(data.as_slice(), decoded_byte_pair.as_slice());
}
