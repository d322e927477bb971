use qr_base44::{base43, decode, decode_bits, encode, encode_bits, Base44Error};
use qr_base44::base43::Base43Error;

#[test]
fn pair_length_law() {
    // len(encode(b)) == ceil(3 * len(b) / 2), regardless of content
    for len in 0..12usize {
        let data = vec![0xA5u8; len];
        assert_eq!(encode(&data).len(), (3 * len + 1) / 2);
        assert_eq!(base43::encode(&data).len(), (3 * len + 1) / 2);
    }
}

#[test]
fn reencode_is_identity_on_encodings() {
    // A string produced by encode decodes and re-encodes to itself exactly.
    let cases: &[&[u8]] = &[b"", b"x", b"xy", b"codec", &[0xFF, 0x00, 0x80]];
    for &case in cases {
        let s = encode(case);
        let back = decode(&s).unwrap();
        assert_eq!(encode(&back), s);

        let s43 = base43::encode(case);
        let back43 = base43::decode(&s43).unwrap();
        assert_eq!(base43::encode(&back43), s43);
    }
}

#[test]
fn base43_known_vectors() {
    // 43-alphabet: 0-9, A-Z, then "%*+-./:" (no '$')
    assert_eq!(base43::encode(&[0x00, 0x00]), "000");
    // 65 % 43 = 22 (M), 65 / 43 = 1 -> "M1"
    assert_eq!(base43::encode(&[0x41]), "M1");
    // 255 % 43 = 40 (.), 255 / 43 = 5 -> ".5"
    assert_eq!(base43::encode(&[0xFF]), ".5");
    // 65535 % 43 = 3, 1524 % 43 = 19 (J), 1524 / 43 = 35 (Z) -> "3JZ"
    assert_eq!(base43::encode(&[0xFF, 0xFF]), "3JZ");

    assert_eq!(base43::decode("M1").unwrap(), &[0x41]);
    assert_eq!(base43::decode(".5").unwrap(), &[0xFF]);
    assert_eq!(base43::decode("3JZ").unwrap(), &[0xFF, 0xFF]);
}

#[test]
fn base43_errors() {
    assert!(matches!(base43::decode("\t"), Err(Base43Error::InvalidChar)));
    assert!(matches!(base43::decode("A"), Err(Base43Error::Dangling)));
    // ':' is digit 42 in the 43-alphabet: 42*43^2 + 42*43 + 42 = 79506 > 65535
    assert!(matches!(base43::decode(":::"), Err(Base43Error::Overflow)));
    // '/' is digit 41: 41*43 + 41 = 1804 > 255
    assert!(matches!(base43::decode("//"), Err(Base43Error::Overflow)));
    // '$' is not in the 43-alphabet
    assert!(matches!(base43::decode("00$"), Err(Base43Error::InvalidChar)));
}

#[test]
fn base43_url_safe() {
    let alphabet = "0123456789ABCDEFGHIJKLMNOPQRSTUVWXYZ%*+-./:";
    assert_eq!(alphabet.len(), 43);
    let data = &[0x12, 0x34, 0x56, 0x78, 0x9A, 0xBC, 0xDE, 0xF0, 0xFF];
    let encoded = base43::encode(data);
    for ch in encoded.chars() {
        assert!(alphabet.contains(ch), "Character {} not in alphabet", ch);
        assert_ne!(ch, ' ');
        assert_ne!(ch, '$');
    }
    assert_eq!(base43::decode(&encoded).unwrap(), data);
}

#[test]
fn bits_known_vectors() {
    // The fixed-width codec emits most significant digit first, the
    // reverse of the byte-pair codec's order.
    // 255 -> digits 35 ('Z') and 5 ('5'); MSB-first gives "5Z"
    assert_eq!(encode_bits(8, &[0xFF]), "5Z");
    assert_eq!(decode_bits(8, "5Z").unwrap(), &[0xFF]);

    assert_eq!(encode_bits(1, &[0x01]), "1");
    assert_eq!(decode_bits(1, "1").unwrap(), &[0x01]);

    // One digit covers 5 bits (44 > 31), two digits cover 10
    assert_eq!(encode_bits(5, &[0x1F]).len(), 1);
    assert_eq!(encode_bits(10, &[0xFF, 0x03]).len(), 2);
}

#[test]
fn bits_round_trip() {
    // Every bit width from 1 to 128, on a value that fits it.
    for bits in 1..=128usize {
        let nb = (bits + 7) / 8;
        let mut data = vec![0xFFu8; nb];
        let last_bits = bits - 8 * (nb - 1);
        data[nb - 1] = if last_bits == 8 { 0xFF } else { (1u8 << last_bits) - 1 };
        let s = encode_bits(bits, &data);
        assert_eq!(decode_bits(bits, &s).unwrap(), data, "width {}", bits);
    }
}

#[test]
fn bits_boundary_lengths() {
    // 44^19 > 2^103 - 1, so 103 bits take 19 digits; 104 need one more.
    assert_eq!(encode_bits(103, &[0u8; 13]).len(), 19);
    assert_eq!(encode_bits(104, &[0u8; 13]).len(), 20);
}

#[test]
fn bits_128() {
    let data = [0xFFu8; 16];
    let s = encode_bits(128, &data);
    // ceil(128 / log2(44)) digits
    assert_eq!(s.len(), 24);
    assert_eq!(decode_bits(128, &s).unwrap(), data);

    let s43 = base43::encode_bits(128, &data);
    assert_eq!(base43::decode_bits(128, &s43).unwrap(), data);
}

#[test]
fn bits_errors() {
    // A value of 1575 does not fit 8 bits
    assert!(matches!(decode_bits(8, "ZZ"), Err(Base44Error::Overflow)));
    assert!(matches!(decode_bits(8, " "), Err(Base44Error::InvalidChar)));
    // 25 zeros still decode (to value 0); a 25-digit string of ':' overflows 128 bits
    assert!(decode_bits(128, "0000000000000000000000000").is_ok());
    assert!(matches!(
        decode_bits(128, ":::::::::::::::::::::::::"),
        Err(Base44Error::Overflow)
    ));
}
