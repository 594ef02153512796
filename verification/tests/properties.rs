use radix50::{pdp10, pdp11, Error};

#[test]
fn round_trip_legal_strings() {
    let s11 = "ABCDEF.$%012";
    let encoded = pdp11::encode(s11).unwrap();
    assert_eq!(pdp11::decode(&encoded), s11);

    let s10 = "ABCDEF.$%012";
    let encoded = pdp10::encode(s10).unwrap();
    assert_eq!(pdp10::decode(&encoded), s10);

    let spaced = "THIS IS A TEST ";
    let encoded = pdp11::encode(spaced).unwrap();
    assert_eq!(pdp11::decode(&encoded), spaced);

    let spaced10 = "THIS IS A TEST    ";
    let encoded = pdp10::encode(spaced10).unwrap();
    assert_eq!(pdp10::decode(&encoded), spaced10);
}

#[test]
fn padding_idempotence() {
    assert_eq!(pdp11::encode_word("AA").unwrap(), pdp11::encode_word("AA ").unwrap());
    assert_eq!(pdp11::encode_word("A").unwrap(), pdp11::encode_word("A  ").unwrap());
    assert_eq!(pdp11::encode_word("").unwrap(), pdp11::encode_word("   ").unwrap());

    assert_eq!(pdp10::encode_word("AAAAA").unwrap(), pdp10::encode_word("AAAAA ").unwrap());
    assert_eq!(pdp10::encode_word("A").unwrap(), pdp10::encode_word("A     ").unwrap());
    assert_eq!(pdp10::encode_word("").unwrap(), pdp10::encode_word("      ").unwrap());

    assert_eq!(pdp11::encode("PADDING1").unwrap(), pdp11::encode("PADDING1 ").unwrap());
    assert_eq!(pdp10::encode("PADDING123").unwrap(), pdp10::encode("PADDING123  ").unwrap());
}

#[test]
fn position_accounting() {
    assert_eq!(pdp11::encode("_HIS IS A TEST"), Err(Error::IllegalChar { char: '_', pos: 1 }));
    assert_eq!(pdp11::encode("THIS _S A TEST"), Err(Error::IllegalChar { char: '_', pos: 6 }));
    assert_eq!(pdp11::encode("THIS IS A TES_"), Err(Error::IllegalChar { char: '_', pos: 14 }));
    // The first illegal character in document order wins.
    assert_eq!(pdp11::encode("TH_S _S A TEST"), Err(Error::IllegalChar { char: '_', pos: 3 }));
    // Lower-case characters are illegal in both dialects.
    assert_eq!(pdp11::encode("This"), Err(Error::IllegalChar { char: 'h', pos: 2 }));
    assert_eq!(pdp10::encode("This"), Err(Error::IllegalChar { char: 'h', pos: 2 }));
    // Characters above the ASCII range are illegal too.
    assert_eq!(pdp11::encode_word("AB\u{00e9}"), Err(Error::IllegalChar { char: '\u{00e9}', pos: 3 }));
}

#[test]
fn decode_is_total() {
    // Out-of-range words (valued 40^3 and up) still decode: the high
    // bits beyond the three base-40 digits are discarded.
    assert_eq!(pdp11::decode_word(65535), pdp11::decode_word(65535 % 64000));
    assert_eq!(pdp11::decode_word(64000), "   ");
    assert_eq!(pdp11::decode_word(64000 + 1535), pdp11::decode_word(1535));
    assert_eq!(pdp11::decode_word(0), "   ");
    assert_eq!(pdp11::decode_word(65535).len(), 3);

    assert_eq!(pdp10::decode_word(u32::MAX).len(), 6);
    assert_eq!(pdp10::decode_word(4096000000), "      ");
    assert_eq!(pdp10::decode_word(4096000000 + 3324), "   123");
    assert_eq!(pdp10::decode_word(3324), "   123");
    assert_eq!(pdp10::decode_word(504456086), "3.1415");
    assert_eq!(pdp11::decode_word(50913), "123");
}

#[test]
fn empty_input() {
    assert_eq!(pdp11::encode("").unwrap(), []);
    assert_eq!(pdp10::encode("").unwrap(), []);
    assert_eq!(pdp11::decode(&[]), "");
    assert_eq!(pdp10::decode(&[]), "");
}

#[test]
fn alphabet_bijection() {
    // Every alphabet character's digit is its table index: a one-character
    // word encodes as digit * 40^(n-1), and decoding leads back to it.
    for (i, c) in pdp11::RADIX50_DECODE.iter().enumerate() {
        let s: String = [*c].iter().collect();
        let w = pdp11::encode_word(&s).unwrap();
        assert_eq!(w, (i as u16) * 1600);
        assert_eq!(pdp11::decode_word(w).chars().next().unwrap(), *c);
    }
    for (i, c) in pdp10::RADIX50_DECODE.iter().enumerate() {
        let s: String = [*c].iter().collect();
        let w = pdp10::encode_word(&s).unwrap();
        assert_eq!(w, (i as u32) * 102400000);
        assert_eq!(pdp10::decode_word(w).chars().next().unwrap(), *c);
    }
    // No two alphabet entries collide.
    for (i, a) in pdp11::RADIX50_DECODE.iter().enumerate() {
        for b in pdp11::RADIX50_DECODE.iter().skip(i + 1) {
            assert_ne!(*a, *b);
        }
    }
    for (i, a) in pdp10::RADIX50_DECODE.iter().enumerate() {
        for b in pdp10::RADIX50_DECODE.iter().skip(i + 1) {
            assert_ne!(*a, *b);
        }
    }
}

#[test]
fn excess_characters_are_ignored_by_encode_word() {
    // encode_word reads at most one word's worth of characters.
    assert_eq!(pdp11::encode_word("ABCD").unwrap(), pdp11::encode_word("ABC").unwrap());
    assert_eq!(pdp10::encode_word("ABCDEFG").unwrap(), pdp10::encode_word("ABCDEF").unwrap());
}

#[test]
fn string_fixtures() {
    assert_eq!(pdp11::encode("THIS IS A TEST").unwrap(), [32329, 30409, 30401, 805, 31200]);
    assert_eq!(pdp10::encode("THIS IS A TEST").unwrap(), [3119342419, 2970305215, 3046400000]);
    assert_eq!(pdp11::decode(&[32329, 30409, 30401, 805, 31200]), "THIS IS A TEST ");
    assert_eq!(pdp10::decode(&[3119342419, 2970305215, 3046400000]), "THIS IS A TEST    ");
}
