use radix50::{pdp10, pdp11, Error};

#[test]
fn encode_words() {
    assert_eq!(pdp11::encode_word("999").expect("bad char"), 63999);
    assert_eq!(pdp11::encode_word("_BC"), Err(Error::IllegalChar { char: '_', pos: 1 }));
    assert_eq!(pdp11::encode_word("A_C"), Err(Error::IllegalChar { char: '_', pos: 2 }));
    assert_eq!(pdp11::encode_word("AB_"), Err(Error::IllegalChar { char: '_', pos: 3 }));

    assert_eq!(pdp11::encode_word("ABC").expect("bad char"), 1683);
    assert_eq!(pdp11::encode_word("DEF").expect("bad char"), 6606);
    assert_eq!(pdp11::encode_word("GHI").expect("bad char"), 11529);
    assert_eq!(pdp11::encode_word("JKL").expect("bad char"), 16452);
    assert_eq!(pdp11::encode_word("MNO").expect("bad char"), 21375);
    assert_eq!(pdp11::encode_word("PQR").expect("bad char"), 26298);
    assert_eq!(pdp11::encode_word("STU").expect("bad char"), 31221);
    assert_eq!(pdp11::encode_word("VWX").expect("bad char"), 36144);
    assert_eq!(pdp11::encode_word("YZ ").expect("bad char"), 41040);
    assert_eq!(pdp11::encode_word("012").expect("bad char"), 49272);
    assert_eq!(pdp11::encode_word("345").expect("bad char"), 54195);
    assert_eq!(pdp11::encode_word("678").expect("bad char"), 59118);
    assert_eq!(pdp11::encode_word("9.$").expect("bad char"), 63547);
    assert_eq!(pdp11::encode_word("%").expect("bad char"), 46400);

    assert_eq!(pdp10::encode_word("ABCDEF").expect("bad char"), 1157975016);
    assert_eq!(pdp10::encode_word("GHIJKL").expect("bad char"), 1788128862);
    assert_eq!(pdp10::encode_word("MNOPQR").expect("bad char"), 2418282708);
    assert_eq!(pdp10::encode_word("STUVWX").expect("bad char"), 3048436554);
    assert_eq!(pdp10::encode_word("YZ 012").expect("bad char"), 3676161683);
    assert_eq!(pdp10::encode_word("345678").expect("bad char"), 422795529);
    assert_eq!(pdp10::encode_word("9.$%  ").expect("bad char"), 1121214400);
    assert_eq!(pdp10::encode_word("FILE05").expect("bad char"), 1688472046);

    assert_eq!(pdp10::encode_word("SYMBOL").expect("bad char"), 0o126633472376_u64 as u32);
    assert_eq!(pdp10::encode_word("SYMBOL").expect("bad char"), 0o466633472376_u64 as u32);
}

#[test]
fn decode_words() {
    assert_eq!(pdp11::decode_word(1683), "ABC");
    assert_eq!(pdp11::decode_word(6606), "DEF");
    assert_eq!(pdp11::decode_word(11529), "GHI");
    assert_eq!(pdp11::decode_word(16452), "JKL");
    assert_eq!(pdp11::decode_word(21375), "MNO");
    assert_eq!(pdp11::decode_word(26298), "PQR");
    assert_eq!(pdp11::decode_word(31221), "STU");
    assert_eq!(pdp11::decode_word(36144), "VWX");
    assert_eq!(pdp11::decode_word(41040), "YZ ");
    assert_eq!(pdp11::decode_word(49272), "012");
    assert_eq!(pdp11::decode_word(54195), "345");
    assert_eq!(pdp11::decode_word(59118), "678");
    assert_eq!(pdp11::decode_word(63547), "9.$");
    assert_eq!(pdp11::decode_word(46400), "%  ");

    assert_eq!(pdp10::decode_word(1157975016), "ABCDEF");
    assert_eq!(pdp10::decode_word(1788128862), "GHIJKL");
    assert_eq!(pdp10::decode_word(2418282708), "MNOPQR");
    assert_eq!(pdp10::decode_word(3048436554), "STUVWX");
    assert_eq!(pdp10::decode_word(3676161683), "YZ 012");
    assert_eq!(pdp10::decode_word(422795529), "345678");
    assert_eq!(pdp10::decode_word(1121214400), "9.$%  ");

    assert_eq!(pdp10::decode_word(0o126633472376_u64 as u32), "SYMBOL");
    assert_eq!(pdp10::decode_word(0o466633472376_u64 as u32), "SYMBOL");

    assert_eq!(pdp11::decode_word(0o14760), "DF ");
    assert_eq!(pdp11::decode_word(0o15270), "DK ");
    assert_eq!(pdp11::decode_word(0o14570), "DC ");
    assert_eq!(pdp11::decode_word(0o42420), "KB ");
    assert_eq!(pdp11::decode_word(0o63320), "PR ");
    assert_eq!(pdp11::decode_word(0o63200), "PP ");
    assert_eq!(pdp11::decode_word(0o46600), "LP ");
    assert_eq!(pdp11::decode_word(0o16040), "DT ");
    assert_eq!(pdp11::decode_word(0o52140), "MT ");
    assert_eq!(pdp11::decode_word(0o12620), "CR ");
    assert_eq!(pdp11::decode_word(0o63440), "PT ");
}

#[test]
fn encode_strings() {
    assert_eq!(pdp10::encode("THIS IS A TEST").expect("bad char"), [3119342419, 2970305215, 3046400000]);
    assert_eq!(pdp11::encode("THIS IS A TEST").expect("bad char"), [32329, 30409, 30401, 805, 31200]);
    assert_eq!(pdp10::encode("_HIS IS A TEST"), Err(Error::IllegalChar { char: '_', pos: 1 }));
    assert_eq!(pdp10::encode("THIS _S A TEST"), Err(Error::IllegalChar { char: '_', pos: 6 }));
    assert_eq!(pdp10::encode("THIS IS A TES_"), Err(Error::IllegalChar { char: '_', pos: 14 }));
    assert_eq!(pdp11::encode("_HIS IS A TEST"), Err(Error::IllegalChar { char: '_', pos: 1 }));
    assert_eq!(pdp11::encode("THIS _S A TEST"), Err(Error::IllegalChar { char: '_', pos: 6 }));
    assert_eq!(pdp11::encode("THIS IS A TES_"), Err(Error::IllegalChar { char: '_', pos: 14 }));
}

#[test]
fn decode_strings() {
    assert_eq!(pdp10::decode(&[3119342419, 2970305215, 3046400000]), "THIS IS A TEST    ");
    assert_eq!(pdp11::decode(&[32329, 30409, 30401, 805, 31200]), "THIS IS A TEST ");
}
