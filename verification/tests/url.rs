use stroke::url::{decode, decode_char, encode};

#[test]
fn a_han_character_is_percent_encoded() {
    assert_eq!(encode("好"), "%E5%A5%BD");
    assert_eq!(encode("a b/c?"), "a%20b%2Fc%3F");
    assert_eq!(encode("100%"), "100%25");
}

#[test]
fn both_spellings_decode_to_the_character() {
    assert_eq!(decode_char("%E5%A5%BD"), Some('好'));
    assert_eq!(decode_char("好"), Some('好'));
    assert_eq!(decode_char(""), None);
    assert_eq!(decode_char(&encode("你")), Some('你'));
}

#[test]
fn decoding_undoes_encoding() {
    for text in ["好", "你好 world", "%", "a%2", "{x}#y", "\u{1F600}"] {
        assert_eq!(decode(&encode(text)), text);
    }
}

#[test]
fn invalid_utf8_is_left_as_it_came() {
    assert_eq!(decode("%E5%A5"), "%E5%A5");
    assert_eq!(decode("%zz"), "%zz");
    assert_eq!(decode("%41%62"), "Ab");
}
