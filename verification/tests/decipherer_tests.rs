use vigenere::decipherer::Decipherer;

#[test]
fn test_cipher_decrypt_char_lower() {
    for cipher in b'a'..=b'z' {
        for key in b'a'..=b'z' {
            let result = Decipherer::decipher_char_using_table(cipher, key);
            assert!(result.is_ascii_alphabetic());
            assert!(result.is_ascii_lowercase());
        }
    }
}

#[test]
fn test_cipher_decrypt_char_upper() {
    for cipher in b'A'..=b'Z' {
        for key in b'A'..=b'Z' {
            let result = Decipherer::decipher_char_using_table(cipher, key);
            assert!(result.is_ascii_alphabetic());
            assert!(result.is_ascii_uppercase());
        }
    }
}

#[test]
fn test_decipher_next_key() {
    let original_text = "abc123";
    let mut dc = Decipherer::from_slice(original_text.as_bytes());
    dc.decipher_fully();
    assert_eq!(dc.key.id, 0);
    assert_eq!(dc.key.buf_to_string(), "A".to_string());
    assert_eq!(dc.buf_to_string(), original_text.to_string());
    dc.decipher_next_key();
    assert_eq!(dc.key.id, 1);
    assert_eq!(dc.key.buf_to_string(), "B".to_string());
    assert_eq!(dc.buf_to_string(), "zab123".to_string());
    dc.decipher_next_key();
    assert_eq!(dc.key.id, 2);
    assert_eq!(dc.key.buf_to_string(), "C".to_string());
    assert_eq!(dc.buf_to_string(), "yza123".to_string());
    while dc.key.id < 26 {
        dc.decipher_next_key();
    }
    assert_eq!(dc.key.id, 26);
    assert_eq!(dc.key.buf_to_string(), "AA".to_string());
    assert_eq!(dc.buf_to_string(), original_text.to_string());
    dc.decipher_next_key();
    assert_eq!(dc.key.id, 27);
    assert_eq!(dc.key.buf_to_string(), "AB".to_string());
    assert_eq!(dc.buf_to_string(), "aac123".to_string());
}

#[test]
fn test_cipher_compact() {
    let c = Decipherer::from_slice(b"a1bc123A=B!\nC");
    assert_eq!(c.compact_to_string(), "abcABC".to_string());
}

#[test]
fn test_decipher_sign_convention() {
    assert_eq!(Decipherer::decipher_char_using_table(b'B', b'A'), b'B');
    assert_eq!(Decipherer::decipher_char_using_table(b'B', b'B'), b'A');
    assert_eq!(Decipherer::decipher_char_using_table(b'Z', b'B'), b'Y');
    assert_eq!(Decipherer::decipher_char_using_table(b'b', b'B'), b'a');
    assert_eq!(Decipherer::decipher_char_using_table(b'b', b'b'), b'a');
    assert_eq!(Decipherer::decipher_char_using_table(b'a', b'B'), b'z');
}

#[test]
fn test_incremental_matches_full_decipher() {
    let text = b"Lorem ipsum, dolor sit amet! 42\nconsectetur adipiscing elit.";
    let mut stepped = Decipherer::from_slice(text);
    stepped.decipher_fully();
    for id in 1..200u128 {
        stepped.decipher_next_key();
        let mut seeded = Decipherer::from_slice(text);
        seeded.key.set_id(id);
        seeded.decipher_fully();
        assert_eq!(stepped.key.id, id);
        assert_eq!(stepped.buf, seeded.buf);
    }
}

#[test]
fn test_non_letters_never_altered() {
    let text = b"a1bc123A=B!\nC \t~";
    let mut dc = Decipherer::from_slice(text);
    dc.decipher_fully();
    for _ in 0..100 {
        for (i, b) in text.iter().enumerate() {
            if !b.is_ascii_alphabetic() {
                assert_eq!(dc.buf[i], *b);
            }
        }
        dc.decipher_next_key();
    }
}

#[test]
fn test_buf_to_string_marks_invalid_utf8() {
    let text = [0xffu8, 0xfe, b'!'];
    let mut dc = Decipherer::from_slice(&text);
    dc.decipher_fully();
    assert_eq!(dc.buf_to_string(), "<Not valid UTF-8>".to_string());
}
