use vigenere::decipherer::Decipherer;
use vigenere::encrypt::{cipher_char, encrypt_slice_from};

#[test]
fn test_cipher_char_adds_key() {
    assert_eq!(cipher_char(b'A', b'A'), b'A');
    assert_eq!(cipher_char(b'A', b'B'), b'B');
    assert_eq!(cipher_char(b'Y', b'B'), b'Z');
    assert_eq!(cipher_char(b'Z', b'B'), b'A');
    assert_eq!(cipher_char(b'a', b'B'), b'b');
    assert_eq!(cipher_char(b'z', b'b'), b'a');
}

#[test]
fn test_encrypt_slice_basics() {
    let mut buf: Vec<u8> = Vec::new();
    encrypt_slice_from(b"abc123", &vec![b'B'], &mut buf);
    assert_eq!(buf, b"bcd123".to_vec());

    let mut buf: Vec<u8> = Vec::new();
    encrypt_slice_from(b"abc", &Vec::new(), &mut buf);
    assert_eq!(buf, b"AAA".to_vec());

    let mut buf: Vec<u8> = Vec::new();
    encrypt_slice_from(b"aB cD", &vec![b'A', b'b'], &mut buf);
    assert_eq!(buf, b"aC cE".to_vec());
}

#[test]
fn test_encrypt_then_decipher_restores_plaintext() {
    let plaintext = b"Attack at dawn, 5 am sharp!";
    let key = vec![b'K', b'E', b'Y'];
    let mut ciphertext: Vec<u8> = Vec::new();
    encrypt_slice_from(plaintext, &key, &mut ciphertext);
    let key_id = vigenere::key::Key::from_slice(&key).unwrap().id;
    let mut dc = Decipherer::from_slice(&ciphertext);
    dc.key.set_id(key_id);
    dc.decipher_fully();
    assert_eq!(dc.buf, plaintext.to_vec());
}
