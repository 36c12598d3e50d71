use vigenere::key::Key;

#[test]
fn test_first_key() {
    let k = Key::first();
    assert_eq!(0, k.id);
    assert_eq!("A", k.buf_to_string());
    assert_eq!(vec![b'A'], k.buf);
}

#[test]
fn test_advance() {
    let mut k = Key::first();
    k.advance();
    assert_eq!(1, k.id);
    assert_eq!("B", k.buf_to_string());
}

#[test]
fn test_advance_carry_counts() {
    let mut k = Key::from_slice(b"AA").unwrap();
    let modified = k.advance();
    assert_eq!(k.buf_to_string(), "AB");
    assert_eq!(modified, 1);

    let mut k = Key::from_slice(b"AZ").unwrap();
    let modified = k.advance();
    assert_eq!(k.buf_to_string(), "BA");
    assert_eq!(modified, 2);

    let mut k = Key::from_slice(b"ZZ").unwrap();
    let modified = k.advance();
    assert_eq!(k.buf_to_string(), "AAA");
    assert_eq!(modified, 3);

    let mut k = Key::from_slice(b"ABZZ").unwrap();
    let modified = k.advance();
    assert_eq!(k.buf_to_string(), "ACAA");
    assert_eq!(modified, 3);
}

#[test]
fn test_identity_digit_boundaries() {
    let mut k = Key::first();
    let cases: [(u128, &str); 7] =
        [(0, "A"), (25, "Z"), (26, "AA"), (27, "AB"), (51, "AZ"), (52, "BA"), (701, "ZZ")];
    for (id, digits) in cases.iter() {
        k.set_id(*id);
        assert_eq!(k.id, *id);
        assert_eq!(k.buf_to_string(), *digits);
    }
}

#[test]
fn test_identity_round_trip() {
    let mut k = Key::first();
    for id in 0..100_000u128 {
        k.set_id(id);
        let back = Key::from_slice(&k.buf).unwrap();
        assert_eq!(back.id, id);
        assert_eq!(back.buf, k.buf);
    }
    for id in [1u128 << 40, 1u128 << 80, 1u128 << 120] {
        k.set_id(id);
        let back = Key::from_slice(&k.buf).unwrap();
        assert_eq!(back.id, id);
    }
}

#[test]
fn test_advance_matches_set_id() {
    let mut stepped = Key::from_slice(b"Y").unwrap();
    let mut seeded = Key::first();
    for id in stepped.id + 1..stepped.id + 200 {
        stepped.advance();
        seeded.set_id(id);
        assert_eq!(stepped.id, seeded.id);
        assert_eq!(stepped.buf, seeded.buf);
    }
}

#[test]
fn test_from_slice_rejects_non_letters() {
    assert_eq!(Key::from_slice(b"A1").err(), Some("Invalid characters in key"));
    assert_eq!(Key::from_slice(b" ").err(), Some("Invalid characters in key"));
    assert_eq!(Key::from_slice(b"AB=").err(), Some("Invalid characters in key"));
}

#[test]
fn test_from_slice_empty_and_case() {
    let k = Key::from_slice(b"").unwrap();
    assert_eq!(k.id, 0);
    assert_eq!(k.buf_to_string(), "A");
    let lower = Key::from_slice(b"ab").unwrap();
    let upper = Key::from_slice(b"AB").unwrap();
    assert_eq!(lower.id, upper.id);
    assert_eq!(lower.buf_to_string(), "AB");
    assert_eq!(lower.iter(), vec![b'A', b'B']);
    assert_eq!(upper.len(), 2);
}
