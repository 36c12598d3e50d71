use vigenere::base64_scan::{decoded_size, is_unwanted_character, DecipherBase64,
    SLICE_BUFFER_SIZE};
use vigenere::decipherer::Decipherer;
use vigenere::encrypt::encrypt_slice_from;

#[test]
fn test_slice_buffer_size_is_multiple_of_3_and_4() {
    assert_eq!(SLICE_BUFFER_SIZE % 3, 0);
    assert_eq!(SLICE_BUFFER_SIZE % 4, 0);
}

fn run_slice_case(slice: &mut [u8], subst: &[u8], expected_size: usize) {
    for (idx, ch) in subst.iter().enumerate() {
        let pos = slice.len() - subst.len() + idx;
        slice[pos] = *ch;
    }
    let mut dc = Decipherer::from_slice(slice);
    let mut candidates: Vec<String> = Vec::new();
    let found = dc.check_for_candidates(0, 0, &mut candidates);
    assert_eq!(found, 1);
    assert_eq!(candidates.len(), 1);
    assert_eq!(candidates[0].len(), expected_size);
}

#[test]
fn test_upper_estimate_does_not_panic() {
    let input_len = (SLICE_BUFFER_SIZE / 3) * 4;
    assert_eq!(input_len + 3 / 4 * 3, input_len);
    assert_eq!(input_len % 4, 0);
    assert!(SLICE_BUFFER_SIZE > 0);

    run_slice_case(&mut vec![b'6'; input_len - 4], b"", SLICE_BUFFER_SIZE - 3);
    run_slice_case(&mut vec![b'6'; input_len], b"", SLICE_BUFFER_SIZE);
    run_slice_case(&mut vec![b'6'; input_len + 4], b"", SLICE_BUFFER_SIZE + 3);
    run_slice_case(&mut vec![b'6'; input_len + 4], b"Yg==", SLICE_BUFFER_SIZE + 1);
    run_slice_case(&mut vec![b'6'; input_len], b"Yg==", SLICE_BUFFER_SIZE - 2);
    run_slice_case(&mut vec![b'6'; input_len + 4], b"YWE=", SLICE_BUFFER_SIZE + 2);
    run_slice_case(&mut vec![b'6'; input_len], b"YWE=", SLICE_BUFFER_SIZE - 1);
}

fn collect_with(slice_path: bool, text: &[u8], start: u128, end: u128) -> (u128, Vec<String>) {
    let mut dc = Decipherer::from_slice(text);
    let mut candidates: Vec<String> = Vec::new();
    let n = if slice_path {
        dc.check_for_candidates(start, end, &mut candidates)
    } else {
        dc.check_for_candidates_vec(start, end, &mut candidates)
    };
    (n, candidates)
}

fn check_implementation_equality(text: &[u8], start: u128, end: u128) {
    let (slice_found, slice_candidates) = collect_with(true, text, start, end);
    let (vec_found, vec_candidates) = collect_with(false, text, start, end);

    assert_eq!(slice_found, vec_found);
    assert_eq!(slice_candidates.len() as u128, slice_found);
    assert_eq!(vec_candidates.len() as u128, vec_found);
    assert_eq!(slice_candidates.len(), vec_candidates.len());
    for (vec_candidate, slice_candidate) in vec_candidates.iter().zip(slice_candidates.iter()) {
        assert_eq!(vec_candidate, slice_candidate);
    }
}

#[test]
fn test_vec_impl_yields_same_results() {
    let cases: [String; 5] = [
        "".to_string(),
        "A".to_string(),
        "Hello, world".to_string(),
        "A".repeat((SLICE_BUFFER_SIZE / 3) * 4),
        "A".repeat((SLICE_BUFFER_SIZE / 3) * 4 * 2),
    ];
    let ranges: [(u128, u128); 6] = [(0, 0), (0, 1), (1, 1), (1, 10000), (0, 10000), (5000, 10000)];
    for case in cases.iter() {
        for (start, end) in ranges.iter() {
            let v = base64::encode_config(case, base64::STANDARD);
            check_implementation_equality(v.as_bytes(), *start, *end);
        }
    }
}

#[test]
fn test_unwanted_character_boundaries() {
    assert!(is_unwanted_character(0));
    assert!(is_unwanted_character(9));
    assert!(!is_unwanted_character(b'\n'));
    assert!(is_unwanted_character(11));
    assert!(is_unwanted_character(12));
    assert!(!is_unwanted_character(b'\r'));
    assert!(!is_unwanted_character(b' '));
    assert!(!is_unwanted_character(0xff));
}

#[test]
fn test_decoded_size_is_input_size() {
    assert_eq!(decoded_size(0), 0);
    assert_eq!(decoded_size(100), 100);
    assert_eq!(decoded_size(SLICE_BUFFER_SIZE), SLICE_BUFFER_SIZE);
}

#[test]
fn test_scan_decodes_candidates() {
    // Key "A" shifts nothing, so scanning identity 0 alone decodes the text
    // itself; a scan that handed the buffer through undecoded could not
    // produce "hello" here.
    let text = b"aGVsbG8=";
    let (found, candidates) = collect_with(true, text, 0, 0);
    assert_eq!(found, 1);
    assert_eq!(candidates, vec!["hello".to_string()]);
    let (found, candidates) = collect_with(false, text, 0, 0);
    assert_eq!(found, 1);
    assert_eq!(candidates, vec!["hello".to_string()]);
}

#[test]
fn test_scan_rejects_unwanted_and_invalid() {
    // "aGkB" decodes to "hi\x01"; the control byte disqualifies it.
    let (found, candidates) = collect_with(true, b"aGkB", 0, 0);
    assert_eq!(found, 0);
    assert!(candidates.is_empty());
    // "aGkKeW91" decodes to "hi\nyou"; the newline is welcome.
    let (found, candidates) = collect_with(true, b"aGkKeW91", 0, 0);
    assert_eq!(found, 1);
    assert_eq!(candidates, vec!["hi\nyou".to_string()]);
    // "====" is not valid base64 under any of these keys.
    let (found, candidates) = collect_with(false, b"====", 0, 2);
    assert_eq!(found, 0);
    assert!(candidates.is_empty());
}

#[test]
fn test_end_to_end_scan_identity_window() {
    let plaintext = b"abc123";
    let mut ciphertext: Vec<u8> = Vec::new();
    encrypt_slice_from(plaintext, &vec![b'A'], &mut ciphertext);
    assert_eq!(ciphertext, plaintext.to_vec());

    let mut dc = Decipherer::from_slice(&ciphertext);
    dc.decipher_fully();
    let mut inspections = 0u32;
    let mut last_id: Option<u128> = None;
    loop {
        inspections += 1;
        if let Some(prev) = last_id {
            assert!(dc.key.id > prev);
        }
        last_id = Some(dc.key.id);
        if dc.key.id == 26 {
            assert_eq!(dc.key.buf_to_string(), "AA");
            assert_eq!(dc.buf, plaintext.to_vec());
        }
        if dc.key.id >= 27 {
            break;
        }
        dc.decipher_next_key();
    }
    assert_eq!(inspections, 28);

    let mut dc2 = Decipherer::from_slice(&ciphertext);
    let mut candidates: Vec<String> = Vec::new();
    let found = dc2.check_for_candidates(0, 27, &mut candidates);
    assert_eq!(found as usize, candidates.len());
    assert_eq!(dc2.key.id, 27);
}
