use bytepatch::patterns::{get_replacement, is_end_candidate, is_start_candidate, is_supported_exe};
use bytepatch::scanner::{modify_bytes, PatchError};

const START_PATTERNS: [[u8; 3]; 4] = [
    [0x48, 0x8b, 0x12],
    [0x48, 0x8d, 0x0d],
    [0x48, 0x8b, 0xd0],
    [0x48, 0x8d, 0x0d],
];

const END_PATTERNS: [[u8; 6]; 2] = [
    [0x85, 0xc0, 0x0f, 0x94, 0xc3, 0xe8],
    [0x85, 0xc0, 0x0f, 0x94, 0xc1, 0x88],
];

const REPLACEMENT: [u8; 6] = [0x31, 0xc0, 0x0f, 0x94, 0xc3, 0xe8];
const REPLACEMENT_EU5: [u8; 6] = [0x31, 0xc0, 0x0f, 0x94, 0xc1, 0x88];

#[test]
fn test_is_start_candidate() {
    for pattern in &START_PATTERNS {
        assert!(is_start_candidate(pattern));
    }
    assert!(!is_start_candidate(&[0x00, 0x00, 0x00]));
}

#[test]
fn test_is_end_candidate() {
    for pattern in &END_PATTERNS {
        assert!(is_end_candidate(pattern));
    }
    assert!(!is_end_candidate(&[0x00, 0x00, 0x00, 0x00, 0x00, 0x00]));
}

#[test]
fn test_get_replacement() {
    assert_eq!(get_replacement("eu5.exe"), REPLACEMENT_EU5);
    assert_eq!(get_replacement("eu4.exe"), REPLACEMENT);
    assert_eq!(get_replacement("hoi4.exe"), REPLACEMENT);
}

#[test]
fn test_is_supported_exe() {
    assert!(is_supported_exe("eu4.exe"));
    assert!(is_supported_exe("eu5.exe"));
    assert!(is_supported_exe("hoi4.exe"));
    assert!(!is_supported_exe("stellaris.exe"));
    assert!(!is_supported_exe(""));
}

/// A start marker, ten padding bytes, then an end marker: one patch site.
fn idiom_buffer(end: [u8; 6]) -> Vec<u8> {
    let mut bytes = vec![0x48, 0x8b, 0x12];
    bytes.extend_from_slice(&[0x00; 10]);
    bytes.extend_from_slice(&end);
    bytes
}

#[test]
fn end_to_end_default_variant() {
    let mut bytes = idiom_buffer(END_PATTERNS[0]);
    let original = bytes.clone();
    let result = modify_bytes("eu4.exe", &mut bytes);
    assert_eq!(result, Ok(1));
    assert_eq!(bytes.len(), original.len());
    assert_eq!(&bytes[13..19], &REPLACEMENT);
    assert_eq!(&bytes[..13], &original[..13]);
}

#[test]
fn end_to_end_eu5_variant() {
    let mut bytes = idiom_buffer(END_PATTERNS[1]);
    let original = bytes.clone();
    let result = modify_bytes("eu5.exe", &mut bytes);
    assert_eq!(result, Ok(1));
    assert_eq!(bytes.len(), original.len());
    assert_eq!(&bytes[13..19], &REPLACEMENT_EU5);
    assert_eq!(&bytes[..13], &original[..13]);
}

#[test]
fn unrecognized_target_gets_default_replacement() {
    let mut bytes = idiom_buffer(END_PATTERNS[1]);
    let result = modify_bytes("unknown.bin", &mut bytes);
    assert_eq!(result, Ok(1));
    assert_eq!(&bytes[13..19], &REPLACEMENT);
}

#[test]
fn eu5_replacement_applies_to_either_end_pattern() {
    let mut bytes = idiom_buffer(END_PATTERNS[0]);
    let result = modify_bytes("eu5.exe", &mut bytes);
    assert_eq!(result, Ok(1));
    assert_eq!(&bytes[13..19], &REPLACEMENT_EU5);
}

#[test]
fn every_start_pattern_opens_a_window() {
    for start in &START_PATTERNS {
        let mut bytes = start.to_vec();
        bytes.extend_from_slice(&END_PATTERNS[0]);
        let result = modify_bytes("eu4.exe", &mut bytes);
        assert_eq!(result, Ok(1));
        assert_eq!(&bytes[3..9], &REPLACEMENT);
    }
}

#[test]
fn end_just_past_search_limit_is_not_patched() {
    // the nearest end marker begins SEARCH_LIMIT + 1 bytes past the start
    // marker's end: outside the window, so nothing matches
    let mut bytes = vec![0x48, 0x8b, 0x12];
    bytes.extend_from_slice(&[0x00; 15]);
    bytes.extend_from_slice(&END_PATTERNS[0]);
    let original = bytes.clone();
    let result = modify_bytes("eu4.exe", &mut bytes);
    assert_eq!(result, Err(PatchError::NotFound));
    assert_eq!(bytes, original);
}

#[test]
fn end_at_search_limit_is_patched() {
    let mut bytes = vec![0x48, 0x8b, 0x12];
    bytes.extend_from_slice(&[0x00; 14]);
    bytes.extend_from_slice(&END_PATTERNS[0]);
    let result = modify_bytes("eu4.exe", &mut bytes);
    assert_eq!(result, Ok(1));
    assert_eq!(&bytes[17..23], &REPLACEMENT);
}

#[test]
fn buffer_without_idiom_is_left_unchanged() {
    let mut bytes = vec![0u8; 64];
    let original = bytes.clone();
    let result = modify_bytes("eu4.exe", &mut bytes);
    assert_eq!(result, Err(PatchError::NotFound));
    assert_eq!(bytes, original);
}

#[test]
fn lone_start_pattern_is_no_match() {
    let mut bytes = vec![0x48, 0x8b, 0x12, 0x00, 0x00, 0x00, 0x00, 0x00, 0x00];
    let original = bytes.clone();
    assert_eq!(modify_bytes("eu4.exe", &mut bytes), Err(PatchError::NotFound));
    assert_eq!(bytes, original);
}

#[test]
fn lone_end_pattern_is_no_match() {
    let mut bytes = END_PATTERNS[0].to_vec();
    let original = bytes.clone();
    assert_eq!(modify_bytes("eu4.exe", &mut bytes), Err(PatchError::NotFound));
    assert_eq!(bytes, original);
}

#[test]
fn empty_buffer_is_no_match() {
    let mut bytes = Vec::new();
    assert_eq!(modify_bytes("eu4.exe", &mut bytes), Err(PatchError::NotFound));
    assert!(bytes.is_empty());
}

#[test]
fn second_scan_finds_nothing() {
    let mut bytes = idiom_buffer(END_PATTERNS[0]);
    assert_eq!(modify_bytes("eu4.exe", &mut bytes), Ok(1));
    let patched = bytes.clone();
    assert_eq!(modify_bytes("eu4.exe", &mut bytes), Err(PatchError::NotFound));
    assert_eq!(bytes, patched);
}

#[test]
fn two_independent_sites_are_both_patched() {
    let mut bytes = idiom_buffer(END_PATTERNS[0]);
    bytes.extend_from_slice(&[0x00; 8]);
    let second_start = bytes.len();
    bytes.extend_from_slice(&idiom_buffer(END_PATTERNS[1]));
    let result = modify_bytes("eu4.exe", &mut bytes);
    assert_eq!(result, Ok(2));
    assert_eq!(&bytes[13..19], &REPLACEMENT);
    assert_eq!(&bytes[second_start + 13..second_start + 19], &REPLACEMENT);
}

#[test]
fn only_first_end_in_window_is_patched_per_start() {
    // one start marker, an end marker at offset 3 and another at offset 9:
    // both fit the window, but the scan rewrites only the first and the
    // replacement bytes open no new window
    let mut bytes = vec![0x48, 0x8b, 0x12];
    bytes.extend_from_slice(&END_PATTERNS[0]);
    bytes.extend_from_slice(&END_PATTERNS[0]);
    let result = modify_bytes("eu4.exe", &mut bytes);
    assert_eq!(result, Ok(1));
    assert_eq!(&bytes[3..9], &REPLACEMENT);
    assert_eq!(&bytes[9..15], &END_PATTERNS[0]);
}

#[test]
fn second_end_in_same_window_matches_on_a_later_pass() {
    // with two end markers in one start window, the first pass rewrites
    // only the first; a second pass then finds the survivor
    let mut bytes = vec![0x48, 0x8b, 0x12];
    bytes.extend_from_slice(&END_PATTERNS[0]);
    bytes.extend_from_slice(&END_PATTERNS[0]);
    assert_eq!(modify_bytes("eu4.exe", &mut bytes), Ok(1));
    assert_eq!(modify_bytes("eu4.exe", &mut bytes), Ok(1));
    assert_eq!(&bytes[3..9], &REPLACEMENT);
    assert_eq!(&bytes[9..15], &REPLACEMENT);
    assert_eq!(modify_bytes("eu4.exe", &mut bytes), Err(PatchError::NotFound));
}

#[test]
fn not_found_message_text() {
    let m = PatchError::NotFound.message();
    assert_eq!(
        m,
        "cannot detect bytes pattern to patch. Most likely patcher is outdated due to game updates or patch has already been applied"
    );
}
