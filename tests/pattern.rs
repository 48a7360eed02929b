use dobf::pattern::{nop_encoding, Pattern};

#[test]
fn test_pattern() {
    let pat = Pattern::builder("83 3D ? ? ? ? ? 75 ? 8B 43").build().unwrap();

    let data = vec![0x83, 0x3D, 0x32, 0x00, 0x00, 0x00, 0x00, 0x75, 0x00, 0x8B, 0x43];

    let matches = pat.matches_all(&data);

    assert_eq!(matches.len(), 1);
}

#[test]
fn test_simplify_nops() {
    let pat = Pattern::builder("90 90 90 90 90").simplify_nops().build().unwrap();

    assert_eq!(pat.iter().as_slice(), nop_encoding(5).unwrap());
}

#[test]
fn test_simplify_nops_alt_char() {
    let pat = Pattern::builder("55 90 90 90 90 90 90 90 8B 90").simplify_nops().build().unwrap();

    assert_eq!(pat.iter().as_slice(), [0x55, 0x0F, 0x1F, 0x80, 0x00, 0x00, 0x00, 0x00, 0x8B, 0x90]);
}

#[test]
fn compile_counts_tokens_and_wildcards() {
    let pat = Pattern::new("48 ? 8b FF", false).unwrap();
    assert_eq!(pat.len(), 4);
    assert!(!pat.is_empty());
    assert_eq!(pat.iter().as_slice(), [0x48, 0x00, 0x8B, 0xFF]);
    assert!(!pat.is_wildcard(0));
    assert!(pat.is_wildcard(1));
    assert!(!pat.is_wildcard(2));
    assert!(!pat.is_wildcard(3));
    assert!(!pat.is_wildcard(4));
    assert_eq!(pat.byte_at(3), 0xFF);
}

#[test]
fn compile_empty_text_fails() {
    assert!(Pattern::new("", false).is_none());
    assert!(Pattern::builder("").build().is_none());
}

#[test]
fn compile_malformed_tokens_fail() {
    assert!(Pattern::new("48 ZZ", false).is_none());
    assert!(Pattern::new("1FF", false).is_none());
    assert!(Pattern::new("Z\t?", false).is_none());
    assert!(Pattern::new("4G", false).is_none());
    assert!(Pattern::new("4", false).is_some());
}

#[test]
fn tokens_split_at_any_whitespace() {
    let pat = Pattern::new("48  8B", false).unwrap();
    assert_eq!(pat.iter().as_slice(), [0x48, 0x8B]);
    let pat = Pattern::new(" 48\t?\n", false).unwrap();
    assert_eq!(pat.len(), 2);
    assert!(!pat.is_wildcard(0));
    assert!(pat.is_wildcard(1));
    assert_eq!(Pattern::new("48 ", false).unwrap().len(), 1);
    assert!(Pattern::new(" \t\n", false).is_none());
}

#[test]
fn find_first_and_all() {
    let pat = Pattern::new("AA ? CC", false).unwrap();
    let data = [0x00, 0xAA, 0x01, 0xCC, 0xAA, 0x02, 0xCC, 0xAA];
    assert_eq!(pat.matches(&data), Some(1));
    assert_eq!(pat.matches_all(&data), vec![1, 4]);
    assert_eq!(pat.matches(&[0x00, 0x01, 0x02]), None);
}

#[test]
fn find_all_short_buffer_is_empty() {
    let pat = Pattern::new("AA BB CC", false).unwrap();
    assert!(pat.matches_all(&[0xAA, 0xBB]).is_empty());
    assert_eq!(pat.matches(&[0xAA, 0xBB]), None);
}

#[test]
fn exact_template_matches_only_exact_run() {
    let pat = Pattern::new("01 02", false).unwrap();
    assert_eq!(pat.matches_all(&[0x01, 0x02, 0x01, 0x03, 0x01, 0x02]), vec![0, 4]);
}

#[test]
fn all_wildcards_match_everywhere() {
    let pat = Pattern::new("? ?", false).unwrap();
    assert_eq!(pat.matches_all(&[9, 8, 7, 6]), vec![0, 1, 2]);
}

#[test]
fn overlapping_matches_are_all_found() {
    let pat = Pattern::new("AA AA", false).unwrap();
    assert_eq!(pat.matches_all(&[0xAA, 0xAA, 0xAA]), vec![0, 1]);
}

#[test]
fn single_nop_is_kept() {
    let pat = Pattern::new("90", true).unwrap();
    assert_eq!(pat.iter().as_slice(), [0x90]);
}

#[test]
fn long_nop_run_is_chunked() {
    let pat = Pattern::new("90 90 90 90 90 90 90 90 90 90", true).unwrap();
    assert_eq!(
        pat.iter().as_slice(),
        [0x0F, 0x1F, 0x84, 0x00, 0x00, 0x00, 0x00, 0x00, 0x66, 0x90]
    );
    let pat = Pattern::new("90 90 90 90 90 90 90 90 90", true).unwrap();
    assert_eq!(pat.iter().as_slice(), [0x0F, 0x1F, 0x84, 0x00, 0x00, 0x00, 0x00, 0x00, 0x90]);
}

#[test]
fn nop_runs_around_wildcards() {
    let pat = Pattern::new("90 90 ? 90 90 90", true).unwrap();
    assert_eq!(pat.iter().as_slice(), [0x66, 0x90, 0x00, 0x0F, 0x1F, 0x00]);
    assert!(pat.is_wildcard(2));
}

#[test]
fn canonicalizing_twice_changes_nothing() {
    let mut pat = Pattern::new("90 90 90 11 90 90 90 90 90 90 90 90 90 90 90", true).unwrap();
    let once = pat.iter().as_slice().to_vec();
    pat.simplify_nops();
    assert_eq!(pat.iter().as_slice(), once.as_slice());
}

#[test]
fn nop_table_lookup() {
    assert_eq!(nop_encoding(2), Some(vec![0x66, 0x90]));
    assert_eq!(nop_encoding(9), Some(vec![0x66, 0x0F, 0x1F, 0x84, 0x00, 0x00, 0x00, 0x00, 0x00]));
    assert_eq!(nop_encoding(1), None);
    assert_eq!(nop_encoding(10), None);
}

#[test]
fn from_bytes_marks_zeros() {
    let pat = Pattern::from_bytes(&[0x48, 0x00, 0x8B]).unwrap();
    assert_eq!(pat.len(), 3);
    assert!(pat.is_wildcard(1));
    assert!(!pat.is_wildcard(0));
    assert!(Pattern::from_bytes(&[]).is_none());
    assert_eq!(pat.matches(&[0x11, 0x48, 0x55, 0x8B]), Some(1));
}
