use reverse_hash::hash::fnv1_32;
use reverse_hash::search::{reverse_hash, search_char_range};
use reverse_hash::space::{ConfigError, SearchConfig};

fn config(
    prefix: &[u8],
    alphabet: &[&[u8]],
    min_num: u64,
    max_num: u64,
    digits: usize,
    continue_after_match: bool,
) -> SearchConfig {
    SearchConfig::new(
        prefix.to_vec(),
        alphabet.iter().map(|e| e.to_vec()).collect(),
        min_num,
        max_num,
        digits,
        continue_after_match,
    )
    .unwrap()
}

#[test]
fn finds_the_known_preimage() {
    let target = fnv1_32(b"test_a0000042");
    let cfg = config(b"test_", &[b"a"], 0, 100, 7, false);
    let results = reverse_hash(target, &cfg);
    assert_eq!(results, vec![b"test_a0000042".to_vec()]);
}

#[test]
fn not_found_yields_empty_result() {
    let target = fnv1_32(b"zzz_not_in_this_space");
    let cfg = config(b"test_", &[b"a"], 0, 100, 3, true);
    // No candidate of the space collides with the target here.
    for n in 0..100u64 {
        let cand = format!("test_a{:03}", n);
        assert_ne!(fnv1_32(cand.as_bytes()), target);
    }
    let results = reverse_hash(target, &cfg);
    assert!(results.is_empty());
}

#[test]
fn empty_range_is_a_valid_degenerate_run() {
    let target = fnv1_32(b"anything");
    let cfg = config(b"p", &[b"a", b"b"], 100, 50, 2, true);
    assert_eq!(cfg.total_candidates(), 0);
    assert!(reverse_hash(target, &cfg).is_empty());
}

#[test]
fn duplicate_entries_give_matches_in_entry_major_order() {
    // Both entries fold to "a", so the same candidate is discovered once per
    // entry, in entry order.
    let target = fnv1_32(b"prea07");
    let cfg = config(b"pre", &[b"A", b"a"], 0, 100, 2, true);
    let results = reverse_hash(target, &cfg);
    assert_eq!(results, vec![b"prea07".to_vec(), b"prea07".to_vec()]);
}

#[test]
fn stops_at_first_match_without_continue() {
    let target = fnv1_32(b"prea07");
    let cfg = config(b"pre", &[b"A", b"a"], 0, 100, 2, false);
    let results = reverse_hash(target, &cfg);
    assert_eq!(results, vec![b"prea07".to_vec()]);
}

#[test]
fn prefix_and_entries_are_case_folded() {
    let target = fnv1_32(b"play_s0042");
    let cfg = config(b"PlAy_", &[b"S"], 0, 100, 4, false);
    let results = reverse_hash(target, &cfg);
    assert_eq!(results, vec![b"play_s0042".to_vec()]);
}

#[test]
fn multi_byte_entries_pass_unfolded() {
    let needle = "pr\u{e9}07";
    let target = fnv1_32(needle.as_bytes());
    let entry = "\u{e9}".as_bytes();
    let cfg = config(b"pr", &[entry], 0, 100, 2, false);
    let results = reverse_hash(target, &cfg);
    assert_eq!(results, vec![needle.as_bytes().to_vec()]);
}

#[test]
fn effective_max_is_clamped_to_digit_ceiling() {
    let cfg = config(b"p", &[b"a"], 0, 5_000, 3, false);
    assert_eq!(cfg.digit_max(), 1_000);
    assert_eq!(cfg.effective_max(), 1_000);

    let wide = config(b"p", &[b"a"], 0, u64::MAX, 19, false);
    assert_eq!(wide.effective_max(), 10_000_000_000_000_000_000);

    let narrow = config(b"p", &[b"a"], 0, 500, 3, false);
    assert_eq!(narrow.effective_max(), 500);
}

#[test]
fn total_candidates_is_exact() {
    let cfg = config(b"p", &[b"a", b"b", b"c"], 10, 5_000, 3, false);
    assert_eq!(cfg.per_entry_count(), 990);
    assert_eq!(cfg.total_candidates(), 3 * 990);

    let huge = config(b"p", &[b"a", b"b", b"c"], 0, u64::MAX, 19, false);
    assert_eq!(huge.total_candidates(), 3u128 * 10_000_000_000_000_000_000u128);
}

#[test]
fn digit_width_is_validated_up_front() {
    let bad_zero = SearchConfig::new(b"p".to_vec(), vec![b"a".to_vec()], 0, 10, 0, false);
    assert_eq!(bad_zero.unwrap_err(), ConfigError::DigitWidthOutOfRange);
    let bad_wide = SearchConfig::new(b"p".to_vec(), vec![b"a".to_vec()], 0, 10, 20, false);
    assert_eq!(bad_wide.unwrap_err(), ConfigError::DigitWidthOutOfRange);
    assert!(SearchConfig::new(b"p".to_vec(), vec![b"a".to_vec()], 0, 10, 19, false).is_ok());
    assert!(SearchConfig::new(b"p".to_vec(), vec![b"a".to_vec()], 0, 10, 1, false).is_ok());
}

#[test]
fn suffix_bounds_are_honored() {
    // The match sits below min, so it is never tried.
    let target = fnv1_32(b"prea07");
    let cfg = config(b"pre", &[b"a"], 8, 100, 2, true);
    assert!(reverse_hash(target, &cfg).is_empty());
    // Widening min back in finds it.
    let cfg = config(b"pre", &[b"a"], 7, 100, 2, true);
    assert_eq!(reverse_hash(target, &cfg), vec![b"prea07".to_vec()]);
}

#[test]
fn range_scan_appends_matches_and_reports_stop() {
    let stem = b"prea".to_vec();
    let partial = fnv1_32(&stem);
    let target = fnv1_32(b"prea07");

    let mut collected = Vec::new();
    let stop = search_char_range(target, partial, &stem, 2, 0, 100, true, &mut collected);
    assert!(!stop);
    assert_eq!(collected, vec![b"prea07".to_vec()]);

    let mut first_only = Vec::new();
    let stop = search_char_range(target, partial, &stem, 2, 0, 100, false, &mut first_only);
    assert!(stop);
    assert_eq!(first_only, vec![b"prea07".to_vec()]);
}

#[test]
fn range_scan_in_batches_equals_one_scan() {
    let stem = b"prea".to_vec();
    let partial = fnv1_32(&stem);
    let target = fnv1_32(b"prea07");

    let mut whole = Vec::new();
    search_char_range(target, partial, &stem, 2, 0, 100, true, &mut whole);
    let mut batched = Vec::new();
    search_char_range(target, partial, &stem, 2, 0, 50, true, &mut batched);
    search_char_range(target, partial, &stem, 2, 50, 100, true, &mut batched);
    assert_eq!(whole, batched);
}

#[test]
fn empty_alphabet_checks_nothing() {
    let target = fnv1_32(b"prea07");
    let cfg = config(b"pre", &[], 0, 100, 2, true);
    assert_eq!(cfg.total_candidates(), 0);
    assert!(reverse_hash(target, &cfg).is_empty());
}
