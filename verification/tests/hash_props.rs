use reverse_hash::digits::{pow10_u64, render_digits};
use reverse_hash::hash::{fnv1_32, fnv1_continue};

#[test]
fn hash_of_empty_is_offset_basis() {
    assert_eq!(fnv1_32(b""), 2166136261);
}

#[test]
fn hash_known_values() {
    assert_eq!(fnv1_32(b"a"), 84696446);
    assert_eq!(fnv1_32(b"foobar"), 837857890);
    assert_eq!(fnv1_32(b"test_a0000042"), 3422276945);
}

#[test]
fn continue_matches_scratch_on_concrete_bytes() {
    let a: &[u8] = b"abc";
    let b: &[u8] = b"defg";
    let whole: Vec<u8> = [a, b].concat();
    assert_eq!(fnv1_continue(fnv1_32(a), b), fnv1_32(&whole));
    assert_eq!(fnv1_continue(fnv1_32(a), b), 2890328751);
}

#[test]
fn continue_over_empty_parts() {
    assert_eq!(fnv1_continue(fnv1_32(b""), b"foobar"), fnv1_32(b"foobar"));
    assert_eq!(fnv1_continue(fnv1_32(b"foobar"), b""), fnv1_32(b"foobar"));
}

#[test]
fn continue_splits_anywhere() {
    let data = b"test_a0000042";
    for cut in 0..=data.len() {
        let (a, b) = data.split_at(cut);
        assert_eq!(fnv1_continue(fnv1_32(a), b), fnv1_32(data));
    }
}

#[test]
fn render_pads_with_zeros() {
    assert_eq!(render_digits(7, 4), b"0007".to_vec());
}

#[test]
fn render_truncates_to_low_digits() {
    assert_eq!(render_digits(12345, 4), b"2345".to_vec());
}

#[test]
fn render_edge_widths() {
    assert_eq!(render_digits(5, 0), Vec::<u8>::new());
    assert_eq!(render_digits(0, 3), b"000".to_vec());
    assert_eq!(render_digits(9999999999, 10), b"9999999999".to_vec());
}

#[test]
fn pow10_values() {
    assert_eq!(pow10_u64(0), 1);
    assert_eq!(pow10_u64(1), 10);
    assert_eq!(pow10_u64(10), 10_000_000_000);
    assert_eq!(pow10_u64(19), 10_000_000_000_000_000_000);
}
