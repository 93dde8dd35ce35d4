use tomcrypt::util::{compare_slices, zeromem_slice};

#[test]
fn compare_equal_inputs() {
    assert!(compare_slices(b"", b""));
    assert!(compare_slices(b"abc", b"abc"));
    let long = vec![0xa5u8; 1000];
    assert!(compare_slices(&long, &long.clone()));
}

#[test]
fn compare_length_mismatch_is_false() {
    assert!(!compare_slices(b"abc", b"abcd"));
    assert!(!compare_slices(b"abc", b""));
    assert!(!compare_slices(b"", b"x"));
}

#[test]
fn compare_single_byte_difference_is_false() {
    let base = vec![0x42u8; 64];
    for i in 0..base.len() {
        let mut other = base.clone();
        other[i] ^= 0x01;
        assert!(!compare_slices(&base, &other), "difference at byte {}", i);
        assert!(!compare_slices(&other, &base), "difference at byte {}", i);
    }
}

#[test]
fn zeromem_clears_buffer() {
    let mut buf = vec![1u8, 2, 3, 4, 5];
    zeromem_slice(&mut buf);
    assert_eq!(buf, vec![0u8; 5]);
}
