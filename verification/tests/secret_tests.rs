use daemon_wallet::vault::SecretBytes;

#[test]
fn round_trips_bytes() {
    let s = SecretBytes::new(b"hello");
    assert_eq!(s.as_slice(), b"hello");
    assert_eq!(s.len(), 5);
    assert!(!s.is_empty());
}

#[test]
fn empty_is_not_locked() {
    let s = SecretBytes::new(b"");
    assert!(s.is_empty());
    assert!(!s.is_locked());
}

#[test]
fn debug_hides_contents() {
    let s = SecretBytes::new(b"topsecret");
    let shown = s.debug_string();
    assert!(!shown.contains("topsecret"));
    assert!(shown.contains("len"));
    assert!(shown.starts_with("SecretBytes { len: 9, locked: "));
}

#[test]
fn clone_is_independent() {
    let a = SecretBytes::new(b"abc");
    let b = a.duplicate();
    assert_eq!(a.as_slice(), b.as_slice());
}

#[test]
fn from_vec_keeps_the_bytes() {
    let s = SecretBytes::from_vec(vec![1, 2, 3]);
    assert_eq!(s.as_slice(), &[1, 2, 3]);
}
