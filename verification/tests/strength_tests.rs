use daemon_wallet::vault::strength::classify_password;

#[test]
fn empty_password_has_no_classes() {
    let c = classify_password("");
    assert_eq!(c.length, 0);
    assert_eq!(c.pool(), 0);
    assert_eq!(c.class_count(), 0);
}

#[test]
fn each_class_adds_its_pool() {
    assert_eq!(classify_password("abcdefghijklmnop").pool(), 26);
    assert_eq!(classify_password("ABCDEFGHIJKLMNOP").pool(), 26);
    assert_eq!(classify_password("0123456789012345").pool(), 10);
    assert_eq!(classify_password("!@#$%^&*()_+-=[]").pool(), 33);
    assert_eq!(classify_password("日本語一二三四五六七").pool(), 100);
    assert_eq!(classify_password("aA1!日").pool(), 26 + 26 + 10 + 33 + 100);
}

#[test]
fn length_counts_characters_not_bytes() {
    let c = classify_password("日本語一二三四五六七");
    assert_eq!(c.length, 10);
    assert!(c.has_other && !c.has_lower && !c.has_symbol);
}

#[test]
fn class_count_counts_distinct_classes() {
    assert_eq!(classify_password("abc").class_count(), 1);
    assert_eq!(classify_password("Ab1!wxyz").class_count(), 4);
    let c = classify_password("Tr0ub4dor&3xtra-Long-Phrase");
    assert!(c.has_lower && c.has_upper && c.has_digit && c.has_symbol && !c.has_other);
    assert_eq!(c.length, 27);
}

#[test]
fn space_and_controls_are_symbols() {
    let c = classify_password(" \t");
    assert!(c.has_symbol);
    assert_eq!(c.class_count(), 1);
}
