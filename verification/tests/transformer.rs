use replibyte::transformer::{has_byte, has_digit, transform, ByteClass, Transformer};

#[test]
fn keep_is_the_identity() {
    assert_eq!(transform(&Transformer::Keep, b"alice@corp.io", 42, 0), Some(b"alice@corp.io".to_vec()));
    assert_eq!(transform(&Transformer::Keep, b"", 1, 2), Some(Vec::new()));
}

#[test]
fn email_has_its_known_outputs() {
    let t = Transformer::Email;
    assert_eq!(transform(&t, b"alice@corp.io", 42, 0), Some(b"woouyganew@example.com".to_vec()));
    assert_eq!(transform(&t, b"alice@corp.io", 42, 1), Some(b"zqbakudyrw@example.com".to_vec()));
    assert_eq!(transform(&t, b"alice@corp.io", 43, 0), Some(b"achhgnoepq@example.com".to_vec()));
    assert_eq!(transform(&t, b"bob@corp.io", 42, 0), Some(b"abexoqpewg@example.com".to_vec()));
}

#[test]
fn email_is_deterministic() {
    let t = Transformer::Email;
    assert_eq!(transform(&t, b"x@y", 9, 9), transform(&t, b"x@y", 9, 9));
}

#[test]
fn email_never_hands_the_source_back() {
    let t = Transformer::Email;
    let made = transform(&t, b"alice@corp.io", 42, 0).unwrap();
    let again = transform(&t, &made, 42, 0).unwrap();
    assert_ne!(again, made);
    let mut value = made.clone();
    for seed in 0..50u64 {
        let next = transform(&t, &value, seed, 0).unwrap();
        assert_ne!(next, value);
        assert_eq!(next.len(), 22);
        assert!(next[..10].iter().all(|b| b.is_ascii_lowercase()));
        assert_eq!(&next[10..], b"@example.com");
        value = next;
    }
}

#[test]
fn email_without_at_sign_cannot_be_processed() {
    assert_eq!(transform(&Transformer::Email, b"not an address", 42, 0), None);
    assert_eq!(transform(&Transformer::Email, b"", 42, 0), None);
}

#[test]
fn phone_keeps_the_format_and_changes_every_digit() {
    let source = b"+1 (555) 010-9999";
    let made = transform(&Transformer::Phone, source, 7, 3).unwrap();
    assert_eq!(made, b"+0 (781) 773-5581".to_vec());
    assert_eq!(made.len(), source.len());
    for i in 0..source.len() {
        if source[i].is_ascii_digit() {
            assert!(made[i].is_ascii_digit());
            assert_ne!(made[i], source[i]);
        } else {
            assert_eq!(made[i], source[i]);
        }
    }
}

#[test]
fn phone_without_digit_cannot_be_processed() {
    assert_eq!(transform(&Transformer::Phone, b"n/a", 7, 3), None);
    assert_eq!(transform(&Transformer::Phone, b"", 7, 3), None);
}

#[test]
fn name_has_its_known_output_and_shape() {
    let made = transform(&Transformer::Name, b"Alice", 7, 3).unwrap();
    assert_eq!(made, b"Dyyvobuh".to_vec());
    assert!(made[0].is_ascii_uppercase());
    assert!(made[1..].iter().all(|b| b.is_ascii_lowercase()));
    assert_ne!(transform(&Transformer::Name, &made, 7, 3).unwrap(), made);
}

#[test]
fn redact_masks_every_byte() {
    let t = Transformer::Redact { mask: b'*' };
    assert_eq!(transform(&t, b"secret", 1, 1), Some(b"******".to_vec()));
    assert_eq!(transform(&t, b"", 1, 1), Some(Vec::new()));
    assert_eq!(transform(&t, b"***", 1, 1), Some(b"***".to_vec()));
}

#[test]
fn substitute_replaces_the_bytes_of_its_class() {
    let digits = Transformer::Substitute { class: ByteClass::Digit, with: b'#' };
    assert_eq!(transform(&digits, b"card 4111-1111", 0, 0), Some(b"card ####-####".to_vec()));
    let letters = Transformer::Substitute { class: ByteClass::Letter, with: b'x' };
    assert_eq!(transform(&letters, b"Ab1 cZ", 0, 0), Some(b"xx1 xx".to_vec()));
    let any = Transformer::Substitute { class: ByteClass::Any, with: b'0' };
    assert_eq!(transform(&any, b"a-1", 0, 0), Some(b"000".to_vec()));
}

#[test]
fn custom_draws_from_its_alphabet() {
    let t = Transformer::Custom { alphabet: b"ABC".to_vec(), length: 6 };
    assert_eq!(transform(&t, b"x", 1, 2), Some(b"ACCCCC".to_vec()));
    let none = Transformer::Custom { alphabet: b"ABC".to_vec(), length: 0 };
    assert_eq!(transform(&none, b"x", 1, 2), Some(Vec::new()));
}

#[test]
fn custom_without_alphabet_is_invalid_and_cannot_process() {
    let t = Transformer::Custom { alphabet: Vec::new(), length: 3 };
    assert!(!t.is_valid());
    assert_eq!(transform(&t, b"x", 1, 2), None);
    assert!(Transformer::Email.is_valid());
    assert!(Transformer::Custom { alphabet: b"a".to_vec(), length: 3 }.is_valid());
}

#[test]
fn byte_classes_hold_their_bytes() {
    assert!(ByteClass::Digit.contains(b'0') && ByteClass::Digit.contains(b'9'));
    assert!(!ByteClass::Digit.contains(b'a') && !ByteClass::Digit.contains(b'/'));
    assert!(ByteClass::Letter.contains(b'a') && ByteClass::Letter.contains(b'Z'));
    assert!(!ByteClass::Letter.contains(b'1') && !ByteClass::Letter.contains(b'['));
    assert!(ByteClass::Any.contains(0) && ByteClass::Any.contains(255));
}

#[test]
fn byte_searches_find_what_is_there() {
    assert!(has_byte(b"a@b", b'@'));
    assert!(!has_byte(b"ab", b'@'));
    assert!(has_digit(b"ab7"));
    assert!(!has_digit(b"ab"));
}
