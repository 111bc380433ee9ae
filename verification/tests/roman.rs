use roman::{from, to, MAX};

#[test]
fn test_to_roman() {
    let roman = "I II III IV V VI VII VIII IX X XI XII XIII XIV XV XVI XVII XVIII XIX XX XXI XXII";
    for (i, x) in roman.split_whitespace().enumerate() {
        let n = (i + 1) as i32;
        assert_eq!(to(n).unwrap(), x);
    }
    assert_eq!(to(1984).unwrap(), "MCMLXXXIV");
}

#[test]
fn test_from() {
    assert!(from("i").is_none());
}

#[test]
fn test_to_from() {
    for n in 1..MAX {
        assert_eq!(from(&to(n).unwrap()).unwrap(), n);
    }
}

#[test]
fn test_known_values() {
    assert_eq!(to(14).unwrap(), "XIV");
    assert_eq!(from("XIV"), Some(14));
    assert_eq!(from("MCMLXXXIV"), Some(1984));
}

#[test]
fn test_rejects_non_canonical() {
    assert_eq!(from("IIII"), None);
    assert_eq!(from("VV"), None);
    assert_eq!(from("IM"), None);
}

#[test]
fn test_case_sensitive() {
    assert_eq!(from("xiv"), None);
    assert_eq!(from("i"), None);
}

#[test]
fn test_boundary() {
    assert_eq!(to(MAX).unwrap(), "MMMCMXCIX");
    assert_eq!(from("MMMCMXCIX"), Some(MAX));
    assert_eq!(to(MAX + 1), None);
    assert_eq!(to(0), None);
    assert_eq!(to(-1), None);
}

#[test]
fn test_empty_and_garbage() {
    assert_eq!(from(""), None);
    assert_eq!(from("ABC"), None);
}

#[test]
fn test_long_input() {
    let long = "M".repeat(5000);
    assert_eq!(from(&long), None);
}
