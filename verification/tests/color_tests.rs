use misato::color::Rgb;

#[test]
fn hex_roundtrip() {
    let c = Rgb::from_hex("#5B4B7A").unwrap();
    assert_eq!((c.0, c.1, c.2), (0x5B, 0x4B, 0x7A));
}

#[test]
fn hex_lowercase_digits() {
    assert_eq!(Rgb::from_hex("#b8d4e3"), Some(Rgb(0xB8, 0xD4, 0xE3)));
}

#[test]
fn hex_without_hash() {
    assert_eq!(Rgb::from_hex("C44827"), Some(Rgb(0xC4, 0x48, 0x27)));
}

#[test]
fn hex_many_leading_hashes() {
    assert_eq!(Rgb::from_hex("###C8102E"), Some(Rgb(0xC8, 0x10, 0x2E)));
}

#[test]
fn hex_wrong_length() {
    assert_eq!(Rgb::from_hex("#5B4B7"), None);
    assert_eq!(Rgb::from_hex("#5B4B7A0"), None);
    assert_eq!(Rgb::from_hex(""), None);
    assert_eq!(Rgb::from_hex("#"), None);
}

#[test]
fn hex_bad_digit() {
    assert_eq!(Rgb::from_hex("#GG0000"), None);
    assert_eq!(Rgb::from_hex("#00 000"), None);
}

#[test]
fn hex_sign_forms() {
    // Each byte goes through `u8::from_str_radix`, which takes a leading '+'.
    assert_eq!(Rgb::from_hex("#+F+0+A"), Some(Rgb(15, 0, 10)));
    assert_eq!(Rgb::from_hex("#-F0000"), None);
    assert_eq!(Rgb::from_hex("#++0000"), None);
}

#[test]
fn hex_non_ascii() {
    // Six bytes, three characters: the pairs are not hex digits.
    assert_eq!(Rgb::from_hex("#ééé"), None);
    assert_eq!(Rgb::from_hex("#ABCDEé"), None);
}

#[test]
fn hex_notation_reads_back() {
    for r in (0..=255u8).step_by(17) {
        for g in [0u8, 1, 0x4B, 0x80, 0xFE, 0xFF] {
            for b in [0u8, 0x0A, 0x7A, 0xC3, 0xFF] {
                let text = format!("#{:02X}{:02X}{:02X}", r, g, b);
                assert_eq!(Rgb::from_hex(&text), Some(Rgb(r, g, b)), "{}", text);
            }
        }
    }
}
