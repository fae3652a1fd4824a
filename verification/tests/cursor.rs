use history_origin::cursor::{Cursor, SIGNATURE_BYTES};

fn sample() -> [u8; 64] {
    let mut bytes = [0u8; 64];
    let mut i = 0;
    while i < 64 {
        bytes[i] = (i * 37 + 11) as u8;
        i += 1;
    }
    bytes
}

#[test]
fn parse_gives_the_bytes_that_the_text_encodes() {
    let bytes = sample();
    let text = bs58::encode(bytes).into_string();
    let cursor = Cursor::parse(&text).expect("a signature");
    assert_eq!(cursor.signature, bytes);
    assert_ne!(&cursor.signature[..], text.as_bytes());
}

#[test]
fn parse_of_all_ones_is_the_zero_signature() {
    let text = "1".repeat(64);
    assert_eq!(Cursor::parse(&text), Some(Cursor { signature: [0u8; 64] }));
}

#[test]
fn parse_tells_signatures_apart() {
    let mut other = sample();
    other[63] ^= 1;
    let first = Cursor::parse(&bs58::encode(sample()).into_string()).unwrap();
    let second = Cursor::parse(&bs58::encode(other).into_string()).unwrap();
    assert_ne!(first, second);
    assert_eq!(second.signature, other);
}

#[test]
fn parse_agrees_with_the_ledger_library() {
    let text = bs58::encode(sample()).into_string();
    let theirs: solana_sdk::signature::Signature = text.parse().expect("a signature");
    let ours = Cursor::parse(&text).expect("a signature");
    assert_eq!(solana_sdk::signature::Signature::from(ours.signature), theirs);
    assert_eq!(theirs.to_string(), text);
}

#[test]
fn parse_rejects_text_outside_the_alphabet() {
    let mut text = bs58::encode(sample()).into_string();
    text.replace_range(..1, "I");
    assert_eq!(Cursor::parse(&text), None);
    assert_eq!(Cursor::parse("not a signature!"), None);
    assert_eq!(Cursor::parse("0OIl"), None);
}

#[test]
fn parse_rejects_text_of_another_size() {
    assert_eq!(Cursor::parse(""), None);
    assert_eq!(Cursor::parse(&"1".repeat(63)), None);
    assert_eq!(Cursor::parse(&"1".repeat(65)), None);
    assert_eq!(Cursor::parse(&bs58::encode([7u8; 32]).into_string()), None);
    assert_eq!(Cursor::parse(&bs58::encode([7u8; 65]).into_string()), None);
    let mut too_long = bs58::encode([255u8; 64]).into_string();
    too_long.push('1');
    assert_eq!(Cursor::parse(&too_long), None);
}

#[test]
fn a_signature_has_sixty_four_bytes() {
    assert_eq!(SIGNATURE_BYTES, 64);
    let cursor = Cursor::parse(&bs58::encode(sample()).into_string()).unwrap();
    assert_eq!(cursor.signature.len(), SIGNATURE_BYTES);
}
