use move_api::type_tag::{struct_tag_from_string, struct_tag_to_string, TypeTagError};

fn encode(text: &str) -> Vec<u8> {
    match struct_tag_from_string(text.as_bytes()) {
        Ok(b) => b,
        Err(_) => panic!("text should parse"),
    }
}

fn render(bytes: &[u8]) -> String {
    match struct_tag_to_string(bytes) {
        Ok(t) => String::from_utf8(t).unwrap(),
        Err(_) => panic!("bytes should decode"),
    }
}

#[test]
fn text_round_trips_through_encoding() {
    for text in [
        "0x1::coin::Coin",
        "0x1::coin::CoinStore<0x1::native_uinit::Coin>",
        "0xcafe::m::S<0x2::n::T, 0x3::o::U<0x4::p::V>>",
    ] {
        let bytes = encode(text);
        assert!(!bytes.is_empty());
        assert_ne!(bytes, text.as_bytes());
        assert_eq!(render(&bytes), text);
        assert_eq!(encode(&render(&bytes)), bytes);
    }
}

#[test]
fn non_canonical_text_renders_canonically() {
    let bytes = encode("0x0001::coin::Coin< 0x01::a::B >");
    assert_eq!(render(&bytes), "0x1::coin::Coin<0x1::a::B>");
    assert_eq!(bytes, encode("0x1::coin::Coin<0x1::a::B>"));
}

fn nested(levels: usize) -> String {
    let mut text = String::new();
    for _ in 0..levels {
        text.push_str("0x1::a::B<");
    }
    text.push_str("0x1::a::B");
    for _ in 0..levels {
        text.push('>');
    }
    text
}

#[test]
fn nesting_up_to_the_bound_is_accepted() {
    let text = nested(64);
    let bytes = encode(&text);
    assert_eq!(render(&bytes), text);
}

#[test]
fn nesting_beyond_the_bound_is_rejected() {
    assert!(matches!(
        struct_tag_from_string(nested(65).as_bytes()),
        Err(TypeTagError::MalformedTypeTag)
    ));
    let deep = format!("0x1::a::B<{}u8{}>", "vector<".repeat(100_000), ">".repeat(100_000));
    assert!(matches!(
        struct_tag_from_string(deep.as_bytes()),
        Err(TypeTagError::MalformedTypeTag)
    ));
}

#[test]
fn encoding_is_deterministic() {
    assert_eq!(encode("0x1::a::B<u8>"), encode("0x1::a::B<u8>"));
}

#[test]
fn malformed_text_is_rejected() {
    for text in ["", "coin", "0x1::coin", "0x1::coin::Coin<u64", "u64", "0x1::a::B<>>"] {
        assert!(matches!(
            struct_tag_from_string(text.as_bytes()),
            Err(TypeTagError::MalformedTypeTag)
        ));
    }
}

#[test]
fn text_that_is_not_utf8_is_rejected() {
    assert!(matches!(
        struct_tag_from_string(&[0x30, 0x78, 0xff, 0xfe]),
        Err(TypeTagError::InvalidText)
    ));
}

#[test]
fn corrupt_encoding_is_rejected() {
    let bytes = encode("0x1::coin::Coin");
    assert!(matches!(struct_tag_to_string(&[]), Err(TypeTagError::CorruptEncoding)));
    assert!(matches!(
        struct_tag_to_string(&bytes[..bytes.len() - 1]),
        Err(TypeTagError::CorruptEncoding)
    ));
    let mut trailing = bytes.clone();
    trailing.push(0);
    assert!(matches!(struct_tag_to_string(&trailing), Err(TypeTagError::CorruptEncoding)));
}
