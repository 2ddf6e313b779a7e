use bittorrent_client::bedecode::{
    decode_strict, has_distinct_keys, DecodingError, Field, Item, ItemIterator,
};
use bittorrent_client::bencode_spec::DecodingErrorKind;

fn item_from_content<'a>(content: &'a [u8]) -> Item<'a> {
    ItemIterator::new(content).next().unwrap().unwrap()
}

fn error_from_content(content: &[u8]) -> DecodingError {
    match ItemIterator::new(content).next().unwrap() {
        Ok(_) => panic!("the input was accepted"),
        Err(e) => e,
    }
}

#[test]
fn decode_simple_string() {
    let content = b"5:hello";
    let item = item_from_content(content);
    assert!(matches!(item, Item::Bytes(Field {raw, ..}) if raw == content));
    assert_eq!("\"hello\"".to_owned(), item.to_string());
}

#[test]
fn decode_long_string() {
    let content = b"123:Lorem ipsum dolor sit amet, consectetur adipiscing elit, sed do eiusmod tempor incididunt ut labore et dolore magna aliqua.";
    let item = item_from_content(content);
    assert!(matches!(item, Item::Bytes(Field {raw, ..}) if raw == content));
    assert_eq!("\"Lorem ipsum dolor sit amet, consectetur adipiscing elit, sed do eiusmod tempor incididunt ut labore et dolore magna aliqua.\"".to_owned(), item.to_string());
}

#[test]
fn decode_string_with_overflow() {
    let content = b"3:foobar";
    let item = item_from_content(content);
    assert!(matches!(item, Item::Bytes(Field {raw, ..}) if raw == &content[0..5]));
    assert_eq!("\"foo\"".to_owned(), item.to_string());
}

#[test]
fn decode_positive_int() {
    let content = b"i52e";
    let item = item_from_content(content);
    assert!(matches!(item, Item::Number(Field {raw, ..}) if raw == content));
    assert_eq!("52".to_owned(), item.to_string());
}

#[test]
fn decode_negative_int() {
    let content = b"i-42e";
    let item = item_from_content(content);
    assert!(matches!(item, Item::Number(Field {raw, ..}) if raw == content));
    assert_eq!("-42".to_owned(), item.to_string());
}

#[test]
fn decode_positive_int_with_overflow() {
    let content = b"i52ebar";
    let item = item_from_content(content);
    assert!(matches!(item, Item::Number(Field {raw, ..}) if raw == &content[0..4]));
    assert_eq!("52".to_owned(), item.to_string());
}

#[test]
fn decode_simple_list() {
    let content = b"l5:helloi52ee";
    let item = item_from_content(content);
    assert!(matches!(item, Item::List(Field { raw, .. }) if raw == content));
    assert_eq!("[\"hello\",52]".to_owned(), item.to_string());
}

#[test]
fn decode_list_with_overflow() {
    let content = b"l3:bazi42eebaz";
    let item = item_from_content(content);
    assert!(matches!(item, Item::List(Field { raw, .. }) if raw == &content[0..11]));
    assert_eq!("[\"baz\",42]".to_owned(), item.to_string());
}

#[test]
fn decode_dict() {
    let content = b"d3:foo3:bar5:helloi52ee";
    let item = item_from_content(content);
    assert!(matches!(item, Item::Dict(Field { raw, .. }) if raw == content));
    assert_eq!(
        "{\"foo\":\"bar\",\"hello\":52}".to_owned(),
        item.to_string()
    );
}

#[test]
fn decode_dict_with_overflow() {
    let content = b"d3:fooi42eebaz";
    let item = item_from_content(content);
    assert!(matches!(item, Item::Dict(Field { raw, .. }) if raw == &content[0..11]));
    assert_eq!("{\"foo\":42}".to_owned(), item.to_string());
}

#[test]
fn decode_dict_in_dict() {
    let content = b"d3:foo3:bar4:infod3:bari42eee";
    let item = item_from_content(content);
    assert!(matches!(item, Item::Dict(Field { raw, .. }) if raw == content));
    assert_eq!(
        "{\"foo\":\"bar\",\"info\":{\"bar\":42}}".to_owned(),
        item.to_string()
    );
}

#[test]
fn decode_integer_edges() {
    assert_eq!("0", item_from_content(b"i0e").to_string());
    assert_eq!(
        DecodingErrorKind::InvalidInteger,
        error_from_content(b"i-0e").kind
    );
    assert_eq!(
        DecodingErrorKind::InvalidInteger,
        error_from_content(b"i052e").kind
    );
    assert_eq!(
        DecodingErrorKind::InvalidInteger,
        error_from_content(b"i-e").kind
    );
    assert_eq!(
        DecodingErrorKind::InvalidInteger,
        error_from_content(b"ie").kind
    );
    assert_eq!(
        DecodingErrorKind::InvalidInteger,
        error_from_content(b"i5-2e").kind
    );
}

#[test]
fn decode_rest_of_input() {
    let content = b"i52ebar";
    let mut iterator = ItemIterator::new(content);
    let item = iterator.next().unwrap().unwrap();
    assert_eq!(4, item.raw_length());
    assert_eq!(b"bar", iterator.working_data());
}

#[test]
fn decode_error_kinds() {
    assert_eq!(
        DecodingErrorKind::UnexpectedEof,
        error_from_content(b"").kind
    );
    assert_eq!(
        DecodingErrorKind::UnexpectedEof,
        error_from_content(b"5:hell").kind
    );
    assert_eq!(
        DecodingErrorKind::UnexpectedEof,
        error_from_content(b"i52").kind
    );
    assert_eq!(
        DecodingErrorKind::UnexpectedEof,
        error_from_content(b"l5:hello").kind
    );
    assert_eq!(
        DecodingErrorKind::UnexpectedEof,
        error_from_content(b"d3:foo").kind
    );
    assert_eq!(
        DecodingErrorKind::UnexpectedEof,
        error_from_content(b"12").kind
    );
    assert_eq!(
        DecodingErrorKind::InvalidHeader(b'x'),
        error_from_content(b"x").kind
    );
    assert_eq!(
        DecodingErrorKind::InvalidHeader(b'e'),
        error_from_content(b"e").kind
    );
    assert_eq!(
        DecodingErrorKind::InvalidLength,
        error_from_content(b"5hello").kind
    );
    assert_eq!(
        DecodingErrorKind::InvalidLength,
        error_from_content(b"05:hello").kind
    );
    assert_eq!(
        DecodingErrorKind::NonByteStringKey,
        error_from_content(b"di1ei2ee").kind
    );
    assert_eq!(
        DecodingErrorKind::UnexpectedEof,
        error_from_content(b"99999999999999999999999999999:x").kind
    );
}

#[test]
fn decode_keeps_an_error_in_place() {
    let content = b"i5x";
    let mut iterator = ItemIterator::new(content);
    assert!(iterator.next().unwrap().is_err());
    assert_eq!(content, iterator.working_data());
}

#[test]
fn decode_keeps_repeated_keys_and_their_order() {
    let content = b"d1:bi1e1:ai2e1:bi3ee";
    let item = item_from_content(content);
    match &item {
        Item::Dict(field) => {
            assert_eq!(3, field.payload.len());
            assert_eq!(b"b", field.payload[0].key.payload);
            assert_eq!(b"1:b", field.payload[0].key.raw);
            assert_eq!(b"i1e", field.payload[0].value.raw_bytes());
            assert_eq!(b"a", field.payload[1].key.payload);
            assert_eq!(b"i3e", field.payload[2].value.raw_bytes());
        }
        _ => panic!("not a dictionary"),
    }
    assert_eq!("{\"a\":2,\"b\":1}", item.to_string());
}

#[test]
fn render_bytes_that_are_no_text() {
    let content = [b'2', b':', 0xff, 0x01];
    assert_eq!("2551", item_from_content(&content).to_string());
}

#[test]
fn decode_strictly() {
    for content in [
        &b"d1:bi1e1:ai2ee"[..],
        b"i1e",
        b"ld1:ai1eed1:ai2eee",
        b"d1:ad1:ai1ee1:bd1:ai1eee",
    ] {
        let item = decode_strict(content, 0).unwrap();
        assert_eq!(content, item.raw_bytes());
        assert!(has_distinct_keys(&item));
    }
    for content in [
        &b"d1:ai1e1:ai1ee"[..],
        b"d1:bi1e1:ai2e1:bi3ee",
        b"ld1:ai1e1:ai2eee",
        b"d1:xd0:le0:leee",
    ] {
        assert_eq!(
            DecodingErrorKind::InvalidDuplicateKey,
            match decode_strict(content, 0) {
                Err(e) => e.kind,
                Ok(_) => panic!("a key that occurs twice was accepted"),
            }
        );
        assert!(!has_distinct_keys(&item_from_content(content)));
    }
    assert_eq!(
        DecodingErrorKind::UnexpectedEof,
        match decode_strict(b"d1:ai1e1:ai1e", 0) {
            Err(e) => e.kind,
            Ok(_) => panic!("an open dictionary was accepted"),
        }
    );
}

#[test]
fn decoding_errors_have_names() {
    assert_eq!(
        "can't decode key for dict",
        error_from_content(b"di1ei2ee").message()
    );
    assert_eq!("unexpected end of input", error_from_content(b"").message());
    assert_eq!("unknown field header", error_from_content(b"x").message());
    assert_eq!(
        "invalid length of a byte string",
        error_from_content(b"1x").message()
    );
    assert_eq!("invalid integer", error_from_content(b"i-0e").message());
    assert_eq!(
        "a key occurs twice in a dict",
        DecodingError::new(DecodingErrorKind::InvalidDuplicateKey).message()
    );
}
