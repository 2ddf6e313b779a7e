use bittorrent_client::bedecode::{decode, DecodingError, Item};
use bittorrent_client::bencode_encode::encode;
use bittorrent_client::bencode_item::find_entry;
use bittorrent_client::bencode_order::sorted_order;
use bittorrent_client::bencode_render::render;
use bittorrent_client::bencode_spec::DecodingErrorKind;
use bittorrent_client::byte_order::{bytes_eq, bytes_less};
use bittorrent_client::decimal::{decimal_text, decimal_value};
use serde_bencode::value::Value;

fn decoded(content: &[u8]) -> Item<'_> {
    decode(content, 0).unwrap()
}

#[test]
fn encode_what_was_sorted_gives_the_input_back() {
    for content in [
        &b"i0e"[..],
        b"i-42e",
        b"0:",
        b"5:hello",
        b"le",
        b"de",
        b"l5:helloi52ee",
        b"d3:foo3:bar5:helloi52ee",
        b"d3:foo3:bar4:infod3:bari42eee",
        b"d1:a0:2:aa0:1:b0:e",
        b"ld1:ai1eed1:ai2eee",
    ] {
        assert_eq!(content, encode(&decoded(content)));
    }
}

#[test]
fn encode_sorts_the_keys_and_keeps_the_first_of_equal_keys() {
    assert_eq!(
        b"d1:ai2e1:bi1ee".to_vec(),
        encode(&decoded(b"d1:bi1e1:ai2ee"))
    );
    assert_eq!(
        b"d1:ai2e1:bi1ee".to_vec(),
        encode(&decoded(b"d1:bi1e1:ai2e1:bi3ee"))
    );
    assert_eq!(
        b"d0:0:1:a0:2:aa0:1:b0:e".to_vec(),
        encode(&decoded(b"d1:b0:2:aa0:0:0:1:a0:e"))
    );
    assert_eq!(
        b"ld1:ad1:xi1e1:yi2ee1:bleee".to_vec(),
        encode(&decoded(b"ld1:ble1:ad1:yi2e1:xi1eeee"))
    );
    let unsigned = [b'd', b'1', b':', 0xff, b'0', b':', b'1', b':', 0x7f, b'0', b':', b'e'];
    let sorted = [b'd', b'1', b':', 0x7f, b'0', b':', b'1', b':', 0xff, b'0', b':', b'e'];
    assert_eq!(sorted.to_vec(), encode(&decoded(&unsigned)));
}

#[test]
fn decode_of_what_was_encoded_is_encoded_as_before() {
    for content in [
        &b"d1:bi1e1:ai2e1:bi3ee"[..],
        b"ld1:ble1:ad1:yi2e1:xi1eeee",
        b"d3:foo3:bar5:helloi52ee",
    ] {
        let once = encode(&decoded(content));
        let twice = encode(&decoded(&once));
        assert_eq!(once, twice);
        assert_eq!(render(&decoded(content)), render(&decoded(&once)));
    }
}

#[test]
fn encode_as_serde_bencode_does() {
    for content in [
        &b"d1:bi1e1:ai2ee"[..],
        b"ld1:ble1:ad1:yi2e1:xi1eeee",
        b"d3:foo3:bar4:infod3:bari42eee",
        b"d8:intervali1921e5:peers18:tttt09eeee18xxxx27e",
    ] {
        let value: Value = serde_bencode::from_bytes(content).unwrap();
        assert_eq!(
            serde_bencode::to_bytes(&value).unwrap(),
            encode(&decoded(content))
        );
    }
}

#[test]
fn order_of_the_entries() {
    let item = decoded(b"d1:ci0e1:ai0e2:abi0e1:ci1e0:i0ee");
    match &item {
        Item::Dict(field) => {
            assert_eq!(vec![4, 1, 2, 0], sorted_order(&field.payload));
            assert_eq!(
                b"i0e",
                find_entry(&field.payload, b"c").unwrap().raw_bytes()
            );
            assert!(find_entry(&field.payload, b"d").is_none());
        }
        _ => panic!("not a dictionary"),
    }
}

#[test]
fn order_of_byte_strings() {
    assert!(bytes_less(b"", b"a"));
    assert!(!bytes_less(b"", b""));
    assert!(!bytes_less(b"a", b""));
    assert!(bytes_less(b"a", b"aa"));
    assert!(bytes_less(b"a", b"b"));
    assert!(bytes_less(b"ab", b"b"));
    assert!(!bytes_less(b"b", b"ab"));
    assert!(bytes_less(&[0x7f], &[0x80]));
    assert!(!bytes_less(b"abc", b"abc"));
    assert!(bytes_eq(b"abc", b"abc"));
    assert!(!bytes_eq(b"abc", b"abd"));
    assert!(!bytes_eq(b"abc", b"ab"));
}

#[test]
fn decimal_numbers() {
    assert_eq!(b"0".to_vec(), decimal_text(0));
    assert_eq!(b"18446744073709551615".to_vec(), decimal_text(u64::MAX));
    assert_eq!(Some(123), decimal_value(b"x123y", 1, 4, 123));
    assert_eq!(None, decimal_value(b"x123y", 1, 4, 122));
    assert_eq!(Some(0), decimal_value(b"", 0, 0, 0));
    assert_eq!(
        Some(u64::MAX),
        decimal_value(b"18446744073709551615", 0, 20, u64::MAX)
    );
    assert_eq!(
        None,
        decimal_value(b"18446744073709551616", 0, 20, u64::MAX)
    );
}

#[test]
fn numbers_of_items() {
    assert_eq!(Some(52), decoded(b"i52e").as_u64());
    assert_eq!(Some(0), decoded(b"i0e").as_u64());
    assert_eq!(None, decoded(b"i-1e").as_u64());
    assert_eq!(None, decoded(b"2:52").as_u64());
    assert_eq!(
        Some(u64::MAX),
        decoded(b"i18446744073709551615e").as_u64()
    );
    assert_eq!(None, decoded(b"i18446744073709551616e").as_u64());
    assert_eq!(Some(&b"52"[..]), decoded(b"2:52").as_bytes());
    assert_eq!(None, decoded(b"i52e").as_bytes());
    assert_eq!(2, decoded(b"li1ei2ee").as_list().unwrap().len());
    assert!(decoded(b"de").as_list().is_none());
    assert_eq!(1, decoded(b"d1:ai1ee").as_dict().unwrap().len());
    assert!(decoded(b"le").as_dict().is_none());
}

#[test]
fn decode_from_a_place_in_the_input() {
    let content = b"xxi52e3:abc";
    let item = decode(content, 2).unwrap();
    assert_eq!(b"i52e", item.raw_bytes());
    let item = decode(content, 6).unwrap();
    assert_eq!(b"3:abc", item.raw_bytes());
    assert_eq!(
        DecodingErrorKind::UnexpectedEof,
        match decode(content, 11) {
            Err(e) => e.kind,
            Ok(_) => panic!("read beyond the end"),
        }
    );
    assert_eq!(
        DecodingError::new(DecodingErrorKind::InvalidHeader(b'x')),
        match decode(content, 0) {
            Err(e) => e,
            Ok(_) => panic!("read what is no value"),
        }
    );
}
