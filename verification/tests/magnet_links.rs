use bittorrent_client::magnet_links::{MagnetError, MagnetLink};
use bittorrent_client::tracker_info::{decimal_string, percent_encode};
use reqwest::Url;

#[test]
fn parse_link() {
    let res = MagnetLink::parse("magnet:?xt=urn:btih:ad42ce8109f54c99613ce38f9b4d87e70f24a165&dn=magnet1.gif&tr=http%3A%2F%2Fbittorrent-test-tracker.codecrafters.io%2Fannounce").unwrap();

    assert_eq!(
        "ad42ce8109f54c99613ce38f9b4d87e70f24a165",
        hex::encode(res.info_hash)
    );
    assert_eq!(
        Url::parse("http://bittorrent-test-tracker.codecrafters.io/announce")
            .unwrap()
            .as_str(),
        res.announce
    );
    assert_eq!(Some("magnet1.gif".to_owned()), res.display_name);
    assert_eq!(
        vec!["http://bittorrent-test-tracker.codecrafters.io/announce".to_owned()],
        res.trackers
    );
}

#[test]
fn parse_link_with_several_trackers() {
    let res = MagnetLink::parse("magnet:?tr=http%3A%2F%2Fone.example%2Fa&xt=urn:btih:AD42CE8109F54C99613CE38F9B4D87E70F24A165&tr=HTTP%3A%2F%2FTwo.Example").unwrap();
    assert_eq!(
        "ad42ce8109f54c99613ce38f9b4d87e70f24a165",
        hex::encode(res.info_hash)
    );
    assert_eq!("http://two.example/", res.announce);
    assert_eq!(None, res.display_name);
    assert_eq!(
        vec![
            "http://one.example/a".to_owned(),
            "HTTP://Two.Example".to_owned()
        ],
        res.trackers
    );
}

#[test]
fn parse_link_with_a_base32_info_hash() {
    let res = MagnetLink::parse(
        "magnet:?xt=urn:btih:VVBM5AIJ6VGJSYJ44OHZWTMH44HSJILF&tr=http%3A%2F%2Fone.example%2Fa",
    )
    .unwrap();
    assert_eq!(
        "ad42ce8109f54c99613ce38f9b4d87e70f24a165",
        hex::encode(res.info_hash)
    );
    let res = MagnetLink::parse(
        "magnet:?xt=urn:btih:vvbm5aij6vgjsyj44ohzwtmh44hsjilf&tr=http%3A%2F%2Fone.example%2Fa",
    )
    .unwrap();
    assert_eq!(
        "ad42ce8109f54c99613ce38f9b4d87e70f24a165",
        hex::encode(res.info_hash)
    );
    let res = MagnetLink::parse(
        "magnet:?xt=urn:btih:AAAAAAAAAAAAAAAAAAAAAAAAAAAAA777&tr=http%3A%2F%2Fone.example%2Fa",
    )
    .unwrap();
    assert_eq!(
        "0000000000000000000000000000000000007fff",
        hex::encode(res.info_hash)
    );
}

fn magnet_error(link: &str) -> MagnetError {
    match MagnetLink::parse(link) {
        Ok(_) => panic!("the link was accepted"),
        Err(e) => e,
    }
}

#[test]
fn magnet_errors() {
    assert_eq!(MagnetError::MalformedUri, magnet_error(""));
    assert_eq!(MagnetError::MalformedUri, magnet_error("magnet:"));
    assert_eq!(
        MagnetError::MalformedUri,
        magnet_error("magnot:?xt=urn:btih:ad42ce8109f54c99613ce38f9b4d87e70f24a165&tr=http%3A%2F%2Fone.example%2Fa")
    );
    assert_eq!(MagnetError::MissingXt, magnet_error("magnet:?"));
    assert_eq!(
        MagnetError::MissingXt,
        magnet_error("magnet:?tr=http%3A%2F%2Fone.example%2Fa")
    );
    for xt in [
        "",
        "urn:btih",
        "urn:btih:",
        "urn:sha1:ad42ce8109f54c99613ce38f9b4d87e70f24a165",
        "urn:btih:ad42ce8109f54c99613ce38f9b4d87e70f24a16",
        "urn:btih:ad42ce8109f54c99613ce38f9b4d87e70f24a1655",
        "urn:btih:ad42ce8109f54c99613ce38f9b4d87e70f24a16g",
        "urn:btih:VVBM5AIJ6VGJSYJ44OHZWTMH44HSJIL1",
        "urn:btih:VVBM5AIJ6VGJSYJ44OHZWTMH44HSJIL",
        "urn:btih:VVBM5AIJ6VGJSYJ44OHZWTMH44HSJIL=",
    ] {
        assert_eq!(
            MagnetError::BadInfoHashEncoding,
            magnet_error(&format!("magnet:?xt={xt}&tr=http%3A%2F%2Fone.example%2Fa"))
        );
    }
    assert_eq!(
        MagnetError::MalformedUri,
        magnet_error("magnet:?xt=urn:btih:ad42ce8109f54c99613ce38f9b4d87e70f24a165")
    );
    assert_eq!(
        MagnetError::MalformedUri,
        magnet_error("magnet:?xt=urn:btih:ad42ce8109f54c99613ce38f9b4d87e70f24a165&tr=no+url")
    );
}

#[test]
fn magnet_of_parameters() {
    let pairs = vec![
        ("xt".to_owned(), "urn:btih:0000".to_owned()),
        ("dn".to_owned(), "first".to_owned()),
        ("tr".to_owned(), "http://one.example/".to_owned()),
        (
            "xt".to_owned(),
            "urn:btih:ad42ce8109f54c99613ce38f9b4d87e70f24a165".to_owned(),
        ),
        ("dn".to_owned(), "second".to_owned()),
    ];
    let magnet = MagnetLink::from_pairs(&pairs).unwrap();
    assert_eq!(Some("second".to_owned()), magnet.display_name);
    assert_eq!("http://one.example/", magnet.announce);
    assert_eq!(
        "ad42ce8109f54c99613ce38f9b4d87e70f24a165",
        hex::encode(magnet.info_hash)
    );
}

#[test]
fn percent_encoding_of_every_byte() {
    assert_eq!("", percent_encode(&[]));
    assert_eq!("%61%00%ff%2f%7e", percent_encode(&[b'a', 0, 0xff, b'/', b'~']));
    assert_eq!(
        "%00%0f%10%9a%a9%bc%de%f0",
        percent_encode(&[0x00, 0x0f, 0x10, 0x9a, 0xa9, 0xbc, 0xde, 0xf0])
    );
}

#[test]
fn decimal_text() {
    assert_eq!("0", decimal_string(0));
    assert_eq!("9", decimal_string(9));
    assert_eq!("10", decimal_string(10));
    assert_eq!("2097152", decimal_string(2097152));
    assert_eq!("18446744073709551615", decimal_string(u64::MAX));
}
