use bittorrent_client::tracker::{peers_from_compact, PeerAddr, Peers, Response, TrackerError};

#[test]
fn compact_peers() {
    let response = Response::from_bytes(b"d8:intervali1921e5:peers18:tttt09eeee18xxxx27e").unwrap();
    assert_eq!(1921, response.interval);
    assert_eq!(
        vec![
            "116.116.116.116:12345",
            "101.101.101.101:12600",
            "120.120.120.120:12855"
        ],
        response
            .peers
            .0
            .iter()
            .map(|peer| peer.to_string())
            .collect::<Vec<_>>()
    );
}

#[test]
fn compact_peers_of_any_bytes() {
    assert_eq!(
        Some(Peers(vec![PeerAddr {
            ip: [10, 0, 0, 255],
            port: 0x1ae1
        }])),
        peers_from_compact(&[10, 0, 0, 255, 0x1a, 0xe1])
    );
    assert_eq!(Some(Peers(vec![])), peers_from_compact(&[]));
    assert_eq!(None, peers_from_compact(&[1, 2, 3, 4, 5]));
    assert_eq!(None, peers_from_compact(&[1, 2, 3, 4, 5, 6, 7]));
}

#[test]
fn peers_as_a_list() {
    let response = Response::from_bytes(
        b"d8:intervali60e5:peersld2:ip8:10.0.0.14:porti6881eed2:ip15:255.255.255.2557:peer id3:abc4:porti65535eeee",
    )
    .unwrap();
    assert_eq!(60, response.interval);
    assert_eq!(
        Peers(vec![
            PeerAddr {
                ip: [10, 0, 0, 1],
                port: 6881
            },
            PeerAddr {
                ip: [255, 255, 255, 255],
                port: 65535
            }
        ]),
        response.peers
    );
    assert_eq!(
        Peers(vec![]),
        Response::from_bytes(b"d8:intervali60e5:peerslee")
            .unwrap()
            .peers
    );
}

#[test]
fn tracker_errors() {
    assert_eq!(
        Err(TrackerError::TrackerFailure(b"banned".to_vec())),
        Response::from_bytes(b"d14:failure reason6:banned8:intervali1e5:peers0:e")
    );
    assert_eq!(
        Err(TrackerError::DecodeFailure),
        Response::from_bytes(b"d14:failure reasoni3ee")
    );
    assert_eq!(Err(TrackerError::DecodeFailure), Response::from_bytes(b""));
    assert_eq!(Err(TrackerError::DecodeFailure), Response::from_bytes(b"le"));
    assert_eq!(
        Err(TrackerError::DecodeFailure),
        Response::from_bytes(b"d5:peers0:e")
    );
    assert_eq!(
        Err(TrackerError::DecodeFailure),
        Response::from_bytes(b"d8:intervali1ee")
    );
    assert_eq!(
        Err(TrackerError::DecodeFailure),
        Response::from_bytes(b"d8:intervali-1e5:peers0:e")
    );
    assert_eq!(
        Err(TrackerError::DecodeFailure),
        Response::from_bytes(b"d8:interval1:15:peers0:e")
    );
    for peers in [
        &b"5:abcde"[..],
        b"i6e",
        b"de",
        b"li1ee",
        b"ld2:ip7:1.2.3.4ee",
        b"ld4:porti1eee",
        b"ld2:ipi1e4:porti1eee",
        b"ld2:ip7:1.2.3.44:porti65536eee",
        b"ld2:ip7:1.2.3.44:port1:1ee",
        b"ld2:ip5:1.2.34:porti1eee",
        b"ld2:ip9:1.2.3.4.54:porti1eee",
        b"ld2:ip9:1.2.3.2564:porti1eee",
        b"ld2:ip8:1.2.3.044:porti1eee",
        b"ld2:ip8:1.2.3.4 4:porti1eee",
        b"ld2:ip7:1..3.4.4:porti1eee",
        b"ld2:ip0:4:porti1eee",
    ] {
        let mut body = b"d8:intervali1e5:peers".to_vec();
        body.extend_from_slice(peers);
        body.push(b'e');
        assert_eq!(Err(TrackerError::BadPeersField), Response::from_bytes(&body));
    }
}

#[test]
fn peer_as_text() {
    assert_eq!(
        "0.10.200.255:0",
        PeerAddr {
            ip: [0, 10, 200, 255],
            port: 0
        }
        .to_string()
    );
    assert_eq!(
        "127.0.0.1:65535",
        PeerAddr {
            ip: [127, 0, 0, 1],
            port: 65535
        }
        .to_string()
    );
}
