use bittorrent_client::bt_client::{
    handshake_for, peer_id_in, peers_in, BtClient, Download, DownloadError, HttpClient,
    HttpError, PieceSession, SessionError, State, DEFAULT_BLOCK_SIZE,
};
use bittorrent_client::magnet_links::MagnetLink;
use bittorrent_client::peer_messages::{Extension, ExtensionsInfo, Message, MessageKind};
use bittorrent_client::sha1;
use bittorrent_client::torrent::Torrent;
use bittorrent_client::tracker::{PeerAddr, TrackerError};
use bittorrent_client::tracker_info::{tracker_url, TrackerInfo, UrlError, PEER_ID};

const TORRENT: &str = "ZDg6YW5ub3VuY2UzMTpodHRwOi8vMTI3LjAuMC4xOjQ0MzgxL2Fubm91bmNlNDppbmZvZDY6bGVuZ3RoaTIwOTcxNTJlNDpuYW1lMTU6ZmFrZXRvcnJlbnQuaXNvMTI6cGllY2UgbGVuZ3RoaTI2MjE0NGU2OnBpZWNlczE2MDrd8zFyWZ/ahPCiCaMDT3nwuKpeInlaYYoe5SdelShDsBpWrk4UJ1Lvza4u9TLWEaRrLPe2TVeMCbOsC24Jja3AwZQ28ZJ+onuQ6xixooIKI4+lNVQZiG2exW6GzXeRND6Ted4YHK6s6xX9ETSxtLIfrQQSWyJ7Tc/6WG4g1Xmk3nYJDhK9Cj2bHFOfPq7C1+sdtTnCqdJNAj+5FreSNLdpZWU=";
const TRACKER_URL: &str = "http://127.0.0.1:44381/announce?info_hash=%a1%8a%79%fa%44%e0%45%b1%e1%38%79%16%6d%35%82%3e%84%84%19%f8&peer_id=alice_is_1_feet_tall&port=6881&uploaded=0&downloaded=0&left=2097152&compact=1";
const MAGNET: &str = "magnet:?xt=urn:btih:ad42ce8109f54c99613ce38f9b4d87e70f24a165&dn=magnet1.gif&tr=http%3A%2F%2Fbittorrent-test-tracker.codecrafters.io%2Fannounce";

struct StubClient {
    url: String,
    body: Vec<u8>,
}

impl HttpClient for StubClient {
    fn get(&self, url: &str) -> Result<Vec<u8>, HttpError> {
        if url == self.url {
            Ok(self.body.clone())
        } else {
            Err(HttpError {
                message: format!("no stub for {url}"),
            })
        }
    }
}

#[test]
fn get_peers() {
    let torrent = Torrent::from_base64(TORRENT).unwrap();

    let response = b"d8:completei2e10:downloadedi1e10:incompletei1e8:intervali1921e12:min intervali960e5:peers18:tttt09eeee18xxxx27e";
    let client = StubClient {
        url: TRACKER_URL.to_owned(),
        body: response.to_vec(),
    };

    let bt_client = BtClient::with_client(client);

    assert_eq!(
        vec![
            "116.116.116.116:12345",
            "101.101.101.101:12600",
            "120.120.120.120:12855"
        ],
        bt_client
            .get_peers(&torrent.tracker_url().unwrap())
            .unwrap()
            .iter()
            .map(|i| i.to_string())
            .collect::<Vec<_>>()
    );
}

#[test]
fn get_peers_of_a_tracker_that_does_not_answer() {
    let client = StubClient {
        url: TRACKER_URL.to_owned(),
        body: Vec::new(),
    };
    let bt_client = BtClient::with_client(client);
    assert_eq!(
        Err(TrackerError::HttpFailure),
        bt_client.get_peers("http://127.0.0.1:1/announce")
    );
    assert_eq!(
        Err(TrackerError::DecodeFailure),
        bt_client.get_peers(TRACKER_URL)
    );
}

#[test]
fn tracker_url_of_a_torrent() {
    let torrent = Torrent::from_base64(TORRENT).unwrap();
    assert_eq!(TRACKER_URL, torrent.tracker_url().unwrap());
    assert_eq!(
        TRACKER_URL,
        tracker_url(&torrent.announce, &torrent.info_hash(), 2097152).unwrap()
    );
    let with_reqwest = reqwest::Url::parse(TRACKER_URL).unwrap();
    assert_eq!(with_reqwest.as_str(), torrent.tracker_url().unwrap());
}

#[test]
fn tracker_url_of_a_client() {
    let client = BtClient::with_client(StubClient {
        url: String::new(),
        body: Vec::new(),
    });
    assert_eq!(DEFAULT_BLOCK_SIZE, client.block_size());
    assert_eq!(16 * 1024, client.block_size());
    let hash = [0xabu8; 20];
    assert_eq!(
        "http://tracker.example/announce?info_hash=%ab%ab%ab%ab%ab%ab%ab%ab%ab%ab%ab%ab%ab%ab%ab%ab%ab%ab%ab%ab&peer_id=alice_is_1_feet_tall&port=6881&uploaded=0&downloaded=0&left=0&compact=1",
        client
            .tracker_url("http://tracker.example/announce", &hash, None)
            .unwrap()
    );
    assert_eq!(
        "http://tracker.example/announce?info_hash=%ab%ab%ab%ab%ab%ab%ab%ab%ab%ab%ab%ab%ab%ab%ab%ab%ab%ab%ab%ab&peer_id=alice_is_1_feet_tall&port=6881&uploaded=0&downloaded=0&left=18446744073709551615&compact=1",
        client
            .tracker_url(
                "http://tracker.example/announce",
                &hash,
                Some(18446744073709551615)
            )
            .unwrap()
    );
    assert_eq!(
        Err(UrlError::NotAUrl),
        client.tracker_url("no url", &hash, Some(1))
    );
    // letter for letter, also where the URL parser would write it otherwise
    assert_eq!(
        "HTTP://Tracker.Example?info_hash=%ab%ab%ab%ab%ab%ab%ab%ab%ab%ab%ab%ab%ab%ab%ab%ab%ab%ab%ab%ab&peer_id=alice_is_1_feet_tall&port=6881&uploaded=0&downloaded=0&left=7&compact=1",
        client
            .tracker_url("HTTP://Tracker.Example", &hash, Some(7))
            .unwrap()
    );
}

#[test]
fn tracker_url_of_a_magnet_link() {
    let magnet_link = MagnetLink::parse(MAGNET).unwrap();
    assert_eq!(
        "http://bittorrent-test-tracker.codecrafters.io/announce?info_hash=%ad%42%ce%81%09%f5%4c%99%61%3c%e3%8f%9b%4d%87%e7%0f%24%a1%65&peer_id=alice_is_1_feet_tall&port=6881&uploaded=0&downloaded=0&left=0&compact=1",
        magnet_link.tracker_url().unwrap()
    );
}

#[test]
fn shake_hands() {
    let torrent = Torrent::from_base64(TORRENT).unwrap();

    // Message that will be read by the client
    let response_from_peer = [
        19u8, 66, 105, 116, 84, 111, 114, 114, 101, 110, 116, 32, 112, 114, 111, 116, 111, 99,
        111, 108, 0, 0, 0, 0, 0, 0, 0, 0, 161, 138, 121, 250, 68, 224, 69, 177, 225, 56, 121, 22,
        109, 53, 130, 62, 132, 132, 25, 248, 48, 48, 48, 48, 48, 48, 48, 48, 48, 48, 48, 48, 48,
        48, 48, 48, 48, 48, 48, 48,
    ];

    let sent = handshake_for(torrent.info_hash(), PEER_ID, Extension::NoExtension).unwrap();
    assert_eq!(&response_from_peer[..48], &sent[..48]);
    assert_eq!(PEER_ID.as_bytes(), &sent[48..68]);

    let res = response_from_peer;
    assert_eq!(b"00000000000000000000", &res[48..68]);
    assert_eq!(b"00000000000000000000", &peer_id_in(&res));
}

#[test]
fn shake_hands_with_magnet_extension() {
    let magnet_link = MagnetLink::parse(MAGNET).unwrap();

    // Message that will be read by the client - note the extension 6th bytes extension flag!
    let response_from_peer = [
        19u8, 66, 105, 116, 84, 111, 114, 114, 101, 110, 116, 32, 112, 114, 111, 116, 111, 99,
        111, 108, 0, 0, 0, 0, 0, 16, 0, 0, 161, 138, 121, 250, 68, 224, 69, 177, 225, 56, 121,
        22, 109, 53, 130, 62, 132, 132, 25, 248, 48, 48, 48, 48, 48, 48, 48, 48, 48, 48, 48,
        48, 48, 48, 48, 48, 48, 48, 48, 48,
    ];

    let sent = handshake_for(magnet_link.info_hash, PEER_ID, Extension::MagnetLink).unwrap();
    assert_eq!(&response_from_peer[..28], &sent[..28]);
    assert_eq!(16, sent[25]);
    assert_eq!(&magnet_link.info_hash, &sent[28..48]);
    assert_eq!(PEER_ID.as_bytes(), &sent[48..68]);

    let res = response_from_peer;
    assert_eq!(b"00000000000000000000", &res[48..68]);
    assert_eq!(b"00000000000000000000", &peer_id_in(&res));
    assert_eq!(
        Extension::MagnetLink,
        bittorrent_client::peer_messages::Handshake::from(&res).extension
    );
}

#[test]
fn shake_hands_with_a_peer_id_of_the_wrong_length() {
    assert_eq!(None, handshake_for([0; 20], "short", Extension::NoExtension));
    assert_eq!(
        None,
        handshake_for([0; 20], "alice_is_1_feet_tall!", Extension::NoExtension)
    );
}

fn lorem() -> Vec<u8> {
    b"Lorem ipsum dolor sit amet, consectetur adipiscing elit, sed do eiusmod tempor incididunt ut labore et dolore magna aliqua. Ut enim ad minim veniam, quis nostrud exercitation ullamco laboris nisi ut aliquip ex ea commodo consequat. Duis aute irure dolor in reprehenderit in voluptate velit esse cillum dolore eu fugiat nulla pariatur. Excepteur sint occaecat cupidatat non proident, sunt in culpa qui officia deserunt mollit anim id est laborum.".to_vec()
}

fn lorem_torrent(pieces_size: usize) -> Torrent {
    let file_content = lorem();
    assert_eq!(445, file_content.len());
    let hashes = file_content
        .chunks(pieces_size)
        .map(|i| sha1::hash(i))
        .collect::<Vec<_>>();
    let mut torrent_content = Vec::from(format!("d8:announce31:http://127.0.0.1:44381/announce4:infod6:lengthi445e4:name15:faketorrent.iso12:piece lengthi{pieces_size}e6:pieces"));
    torrent_content.extend_from_slice(&format!("{}:", hashes.len() * 20).bytes().collect::<Vec<_>>());
    for hash in hashes {
        torrent_content.extend_from_slice(&hash);
    }
    torrent_content.extend_from_slice(b"ee");
    Torrent::from_bytes(&torrent_content).unwrap()
}

fn download_piece(pieces_size: usize, piece_index: usize, block_size: usize) {
    let file_content = lorem();
    let torrent = lorem_torrent(pieces_size);
    let piece_info = torrent.pieces_info()[piece_index];
    let piece = &file_content[piece_info.offset..piece_info.offset + piece_info.length];
    let blocks = torrent.blocks_info(piece_index, block_size).unwrap();

    let client = BtClient::with_client_and_block_size(
        StubClient {
            url: String::new(),
            body: Vec::new(),
        },
        block_size as u32,
    );
    let mut session = client.session(&torrent, piece_index as u32).unwrap();
    assert_eq!(State::WaitingForBitField, session.state());
    assert!(!session.is_complete());

    let sent = session
        .on_message(&Message::BitField { payload: vec![] })
        .unwrap();
    assert_eq!(vec![Message::Interested], sent);
    assert_eq!(State::WaitingForUnchoke, session.state());

    let sent = session.on_message(&Message::Unchoke).unwrap();
    assert_eq!(
        blocks
            .iter()
            .map(|block| Message::Request {
                index: piece_index as u32,
                begin: block.offset as u32,
                length: block.length as u32
            })
            .collect::<Vec<_>>(),
        sent
    );
    assert_eq!(State::WaitingForPieceBlock, session.state());

    for block in blocks.iter().rev() {
        assert!(!session.is_complete());
        let sent = session
            .on_message(&Message::Piece {
                index: piece_index as u32,
                begin: block.offset as u32,
                block: piece[block.offset..block.offset + block.length].to_vec(),
            })
            .unwrap();
        assert!(sent.is_empty());
        assert!(session.on_message(&Message::KeepAlive).unwrap().is_empty());
    }
    assert!(session.is_complete());
    assert_eq!(State::Done, session.state());
    let res = session.finish().unwrap();
    assert_eq!(piece, res);
    assert_eq!(torrent.info.pieces.0[piece_index], sha1::hash(&res));
}

#[test]
fn first_piece() {
    download_piece(100, 0, 19);
}

#[test]
fn second_piece() {
    download_piece(100, 2, 19);
}

#[test]
fn download_last_block_of_last_piece() {
    download_piece(160, 2, 43);
}

#[test]
fn requests_for_a_piece_of_a_hundred_bytes() {
    let torrent = lorem_torrent(100);
    let mut session = PieceSession::new(&torrent.info, 0, 19).unwrap();
    session
        .on_message(&Message::BitField { payload: vec![0xf8] })
        .unwrap();
    let sent = session.on_message(&Message::Unchoke).unwrap();
    let request = |begin: u32, length: u32| Message::Request {
        index: 0,
        begin,
        length,
    };
    assert_eq!(
        vec![
            request(0, 19),
            request(19, 19),
            request(38, 19),
            request(57, 19),
            request(76, 19),
            request(95, 5)
        ],
        sent
    );
}

#[test]
fn session_for_a_piece_that_is_not_there() {
    let torrent = lorem_torrent(100);
    assert_eq!(5, torrent.pieces_count());
    assert!(PieceSession::new(&torrent.info, 5, 19).is_none());
    assert!(PieceSession::new(&torrent.info, 4, 19).is_some());
}

#[test]
fn session_refuses_what_its_state_does_not_allow() {
    let torrent = lorem_torrent(100);
    let mut session = PieceSession::new(&torrent.info, 1, 50).unwrap();
    assert_eq!(
        Err(SessionError::ProtocolViolation {
            expected: State::WaitingForBitField,
            got: MessageKind::Unchoke
        }),
        session.on_message(&Message::Unchoke)
    );
    assert_eq!(State::WaitingForBitField, session.state());
    session
        .on_message(&Message::BitField { payload: vec![] })
        .unwrap();
    assert_eq!(
        Err(SessionError::ProtocolViolation {
            expected: State::WaitingForUnchoke,
            got: MessageKind::BitField
        }),
        session.on_message(&Message::BitField { payload: vec![] })
    );
    assert_eq!(
        Err(SessionError::ProtocolViolation {
            expected: State::WaitingForUnchoke,
            got: MessageKind::Choke
        }),
        session.on_message(&Message::Choke)
    );
    assert_eq!(
        Err(SessionError::ProtocolViolation {
            expected: State::WaitingForUnchoke,
            got: MessageKind::Extension
        }),
        session.on_message(&Message::Extension {
            extensions_info: ExtensionsInfo::new(1)
        })
    );
    session.on_message(&Message::Unchoke).unwrap();
    let violation = Err(SessionError::ProtocolViolation {
        expected: State::WaitingForPieceBlock,
        got: MessageKind::Piece,
    });
    // another piece
    assert_eq!(
        violation,
        session.on_message(&Message::Piece {
            index: 0,
            begin: 0,
            block: vec![0; 50]
        })
    );
    // beyond the end of the piece
    assert_eq!(
        violation,
        session.on_message(&Message::Piece {
            index: 1,
            begin: 51,
            block: vec![0; 50]
        })
    );
    assert_eq!(
        violation,
        session.on_message(&Message::Piece {
            index: 1,
            begin: u32::MAX,
            block: vec![0; 2]
        })
    );
    session
        .on_message(&Message::Piece {
            index: 1,
            begin: 0,
            block: vec![0; 60],
        })
        .unwrap();
    // more than the piece holds
    assert_eq!(
        violation,
        session.on_message(&Message::Piece {
            index: 1,
            begin: 50,
            block: vec![0; 50]
        })
    );
    // the same block again is taken and not counted again
    session
        .on_message(&Message::Piece {
            index: 1,
            begin: 0,
            block: vec![1; 60],
        })
        .unwrap();
    assert!(!session.is_complete());
    assert_eq!(
        Err(SessionError::ProtocolViolation {
            expected: State::WaitingForPieceBlock,
            got: MessageKind::Interested
        }),
        session.on_message(&Message::Interested)
    );
}

#[test]
fn session_refuses_a_piece_with_another_digest() {
    let torrent = lorem_torrent(100);
    let mut session = PieceSession::new(&torrent.info, 1, 50).unwrap();
    assert_eq!(Err(SessionError::Incomplete), session.finish());

    let mut session = PieceSession::new(&torrent.info, 1, 50).unwrap();
    session
        .on_message(&Message::BitField { payload: vec![] })
        .unwrap();
    session.on_message(&Message::Unchoke).unwrap();
    for begin in [0, 50] {
        session
            .on_message(&Message::Piece {
                index: 1,
                begin,
                block: vec![b'x'; 50],
            })
            .unwrap();
    }
    assert!(session.is_complete());
    assert_eq!(
        Err(SessionError::ProtocolViolation {
            expected: State::Done,
            got: MessageKind::Unchoke
        }),
        session.on_message(&Message::Unchoke)
    );
    assert_eq!(
        Err(SessionError::PieceHashMismatch { index: 1 }),
        session.finish()
    );
}

#[test]
fn download_puts_the_pieces_in_their_places() {
    let file_content = lorem();
    let torrent = lorem_torrent(100);
    let mut download = Download::new(&torrent.info);
    let mut index = 0;
    while let Some(piece) = download.next_piece() {
        assert_eq!(index, piece.index);
        assert_eq!(
            Err(DownloadError::WrongPieceSize { index }),
            download.place(&file_content[piece.offset..piece.offset + piece.length - 1])
        );
        download
            .place(&file_content[piece.offset..piece.offset + piece.length])
            .unwrap();
        index += 1;
    }
    assert_eq!(5, index);
    assert_eq!(Err(DownloadError::NothingLeft), download.place(&[]));
    assert_eq!(Some(file_content), download.finish());
}

#[test]
fn download_is_nothing_before_it_is_whole() {
    let file_content = lorem();
    let torrent = lorem_torrent(100);
    let mut download = Download::new(&torrent.info);
    download.place(&file_content[..100]).unwrap();
    assert_eq!(None, download.finish());
}

#[test]
fn peers_of_an_answer() {
    assert_eq!(
        Ok(vec![
            PeerAddr {
                ip: [116, 116, 116, 116],
                port: 12345
            },
            PeerAddr {
                ip: [101, 101, 101, 101],
                port: 12600
            },
            PeerAddr {
                ip: [120, 120, 120, 120],
                port: 12855
            }
        ]),
        peers_in(b"d8:intervali1921e5:peers18:tttt09eeee18xxxx27e")
    );
}
