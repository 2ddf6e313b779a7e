use bittorrent_client::bencode_spec::DecodingErrorKind;
use bittorrent_client::metadata_session::{
    ExtensionError, ExtensionSession, ExtensionState, METADATA_PIECE, UT_METADATA_ID,
};
use bittorrent_client::metainfo::MetainfoError;
use bittorrent_client::peer_messages::{
    ExtensionsInfo, Message, MessageKind, Metadata, MetadataMessage,
};
use bittorrent_client::sha1;

fn info_dictionary(pieces: usize) -> Vec<u8> {
    let mut info =
        format!("d6:lengthi{pieces}e4:name1:n12:piece lengthi1e6:pieces{}:", pieces * 20)
            .into_bytes();
    for i in 0..pieces * 20 {
        info.push(i as u8);
    }
    info.push(b'e');
    info
}

fn peer_handshake(ut_metadata: Option<u8>) -> Message {
    Message::Extension {
        extensions_info: ExtensionsInfo {
            metdata: Metadata {
                ut_metadata,
                ut_pex: Some(1),
            },
        },
    }
}

fn data(ext_id: u8, piece: u32, total_size: usize, block: &[u8]) -> Message {
    Message::Metadata {
        ext_id,
        message: MetadataMessage::Data {
            piece,
            total_size: total_size as u32,
            block: block.to_vec(),
        },
    }
}

fn request(ext_id: u8, piece: u32) -> Message {
    Message::Metadata {
        ext_id,
        message: MetadataMessage::Request { piece },
    }
}

#[test]
fn fetch_an_info_dictionary_of_three_pieces() {
    assert_eq!(16384, METADATA_PIECE);
    assert_eq!(16, UT_METADATA_ID);
    let info = info_dictionary(2000);
    assert!(info.len() > 2 * 16384 && info.len() < 3 * 16384);
    let mut session = ExtensionSession::new(sha1::hash(&info), UT_METADATA_ID, true);
    assert_eq!(
        Message::Extension {
            extensions_info: ExtensionsInfo::new(16)
        },
        session.start()
    );
    assert_eq!(
        b"d1:md11:ut_metadatai16eee".to_vec(),
        session.start().to_bytes().unwrap()[6..].to_vec()
    );
    assert_eq!(ExtensionState::WaitingForHandshake, session.state());
    assert!(session
        .on_message(&Message::BitField {
            payload: vec![0xe0]
        })
        .unwrap()
        .is_empty());
    assert!(session.on_message(&Message::KeepAlive).unwrap().is_empty());
    assert_eq!(None, session.peer_metadata_id());

    assert_eq!(
        vec![request(7, 0)],
        session.on_message(&peer_handshake(Some(7))).unwrap()
    );
    assert_eq!(Some(7), session.peer_metadata_id());
    assert_eq!(ExtensionState::WaitingForPiece, session.state());

    assert_eq!(
        vec![request(7, 1)],
        session
            .on_message(&data(16, 0, info.len(), &info[..16384]))
            .unwrap()
    );
    assert_eq!(
        vec![request(7, 2)],
        session
            .on_message(&data(16, 1, info.len(), &info[16384..32768]))
            .unwrap()
    );
    assert!(!session.is_done());
    assert!(session
        .on_message(&data(16, 2, info.len(), &info[32768..]))
        .unwrap()
        .is_empty());
    assert!(session.is_done());
    assert_eq!(
        Some(Message::BitField {
            payload: vec![0xe0]
        }),
        session.bitfield()
    );

    let fetched = session.finish().unwrap();
    assert_eq!(2000, fetched.total_len());
    assert_eq!(2000, fetched.pieces_count());
    assert_eq!("n", fetched.name);
    assert_eq!(sha1::hash(&info), fetched.info_hash());
    assert_eq!(Some(info), fetched.raw);
}

#[test]
fn extension_handshake_alone() {
    let mut session = ExtensionSession::new([0; 20], 16, false);
    assert!(session.on_message(&peer_handshake(None)).unwrap().is_empty());
    assert!(session.is_done());
    assert_eq!(None, session.bitfield());
    assert_eq!(Err(ExtensionError::Incomplete), session.finish().map(|_| ()));
}

#[test]
fn peer_without_the_metadata_exchange() {
    for ut_metadata in [None, Some(0)] {
        let mut session = ExtensionSession::new([0; 20], 16, true);
        assert_eq!(
            Err(ExtensionError::ExtensionUnsupported),
            session.on_message(&peer_handshake(ut_metadata))
        );
        assert_eq!(ExtensionState::WaitingForHandshake, session.state());
    }
}

#[test]
fn extension_phase_refuses_what_its_state_does_not_allow() {
    let info = info_dictionary(1000);
    let mut session = ExtensionSession::new(sha1::hash(&info), 16, true);
    assert_eq!(
        Err(ExtensionError::Incomplete),
        ExtensionSession::new(sha1::hash(&info), 16, true)
            .finish()
            .map(|_| ())
    );
    assert_eq!(
        Err(ExtensionError::ProtocolViolation {
            expected: ExtensionState::WaitingForHandshake,
            got: MessageKind::Metadata
        }),
        session.on_message(&data(16, 0, info.len(), &info[..16384]))
    );
    assert_eq!(
        Err(ExtensionError::ProtocolViolation {
            expected: ExtensionState::WaitingForHandshake,
            got: MessageKind::Unchoke
        }),
        session.on_message(&Message::Unchoke)
    );
    session.on_message(&peer_handshake(Some(2))).unwrap();
    let violation = |got| {
        Err(ExtensionError::ProtocolViolation {
            expected: ExtensionState::WaitingForPiece,
            got,
        })
    };
    assert_eq!(
        violation(MessageKind::Extension),
        session.on_message(&peer_handshake(Some(2)))
    );
    assert_eq!(
        violation(MessageKind::Metadata),
        session.on_message(&request(16, 0))
    );
    // under the id of the peer, not ours
    assert_eq!(
        violation(MessageKind::Metadata),
        session.on_message(&data(2, 0, info.len(), &info[..16384]))
    );
    // not the piece that was asked for
    assert_eq!(
        violation(MessageKind::Metadata),
        session.on_message(&data(16, 1, info.len(), &info[..16384]))
    );
    // not a whole piece
    assert_eq!(
        violation(MessageKind::Metadata),
        session.on_message(&data(16, 0, info.len(), &info[..16383]))
    );
    assert_eq!(
        violation(MessageKind::Metadata),
        session.on_message(&data(16, 0, 0, &[]))
    );
    session
        .on_message(&data(16, 0, info.len(), &info[..16384]))
        .unwrap();
    // another size than before
    assert_eq!(
        violation(MessageKind::Metadata),
        session.on_message(&data(16, 1, info.len() + 1, &info[16384..]))
    );
    // more than is left
    assert_eq!(
        violation(MessageKind::Metadata),
        session.on_message(&data(16, 1, info.len(), &info[16383..]))
    );
    assert_eq!(
        Err(ExtensionError::MetadataRejected { piece: 1 }),
        session.on_message(&Message::Metadata {
            ext_id: 16,
            message: MetadataMessage::Reject { piece: 1 }
        })
    );
    session
        .on_message(&data(16, 1, info.len(), &info[16384..]))
        .unwrap();
    assert_eq!(
        Err(ExtensionError::ProtocolViolation {
            expected: ExtensionState::Done,
            got: MessageKind::BitField
        }),
        session.on_message(&Message::BitField { payload: vec![] })
    );
    assert!(session.finish().is_ok());
}

fn fetched(info_hash: [u8; 20], metadata: &[u8]) -> Result<(), ExtensionError> {
    let mut session = ExtensionSession::new(info_hash, 16, true);
    session.on_message(&peer_handshake(Some(2))).unwrap();
    session
        .on_message(&data(16, 0, metadata.len(), metadata))
        .unwrap();
    session.finish().map(|_| ())
}

#[test]
fn metadata_that_is_not_the_info_dictionary_of_the_link() {
    let info = info_dictionary(3);
    assert_eq!(Ok(()), fetched(sha1::hash(&info), &info));
    assert_eq!(
        Err(ExtensionError::InfoHashMismatch),
        fetched([0; 20], &info)
    );
    let mut with_more = info.clone();
    with_more.push(b'e');
    assert_eq!(
        Err(ExtensionError::BadMetadata(MetainfoError::BadType)),
        fetched(sha1::hash(&with_more), &with_more)
    );
    assert_eq!(
        Err(ExtensionError::BadMetadata(MetainfoError::Bencode(
            DecodingErrorKind::UnexpectedEof
        ))),
        fetched(sha1::hash(&info[..10]), &info[..10])
    );
    assert_eq!(
        Err(ExtensionError::BadMetadata(MetainfoError::MissingField)),
        fetched(sha1::hash(b"de"), b"de")
    );
}
