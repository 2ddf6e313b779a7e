use bittorrent_client::be_bytes::{u16_from_be, u32_from_be, u32_to_be};
use bittorrent_client::peer_messages::{
    Extension, ExtensionsInfo, Handshake, Message, MessageError, MessageKind, Metadata,
    MetadataMessage,
};
use bytes::BufMut;

const INFO_HASH: [u8; 20] = [
    0u8, 1, 2, 3, 4, 5, 6, 7, 8, 9, 10, 11, 12, 13, 14, 15, 16, 17, 18, 19,
];
const PEER_ID: [u8; 20] = [
    40u8, 41, 42, 43, 44, 45, 46, 47, 48, 49, 50, 51, 52, 53, 54, 55, 56, 57, 58, 59,
];

#[test]
fn ser_deser_handshake_without_extension() {
    let handshake = Handshake::new(INFO_HASH, PEER_ID);

    let mut bytes = Vec::new();
    bytes.push(19u8);
    bytes.extend_from_slice(b"BitTorrent protocol");
    bytes.extend_from_slice(&[0, 0, 0, 0, 0, 0, 0, 0]);
    bytes.put(&INFO_HASH[..]);
    bytes.put(&PEER_ID[..]);
    let bytes: [u8; 68] = bytes.try_into().expect("should not fail");

    assert_eq!(bytes, handshake.to_bytes());
    assert_eq!(handshake, Handshake::from(&bytes));
}

#[test]
fn ser_deser_handshake_with_magnet_link_extension() {
    let handshake = Handshake::with_extension(INFO_HASH, PEER_ID, Extension::MagnetLink);

    let mut bytes = Vec::new();
    bytes.push(19u8);
    bytes.extend_from_slice(b"BitTorrent protocol");
    bytes.extend_from_slice(&[0, 0, 0, 0, 0, 16, 0, 0]);
    bytes.put(&INFO_HASH[..]);
    bytes.put(&PEER_ID[..]);
    let bytes: [u8; 68] = bytes.try_into().expect("should not fail");

    assert_eq!(bytes, handshake.to_bytes());
    assert_eq!(handshake, Handshake::from(&bytes));
}

#[test]
fn handshake_capability_is_one_bit() {
    assert_eq!([0u8; 8], Extension::NoExtension.to_bytes());
    assert_eq!([0u8, 0, 0, 0, 0, 16, 0, 0], Extension::MagnetLink.to_bytes());
    assert_eq!(
        Extension::MagnetLink,
        Extension::from(&[0u8, 0, 0, 0, 0, 16, 0, 0])
    );
    assert_eq!(
        Extension::MagnetLink,
        Extension::from(&[0u8, 0, 0, 0, 0, 0x14, 0, 5])
    );
    assert_eq!(
        Extension::NoExtension,
        Extension::from(&[0xffu8, 0xff, 0xff, 0xff, 0xff, 0xef, 0xff, 0xff])
    );
    assert_eq!(Extension::NoExtension, Extension::from(&[0u8; 8]));
}

#[test]
fn handshake_fields_come_from_their_places() {
    let mut bytes = [0u8; 68];
    for (i, byte) in bytes.iter_mut().enumerate() {
        *byte = i as u8;
    }
    let handshake = Handshake::from_bytes(&bytes);
    assert_eq!(&bytes[28..48], &handshake.info_hash);
    assert_eq!(&bytes[48..68], &handshake.peer_id);
    assert_eq!(Extension::MagnetLink, handshake.extension);
}

#[test]
fn ser_deser_message_bitfield() {
    let msg = Message::BitField {
        payload: b"foo".to_vec(),
    };
    let bytes = vec![0, 0, 0, 4, 5, 102, 111, 111];

    assert_eq!(bytes, msg.to_bytes().unwrap());
    assert_eq!(msg, Message::from_bytes(&bytes).unwrap());
}

#[test]
fn ser_deser_message_bitfield_empty() {
    let msg = Message::BitField {
        payload: Vec::new(),
    };
    let bytes = vec![0, 0, 0, 1, 5];

    assert_eq!(bytes, msg.to_bytes().unwrap());
    assert_eq!(msg, Message::from_bytes(&bytes).unwrap());
}

#[test]
fn ser_deser_message_interested() {
    let msg = Message::Interested;
    let bytes = vec![0, 0, 0, 1, 2];

    assert_eq!(bytes, msg.to_bytes().unwrap());
    assert_eq!(msg, Message::from_bytes(&bytes).unwrap());
}

#[test]
fn ser_deser_message_choke() {
    let msg = Message::Choke;
    let bytes = vec![0, 0, 0, 1, 0];

    assert_eq!(bytes, msg.to_bytes().unwrap());
    assert_eq!(msg, Message::from_bytes(&bytes).unwrap());
}

#[test]
fn ser_deser_message_unchoke() {
    let msg = Message::Unchoke;
    let bytes = vec![0, 0, 0, 1, 1];

    assert_eq!(bytes, msg.to_bytes().unwrap());
    assert_eq!(msg, Message::from_bytes(&bytes).unwrap());
}

#[test]
fn ser_deser_message_request() {
    let msg = Message::Request {
        index: 1,
        begin: 3,
        length: 42,
    };
    let bytes = vec![0, 0, 0, 13, 6, 0, 0, 0, 1, 0, 0, 0, 3, 0, 0, 0, 42];

    assert_eq!(bytes, msg.to_bytes().unwrap());
    assert_eq!(msg, Message::from_bytes(&bytes).unwrap());
}

#[test]
fn ser_deser_message_piece() {
    let msg = Message::Piece {
        index: 4,
        begin: 12,
        block: vec![102, 111, 111],
    };
    let bytes = vec![0, 0, 0, 12, 7, 0, 0, 0, 4, 0, 0, 0, 12, 102, 111, 111];

    assert_eq!(bytes, msg.to_bytes().unwrap());
    assert_eq!(msg, Message::from_bytes(&bytes).unwrap());
}

#[test]
fn ser_deser_message_empty_piece() {
    let msg = Message::Piece {
        index: 4,
        begin: 12,
        block: vec![],
    };
    let bytes = vec![0, 0, 0, 9, 7, 0, 0, 0, 4, 0, 0, 0, 12];

    assert_eq!(bytes, msg.to_bytes().unwrap());
    assert_eq!(msg, Message::from_bytes(&bytes).unwrap());
}

#[test]
fn ser_deser_message_extension() {
    let extensions_info = ExtensionsInfo::new(16);
    let msg = Message::Extension { extensions_info };

    let payload = b"d1:md11:ut_metadatai16eee";
    let mut bytes = vec![0, 0, 0];
    bytes.push(payload.len() as u8 + 2);
    bytes.push(20);
    bytes.push(0);
    bytes.put_slice(payload);

    assert_eq!(bytes, msg.to_bytes().unwrap());
    assert_eq!(msg, Message::from_bytes(&bytes).unwrap());
}

#[test]
fn ser_deser_message_keep_alive() {
    let bytes = vec![0, 0, 0, 0];
    assert_eq!(bytes, Message::KeepAlive.to_bytes().unwrap());
    assert_eq!(Message::KeepAlive, Message::from_bytes(&bytes).unwrap());
}

#[test]
fn extension_handshake_with_both_ids() {
    let extensions_info = ExtensionsInfo {
        metdata: Metadata {
            ut_metadata: Some(255),
            ut_pex: Some(0),
        },
    };
    let msg = Message::Extension { extensions_info };
    let bytes = msg.to_bytes().unwrap();
    assert_eq!(
        b"d1:md11:ut_metadatai255e6:ut_pexi0eee".to_vec(),
        bytes[6..].to_vec()
    );
    assert_eq!(msg, Message::from_bytes(&bytes).unwrap());
}

#[test]
fn extension_handshake_with_no_id() {
    let extensions_info = ExtensionsInfo {
        metdata: Metadata {
            ut_metadata: None,
            ut_pex: None,
        },
    };
    let msg = Message::Extension { extensions_info };
    let bytes = msg.to_bytes().unwrap();
    assert_eq!(b"d1:mdee".to_vec(), bytes[6..].to_vec());
    assert_eq!(msg, Message::from_bytes(&bytes).unwrap());
}

fn extension_frame(payload: &[u8]) -> Vec<u8> {
    let mut bytes = u32_to_be(payload.len() as u32 + 2).to_vec();
    bytes.push(20);
    bytes.push(0);
    bytes.extend_from_slice(payload);
    bytes
}

#[test]
fn extension_handshake_of_a_peer() {
    let frame =
        extension_frame(b"d1:md6:ut_pexi2e11:ut_metadatai3e4:spami9ee1:v5:peer!6:yourip4:abcde");
    assert_eq!(
        Message::Extension {
            extensions_info: ExtensionsInfo {
                metdata: Metadata {
                    ut_metadata: Some(3),
                    ut_pex: Some(2),
                },
            }
        },
        Message::from_bytes(&frame).unwrap()
    );
}

#[test]
fn extension_handshake_that_is_none() {
    for payload in [
        &b"d1:xdee"[..],
        b"d1:mi5ee",
        b"d1:md11:ut_metadatai256eee",
        b"d1:md11:ut_metadatai-1eee",
        b"d1:md11:ut_metadata1:3ee",
        b"le",
        b"d1:md",
        b"",
    ] {
        assert_eq!(
            Err(MessageError::BadExtension),
            Message::from_bytes(&extension_frame(payload))
        );
    }
}

#[test]
fn message_errors() {
    assert_eq!(Err(MessageError::TooShort), Message::from_bytes(&[]));
    assert_eq!(Err(MessageError::TooShort), Message::from_bytes(&[0, 0, 0]));
    assert_eq!(
        Err(MessageError::LengthMismatch),
        Message::from_bytes(&[0, 0, 0, 2, 0])
    );
    assert_eq!(
        Err(MessageError::LengthMismatch),
        Message::from_bytes(&[0, 0, 0, 0, 0])
    );
    assert_eq!(
        Err(MessageError::BadPayload(1)),
        Message::from_bytes(&[0, 0, 0, 2, 1, 9])
    );
    assert_eq!(
        Err(MessageError::BadPayload(6)),
        Message::from_bytes(&[0, 0, 0, 5, 6, 0, 0, 0, 1])
    );
    assert_eq!(
        Err(MessageError::BadPayload(7)),
        Message::from_bytes(&[0, 0, 0, 5, 7, 0, 0, 0, 1])
    );
    assert_eq!(
        Err(MessageError::BadPayload(20)),
        Message::from_bytes(&[0, 0, 0, 1, 20])
    );
    assert_eq!(
        Err(MessageError::BadExtension),
        Message::from_bytes(&[0, 0, 0, 4, 20, 1, b'd', b'e'])
    );
    assert_eq!(
        Err(MessageError::UnknownId(3)),
        Message::from_bytes(&[0, 0, 0, 1, 3])
    );
    assert_eq!(
        Err(MessageError::UnknownId(99)),
        Message::from_bytes(&[0, 0, 0, 2, 99, 0])
    );
}

#[test]
fn length_prefix_is_one_and_the_payload() {
    let block = vec![7u8; 300];
    let bytes = Message::Piece {
        index: 1,
        begin: 2,
        block: block.clone(),
    }
    .to_bytes()
    .unwrap();
    assert_eq!(&[0, 0, 1, 53], &bytes[..4]);
    assert_eq!(4 + 1 + 8 + 300, bytes.len());
    assert_eq!(309, Message::body_length(&[0, 0, 1, 53]));
    assert_eq!(0, Message::body_length(&[0, 0, 0, 0]));
    assert_eq!(0x01020304, Message::body_length(&[1, 2, 3, 4]));
}

#[test]
fn length_prefix_of_a_length() {
    assert_eq!(
        Ok([0, 0, 0, 13]),
        Message::usize_to_u32_be_bytes(13)
    );
    assert_eq!(
        Ok([0xff, 0xff, 0xff, 0xff]),
        Message::usize_to_u32_be_bytes(u32::MAX as usize)
    );
    assert_eq!(
        Ok([0x12, 0x34, 0x56, 0x78]),
        Message::usize_to_u32_be_bytes(0x12345678)
    );
    if usize::BITS > 32 {
        assert_eq!(
            Err(MessageError::TooLong),
            Message::usize_to_u32_be_bytes(u32::MAX as usize + 1)
        );
    }
}

#[test]
fn big_endian_numbers() {
    assert_eq!([0x12, 0x34, 0x56, 0x78], u32_to_be(0x12345678));
    assert_eq!(0x12345678, u32_from_be(&[9, 0x12, 0x34, 0x56, 0x78], 1));
    assert_eq!(12345, u16_from_be(&[0x30, 0x39], 0));
    assert_eq!(0xff00, u16_from_be(&[1, 0xff, 0x00], 1));
}

#[test]
fn message_names_and_kinds() {
    assert_eq!("BitField", Message::BitField { payload: vec![] }.name());
    assert_eq!("Interested", Message::Interested.name());
    assert_eq!("Choke", Message::Choke.name());
    assert_eq!("Unchoke", Message::Unchoke.name());
    assert_eq!(
        "Request",
        Message::Request {
            index: 0,
            begin: 0,
            length: 0
        }
        .name()
    );
    assert_eq!(
        "Piece",
        Message::Piece {
            index: 0,
            begin: 0,
            block: vec![]
        }
        .name()
    );
    assert_eq!(
        "Extensions",
        Message::Extension {
            extensions_info: ExtensionsInfo::new(1)
        }
        .name()
    );
    assert_eq!("KeepAlive", Message::KeepAlive.name());
    assert_eq!(MessageKind::Unchoke, Message::Unchoke.kind());
}

fn metadata_frame(ext_id: u8, payload: &[u8]) -> Vec<u8> {
    let mut bytes = u32_to_be(payload.len() as u32 + 2).to_vec();
    bytes.push(20);
    bytes.push(ext_id);
    bytes.extend_from_slice(payload);
    bytes
}

#[test]
fn ser_deser_message_metadata() {
    let msg = Message::Metadata {
        ext_id: 3,
        message: MetadataMessage::Request { piece: 0 },
    };
    let bytes = metadata_frame(3, b"d8:msg_typei0e5:piecei0ee");
    assert_eq!(bytes, msg.to_bytes().unwrap());
    assert_eq!(msg, Message::from_bytes(&bytes).unwrap());

    let msg = Message::Metadata {
        ext_id: 255,
        message: MetadataMessage::Reject { piece: 12 },
    };
    let bytes = metadata_frame(255, b"d8:msg_typei2e5:piecei12ee");
    assert_eq!(bytes, msg.to_bytes().unwrap());
    assert_eq!(msg, Message::from_bytes(&bytes).unwrap());

    let msg = Message::Metadata {
        ext_id: 16,
        message: MetadataMessage::Data {
            piece: 1,
            total_size: 16390,
            block: b"d4:ee".to_vec(),
        },
    };
    let bytes = metadata_frame(16, b"d8:msg_typei1e5:piecei1e10:total_sizei16390eed4:ee");
    assert_eq!(bytes, msg.to_bytes().unwrap());
    assert_eq!(msg, Message::from_bytes(&bytes).unwrap());
    assert_eq!("Metadata", msg.name());
    assert_eq!(MessageKind::Metadata, msg.kind());
}

#[test]
fn metadata_message_that_is_none() {
    for payload in [
        &b"d8:msg_typei3e5:piecei0ee"[..],
        b"d8:msg_typei1e5:piecei0ee",
        b"d8:msg_typei0ee",
        b"d5:piecei0ee",
        b"d8:msg_type1:05:piecei0ee",
        b"d8:msg_typei0e5:piecei4294967296ee",
        b"d8:msg_typei0e5:piecei-1ee",
        b"li0ei0ee",
        b"",
    ] {
        assert_eq!(
            Err(MessageError::BadExtension),
            Message::from_bytes(&metadata_frame(1, payload))
        );
    }
    assert_eq!(
        Ok(Message::Metadata {
            ext_id: 1,
            message: MetadataMessage::Request { piece: 4294967295 }
        }),
        Message::from_bytes(&metadata_frame(
            1,
            b"d5:piecei4294967295e8:msg_typei0e5:extrai1ee"
        ))
    );
}
