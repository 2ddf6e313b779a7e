use bittorrent_client::hashes::Hashes;
use bittorrent_client::metainfo::MetainfoError;
use bittorrent_client::bencode_spec::DecodingErrorKind;
use bittorrent_client::torrent::{blocks_of, BlockInfo, File, Info, Keys, PieceInfo, Torrent};

const TORRENT_1: &str = "ZDg6YW5ub3VuY2U1NTpodHRwOi8vYml0dG9ycmVudC10ZXN0LXRyYWNrZXIuY29kZWNyYWZ0ZXJzLmlvL2Fubm91bmNlMTA6Y3JlYXRlZCBieTEzOm1rdG9ycmVudCAxLjE0OmluZm9kNjpsZW5ndGhpODIwODkyZTQ6bmFtZTE5OmNvbmdyYXR1bGF0aW9ucy5naWYxMjpwaWVjZSBsZW5ndGhpMjYyMTQ0ZTY6cGllY2VzODA6PUKiDtsc+EDNNSjTqekh22M4pGNp+IWzmIpS/7A1kZhUArbVKFlAq3aGnmycHxAflPOd4VPkaL5qY49Pve1o0C3gEaK2h/dbWDP0bM6OPpxlZQ==";
const TORRENT_2: &str = "ZDg6YW5ub3VuY2UzMTpodHRwOi8vMTI3LjAuMC4xOjQ0MzgxL2Fubm91bmNlNDppbmZvZDY6bGVuZ3RoaTIwOTcxNTJlNDpuYW1lMTU6ZmFrZXRvcnJlbnQuaXNvMTI6cGllY2UgbGVuZ3RoaTI2MjE0NGU2OnBpZWNlczE2MDrd8zFyWZ/ahPCiCaMDT3nwuKpeInlaYYoe5SdelShDsBpWrk4UJ1Lvza4u9TLWEaRrLPe2TVeMCbOsC24Jja3AwZQ28ZJ+onuQ6xixooIKI4+lNVQZiG2exW6GzXeRND6Ted4YHK6s6xX9ETSxtLIfrQQSWyJ7Tc/6WG4g1Xmk3nYJDhK9Cj2bHFOfPq7C1+sdtTnCqdJNAj+5FreSNLdpZWU=";

#[test]
fn torrent_with_hash_and_pieces_1() {
    let torrent = Torrent::from_base64(TORRENT_1).unwrap();

    assert_eq!(
        "http://bittorrent-test-tracker.codecrafters.io/announce",
        torrent.announce
    );
    assert_eq!(820892, torrent.total_len());
    assert_eq!(
        "1cad4a486798d952614c394eb15e75bec587fd08",
        hex::encode(&torrent.info_hash())
    );
    assert_eq!(262144, torrent.info.piece_length);
    assert_eq!(
        vec![
            "3d42a20edb1cf840cd3528d3a9e921db6338a463",
            "69f885b3988a52ffb03591985402b6d5285940ab",
            "76869e6c9c1f101f94f39de153e468be6a638f4f",
            "bded68d02de011a2b687f75b5833f46cce8e3e9c"
        ],
        torrent
            .info
            .pieces
            .0
            .iter()
            .map(|i| hex::encode(i))
            .collect::<Vec<_>>()
    );
}

#[test]
fn torrent_with_hash_and_pieces_2() {
    let torrent = Torrent::from_base64(TORRENT_2).unwrap();

    assert_eq!("http://127.0.0.1:44381/announce", torrent.announce);
    assert_eq!(2097152, torrent.total_len());
    assert_eq!(
        "a18a79fa44e045b1e13879166d35823e848419f8",
        hex::encode(&torrent.info_hash())
    );
    assert_eq!(262144, torrent.info.piece_length);
    assert_eq!(
        vec![
            "ddf33172599fda84f0a209a3034f79f0b8aa5e22",
            "795a618a1ee5275e952843b01a56ae4e142752ef",
            "cdae2ef532d611a46b2cf7b64d578c09b3ac0b6e",
            "098dadc0c19436f1927ea27b90eb18b1a2820a23",
            "8fa5355419886d9ec56e86cd7791343e9379de18",
            "1caeaceb15fd1134b1b4b21fad04125b227b4dcf",
            "fa586e20d579a4de76090e12bd0a3d9b1c539f3e",
            "aec2d7eb1db539c2a9d24d023fb916b79234b769"
        ],
        torrent
            .info
            .pieces
            .0
            .iter()
            .map(|i| hex::encode(i))
            .collect::<Vec<_>>()
    );
}

fn fake_torrent(file_size: usize, pieces_size: usize) -> Vec<u8> {
    let pieces_count: usize = (file_size + pieces_size - 1) / pieces_size;
    let mut torrent_content = Vec::from(format!("d8:announce31:http://127.0.0.1:44381/announce4:infod6:lengthi{file_size}e4:name15:faketorrent.iso12:piece lengthi{pieces_size}e6:pieces{}:", pieces_count * 20).as_bytes());
    torrent_content.extend_from_slice(&vec![0; pieces_count * 20]);
    torrent_content.extend_from_slice(b"ee");
    torrent_content
}

#[test]
fn torrent_shorthands_1() {
    const FILE_SIZE: usize = 450;
    const PIECES_SIZE: usize = 120;
    let torrent = Torrent::from_bytes(&fake_torrent(FILE_SIZE, PIECES_SIZE)).unwrap();

    assert_eq!(450, torrent.total_len());
    assert_eq!(4, torrent.pieces_count());
    assert_eq!(90, torrent.last_piece_size());
    assert_eq!(
        Some(&PieceInfo {
            index: 0,
            offset: 0,
            length: 120
        }),
        torrent.pieces_info().get(0)
    );
    assert_eq!(
        Some(&PieceInfo {
            index: 3,
            offset: 360,
            length: 90
        }),
        torrent.pieces_info().last()
    );
    assert_eq!(
        Some(&BlockInfo {
            offset: 0,
            length: 60,
        }),
        torrent
            .blocks_info(0, 60)
            .expect("requested piece does not exist")
            .get(0)
    );
    assert_eq!(
        Some(&BlockInfo {
            offset: 82,
            length: 8,
        }),
        torrent
            .blocks_info(3, 41)
            .expect("requested piece does not exist")
            .get(2)
    );
}

#[test]
fn torrent_shorthands_2() {
    const FILE_SIZE: usize = 300;
    const PIECES_SIZE: usize = 100;
    let torrent = Torrent::from_bytes(&fake_torrent(FILE_SIZE, PIECES_SIZE)).unwrap();

    assert_eq!(300, torrent.total_len());
    assert_eq!(3, torrent.pieces_count());
    assert_eq!(100, torrent.last_piece_size());
    assert_eq!(
        Some(&PieceInfo {
            index: 1,
            offset: 100,
            length: 100
        }),
        torrent.pieces_info().get(1)
    );
    assert_eq!(
        Some(&PieceInfo {
            index: 2,
            offset: 200,
            length: 100
        }),
        torrent.pieces_info().last()
    );
    assert_eq!(
        Some(&BlockInfo {
            offset: 0,
            length: 41,
        }),
        torrent
            .blocks_info(0, 41)
            .expect("requested piece does not exist")
            .get(0)
    );
    assert_eq!(
        Some(&BlockInfo {
            offset: 82,
            length: 18,
        }),
        torrent
            .blocks_info(0, 41)
            .expect("requested piece does not exist")
            .get(2)
    );
}

#[test]
fn geometry_adds_up() {
    for (file_size, pieces_size) in [(450usize, 120usize), (300, 100), (1, 1), (7, 100), (445, 160)]
    {
        let torrent = Torrent::from_bytes(&fake_torrent(file_size, pieces_size)).unwrap();
        let pieces = torrent.pieces_info();
        assert_eq!(torrent.pieces_count(), pieces.len());
        assert_eq!(
            file_size,
            pieces.iter().map(|piece| piece.length).sum::<usize>()
        );
        let mut offset = 0;
        for (i, piece) in pieces.iter().enumerate() {
            assert_eq!(i, piece.index);
            assert_eq!(offset, piece.offset);
            assert_eq!(i * pieces_size, piece.offset);
            offset += piece.length;
            for block_size in [1usize, 19, 41, 60, 100, 16384] {
                let blocks = torrent.blocks_info(i, block_size).unwrap();
                assert_eq!(
                    (piece.length + block_size - 1) / block_size,
                    blocks.len()
                );
                assert_eq!(
                    piece.length,
                    blocks.iter().map(|block| block.length).sum::<usize>()
                );
                for (j, block) in blocks.iter().enumerate() {
                    assert_eq!(j * block_size, block.offset);
                    assert!(0 < block.length && block.length <= block_size);
                }
            }
        }
        assert_eq!(None, torrent.blocks_info(pieces.len(), 16));
    }
}

#[test]
fn blocks_of_a_piece_of_a_hundred_bytes() {
    assert_eq!(
        vec![
            BlockInfo { offset: 0, length: 19 },
            BlockInfo { offset: 19, length: 19 },
            BlockInfo { offset: 38, length: 19 },
            BlockInfo { offset: 57, length: 19 },
            BlockInfo { offset: 76, length: 19 },
            BlockInfo { offset: 95, length: 5 },
        ],
        blocks_of(100, 19)
    );
    assert_eq!(vec![BlockInfo { offset: 0, length: 100 }], blocks_of(100, 100));
    assert_eq!(vec![BlockInfo { offset: 0, length: 100 }], blocks_of(100, 101));
}

#[test]
fn hashes_are_cut_and_put_together() {
    let bytes: Vec<u8> = (0..60u8).collect();
    let hashes = Hashes::from_bytes(&bytes).unwrap();
    assert_eq!(3, hashes.len());
    assert_eq!(&bytes[20..40], &hashes.0[1]);
    assert_eq!(bytes, hashes.to_bytes());
    assert!(Hashes::from_bytes(&bytes[..59]).is_none());
    assert_eq!(0, Hashes::from_bytes(&[]).unwrap().len());
}

fn metainfo_error(content: &[u8]) -> MetainfoError {
    match Torrent::from_bytes(content) {
        Ok(_) => panic!("the metainfo was accepted"),
        Err(e) => e,
    }
}

#[test]
fn metainfo_errors() {
    assert_eq!(
        MetainfoError::Bencode(DecodingErrorKind::UnexpectedEof),
        metainfo_error(b"d8:announce")
    );
    assert_eq!(MetainfoError::BadType, metainfo_error(b"le"));
    assert_eq!(MetainfoError::MissingField, metainfo_error(b"de"));
    assert_eq!(
        MetainfoError::MissingField,
        metainfo_error(b"d8:announce3:url4:infod6:lengthi1e4:name1:a6:pieces20:aaaaaaaaaaaaaaaaaaaaee")
    );
    assert_eq!(
        MetainfoError::MissingField,
        metainfo_error(b"d8:announce3:url4:infod4:name1:a12:piece lengthi1e6:pieces20:aaaaaaaaaaaaaaaaaaaaee")
    );
    assert_eq!(
        MetainfoError::BadType,
        metainfo_error(b"d8:announcei3e4:infod6:lengthi1e4:name1:a12:piece lengthi1e6:pieces20:aaaaaaaaaaaaaaaaaaaaee")
    );
    assert_eq!(
        MetainfoError::BadType,
        metainfo_error(b"d8:announce3:url4:infod6:lengthi1e4:name1:a12:piece lengthi0e6:pieces20:aaaaaaaaaaaaaaaaaaaaee")
    );
    assert_eq!(
        MetainfoError::BadType,
        metainfo_error(b"d8:announce3:url4:infod5:filesle6:lengthi1e4:name1:a12:piece lengthi1e6:pieces20:aaaaaaaaaaaaaaaaaaaaee")
    );
    assert_eq!(
        MetainfoError::PiecesLengthNotMultiple20,
        metainfo_error(b"d8:announce3:url4:infod6:lengthi1e4:name1:a12:piece lengthi1e6:pieces19:aaaaaaaaaaaaaaaaaaaee")
    );
    assert_eq!(
        MetainfoError::InconsistentLength,
        metainfo_error(b"d8:announce3:url4:infod6:lengthi2e4:name1:a12:piece lengthi1e6:pieces20:aaaaaaaaaaaaaaaaaaaaee")
    );
    assert_eq!(
        MetainfoError::InconsistentLength,
        metainfo_error(b"d8:announce3:url4:infod6:lengthi1e4:name1:a12:piece lengthi1e6:pieces40:aaaaaaaaaaaaaaaaaaaaaaaaaaaaaaaaaaaaaaaaee")
    );
    assert_eq!(
        MetainfoError::Base64,
        match Torrent::from_base64("not base64!") {
            Ok(_) => panic!("the text was accepted"),
            Err(e) => e,
        }
    );
}

#[test]
fn metainfo_of_several_files() {
    let content = b"d8:announce3:url4:infod5:filesld6:lengthi3e4:pathl1:a1:beed6:lengthi4e4:pathl1:ceee4:name1:n12:piece lengthi5e6:pieces40:aaaaaaaaaaaaaaaaaaaabbbbbbbbbbbbbbbbbbbbee";
    let torrent = Torrent::from_bytes(content).unwrap();
    assert_eq!(7, torrent.total_len());
    assert_eq!(2, torrent.pieces_count());
    assert_eq!(2, torrent.last_piece_size());
    assert_eq!(
        Keys::MultiFile {
            files: vec![
                File {
                    length: 3,
                    path: vec!["a".to_owned(), "b".to_owned()]
                },
                File {
                    length: 4,
                    path: vec!["c".to_owned()]
                }
            ]
        },
        torrent.info.keys
    );
    assert_eq!(Some(content[22..content.len() - 1].to_vec()), torrent.info.raw);
    assert_eq!(content[22..content.len() - 1].to_vec(), torrent.info.to_bencode());
}

#[test]
fn info_hash_is_the_digest_of_the_bytes_as_they_stand() {
    let plain = b"d8:announce3:url4:infod6:lengthi1e4:name1:a12:piece lengthi1e6:pieces20:aaaaaaaaaaaaaaaaaaaaee";
    let moved = b"d4:infod6:lengthi1e4:name1:a12:piece lengthi1e6:pieces20:aaaaaaaaaaaaaaaaaaaae8:announce5:other7:comment2:hie";
    let extra = b"d8:announce3:url4:infod6:lengthi1e4:name1:a12:piece lengthi1e6:pieces20:aaaaaaaaaaaaaaaaaaaa7:privatei1eee";
    let plain = Torrent::from_bytes(plain).unwrap();
    let moved = Torrent::from_bytes(moved).unwrap();
    let extra = Torrent::from_bytes(extra).unwrap();
    assert_eq!(plain.info_hash(), moved.info_hash());
    assert_ne!(plain.info_hash(), extra.info_hash());
    assert_eq!(
        bittorrent_client::sha1::hash(plain.info.raw.as_ref().unwrap()),
        plain.info_hash()
    );
    assert_eq!(
        "e8e4ab81e820514768e3f1703e403d1e5ccd8a09".len(),
        hex::encode(plain.info_hash()).len()
    );
}

#[test]
fn info_hash_of_an_info_dictionary_put_together_by_hand() {
    let parsed = Torrent::from_base64(TORRENT_2).unwrap();
    let made = Info {
        name: "faketorrent.iso".to_owned(),
        piece_length: 262144,
        pieces: Hashes(parsed.info.pieces.0.clone()),
        keys: Keys::SingleFile { length: 2097152 },
        raw: None,
    };
    assert!(made.is_consistent());
    assert!(parsed.info.is_consistent());
    assert_eq!(parsed.info.raw.clone().unwrap(), made.to_bencode());
    assert_eq!(
        "a18a79fa44e045b1e13879166d35823e848419f8",
        hex::encode(made.info_hash())
    );
}

#[test]
fn sha1_of_known_inputs() {
    assert_eq!(
        "da39a3ee5e6b4b0d3255bfef95601890afd80709",
        hex::encode(bittorrent_client::sha1::hash(b""))
    );
    assert_eq!(
        "2aae6c35c94fcfb415dbe95f408b9ce91ee846ed",
        hex::encode(bittorrent_client::sha1::hash(b"hello world"))
    );
}

#[test]
fn info_dictionaries_whose_pieces_do_not_cover_the_payload() {
    let info = |piece_length: u32, pieces: usize, keys: Keys| Info {
        name: "n".to_owned(),
        piece_length,
        pieces: Hashes(vec![[0; 20]; pieces]),
        keys,
        raw: None,
    };
    assert!(info(10, 3, Keys::SingleFile { length: 21 }).is_consistent());
    assert!(info(10, 3, Keys::SingleFile { length: 30 }).is_consistent());
    assert!(info(10, 0, Keys::SingleFile { length: 0 }).is_consistent());
    assert!(!info(10, 3, Keys::SingleFile { length: 20 }).is_consistent());
    assert!(!info(10, 3, Keys::SingleFile { length: 31 }).is_consistent());
    assert!(!info(0, 3, Keys::SingleFile { length: 30 }).is_consistent());
    assert!(!info(10, 1, Keys::SingleFile { length: 0 }).is_consistent());
    let files = |lengths: &[usize]| Keys::MultiFile {
        files: lengths
            .iter()
            .map(|length| File {
                length: *length,
                path: vec!["f".to_owned()],
            })
            .collect(),
    };
    assert!(info(10, 3, files(&[1, 20, 0, 4])).is_consistent());
    assert!(!info(10, 3, files(&[1, 20, 0, 40])).is_consistent());
    assert!(!info(10, 3, files(&[usize::MAX, 25])).is_consistent());
    assert_eq!(25, info(10, 3, files(&[1, 20, 0, 4])).total_len());
    assert_eq!(
        b"d5:filesld6:lengthi1e4:pathl1:feed6:lengthi2e4:pathl1:feee4:name1:n12:piece lengthi10e6:pieces20:\0\0\0\0\0\0\0\0\0\0\0\0\0\0\0\0\0\0\0\0e"
            .to_vec(),
        info(10, 1, files(&[1, 2])).to_bencode()
    );
}
