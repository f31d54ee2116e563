use bencode_torrent::decode::decode_bencoded_value;
use bencode_torrent::encode::encode;
use bencode_torrent::torrent::{info_hash_hex_of, info_hash_of, Torrent, TorrentInfo};
use bencode_torrent::{BencodeError, Value};
use sha1::Digest;

fn sample_pieces() -> Vec<u8> {
    (0..60u32).map(|i| ((i * 37 + 200) % 256) as u8).collect()
}

fn sample_info_bytes() -> Vec<u8> {
    let mut b = b"d6:lengthi92063e4:name10:sample.txt12:piece lengthi32768e6:pieces60:".to_vec();
    b.extend(sample_pieces());
    b.push(b'e');
    b
}

/// A torrent file's bytes: the announce URL and the info dictionary.
fn data() -> Vec<u8> {
    let mut b = b"d8:announce55:http://bittorrent-test-tracker.codecrafters.io/announce4:info".to_vec();
    b.extend(sample_info_bytes());
    b.push(b'e');
    b
}

#[test]
fn valid_torrent_type_generated_from_file() {
    let encoded_value = data();
    let res = decode_bencoded_value(&encoded_value);
    assert!(res.is_ok());
    let val = res.unwrap().0;
    let torrent_res = Torrent::from_value(&val);
    assert!(torrent_res.is_ok());
}

#[test]
fn generated_torrent_type_matches_decoded_sample_file_data() {
    let encoded_value = data();
    let res = decode_bencoded_value(&encoded_value);
    assert!(res.is_ok());
    let val = res.unwrap().0;
    let torrent_res = Torrent::from_value(&val);
    assert!(torrent_res.is_ok());
    let torrent = torrent_res.expect("torrent_res is already ok'd");
    assert_eq!(
        torrent.announce,
        "http://bittorrent-test-tracker.codecrafters.io/announce".to_string()
    );
    assert_eq!(torrent.info.length, 92063);
    assert_eq!(torrent.info.name, "sample.txt".to_string());
    assert_eq!(torrent.info.piece_length, 32768);
    assert!(!torrent.info.pieces.is_empty());
    assert_eq!(torrent.info.pieces, sample_pieces());
}

#[test]
fn generated_torrent_info_hash_match_to_serde_bencode() {
    let encoded_value = data();
    let (decoded_val, _) =
        decode_bencoded_value(&encoded_value).expect("failed to decode the encoded value file");
    let torrent = Torrent::from_value(&decoded_val).expect("failed to parse to `Torrent`");
    let bencoded_info = encode(&torrent.info.to_value());
    assert_eq!(bencoded_info, sample_info_bytes());
    let independent = sha1::Sha1::digest(&bencoded_info).to_vec();
    assert_eq!(torrent.info_hash(), independent);
    assert_eq!(
        torrent.info_hash_hex(),
        "c146fae5023f82444f72e7fbe429b7c7f841be0d",
        "Info hash does not match expected value"
    );
}

#[test]
fn piece_hashes_split_in_order() {
    let (v, _) = decode_bencoded_value(&data()).unwrap();
    let torrent = Torrent::from_value(&v).unwrap();
    let hs = torrent.info.piece_hashes().unwrap();
    assert_eq!(hs.len(), 3);
    assert_eq!(hs[0], sample_pieces()[0..20].to_vec());
    assert_eq!(hs[2], sample_pieces()[40..60].to_vec());
    let hex = torrent.info.piece_hashes_hex().unwrap();
    assert_eq!(
        hex,
        vec![
            "c8ed12375c81a6cbf0153a5f84a9cef3183d6287".to_string(),
            "acd1f61b40658aafd4f91e43688db2d7fc21466b".to_string(),
            "90b5daff24496e93b8dd02274c7196bbe0052a4f".to_string(),
        ]
    );
}

#[test]
fn partial_piece_is_refused() {
    let info = TorrentInfo {
        length: 1,
        name: "x".to_string(),
        piece_length: 1,
        pieces: vec![0u8; 21],
    };
    assert!(info.piece_hashes().is_none());
    assert!(info.piece_hashes_hex().is_none());
}

#[test]
fn info_hash_uses_canonical_key_order() {
    let (v, _) = decode_bencoded_value(b"d8:announce1:u4:infod4:name1:x6:lengthi0e12:piece lengthi1e6:pieces0:ee").unwrap();
    let torrent = Torrent::from_value(&v).unwrap();
    assert_eq!(torrent.info_hash_hex(), "0c78a7883a721ebe9498e7bc6deb9b8ce9daaf3d");
}

#[test]
fn missing_or_mistyped_fields_fail() {
    let inputs: [&[u8]; 6] = [
        b"le",
        b"d4:infod6:lengthi0e4:name1:x12:piece lengthi1e6:pieces0:ee",
        b"d8:announcei1e4:infod6:lengthi0e4:name1:x12:piece lengthi1e6:pieces0:ee",
        b"d8:announce1:u4:infod4:name1:x12:piece lengthi1e6:pieces0:ee",
        b"d8:announce1:u4:infod6:lengthi0e4:name1:x12:piece lengthi0e6:pieces0:ee",
        b"d8:announce1:u4:infod6:lengthi0e4:name1:x12:piece lengthi1e6:pieces3:abcee",
    ];
    for input in inputs {
        let (v, _) = decode_bencoded_value(input).unwrap();
        assert!(matches!(Torrent::from_value(&v), Err(BencodeError::DataFormat(_))));
    }
}

#[test]
fn non_utf8_name_is_refused() {
    let v = Value::Dict(vec![
        (b"announce".to_vec(), Value::Bytes(b"u".to_vec())),
        (
            b"info".to_vec(),
            Value::Dict(vec![
                (b"length".to_vec(), Value::Int(0)),
                (b"name".to_vec(), Value::Bytes(vec![0xff])),
                (b"piece length".to_vec(), Value::Int(1)),
                (b"pieces".to_vec(), Value::Bytes(vec![])),
            ]),
        ),
    ]);
    assert!(matches!(Torrent::from_value(&v), Err(BencodeError::DataFormat(_))));
}

#[test]
fn info_hash_of_decoded_info_keeps_extra_keys() {
    let input = b"d8:announce1:u4:infod6:lengthi0e4:name1:x12:piece lengthi1e6:pieces0:7:privatei1eee";
    let (v, _) = decode_bencoded_value(input).unwrap();
    let info = b"d6:lengthi0e4:name1:x12:piece lengthi1e6:pieces0:7:privatei1ee";
    let expected = sha1::Sha1::digest(info).to_vec();
    assert_eq!(info_hash_of(&v), Some(expected.clone()));
    let torrent = Torrent::from_value(&v).unwrap();
    assert_ne!(torrent.info_hash(), expected);
    let (plain, _) = decode_bencoded_value(&data()).unwrap();
    assert_eq!(
        info_hash_hex_of(&plain),
        Some("c146fae5023f82444f72e7fbe429b7c7f841be0d".to_string())
    );
    assert_eq!(info_hash_of(&Value::Int(1)), None);
}

#[test]
fn projection_errors_name_the_field() {
    let cases: [(&[u8], &str); 9] = [
        (b"le", "torrent metadata must be a bencoded dictionary."),
        (b"d4:infod6:lengthi0e4:name1:x12:piece lengthi1e6:pieces0:ee", "missing or invalid `announce` field."),
        (b"d8:announce1:u4:infoi1ee", "missing or invalid `info` dictionary."),
        (b"d8:announce1:u4:infod4:name1:x12:piece lengthi1e6:pieces0:ee", "missing or invalid `length` field."),
        (b"d8:announce1:u4:infod6:lengthi0e4:namei1e12:piece lengthi1e6:pieces0:ee", "missing or invalid `name` field."),
        (b"d8:announce1:u4:infod6:lengthi0e4:name1:x6:pieces0:ee", "missing or invalid `piece length` field."),
        (b"d8:announce1:u4:infod6:lengthi-1e4:name1:x12:piece lengthi1e6:pieces0:ee", "the `length` field must not be negative."),
        (b"d8:announce1:u4:infod6:lengthi0e4:name1:x12:piece lengthi0e6:pieces0:ee", "the `piece length` field must be positive."),
        (b"d8:announce1:u4:infod6:lengthi0e4:name1:x12:piece lengthi1e6:pieces3:abcee", "the `pieces` field must be a whole number of 20-byte digests."),
    ];
    for (input, msg) in cases {
        let (v, _) = decode_bencoded_value(input).unwrap();
        assert_eq!(Torrent::from_value(&v), Err(BencodeError::DataFormat(msg.to_string())));
    }
    let (v, _) = decode_bencoded_value(b"d8:announce1:u4:infod6:lengthi0e4:name1:x12:piece lengthi1eee").unwrap();
    assert_eq!(
        Torrent::from_value(&v),
        Err(BencodeError::DataFormat("missing or invalid `pieces` field.".to_string()))
    );
}

#[test]
fn info_hash_is_sha1_of_info_slice_of_input() {
    let input = data();
    let (v, _) = decode_bencoded_value(&input).unwrap();
    let key = b"4:info";
    let start = input.windows(key.len()).position(|w| w == key).unwrap() + key.len();
    let slice = &input[start..input.len() - 1];
    assert_eq!(slice, &sample_info_bytes()[..]);
    assert_eq!(info_hash_of(&v), Some(sha1::Sha1::digest(slice).to_vec()));
}
