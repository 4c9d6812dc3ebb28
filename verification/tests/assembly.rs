use hermes::bencoding::Value;
use hermes::client::Client;
use hermes::piece::Piece;
use hermes::piece::BLOCK_SIZE;
use hermes::torrent::NewTorrentFromFileError;
use hermes::torrent::Torrent;

fn bs(s: &str) -> Value {
    Value::ByteString(s.as_bytes().to_vec())
}

fn entry(key: &str, value: Value) -> (String, Value) {
    (key.to_string(), value)
}

fn file_entry(segments: &[&str], length: i64) -> Value {
    Value::Dictionary(vec![
        entry(
            "path",
            Value::List(segments.iter().map(|s| bs(s)).collect()),
        ),
        entry("length", Value::Integer(length)),
    ])
}

/// A well-formed single-file metainfo: `name = "a.txt"`,
/// `length = 16384`, `piece length = 16384`, one 20-byte digest.
fn single_file_metainfo() -> Vec<(String, Value)> {
    vec![
        entry("announce", bs("http://tracker.example/announce")),
        entry(
            "info",
            Value::Dictionary(vec![
                entry("name", bs("a.txt")),
                entry("length", Value::Integer(16384)),
                entry("piece length", Value::Integer(16384)),
                entry("pieces", Value::ByteString(vec![0x11; 20])),
            ]),
        ),
    ]
}

/// A well-formed multi-file metainfo with file sizes [10, 20, 5] and
/// `piece length = 16`, so three pieces cover the 35 bytes.
fn multi_file_metainfo() -> Vec<(String, Value)> {
    let mut pieces = vec![b'a'; 20];
    pieces.extend_from_slice(&[b'b'; 20]);
    pieces.extend_from_slice(&[b'c'; 20]);
    vec![
        entry("announce", bs("udp://tracker.example:6969")),
        entry(
            "info",
            Value::Dictionary(vec![
                entry(
                    "files",
                    Value::List(vec![
                        file_entry(&["x"], 10),
                        file_entry(&["sub", "y"], 20),
                        file_entry(&["z"], 5),
                    ]),
                ),
                entry("piece length", Value::Integer(16)),
                entry("pieces", Value::ByteString(pieces)),
            ]),
        ),
    ]
}

#[test]
fn assembles_single_file_metainfo() {
    let t = Torrent::bencoding_to_torrent(single_file_metainfo()).unwrap();
    assert_eq!(t.trackers.len(), 1);
    assert_eq!(t.trackers[0].address, "http://tracker.example/announce");
    assert_eq!(t.files.len(), 1);
    assert_eq!(t.files[0].path, "a.txt");
    assert_eq!(t.files[0].offset, 0);
    assert_eq!(t.files[0].size, 16384);
    assert_eq!(t.piece_length, 16384);
    assert_eq!(t.pieces.len(), 1);
    assert_eq!(t.pieces[0].size, 16384);
    assert_eq!(t.pieces[0].hash, vec![0x11; 20]);
    assert!(!t.pieces[0].verified);
    assert_eq!(t.pieces[0].blocks.len(), 1);
    assert_eq!(t.pieces[0].blocks[0].size, 16384);
    assert!(!t.pieces[0].blocks[0].acquired);
}

#[test]
fn multi_file_offsets_are_running_sums() {
    let t = Torrent::bencoding_to_torrent(multi_file_metainfo()).unwrap();
    assert_eq!(t.files.len(), 3);
    let offsets: Vec<i64> = t.files.iter().map(|f| f.offset).collect();
    assert_eq!(offsets, vec![0, 10, 30]);
    let total: i64 = t.files.iter().map(|f| f.size).sum();
    assert_eq!(total, 35);
}

#[test]
fn multi_file_paths_join_their_segments() {
    let t = Torrent::bencoding_to_torrent(multi_file_metainfo()).unwrap();
    assert_eq!(t.files[0].path, "x");
    assert_eq!(t.files[1].path, "suby");
    assert_eq!(t.files[2].path, "z");
}

#[test]
fn piece_count_rounds_up_and_last_piece_covers_remainder() {
    // total 35, piece length 16: ceil(35 / 16) = 3 pieces, last of 3 bytes.
    let t = Torrent::bencoding_to_torrent(multi_file_metainfo()).unwrap();
    assert_eq!(t.pieces.len(), 3);
    assert_eq!(t.pieces[0].size, 16);
    assert_eq!(t.pieces[1].size, 16);
    assert_eq!(t.pieces[2].size, 3);
    assert_eq!(t.pieces[0].hash, vec![b'a'; 20]);
    assert_eq!(t.pieces[1].hash, vec![b'b'; 20]);
    assert_eq!(t.pieces[2].hash, vec![b'c'; 20]);
}

#[test]
fn missing_announce_is_reported_by_name() {
    let mut data = single_file_metainfo();
    data.retain(|(k, _)| k != "announce");
    let e = Torrent::bencoding_to_torrent(data).unwrap_err();
    assert_eq!(e.field, "announce");
}

#[test]
fn announce_of_wrong_kind_is_reported_by_name() {
    let mut data = single_file_metainfo();
    data[0] = entry("announce", Value::Integer(3));
    let e = Torrent::bencoding_to_torrent(data).unwrap_err();
    assert_eq!(e.field, "announce");
}

#[test]
fn absent_private_flag_means_public() {
    let t = Torrent::bencoding_to_torrent(single_file_metainfo()).unwrap();
    assert!(!t.is_private);
}

fn with_info_field(mut data: Vec<(String, Value)>, key: &str, value: Value) -> Vec<(String, Value)> {
    match &mut data[1].1 {
        Value::Dictionary(info) => info.push((key.to_string(), value)),
        _ => unreachable!(),
    }
    data
}

#[test]
fn present_private_flag_means_private() {
    let data = with_info_field(single_file_metainfo(), "private", Value::Integer(1));
    let t = Torrent::bencoding_to_torrent(data).unwrap();
    assert!(t.is_private);
}

#[test]
fn zero_private_flag_means_public() {
    let data = with_info_field(single_file_metainfo(), "private", Value::Integer(0));
    let t = Torrent::bencoding_to_torrent(data).unwrap();
    assert!(!t.is_private);
}

#[test]
fn malformed_private_flag_means_public() {
    let data = with_info_field(single_file_metainfo(), "private", bs("yes"));
    let t = Torrent::bencoding_to_torrent(data).unwrap();
    assert!(!t.is_private);
}

#[test]
fn optional_text_fields_default_to_empty() {
    let t = Torrent::bencoding_to_torrent(single_file_metainfo()).unwrap();
    assert_eq!(t.comment, "");
    assert_eq!(t.created_by, "");
    assert_eq!(t.encoding, "");
}

#[test]
fn optional_text_fields_are_kept() {
    let mut data = single_file_metainfo();
    data.push(entry("comment", bs("a comment")));
    data.push(entry("created by", bs("someone")));
    data.push(entry("encoding", bs("UTF-8")));
    let t = Torrent::bencoding_to_torrent(data).unwrap();
    assert_eq!(t.comment, "a comment");
    assert_eq!(t.created_by, "someone");
    assert_eq!(t.encoding, "UTF-8");
}

#[test]
fn malformed_optional_text_field_defaults_to_empty() {
    let mut data = single_file_metainfo();
    data.push(entry("comment", Value::Integer(9)));
    let t = Torrent::bencoding_to_torrent(data).unwrap();
    assert_eq!(t.comment, "");
}

#[test]
fn missing_info_is_reported_by_name() {
    let data = vec![entry("announce", bs("http://t"))];
    let e = Torrent::bencoding_to_torrent(data).unwrap_err();
    assert_eq!(e.field, "info");
}

#[test]
fn missing_name_is_reported_by_name() {
    let data = vec![
        entry("announce", bs("http://t")),
        entry(
            "info",
            Value::Dictionary(vec![
                entry("length", Value::Integer(1)),
                entry("piece length", Value::Integer(1)),
                entry("pieces", Value::ByteString(vec![0; 20])),
            ]),
        ),
    ];
    let e = Torrent::bencoding_to_torrent(data).unwrap_err();
    assert_eq!(e.field, "name");
}

#[test]
fn missing_length_is_reported_by_name() {
    let data = vec![
        entry("announce", bs("http://t")),
        entry(
            "info",
            Value::Dictionary(vec![
                entry("name", bs("a")),
                entry("piece length", Value::Integer(1)),
                entry("pieces", Value::ByteString(vec![0; 20])),
            ]),
        ),
    ];
    let e = Torrent::bencoding_to_torrent(data).unwrap_err();
    assert_eq!(e.field, "length");
}

#[test]
fn negative_length_is_reported_by_name() {
    let data = vec![
        entry("announce", bs("http://t")),
        entry(
            "info",
            Value::Dictionary(vec![
                entry("name", bs("a")),
                entry("length", Value::Integer(-1)),
                entry("piece length", Value::Integer(1)),
                entry("pieces", Value::ByteString(vec![0; 20])),
            ]),
        ),
    ];
    let e = Torrent::bencoding_to_torrent(data).unwrap_err();
    assert_eq!(e.field, "length");
}

#[test]
fn missing_piece_length_is_reported_by_name() {
    let data = vec![
        entry("announce", bs("http://t")),
        entry(
            "info",
            Value::Dictionary(vec![
                entry("name", bs("a")),
                entry("length", Value::Integer(1)),
                entry("pieces", Value::ByteString(vec![0; 20])),
            ]),
        ),
    ];
    let e = Torrent::bencoding_to_torrent(data).unwrap_err();
    assert_eq!(e.field, "piece length");
}

#[test]
fn non_positive_piece_length_is_reported_by_name() {
    let data = vec![
        entry("announce", bs("http://t")),
        entry(
            "info",
            Value::Dictionary(vec![
                entry("name", bs("a")),
                entry("length", Value::Integer(1)),
                entry("piece length", Value::Integer(0)),
                entry("pieces", Value::ByteString(vec![0; 20])),
            ]),
        ),
    ];
    let e = Torrent::bencoding_to_torrent(data).unwrap_err();
    assert_eq!(e.field, "piece length");
}

#[test]
fn missing_pieces_is_reported_by_name() {
    let data = vec![
        entry("announce", bs("http://t")),
        entry(
            "info",
            Value::Dictionary(vec![
                entry("name", bs("a")),
                entry("length", Value::Integer(1)),
                entry("piece length", Value::Integer(1)),
            ]),
        ),
    ];
    let e = Torrent::bencoding_to_torrent(data).unwrap_err();
    assert_eq!(e.field, "pieces");
}

#[test]
fn pieces_of_wrong_length_are_reported_by_name() {
    // One piece is owed, so the digest string must hold exactly 20 bytes.
    let data = vec![
        entry("announce", bs("http://t")),
        entry(
            "info",
            Value::Dictionary(vec![
                entry("name", bs("a")),
                entry("length", Value::Integer(1)),
                entry("piece length", Value::Integer(1)),
                entry("pieces", Value::ByteString(vec![0; 19])),
            ]),
        ),
    ];
    let e = Torrent::bencoding_to_torrent(data).unwrap_err();
    assert_eq!(e.field, "pieces");
}

#[test]
fn non_dictionary_file_entries_are_skipped() {
    let mut pieces = vec![b'a'; 20];
    pieces.extend_from_slice(&[b'b'; 20]);
    let data = vec![
        entry("announce", bs("http://t")),
        entry(
            "info",
            Value::Dictionary(vec![
                entry(
                    "files",
                    Value::List(vec![
                        Value::Integer(7),
                        file_entry(&["only"], 17),
                    ]),
                ),
                entry("piece length", Value::Integer(16)),
                entry("pieces", Value::ByteString(pieces)),
            ]),
        ),
    ];
    let t = Torrent::bencoding_to_torrent(data).unwrap();
    assert_eq!(t.files.len(), 1);
    assert_eq!(t.files[0].path, "only");
    assert_eq!(t.pieces.len(), 2);
    assert_eq!(t.pieces[1].size, 1);
}

#[test]
fn file_entry_without_path_is_reported_by_name() {
    let data = vec![
        entry("announce", bs("http://t")),
        entry(
            "info",
            Value::Dictionary(vec![
                entry(
                    "files",
                    Value::List(vec![Value::Dictionary(vec![entry(
                        "length",
                        Value::Integer(1),
                    )])]),
                ),
                entry("piece length", Value::Integer(1)),
                entry("pieces", Value::ByteString(vec![0; 20])),
            ]),
        ),
    ];
    let e = Torrent::bencoding_to_torrent(data).unwrap_err();
    assert_eq!(e.field, "path");
}

#[test]
fn file_entry_without_length_is_reported_by_name() {
    let data = vec![
        entry("announce", bs("http://t")),
        entry(
            "info",
            Value::Dictionary(vec![
                entry(
                    "files",
                    Value::List(vec![Value::Dictionary(vec![entry(
                        "path",
                        Value::List(vec![bs("x")]),
                    )])]),
                ),
                entry("piece length", Value::Integer(1)),
                entry("pieces", Value::ByteString(vec![0; 20])),
            ]),
        ),
    ];
    let e = Torrent::bencoding_to_torrent(data).unwrap_err();
    assert_eq!(e.field, "length");
}

#[test]
fn overflowing_total_size_is_reported_by_name() {
    // The sizes are each representable, but their sum is not.
    let data = vec![
        entry("announce", bs("http://t")),
        entry(
            "info",
            Value::Dictionary(vec![
                entry(
                    "files",
                    Value::List(vec![
                        file_entry(&["a"], i64::MAX),
                        file_entry(&["b"], 1),
                    ]),
                ),
                entry("piece length", Value::Integer(16)),
                entry("pieces", Value::ByteString(vec![0; 20])),
            ]),
        ),
    ];
    let e = Torrent::bencoding_to_torrent(data).unwrap_err();
    assert_eq!(e.field, "length");
}

#[test]
fn empty_content_yields_no_pieces() {
    let data = vec![
        entry("announce", bs("http://t")),
        entry(
            "info",
            Value::Dictionary(vec![
                entry("name", bs("empty")),
                entry("length", Value::Integer(0)),
                entry("piece length", Value::Integer(4)),
                entry("pieces", Value::ByteString(Vec::new())),
            ]),
        ),
    ];
    let t = Torrent::bencoding_to_torrent(data).unwrap();
    assert_eq!(t.pieces.len(), 0);
    assert_eq!(t.files.len(), 1);
    assert_eq!(t.files[0].size, 0);
}

#[test]
fn duplicate_keys_take_the_last_binding() {
    let mut data = single_file_metainfo();
    data.push(entry("announce", bs("http://second.example")));
    let t = Torrent::bencoding_to_torrent(data).unwrap();
    assert_eq!(t.trackers[0].address, "http://second.example");
}

#[test]
fn piece_splits_into_blocks() {
    let p = Piece::new(BLOCK_SIZE + 1, vec![0; 20]);
    assert_eq!(p.blocks.len(), 2);
    assert_eq!(p.blocks[0].size, BLOCK_SIZE);
    assert_eq!(p.blocks[1].size, 1);
    assert!(!p.verified);

    let p = Piece::new(2 * BLOCK_SIZE, vec![0; 20]);
    assert_eq!(p.blocks.len(), 2);
    assert_eq!(p.blocks[1].size, BLOCK_SIZE);

    let p = Piece::new(0, vec![0; 20]);
    assert_eq!(p.blocks.len(), 0);
}

#[test]
fn torrent_from_bencoded_bytes() {
    let data =
        b"d8:announce9:localhost4:infod6:lengthi5e4:name4:a.gz12:piece lengthi5e6:pieces20:AAAAAAAAAAAAAAAAAAAAee"
            .to_vec();
    let t = Torrent::from_bencoded(data).unwrap();
    assert_eq!(t.trackers[0].address, "localhost");
    assert_eq!(t.files[0].path, "a.gz");
    assert_eq!(t.files[0].size, 5);
    assert_eq!(t.pieces.len(), 1);
    assert_eq!(t.pieces[0].size, 5);
    assert_eq!(t.pieces[0].hash, vec![b'A'; 20]);
}

#[test]
fn from_bencoded_reports_decode_errors() {
    let e = Torrent::from_bencoded(b"not bencoding".to_vec()).unwrap_err();
    assert!(matches!(e, NewTorrentFromFileError::Decode(_)));
}

#[test]
fn from_bencoded_reports_missing_fields() {
    let e = Torrent::from_bencoded(b"d4:infodee".to_vec()).unwrap_err();
    match e {
        NewTorrentFromFileError::MissingField(e) => assert_eq!(e.field, "announce"),
        _ => panic!("expected a missing-field error"),
    }
}

#[test]
fn client_registers_torrents_in_order() {
    let mut client = Client::new();
    assert_eq!(client.torrents.len(), 0);
    let data =
        b"d8:announce9:localhost4:infod6:lengthi5e4:name4:a.gz12:piece lengthi5e6:pieces20:AAAAAAAAAAAAAAAAAAAAee"
            .to_vec();
    client.add_torrent(data).unwrap();
    assert_eq!(client.torrents.len(), 1);
    assert_eq!(client.torrents[0].files[0].path, "a.gz");
}

#[test]
fn client_keeps_its_state_on_failure() {
    let mut client = Client::new();
    assert!(client.add_torrent(b"garbage".to_vec()).is_err());
    assert_eq!(client.torrents.len(), 0);
}
