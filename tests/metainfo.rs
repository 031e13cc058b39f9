use bendy::encoding::{AsString, Error as EncodeError, SingleItemEncoder, ToBencode};
use torrent_client::bencode::{Bencode, DecodeError, Field, File, Files, Info};
use torrent_client::value::{parse_value, Value};

fn bstr(b: &[u8]) -> Vec<u8> {
    let mut out = format!("{}:", b.len()).into_bytes();
    out.extend_from_slice(b);
    out
}

fn bint(n: u64) -> Vec<u8> {
    format!("i{}e", n).into_bytes()
}

fn dict(pairs: &[(&str, Vec<u8>)]) -> Vec<u8> {
    let mut out = vec![b'd'];
    for (k, v) in pairs {
        out.extend(bstr(k.as_bytes()));
        out.extend_from_slice(v);
    }
    out.push(b'e');
    out
}

fn list(items: &[Vec<u8>]) -> Vec<u8> {
    let mut out = vec![b'l'];
    for item in items {
        out.extend_from_slice(item);
    }
    out.push(b'e');
    out
}

fn torrent(announce: &str, info: Vec<u8>) -> Vec<u8> {
    dict(&[("announce", bstr(announce.as_bytes())), ("info", info)])
}

fn pattern(n: usize) -> Vec<u8> {
    (0..n).map(|k| (k % 251) as u8).collect()
}

const PENGUIN_LENGTHS: [u64; 8] = [
    3698684676, 3187627216, 3327956522, 3229360143, 2984092968, 2739121133, 2619972834,
    3518076714,
];

fn penguin_name(k: usize) -> String {
    format!("The.Penguin.S01E0{}.WEBDL.720p.RGzsRutracker.mkv", k + 1)
}

fn penguin_info_bytes() -> Vec<u8> {
    let files: Vec<Vec<u8>> = (0..8)
        .map(|k| {
            dict(&[
                ("length", bint(PENGUIN_LENGTHS[k])),
                ("path", list(&[bstr(penguin_name(k).as_bytes())])),
            ])
        })
        .collect();
    dict(&[
        ("files", list(&files)),
        ("name", bstr(b"The.Penguin.S01.WEBDL.720p")),
        ("piece length", bint(8388608)),
        ("pieces", bstr(&pattern(60340))),
    ])
}

fn sample_info_bytes() -> Vec<u8> {
    dict(&[
        ("length", bint(92063)),
        ("name", bstr(b"sample.txt")),
        ("piece length", bint(32768)),
        ("pieces", bstr(&pattern(60))),
    ])
}

fn small_info(extra: &[(&str, Vec<u8>)]) -> Vec<u8> {
    let mut pairs: Vec<(&str, Vec<u8>)> = vec![
        ("length", bint(1)),
        ("name", bstr(b"a")),
        ("piece length", bint(1)),
        ("pieces", bstr(b"")),
    ];
    pairs.extend(extra.iter().cloned());
    dict(&pairs)
}

#[test]
fn test_penguin_torrent() {
    let content = torrent("http://bt2.t-ru.org/ann", penguin_info_bytes());
    let parsed = Bencode::build(&content).unwrap();
    let expected_files = Files::Multiple(
        (0..8)
            .map(|k| File { length: PENGUIN_LENGTHS[k], path: vec![penguin_name(k)] })
            .collect(),
    );
    assert_eq!(parsed.announce, "http://bt2.t-ru.org/ann");
    assert_eq!(parsed.info.name, "The.Penguin.S01.WEBDL.720p");
    assert_eq!(parsed.info.piece_length, 8388608);
    assert_eq!(parsed.info.files, expected_files);
    assert_eq!(parsed.info.pieces.len(), 60340);
}

#[test]
fn test_inception_torrent() {
    let info = dict(&[
        ("length", bint(40580383319)),
        ("name", bstr(b"Inception.2010.2160p.UHD.BDRip.HDR.x265.DD+5.1-VoX.mkv")),
        ("piece length", bint(8388608)),
        ("pieces", bstr(&pattern(96760))),
    ]);
    let parsed = Bencode::build(&torrent("http://bt2.t-ru.org/ann", info)).unwrap();
    assert_eq!(parsed.announce, "http://bt2.t-ru.org/ann");
    assert_eq!(parsed.info.files, Files::Single(40580383319));
    assert_eq!(parsed.info.name, "Inception.2010.2160p.UHD.BDRip.HDR.x265.DD+5.1-VoX.mkv");
    assert_eq!(parsed.info.piece_length, 8388608);
    assert_eq!(parsed.info.pieces.len(), 96760);
}

#[test]
fn test_sample_torrent() {
    let content = torrent(
        "http://bittorrent-test-tracker.codecrafters.io/announce",
        sample_info_bytes(),
    );
    let parsed = Bencode::build(&content).unwrap();
    assert_eq!(parsed.announce, "http://bittorrent-test-tracker.codecrafters.io/announce");
    assert_eq!(parsed.info.files, Files::Single(92063));
    assert_eq!(parsed.info.name, "sample.txt");
    assert_eq!(parsed.info.piece_length, 32768);
    assert_eq!(parsed.info.pieces.len(), 60);
}

#[test]
fn info_hash_matches_known_digests() {
    let table = vec![
        (sample_info_bytes(), "f519c3a24144a8649e58efc3e359b51a386054d6"),
        (penguin_info_bytes(), "c54a4d2e5d489c15ad0a686d5cee72e925ec4b7e"),
        (small_info(&[]), "cfeccd0345067a0b89dc46ea72186a2cae439ae5"),
    ];
    for (info, expected) in table {
        let parsed = Bencode::build(&torrent("http://t/a", info)).unwrap();
        let hash = parsed.info_hash();
        assert_eq!(hash, expected);
        assert_eq!(hash.len(), 40);
        assert_eq!(parsed.info_hash(), hash);
    }
}

#[test]
fn encode_reproduces_canonical_info() {
    for info in [sample_info_bytes(), penguin_info_bytes(), small_info(&[])] {
        let decoded = Info::decode(&info).unwrap();
        assert_eq!(decoded.encode(), info);
    }
}

#[test]
fn encode_sorts_keys_and_drops_unknown_ones() {
    let shuffled = dict(&[
        ("pieces", bstr(b"")),
        ("zzz", list(&[bint(5), bstr(b"x")])),
        ("piece length", bint(1)),
        ("name", bstr(b"a")),
        ("length", bint(1)),
    ]);
    let decoded = Info::decode(&shuffled).unwrap();
    assert_eq!(decoded.encode(), small_info(&[]));
}

#[test]
fn round_trip_through_encode() {
    for info in [sample_info_bytes(), penguin_info_bytes()] {
        let first = Info::decode(&info).unwrap();
        let second = Info::decode(&first.encode()).unwrap();
        assert_eq!(first, second);
    }
}

#[test]
fn files_win_over_length() {
    let file = dict(&[("length", bint(7)), ("path", list(&[bstr(b"d"), bstr(b"f")]))]);
    let info = small_info(&[("files", list(&[file]))]);
    let decoded = Info::decode(&info).unwrap();
    assert_eq!(
        decoded.files,
        Files::Multiple(vec![File { length: 7, path: vec!["d".to_string(), "f".to_string()] }])
    );
}

#[test]
fn empty_files_list_falls_back_to_length() {
    let info = small_info(&[("files", list(&[]))]);
    assert_eq!(Info::decode(&info).unwrap().files, Files::Single(1));
}

#[test]
fn missing_required_fields() {
    let cases = [
        ("name", Field::Name),
        ("piece length", Field::PieceLength),
        ("pieces", Field::Pieces),
        ("length", Field::Length),
    ];
    for (skip, field) in cases {
        let pairs: Vec<(&str, Vec<u8>)> = vec![
            ("length", bint(1)),
            ("name", bstr(b"a")),
            ("piece length", bint(1)),
            ("pieces", bstr(b"")),
        ]
        .into_iter()
        .filter(|(k, _)| *k != skip)
        .collect();
        assert_eq!(Info::decode(&dict(&pairs)), Err(DecodeError::MissingField(field)));
    }
}

#[test]
fn missing_top_level_fields() {
    let only_info = dict(&[("info", small_info(&[]))]);
    assert_eq!(Bencode::build(&only_info), Err(DecodeError::MissingField(Field::Announce)));
    let only_announce = dict(&[("announce", bstr(b"x"))]);
    assert_eq!(Bencode::build(&only_announce), Err(DecodeError::MissingField(Field::Info)));
}

#[test]
fn missing_file_fields() {
    let no_path = dict(&[("length", bint(7))]);
    let info = small_info(&[("files", list(&[no_path]))]);
    assert_eq!(Info::decode(&info), Err(DecodeError::MissingField(Field::Path)));
    let no_length = dict(&[("path", list(&[bstr(b"f")]))]);
    let info = small_info(&[("files", list(&[no_length]))]);
    assert_eq!(Info::decode(&info), Err(DecodeError::MissingField(Field::Length)));
}

#[test]
fn malformed_input() {
    let cases: Vec<Vec<u8>> = vec![
        b"".to_vec(),
        b"x".to_vec(),
        b"d".to_vec(),
        b"i12".to_vec(),
        b"i012e".to_vec(),
        b"i-0e".to_vec(),
        b"ie".to_vec(),
        b"5:abc".to_vec(),
        b"03:abc".to_vec(),
        b"di1ei2ee".to_vec(),
        b"l".to_vec(),
        b"99999999999999999999999:x".to_vec(),
    ];
    for case in cases {
        assert_eq!(Bencode::build(&case), Err(DecodeError::Malformed));
    }
    let mut trailing = small_info(&[]);
    trailing.push(b'x');
    assert_eq!(Info::decode(&trailing), Err(DecodeError::Malformed));
}

#[test]
fn invalid_values() {
    let bad_pieces = dict(&[
        ("length", bint(1)),
        ("name", bstr(b"a")),
        ("piece length", bint(1)),
        ("pieces", bstr(b"abc")),
    ]);
    assert_eq!(Info::decode(&bad_pieces), Err(DecodeError::InvalidValue));
    let zero_piece_length = dict(&[
        ("length", bint(1)),
        ("name", bstr(b"a")),
        ("piece length", bint(0)),
        ("pieces", bstr(b"")),
    ]);
    assert_eq!(Info::decode(&zero_piece_length), Err(DecodeError::InvalidValue));
    let too_big = dict(&[
        ("length", b"i18446744073709551616e".to_vec()),
        ("name", bstr(b"a")),
        ("piece length", bint(1)),
        ("pieces", bstr(b"")),
    ]);
    assert_eq!(Info::decode(&too_big), Err(DecodeError::InvalidValue));
    let negative = dict(&[
        ("length", b"i-3e".to_vec()),
        ("name", bstr(b"a")),
        ("piece length", bint(1)),
        ("pieces", bstr(b"")),
    ]);
    assert_eq!(Info::decode(&negative), Err(DecodeError::InvalidValue));
    let not_utf8 = dict(&[
        ("length", bint(1)),
        ("name", bstr(&[0xff, 0xfe])),
        ("piece length", bint(1)),
        ("pieces", bstr(b"")),
    ]);
    assert_eq!(Info::decode(&not_utf8), Err(DecodeError::InvalidValue));
    let name_is_int = dict(&[
        ("length", bint(1)),
        ("name", bint(4)),
        ("piece length", bint(1)),
        ("pieces", bstr(b"")),
    ]);
    assert_eq!(Info::decode(&name_is_int), Err(DecodeError::InvalidValue));
}

#[test]
fn largest_integer_fits() {
    let info = dict(&[
        ("length", bint(u64::MAX)),
        ("name", bstr(b"a")),
        ("piece length", bint(1)),
        ("pieces", bstr(b"")),
    ]);
    let decoded = Info::decode(&info).unwrap();
    assert_eq!(decoded.files, Files::Single(u64::MAX));
    assert_eq!(decoded.encode(), info);
}

#[test]
fn unicode_text_round_trips() {
    let info = dict(&[
        ("length", bint(0)),
        ("name", bstr("Übung ✓.txt".as_bytes())),
        ("piece length", bint(16384)),
        ("pieces", bstr(&[7u8; 40])),
    ]);
    let decoded = Info::decode(&info).unwrap();
    assert_eq!(decoded.name, "Übung ✓.txt");
    assert_eq!(decoded.encode(), info);
}

struct BendyFile<'a>(&'a File);

struct BendyInfo<'a>(&'a Info);

impl ToBencode for BendyFile<'_> {
    const MAX_DEPTH: usize = 2;

    fn encode(&self, encoder: SingleItemEncoder) -> Result<(), EncodeError> {
        encoder.emit_dict(|mut e| {
            e.emit_pair(b"length", self.0.length)?;
            e.emit_pair(b"path", &self.0.path)?;
            Ok(())
        })
    }
}

impl ToBencode for BendyInfo<'_> {
    const MAX_DEPTH: usize = 5;

    fn encode(&self, encoder: SingleItemEncoder) -> Result<(), EncodeError> {
        encoder.emit_dict(|mut e| {
            match &self.0.files {
                Files::Single(length) => e.emit_pair(b"length", length)?,
                Files::Multiple(files) => {
                    let wrapped: Vec<BendyFile> = files.iter().map(BendyFile).collect();
                    e.emit_pair(b"files", &wrapped)?
                }
            }
            e.emit_pair(b"name", &self.0.name)?;
            e.emit_pair(b"piece length", self.0.piece_length)?;
            e.emit_pair(b"pieces", AsString(&self.0.pieces))?;
            Ok(())
        })
    }
}

#[test]
fn encode_agrees_with_bendy() {
    for info in [sample_info_bytes(), penguin_info_bytes()] {
        let decoded = Info::decode(&info).unwrap();
        let theirs = BendyInfo(&decoded).to_bencode().unwrap();
        assert_eq!(decoded.encode(), theirs);
    }
}

#[test]
fn parse_value_reads_one_value() {
    let input = b"li42e3:abcd1:ki-7eee";
    let (v, end) = parse_value(input, 0).unwrap();
    assert_eq!(end, input.len());
    match v {
        Value::List(items) => {
            assert_eq!(items.len(), 3);
            assert!(matches!(&items[0], Value::Int(t) if t.as_slice() == b"42"));
            assert!(matches!(&items[1], Value::Bytes(b) if b.as_slice() == b"abc"));
            assert!(matches!(&items[2], Value::Dict(pairs) if pairs.len() == 1));
        }
        _ => panic!("expected a list"),
    }
    assert_eq!(parse_value(b"xi1e", 1).map(|(_, end)| end), Some(4));
    assert!(parse_value(b"i1", 0).is_none());
    assert!(parse_value(b"d1:ae", 0).is_none());
    assert!(parse_value(b"di1ei1ee", 0).is_none());
}
