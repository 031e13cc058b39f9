//! BitTorrent metainfo: decoding from bencode, the canonical encoding of the
//! `info` dictionary, and the info hash derived from it.
use crate::digest::{hex_encode, hex_of, lemma_hex_of_len, sha1_digest, sha1_of, text_from_utf8};
use crate::value::{
    check_digits, dict_bytes, digits_num, digits_ok, holds_value, is_digit, lemma_bytes_prefix,
    lemma_dict_end, lemma_dict_first, lemma_digits_num_prefix, lemma_digits_num_push,
    lemma_holds_value_at, lemma_int_prefix, lemma_list_end, lemma_list_first, lemma_nat_text,
    lemma_prefix_free, lemma_str_bytes_head_digit, lemma_value_at_of_holds, lemma_value_first_byte,
    lemma_same_bytes_same_shape, list_bytes, value_at, nat_text, parse_value, same_items, same_pairs, str_bytes, value_bytes, well_formed, Value, BYTE_COLON,
    BYTE_D, BYTE_E, BYTE_I, BYTE_L, BYTE_ZERO,
};
use vstd::prelude::*;
use vstd::utf8::*;

verus! {

/// The dictionary keys that the decoder reads.
#[derive(Debug, Clone, Copy, PartialEq, Eq, Structural)]
pub enum Field {
    Announce,
    Info,
    Name,
    PieceLength,
    Pieces,
    Length,
    Path,
    Files,
}

/// Why decoding failed.
#[derive(Debug, Clone, Copy, PartialEq, Eq, Structural)]
pub enum DecodeError {
    /// The bytes break the bencode grammar.
    Malformed,
    /// A required key is absent from its dictionary.
    MissingField(Field),
    /// A value has the wrong kind, does not fit, is not UTF-8 where text is
    /// required, or breaks a rule of the metainfo format.
    InvalidValue,
}

/// One file of a multi-file torrent.
#[derive(Debug, PartialEq)]
pub struct File {
    pub length: u64,
    pub path: Vec<String>,
}

/// The file layout: one file of a given length, or a list of files.
#[derive(Debug, PartialEq)]
pub enum Files {
    Single(u64),
    Multiple(Vec<File>),
}

/// The `info` dictionary of a torrent.
#[derive(Debug, PartialEq)]
pub struct Info {
    pub name: String,
    pub piece_length: u64,
    pub files: Files,
    pub pieces: Vec<u8>,
}

/// A decoded metainfo file: the tracker URL and the `info` record.
#[derive(Debug, PartialEq)]
pub struct Bencode {
    pub announce: String,
    pub info: Info,
}

/// A file entry as a mathematical value: path segments as text.
pub struct FileView {
    pub length: u64,
    pub path: Seq<Seq<char>>,
}

/// The file layout as a mathematical value.
pub enum FilesView {
    Single(u64),
    Multiple(Seq<FileView>),
}

/// An `info` record as a mathematical value.
pub struct InfoView {
    pub name: Seq<char>,
    pub piece_length: u64,
    pub files: FilesView,
    pub pieces: Seq<u8>,
}

/// A metainfo record as a mathematical value.
pub struct BencodeView {
    pub announce: Seq<char>,
    pub info: InfoView,
}

impl View for File {
    type V = FileView;

    open spec fn view(&self) -> FileView {
        FileView { length: self.length, path: self.path@.map_values(|s: String| s@) }
    }
}

impl View for Files {
    type V = FilesView;

    open spec fn view(&self) -> FilesView {
        match self {
            Files::Single(n) => FilesView::Single(*n),
            Files::Multiple(fs) => FilesView::Multiple(fs@.map_values(|f: File| f@)),
        }
    }
}

impl View for Info {
    type V = InfoView;

    open spec fn view(&self) -> InfoView {
        InfoView {
            name: self.name@,
            piece_length: self.piece_length,
            files: self.files@,
            pieces: self.pieces@,
        }
    }
}

impl View for Bencode {
    type V = BencodeView;

    open spec fn view(&self) -> BencodeView {
        BencodeView { announce: self.announce@, info: self.info@ }
    }
}

/// The bytes of each key.
pub open spec fn key_bytes(k: Field) -> Seq<u8> {
    match k {
        Field::Announce => seq![0x61u8, 0x6e, 0x6e, 0x6f, 0x75, 0x6e, 0x63, 0x65],
        Field::Info => seq![0x69u8, 0x6e, 0x66, 0x6f],
        Field::Name => seq![0x6eu8, 0x61, 0x6d, 0x65],
        Field::PieceLength => seq![
            0x70u8,
            0x69,
            0x65,
            0x63,
            0x65,
            0x20,
            0x6c,
            0x65,
            0x6e,
            0x67,
            0x74,
            0x68,
        ],
        Field::Pieces => seq![0x70u8, 0x69, 0x65, 0x63, 0x65, 0x73],
        Field::Length => seq![0x6cu8, 0x65, 0x6e, 0x67, 0x74, 0x68],
        Field::Path => seq![0x70u8, 0x61, 0x74, 0x68],
        Field::Files => seq![0x66u8, 0x69, 0x6c, 0x65, 0x73],
    }
}

fn key(k: Field) -> (r: Vec<u8>)
    ensures
        r@ == key_bytes(k),
{
    let r = match k {
        Field::Announce => vec![0x61u8, 0x6e, 0x6e, 0x6f, 0x75, 0x6e, 0x63, 0x65],
        Field::Info => vec![0x69u8, 0x6e, 0x66, 0x6f],
        Field::Name => vec![0x6eu8, 0x61, 0x6d, 0x65],
        Field::PieceLength => vec![
            0x70u8,
            0x69,
            0x65,
            0x63,
            0x65,
            0x20,
            0x6c,
            0x65,
            0x6e,
            0x67,
            0x74,
            0x68,
        ],
        Field::Pieces => vec![0x70u8, 0x69, 0x65, 0x63, 0x65, 0x73],
        Field::Length => vec![0x6cu8, 0x65, 0x6e, 0x67, 0x74, 0x68],
        Field::Path => vec![0x70u8, 0x61, 0x74, 0x68],
        Field::Files => vec![0x66u8, 0x69, 0x6c, 0x65, 0x73],
    };
    assert(r@ =~= key_bytes(k));
    r
}

// ---------------------------------------------------------------------------
// From a value tree to metainfo records
// ---------------------------------------------------------------------------

/// The value of the first pair whose key is `key`.
pub open spec fn lookup(pairs: Seq<(Vec<u8>, Value)>, key: Seq<u8>) -> Option<Value>
    decreases pairs.len(),
{
    if pairs.len() == 0 {
        None
    } else if pairs[0].0@ == key {
        Some(pairs[0].1)
    } else {
        lookup(pairs.drop_first(), key)
    }
}

/// A non-negative integer that fits in 64 bits.
pub open spec fn u64_of(v: Value) -> Result<u64, DecodeError> {
    match v {
        Value::Int(t) => if digits_ok(t@) && digits_num(t@) <= u64::MAX {
            Ok(digits_num(t@) as u64)
        } else {
            Err(DecodeError::InvalidValue)
        },
        _ => Err(DecodeError::InvalidValue),
    }
}

/// A byte string that is valid UTF-8, as text.
pub open spec fn text_of(v: Value) -> Result<Seq<char>, DecodeError> {
    match v {
        Value::Bytes(b) => if valid_utf8(b@) {
            Ok(decode_utf8(b@))
        } else {
            Err(DecodeError::InvalidValue)
        },
        _ => Err(DecodeError::InvalidValue),
    }
}

/// A list of text segments.
pub open spec fn path_of(v: Value) -> Result<Seq<Seq<char>>, DecodeError> {
    match v {
        Value::List(items) => if forall|i: int|
            0 <= i < items@.len() ==> (#[trigger] text_of(items@[i])) is Ok {
            Ok(Seq::new(items@.len(), |i: int| text_of(items@[i])->Ok_0))
        } else {
            Err(DecodeError::InvalidValue)
        },
        _ => Err(DecodeError::InvalidValue),
    }
}

/// The concatenated piece digests: a byte string whose length is a multiple of 20.
pub open spec fn pieces_of(v: Value) -> Result<Seq<u8>, DecodeError> {
    match v {
        Value::Bytes(b) => if b@.len() % 20 == 0 {
            Ok(b@)
        } else {
            Err(DecodeError::InvalidValue)
        },
        _ => Err(DecodeError::InvalidValue),
    }
}

/// One entry of a `files` list: `length` and `path` must both be present.
pub open spec fn file_of(v: Value) -> Result<FileView, DecodeError> {
    match v {
        Value::Dict(pairs) => match (
            lookup(pairs@, key_bytes(Field::Length)),
            lookup(pairs@, key_bytes(Field::Path)),
        ) {
            (None, _) => Err(DecodeError::MissingField(Field::Length)),
            (_, None) => Err(DecodeError::MissingField(Field::Path)),
            (Some(l), Some(p)) => match u64_of(l) {
                Err(e) => Err(e),
                Ok(length) => match path_of(p) {
                    Err(e) => Err(e),
                    Ok(path) => Ok(FileView { length, path }),
                },
            },
        },
        _ => Err(DecodeError::InvalidValue),
    }
}

/// All entries of a `files` list, or the error of the first that fails.
pub open spec fn files_of(items: Seq<Value>) -> Result<Seq<FileView>, DecodeError>
    decreases items.len(),
{
    if items.len() == 0 {
        Ok(Seq::empty())
    } else {
        match file_of(items[0]) {
            Err(e) => Err(e),
            Ok(f) => match files_of(items.drop_first()) {
                Err(e) => Err(e),
                Ok(fs) => Ok(seq![f] + fs),
            },
        }
    }
}

/// The layout: a non-empty `files` list makes it `Multiple` (and wins over
/// `length`); otherwise `length` is required and makes it `Single`.
pub open spec fn layout_of(pairs: Seq<(Vec<u8>, Value)>) -> Result<FilesView, DecodeError> {
    match lookup(pairs, key_bytes(Field::Files)) {
        Some(Value::List(items)) if items@.len() > 0 => match files_of(items@) {
            Err(e) => Err(e),
            Ok(fs) => Ok(FilesView::Multiple(fs)),
        },
        Some(Value::List(_)) | None => match lookup(pairs, key_bytes(Field::Length)) {
            None => Err(DecodeError::MissingField(Field::Length)),
            Some(l) => match u64_of(l) {
                Err(e) => Err(e),
                Ok(n) => Ok(FilesView::Single(n)),
            },
        },
        Some(_) => Err(DecodeError::InvalidValue),
    }
}

/// The `info` record of an `info` dictionary. The required keys are checked
/// for presence first (`name`, `piece length`, `pieces`), then each value in
/// that order, then the layout. Unknown keys are ignored.
pub open spec fn info_of(v: Value) -> Result<InfoView, DecodeError> {
    match v {
        Value::Dict(pairs) => {
            let name = lookup(pairs@, key_bytes(Field::Name));
            let piece_length = lookup(pairs@, key_bytes(Field::PieceLength));
            let pieces = lookup(pairs@, key_bytes(Field::Pieces));
            if name is None {
                Err(DecodeError::MissingField(Field::Name))
            } else if piece_length is None {
                Err(DecodeError::MissingField(Field::PieceLength))
            } else if pieces is None {
                Err(DecodeError::MissingField(Field::Pieces))
            } else {
                match text_of(name->Some_0) {
                    Err(e) => Err(e),
                    Ok(name) => match u64_of(piece_length->Some_0) {
                        Err(e) => Err(e),
                        Ok(piece_length) => if piece_length == 0 {
                            Err(DecodeError::InvalidValue)
                        } else {
                            match pieces_of(pieces->Some_0) {
                                Err(e) => Err(e),
                                Ok(pieces) => match layout_of(pairs@) {
                                    Err(e) => Err(e),
                                    Ok(files) => Ok(InfoView { name, piece_length, files, pieces }),
                                },
                            }
                        },
                    },
                }
            }
        },
        _ => Err(DecodeError::InvalidValue),
    }
}

/// Decoding bytes as an `info` dictionary: `Malformed` when no well-formed
/// value fills them exactly, else the record of that value (every such value
/// gives the same one).
pub open spec fn info_from_bytes(s: Seq<u8>) -> Result<InfoView, DecodeError> {
    if exists|v: Value| holds_value(s, v) {
        info_of(choose|v: Value| holds_value(s, v))
    } else {
        Err(DecodeError::Malformed)
    }
}

/// Decoding bytes as a metainfo file: `Malformed` when no well-formed value
/// fills them exactly, else the record of that value.
pub open spec fn metainfo_from_bytes(s: Seq<u8>) -> Result<BencodeView, DecodeError> {
    if exists|v: Value| holds_value(s, v) {
        metainfo_of(choose|v: Value| holds_value(s, v))
    } else {
        Err(DecodeError::Malformed)
    }
}

/// The metainfo record of a top-level dictionary: `announce` then `info`.
pub open spec fn metainfo_of(v: Value) -> Result<BencodeView, DecodeError> {
    match v {
        Value::Dict(pairs) => match (
            lookup(pairs@, key_bytes(Field::Announce)),
            lookup(pairs@, key_bytes(Field::Info)),
        ) {
            (None, _) => Err(DecodeError::MissingField(Field::Announce)),
            (_, None) => Err(DecodeError::MissingField(Field::Info)),
            (Some(a), Some(i)) => match text_of(a) {
                Err(e) => Err(e),
                Ok(announce) => match info_of(i) {
                    Err(e) => Err(e),
                    Ok(info) => Ok(BencodeView { announce, info }),
                },
            },
        },
        _ => Err(DecodeError::InvalidValue),
    }
}


fn bytes_equal(a: &Vec<u8>, b: &Vec<u8>) -> (r: bool)
    ensures
        r == (a@ == b@),
{
    if a.len() != b.len() {
        return false;
    }
    let mut i: usize = 0;
    while i < a.len()
        invariant
            i <= a@.len(),
            a@.len() == b@.len(),
            forall|j: int| 0 <= j < i ==> a@[j] == b@[j],
        decreases a@.len() - i,
    {
        if a[i] != b[i] {
            return false;
        }
        i = i + 1;
    }
    assert(a@ =~= b@);
    true
}

/// Linear scan for the first pair with key `k`.
fn find<'a>(pairs: &'a Vec<(Vec<u8>, Value)>, k: Field) -> (r: Option<&'a Value>)
    ensures
        match r {
            Some(v) => lookup(pairs@, key_bytes(k)) == Some(*v),
            None => lookup(pairs@, key_bytes(k)) is None,
        },
{
    let wanted = key(k);
    let n = pairs.len();
    let mut i: usize = 0;
    assert(pairs@.subrange(0, n as int) =~= pairs@);
    while i < n
        invariant
            i <= n,
            n == pairs@.len(),
            wanted@ == key_bytes(k),
            lookup(pairs@, key_bytes(k)) == lookup(pairs@.subrange(i as int, n as int), key_bytes(k)),
        decreases n - i,
    {
        let ghost rest = pairs@.subrange(i as int, n as int);
        assert(rest[0] == pairs@[i as int]);
        if bytes_equal(&pairs[i].0, &wanted) {
            return Some(&pairs[i].1);
        }
        assert(rest.drop_first() =~= pairs@.subrange(i + 1, n as int));
        i = i + 1;
    }
    None
}

/// Reads a non-negative integer that fits in 64 bits.
fn decode_u64(v: &Value) -> (r: Result<u64, DecodeError>)
    ensures
        r == u64_of(*v),
{
    match v {
        Value::Int(t) => {
            assert(t@.subrange(0, t@.len() as int) =~= t@);
            if !check_digits(t, 0) {
                return Err(DecodeError::InvalidValue);
            }
            let mut acc: u64 = 0;
            let mut i: usize = 0;
            assert(t@.subrange(0, 0) =~= Seq::<u8>::empty());
            while i < t.len()
                invariant
                    i <= t@.len(),
                    *v == Value::Int(*t),
                    digits_ok(t@),
                    acc as nat == digits_num(t@.subrange(0, i as int)),
                decreases t@.len() - i,
            {
                assert(is_digit(t@[i as int]));
                let wide: u128 = (acc as u128) * 10 + ((t[i] - BYTE_ZERO) as u128);
                proof {
                    lemma_digits_num_push(t@.subrange(0, i as int), t@[i as int]);
                    assert(t@.subrange(0, i as int).push(t@[i as int]) =~= t@.subrange(0, i + 1));
                }
                assert(wide == digits_num(t@.subrange(0, i + 1)));
                if wide > u64::MAX as u128 {
                    proof {
                        lemma_digits_num_prefix(t@, i + 1);
                        assert(digits_num(t@) > u64::MAX);
                    }
                    return Err(DecodeError::InvalidValue);
                }
                acc = wide as u64;
                i = i + 1;
            }
            assert(t@.subrange(0, i as int) =~= t@);
            Ok(acc)
        },
        _ => Err(DecodeError::InvalidValue),
    }
}

/// Reads a byte string that must be valid UTF-8.
fn decode_text(v: &Value) -> (r: Result<String, DecodeError>)
    ensures
        match r {
            Ok(s) => text_of(*v) == Ok::<Seq<char>, DecodeError>(s@),
            Err(e) => text_of(*v) == Err::<Seq<char>, DecodeError>(e),
        },
{
    match v {
        Value::Bytes(b) => match text_from_utf8(b.as_slice()) {
            Some(s) => Ok(s),
            None => Err(DecodeError::InvalidValue),
        },
        _ => Err(DecodeError::InvalidValue),
    }
}

fn copy_bytes(b: &Vec<u8>) -> (r: Vec<u8>)
    ensures
        r@ == b@,
{
    let mut r: Vec<u8> = Vec::new();
    let mut i: usize = 0;
    while i < b.len()
        invariant
            i <= b@.len(),
            r@ == b@.subrange(0, i as int),
        decreases b@.len() - i,
    {
        r.push(b[i]);
        i = i + 1;
        assert(r@ =~= b@.subrange(0, i as int));
    }
    assert(b@.subrange(0, i as int) =~= b@);
    r
}

fn decode_pieces(v: &Value) -> (r: Result<Vec<u8>, DecodeError>)
    ensures
        match r {
            Ok(p) => pieces_of(*v) == Ok::<Seq<u8>, DecodeError>(p@),
            Err(e) => pieces_of(*v) == Err::<Seq<u8>, DecodeError>(e),
        },
{
    match v {
        Value::Bytes(b) => if b.len() % 20 == 0 {
            Ok(copy_bytes(b))
        } else {
            Err(DecodeError::InvalidValue)
        },
        _ => Err(DecodeError::InvalidValue),
    }
}

fn decode_path(v: &Value) -> (r: Result<Vec<String>, DecodeError>)
    ensures
        match r {
            Ok(p) => path_of(*v) == Ok::<Seq<Seq<char>>, DecodeError>(
                p@.map_values(|s: String| s@),
            ),
            Err(e) => path_of(*v) == Err::<Seq<Seq<char>>, DecodeError>(e),
        },
{
    match v {
        Value::List(items) => {
            let mut out: Vec<String> = Vec::new();
            let mut i: usize = 0;
            while i < items.len()
                invariant
                    i <= items@.len(),
                    *v == Value::List(*items),
                    out@.len() == i,
                    forall|j: int| 0 <= j < i ==> (#[trigger] text_of(items@[j])) is Ok,
                    forall|j: int|
                        0 <= j < i ==> Ok::<Seq<char>, DecodeError>(#[trigger] out@[j]@)
                            == text_of(items@[j]),
                decreases items@.len() - i,
            {
                match decode_text(&items[i]) {
                    Ok(s) => {
                        out.push(s);
                    },
                    Err(e) => {
                        assert(!(text_of(items@[i as int]) is Ok));
                        return Err(e);
                    },
                }
                i = i + 1;
            }
            assert(out@.map_values(|s: String| s@) =~= Seq::new(
                items@.len(),
                |j: int| text_of(items@[j])->Ok_0,
            ));
            Ok(out)
        },
        _ => Err(DecodeError::InvalidValue),
    }
}

fn decode_file(v: &Value) -> (r: Result<File, DecodeError>)
    ensures
        match r {
            Ok(f) => file_of(*v) == Ok::<FileView, DecodeError>(f@),
            Err(e) => file_of(*v) == Err::<FileView, DecodeError>(e),
        },
{
    match v {
        Value::Dict(pairs) => {
            let l = match find(pairs, Field::Length) {
                Some(l) => l,
                None => {
                    return Err(DecodeError::MissingField(Field::Length));
                },
            };
            let p = match find(pairs, Field::Path) {
                Some(p) => p,
                None => {
                    return Err(DecodeError::MissingField(Field::Path));
                },
            };
            let length = decode_u64(l)?;
            let path = decode_path(p)?;
            Ok(File { length, path })
        },
        _ => Err(DecodeError::InvalidValue),
    }
}

fn decode_files(items: &Vec<Value>) -> (r: Result<Vec<File>, DecodeError>)
    ensures
        match r {
            Ok(fs) => files_of(items@) == Ok::<Seq<FileView>, DecodeError>(
                fs@.map_values(|f: File| f@),
            ),
            Err(e) => files_of(items@) == Err::<Seq<FileView>, DecodeError>(e),
        },
{
    let n = items.len();
    let mut out: Vec<File> = Vec::new();
    let mut i: usize = 0;
    assert(items@.subrange(0, n as int) =~= items@);
    while i < n
        invariant
            i <= n,
            n == items@.len(),
            files_of(items@) == match files_of(items@.subrange(i as int, n as int)) {
                Ok(rest) => Ok(out@.map_values(|f: File| f@) + rest),
                Err(e) => Err(e),
            },
        decreases n - i,
    {
        let ghost rest = items@.subrange(i as int, n as int);
        assert(rest[0] == items@[i as int]);
        assert(rest.drop_first() =~= items@.subrange(i + 1, n as int));
        let f = match decode_file(&items[i]) {
            Ok(f) => f,
            Err(e) => {
                return Err(e);
            },
        };
        let ghost before = out@.map_values(|f: File| f@);
        out.push(f);
        proof {
            assert(out@.map_values(|f: File| f@) =~= before.push(f@));
            match files_of(items@.subrange(i + 1, n as int)) {
                Ok(tail) => {
                    assert(before + (seq![f@] + tail) =~= before.push(f@) + tail);
                },
                Err(_) => {},
            }
        }
        i = i + 1;
    }
    assert(out@.map_values(|f: File| f@) + Seq::<FileView>::empty() =~= out@.map_values(
        |f: File| f@,
    ));
    Ok(out)
}

fn decode_layout(pairs: &Vec<(Vec<u8>, Value)>) -> (r: Result<Files, DecodeError>)
    ensures
        match r {
            Ok(l) => layout_of(pairs@) == Ok::<FilesView, DecodeError>(l@),
            Err(e) => layout_of(pairs@) == Err::<FilesView, DecodeError>(e),
        },
{
    match find(pairs, Field::Files) {
        Some(Value::List(items)) if items.len() > 0 => {
            let fs = decode_files(items)?;
            return Ok(Files::Multiple(fs));
        },
        Some(Value::List(_)) | None => {},
        Some(_) => {
            return Err(DecodeError::InvalidValue);
        },
    }
    match find(pairs, Field::Length) {
        Some(l) => {
            let n = decode_u64(l)?;
            Ok(Files::Single(n))
        },
        None => Err(DecodeError::MissingField(Field::Length)),
    }
}

/// Projects an `info` dictionary into its record.
fn decode_info(v: &Value) -> (r: Result<Info, DecodeError>)
    ensures
        match r {
            Ok(i) => info_of(*v) == Ok::<InfoView, DecodeError>(i@),
            Err(e) => info_of(*v) == Err::<InfoView, DecodeError>(e),
        },
{
    match v {
        Value::Dict(pairs) => {
            let name = find(pairs, Field::Name);
            let piece_length = find(pairs, Field::PieceLength);
            let pieces = find(pairs, Field::Pieces);
            let (name, piece_length, pieces) = match (name, piece_length, pieces) {
                (None, _, _) => {
                    return Err(DecodeError::MissingField(Field::Name));
                },
                (_, None, _) => {
                    return Err(DecodeError::MissingField(Field::PieceLength));
                },
                (_, _, None) => {
                    return Err(DecodeError::MissingField(Field::Pieces));
                },
                (Some(a), Some(b), Some(c)) => (a, b, c),
            };
            let name = decode_text(name)?;
            let piece_length = decode_u64(piece_length)?;
            if piece_length == 0 {
                return Err(DecodeError::InvalidValue);
            }
            let pieces = decode_pieces(pieces)?;
            let files = decode_layout(pairs)?;
            Ok(Info { name, piece_length, files, pieces })
        },
        _ => Err(DecodeError::InvalidValue),
    }
}

/// Projects a top-level dictionary into a metainfo record.
fn decode_metainfo(v: &Value) -> (r: Result<Bencode, DecodeError>)
    ensures
        match r {
            Ok(b) => metainfo_of(*v) == Ok::<BencodeView, DecodeError>(b@),
            Err(e) => metainfo_of(*v) == Err::<BencodeView, DecodeError>(e),
        },
{
    match v {
        Value::Dict(pairs) => {
            let a = match find(pairs, Field::Announce) {
                Some(a) => a,
                None => {
                    return Err(DecodeError::MissingField(Field::Announce));
                },
            };
            let i = match find(pairs, Field::Info) {
                Some(i) => i,
                None => {
                    return Err(DecodeError::MissingField(Field::Info));
                },
            };
            let announce = decode_text(a)?;
            let info = decode_info(i)?;
            Ok(Bencode { announce, info })
        },
        _ => Err(DecodeError::InvalidValue),
    }
}


// ---------------------------------------------------------------------------
// The canonical encoding of an `info` record
// ---------------------------------------------------------------------------

/// An integer: `i`, its decimal text, `e`.
pub open spec fn int_bytes(n: u64) -> Seq<u8> {
    seq![BYTE_I] + nat_text(n as nat) + seq![BYTE_E]
}

/// Text as a byte string of its UTF-8 bytes.
pub open spec fn text_bytes(s: Seq<char>) -> Seq<u8> {
    str_bytes(encode_utf8(s))
}

/// The items of a path list, in order.
pub open spec fn path_bytes(p: Seq<Seq<char>>) -> Seq<u8>
    decreases p.len(),
{
    if p.len() == 0 {
        Seq::empty()
    } else {
        text_bytes(p[0]) + path_bytes(p.drop_first())
    }
}

/// A file entry: a dictionary with `length` then `path`.
pub open spec fn file_bytes(f: FileView) -> Seq<u8> {
    seq![BYTE_D] + str_bytes(key_bytes(Field::Length)) + int_bytes(f.length) + str_bytes(
        key_bytes(Field::Path),
    ) + seq![BYTE_L] + path_bytes(f.path) + seq![BYTE_E] + seq![BYTE_E]
}

/// The items of a `files` list, in order.
pub open spec fn files_bytes(fs: Seq<FileView>) -> Seq<u8>
    decreases fs.len(),
{
    if fs.len() == 0 {
        Seq::empty()
    } else {
        file_bytes(fs[0]) + files_bytes(fs.drop_first())
    }
}

/// The pair that the layout contributes: `length` for one file, `files` for many.
pub open spec fn layout_bytes(l: FilesView) -> Seq<u8> {
    match l {
        FilesView::Single(n) => str_bytes(key_bytes(Field::Length)) + int_bytes(n),
        FilesView::Multiple(fs) => str_bytes(key_bytes(Field::Files)) + seq![BYTE_L] + files_bytes(
            fs,
        ) + seq![BYTE_E],
    }
}

/// The canonical `info` dictionary: keys in ascending byte order
/// (`files` or `length`, `name`, `piece length`, `pieces`).
pub open spec fn info_bytes(i: InfoView) -> Seq<u8> {
    seq![BYTE_D] + layout_bytes(i.files) + str_bytes(key_bytes(Field::Name)) + text_bytes(i.name)
        + str_bytes(key_bytes(Field::PieceLength)) + int_bytes(i.piece_length) + str_bytes(
        key_bytes(Field::Pieces),
    ) + str_bytes(i.pieces) + seq![BYTE_E]
}

/// The info hash: SHA-1 of the canonical `info` dictionary, as lowercase hex.
pub open spec fn info_hash_of(i: InfoView) -> Seq<char> {
    hex_of(sha1_of(info_bytes(i)))
}

proof fn lemma_path_bytes_push(p: Seq<Seq<char>>, x: Seq<char>)
    ensures
        path_bytes(p.push(x)) == path_bytes(p) + text_bytes(x),
    decreases p.len(),
{
    assert(path_bytes(Seq::<Seq<char>>::empty()) == Seq::<u8>::empty());
    assert(p.push(x)[0] == if p.len() == 0 { x } else { p[0] });
    if p.len() == 0 {
        assert(p.push(x).drop_first() =~= Seq::<Seq<char>>::empty());
        assert(path_bytes(p.push(x)) =~= text_bytes(x));
    } else {
        lemma_path_bytes_push(p.drop_first(), x);
        assert(p.push(x).drop_first() =~= p.drop_first().push(x));
        assert(path_bytes(p.push(x)) =~= path_bytes(p) + text_bytes(x));
    }
}

proof fn lemma_files_bytes_push(fs: Seq<FileView>, x: FileView)
    ensures
        files_bytes(fs.push(x)) == files_bytes(fs) + file_bytes(x),
    decreases fs.len(),
{
    assert(files_bytes(Seq::<FileView>::empty()) == Seq::<u8>::empty());
    assert(fs.push(x)[0] == if fs.len() == 0 { x } else { fs[0] });
    if fs.len() == 0 {
        assert(fs.push(x).drop_first() =~= Seq::<FileView>::empty());
        assert(files_bytes(fs.push(x)) =~= file_bytes(x));
    } else {
        lemma_files_bytes_push(fs.drop_first(), x);
        assert(fs.push(x).drop_first() =~= fs.drop_first().push(x));
        assert(files_bytes(fs.push(x)) =~= files_bytes(fs) + file_bytes(x));
    }
}

fn push_nat(out: &mut Vec<u8>, n: u64)
    ensures
        final(out)@ == old(out)@ + nat_text(n as nat),
    decreases n,
{
    if n >= 10 {
        push_nat(out, n / 10);
    }
    out.push(((n % 10) as u8) + BYTE_ZERO);
    proof {
        if n < 10 {
            assert(nat_text(n as nat) =~= seq![((n % 10) as u8 + BYTE_ZERO) as u8]);
        }
    }
    assert(final(out)@ =~= old(out)@ + nat_text(n as nat));
}

fn push_int(out: &mut Vec<u8>, n: u64)
    ensures
        final(out)@ == old(out)@ + int_bytes(n),
{
    out.push(BYTE_I);
    push_nat(out, n);
    out.push(BYTE_E);
    assert(final(out)@ =~= old(out)@ + int_bytes(n));
}

fn push_str(out: &mut Vec<u8>, b: &[u8])
    ensures
        final(out)@ == old(out)@ + str_bytes(b@),
{
    push_nat(out, b.len() as u64);
    out.push(BYTE_COLON);
    let mut i: usize = 0;
    let ghost mid = out@;
    while i < b.len()
        invariant
            i <= b@.len(),
            out@ == mid + b@.subrange(0, i as int),
        decreases b@.len() - i,
    {
        out.push(b[i]);
        i = i + 1;
        assert(out@ =~= mid + b@.subrange(0, i as int));
    }
    assert(b@.subrange(0, i as int) =~= b@);
    assert(final(out)@ =~= old(out)@ + str_bytes(b@));
}

fn push_key(out: &mut Vec<u8>, k: Field)
    ensures
        final(out)@ == old(out)@ + str_bytes(key_bytes(k)),
{
    let kb = key(k);
    push_str(out, kb.as_slice());
}

fn push_text(out: &mut Vec<u8>, s: &String)
    ensures
        final(out)@ == old(out)@ + text_bytes(s@),
{
    push_str(out, s.as_str().as_bytes());
}

impl File {
    fn encode_into(&self, out: &mut Vec<u8>)
        ensures
            final(out)@ == old(out)@ + file_bytes(self@),
    {
        out.push(BYTE_D);
        push_key(out, Field::Length);
        push_int(out, self.length);
        push_key(out, Field::Path);
        out.push(BYTE_L);
        let ghost mid = out@;
        let mut i: usize = 0;
        while i < self.path.len()
            invariant
                i <= self.path@.len(),
                out@ == mid + path_bytes(self.path@.subrange(0, i as int).map_values(|s: String| s@)),
            decreases self.path@.len() - i,
        {
            proof {
                let q = self.path@.subrange(0, i as int).map_values(|s: String| s@);
                assert(self.path@.subrange(0, i + 1).map_values(|s: String| s@) =~= q.push(
                    self.path@[i as int]@,
                ));
                lemma_path_bytes_push(q, self.path@[i as int]@);
            }
            push_text(out, &self.path[i]);
            i = i + 1;
        }
        assert(self.path@.subrange(0, i as int) =~= self.path@);
        out.push(BYTE_E);
        out.push(BYTE_E);
        assert(final(out)@ =~= old(out)@ + file_bytes(self@));
    }
}

impl Files {
    fn encode_into(&self, out: &mut Vec<u8>)
        ensures
            final(out)@ == old(out)@ + layout_bytes(self@),
    {
        match self {
            Files::Single(n) => {
                push_key(out, Field::Length);
                push_int(out, *n);
                assert(final(out)@ =~= old(out)@ + layout_bytes(self@));
            },
            Files::Multiple(fs) => {
                push_key(out, Field::Files);
                out.push(BYTE_L);
                let ghost mid = out@;
                let mut i: usize = 0;
                while i < fs.len()
                    invariant
                        i <= fs@.len(),
                        out@ == mid + files_bytes(fs@.subrange(0, i as int).map_values(|f: File| f@)),
                    decreases fs@.len() - i,
                {
                    proof {
                        let q = fs@.subrange(0, i as int).map_values(|f: File| f@);
                        assert(fs@.subrange(0, i + 1).map_values(|f: File| f@) =~= q.push(
                            fs@[i as int]@,
                        ));
                        lemma_files_bytes_push(q, fs@[i as int]@);
                    }
                    fs[i].encode_into(out);
                    i = i + 1;
                }
                assert(fs@.subrange(0, i as int) =~= fs@);
                out.push(BYTE_E);
                assert(final(out)@ =~= old(out)@ + layout_bytes(self@));
            },
        }
    }
}

proof fn lemma_trailing_bytes(s: Seq<u8>, v: Value, end: int)
    requires
        0 <= end < s.len(),
        holds_value(s.subrange(0, end), v),
    ensures
        forall|w: Value| !holds_value(s, w),
{
    assert forall|w: Value| !holds_value(s, w) by {
        if holds_value(s, w) {
            lemma_holds_value_at(s, w);
            lemma_value_at_of_holds(s, 0, end, v);
            lemma_prefix_free(s, 0, w, v);
        }
    }
}

proof fn lemma_nothing_parsed(s: Seq<u8>)
    requires
        forall|v: Value| !value_at(s, 0, v),
    ensures
        forall|w: Value| !holds_value(s, w),
{
    assert forall|w: Value| !holds_value(s, w) by {
        if holds_value(s, w) {
            lemma_holds_value_at(s, w);
        }
    }
}

impl Info {
    /// The canonical bencode form of this record, the bytes that the info hash
    /// is computed over.
    pub fn encode(&self) -> (r: Vec<u8>)
        ensures
            r@ == info_bytes(self@),
    {
        let mut out: Vec<u8> = Vec::new();
        out.push(BYTE_D);
        self.files.encode_into(&mut out);
        push_key(&mut out, Field::Name);
        push_text(&mut out, &self.name);
        push_key(&mut out, Field::PieceLength);
        push_int(&mut out, self.piece_length);
        push_key(&mut out, Field::Pieces);
        push_str(&mut out, self.pieces.as_slice());
        out.push(BYTE_E);
        assert(out@ =~= info_bytes(self@));
        out
    }

    /// Decodes a bencoded `info` dictionary that fills `input` exactly.
    pub fn decode(input: &[u8]) -> (r: Result<Info, DecodeError>)
        ensures
            match r {
                Ok(i) => info_from_bytes(input@) == Ok::<InfoView, DecodeError>(i@) && info_wf(i@),
                Err(e) => info_from_bytes(input@) == Err::<InfoView, DecodeError>(e),
            },
    {
        match parse_value(input, 0) {
            Some((v, end)) => {
                if end != input.len() {
                    proof {
                        lemma_trailing_bytes(input@, v, end as int);
                    }
                    return Err(DecodeError::Malformed);
                }
                assert(input@.subrange(0, end as int) =~= input@);
                let r = decode_info(&v);
                proof {
                    lemma_decoding_unique(input@, choose|w: Value| holds_value(input@, w), v);
                    if r is Ok {
                        lemma_decoded_info_wf(v);
                    }
                }
                r
            },
            None => {
                proof {
                    lemma_nothing_parsed(input@);
                }
                Err(DecodeError::Malformed)
            },
        }
    }
}

impl Bencode {
    /// Decodes a metainfo file: a bencoded dictionary that fills `input`
    /// exactly, with `announce` text and an `info` dictionary.
    pub fn build(input: &[u8]) -> (r: Result<Bencode, DecodeError>)
        ensures
            match r {
                Ok(b) => metainfo_from_bytes(input@) == Ok::<BencodeView, DecodeError>(b@)
                    && info_wf(b@.info),
                Err(e) => metainfo_from_bytes(input@) == Err::<BencodeView, DecodeError>(e),
            },
    {
        match parse_value(input, 0) {
            Some((v, end)) => {
                if end != input.len() {
                    proof {
                        lemma_trailing_bytes(input@, v, end as int);
                    }
                    return Err(DecodeError::Malformed);
                }
                assert(input@.subrange(0, end as int) =~= input@);
                let r = decode_metainfo(&v);
                proof {
                    lemma_decoding_unique(input@, choose|w: Value| holds_value(input@, w), v);
                    if let Value::Dict(pairs) = v {
                        if r is Ok {
                            lemma_decoded_info_wf(lookup(pairs@, key_bytes(Field::Info))->Some_0);
                        }
                    }
                }
                r
            },
            None => {
                proof {
                    lemma_nothing_parsed(input@);
                }
                Err(DecodeError::Malformed)
            },
        }
    }

    /// The torrent's identity: SHA-1 of the canonical `info` dictionary, as
    /// 40 lowercase hexadecimal digits.
    pub fn info_hash(&self) -> (r: String)
        ensures
            r@ == info_hash_of(self.info@),
            r@.len() == 40,
    {
        let bytes = self.info.encode();
        let digest = sha1_digest(bytes.as_slice());
        proof {
            lemma_hex_of_len(digest@);
        }
        hex_encode(digest.as_slice())
    }
}


// ---------------------------------------------------------------------------
// Laws
// ---------------------------------------------------------------------------

/// What every decoded `info` record satisfies: a positive piece length, whole
/// 20-byte piece digests, and a multi-file layout that lists at least one file.
pub open spec fn info_wf(i: InfoView) -> bool {
    &&& i.piece_length > 0
    &&& i.pieces.len() % 20 == 0
    &&& i.files matches FilesView::Multiple(fs) ==> fs.len() > 0
}

proof fn lemma_files_of_len(items: Seq<Value>)
    requires
        files_of(items) is Ok,
    ensures
        files_of(items)->Ok_0.len() == items.len(),
    decreases items.len(),
{
    if items.len() > 0 {
        lemma_files_of_len(items.drop_first());
    }
}

/// A decoded `info` record has exactly one layout; a multi-file one is never
/// empty, its piece buffer holds whole 20-byte digests and its piece length
/// is positive.
pub proof fn lemma_decoded_info_wf(v: Value)
    requires
        info_of(v) is Ok,
    ensures
        info_wf(info_of(v)->Ok_0),
{
    if let Value::Dict(pairs) = v {
        if let Some(Value::List(items)) = lookup(pairs@, key_bytes(Field::Files)) {
            if items@.len() > 0 {
                lemma_files_of_len(items@);
            }
        }
    }
}

/// A non-empty `files` list wins over `length`: the record then has the
/// multi-file layout, whether or not `length` is also present.
pub proof fn lemma_files_win_over_length(pairs: Vec<(Vec<u8>, Value)>)
    requires
        lookup(pairs@, key_bytes(Field::Files)) matches Some(Value::List(items)) && items@.len()
            > 0,
    ensures
        info_of(Value::Dict(pairs)) matches Ok(i) ==> i.files is Multiple,
{
}

/// An `info` dictionary without `name`, `piece length` or `pieces` is rejected
/// as missing one of them, never filled with a default.
pub proof fn lemma_missing_required_field(pairs: Vec<(Vec<u8>, Value)>, k: Field)
    requires
        k == Field::Name || k == Field::PieceLength || k == Field::Pieces,
        lookup(pairs@, key_bytes(k)) is None,
    ensures
        info_of(Value::Dict(pairs)) matches Err(DecodeError::MissingField(f)) && (f == Field::Name
            || f == Field::PieceLength || f == Field::Pieces),
{
}

/// The info hash depends on the canonical bytes of the record alone, so equal
/// records, in any call or process, give equal hashes.
pub proof fn lemma_info_hash_deterministic(a: InfoView, b: InfoView)
    requires
        info_bytes(a) == info_bytes(b),
    ensures
        info_hash_of(a) == info_hash_of(b),
{
}


proof fn lemma_drop_head(c: u8, a: Seq<u8>, b: Seq<u8>)
    requires
        seq![c] + a == seq![c] + b,
    ensures
        a == b,
{
    assert(a =~= (seq![c] + a).drop_first());
    assert(b =~= (seq![c] + b).drop_first());
}

proof fn lemma_path_prefix(items: Seq<Value>, p: Seq<Seq<char>>, x: Seq<u8>, y: Seq<u8>)
    requires
        forall|j: int| 0 <= j < items.len() ==> well_formed(#[trigger] items[j]),
        list_bytes(items) + seq![BYTE_E] + x == path_bytes(p) + seq![BYTE_E] + y,
    ensures
        items.len() == p.len(),
        forall|j: int|
            0 <= j < items.len() ==> (#[trigger] items[j] matches Value::Bytes(c) && c@
                == encode_utf8(p[j])),
        x == y,
    decreases p.len(),
{
    if p.len() == 0 {
        assert(path_bytes(p) + seq![BYTE_E] + y =~= seq![BYTE_E] + y);
        lemma_list_end(items, x, y);
    } else {
        let w = text_bytes(p[0]);
        lemma_str_bytes_head_digit(encode_utf8(p[0]));
        let rest = path_bytes(p.drop_first()) + seq![BYTE_E] + y;
        assert(path_bytes(p) + seq![BYTE_E] + y =~= w + rest);
        lemma_list_first(items, w, x, rest);
        let x1 = list_bytes(items.drop_first()) + seq![BYTE_E] + x;
        lemma_bytes_prefix(items[0], encode_utf8(p[0]), x1, rest);
        assert forall|j: int| 0 <= j < items.len() - 1 implies well_formed(
            #[trigger] items.drop_first()[j],
        ) by {
            assert(items.drop_first()[j] == items[j + 1]);
        }
        lemma_path_prefix(items.drop_first(), p.drop_first(), x, y);
        assert forall|j: int| 0 <= j < items.len() implies (#[trigger] items[j] matches Value::Bytes(
            c,
        ) && c@ == encode_utf8(p[j])) by {
            if j > 0 {
                assert(items[j] == items.drop_first()[j - 1]);
                assert(p[j] == p.drop_first()[j - 1]);
            }
        }
    }
}

proof fn lemma_path_of(items: Vec<Value>, p: Seq<Seq<char>>)
    requires
        items@.len() == p.len(),
        forall|j: int|
            0 <= j < items@.len() ==> (#[trigger] items@[j] matches Value::Bytes(c) && c@
                == encode_utf8(p[j])),
    ensures
        path_of(Value::List(items)) == Ok::<Seq<Seq<char>>, DecodeError>(p),
{
    assert forall|j: int| 0 <= j < items@.len() implies (#[trigger] text_of(items@[j])) is Ok
        && text_of(items@[j])->Ok_0 == p[j] by {
        encode_utf8_valid_utf8(p[j]);
        encode_utf8_decode_utf8(p[j]);
    }
    assert(Seq::new(items@.len(), |j: int| text_of(items@[j])->Ok_0) =~= p);
}

proof fn lemma_u64_of_text(t: Vec<u8>, n: u64)
    requires
        t@ == nat_text(n as nat),
    ensures
        u64_of(Value::Int(t)) == Ok::<u64, DecodeError>(n),
{
    lemma_nat_text(n as nat);
}

proof fn lemma_text_of_bytes(b: Vec<u8>, s: Seq<char>)
    requires
        b@ == encode_utf8(s),
    ensures
        text_of(Value::Bytes(b)) == Ok::<Seq<char>, DecodeError>(s),
{
    encode_utf8_valid_utf8(s);
    encode_utf8_decode_utf8(s);
}

proof fn lemma_file_prefix(v: Value, f: FileView, x: Seq<u8>, y: Seq<u8>)
    requires
        well_formed(v),
        value_bytes(v) + x == file_bytes(f) + y,
    ensures
        file_of(v) == Ok::<FileView, DecodeError>(f),
        x == y,
{
    lemma_value_first_byte(v);
    let k_len = key_bytes(Field::Length);
    let k_path = key_bytes(Field::Path);
    let y3 = seq![BYTE_L] + path_bytes(f.path) + seq![BYTE_E] + (seq![BYTE_E] + y);
    let y2 = str_bytes(k_path) + y3;
    let y1 = seq![BYTE_I] + nat_text(f.length as nat) + seq![BYTE_E] + y2;
    assert(file_bytes(f) + y =~= seq![BYTE_D] + (str_bytes(k_len) + y1));
    assert((file_bytes(f) + y)[0] == BYTE_D);
    assert((value_bytes(v) + x)[0] == value_bytes(v)[0]);
    if let Value::Dict(pairs) = v {
        let ps = pairs@;
        assert(value_bytes(v) + x =~= seq![BYTE_D] + (dict_bytes(ps) + seq![BYTE_E] + x));
        lemma_drop_head(BYTE_D, dict_bytes(ps) + seq![BYTE_E] + x, str_bytes(k_len) + y1);
        lemma_dict_first(ps, k_len, x, y1);
        let ps1 = ps.drop_first();
        lemma_int_prefix(ps[0].1, f.length as nat, dict_bytes(ps1) + seq![BYTE_E] + x, y2);
        lemma_dict_first(ps1, k_path, x, y3);
        let ps2 = ps1.drop_first();
        let pv = ps1[0].1;
        assert(well_formed(pv)) by {
            assert(ps1[0] == pairs@[1]);
        }
        lemma_value_first_byte(pv);
        assert((value_bytes(pv) + (dict_bytes(ps2) + seq![BYTE_E] + x))[0] == value_bytes(pv)[0]);
        if let Value::List(items) = pv {
            assert(value_bytes(pv) + (dict_bytes(ps2) + seq![BYTE_E] + x) =~= seq![BYTE_L] + (
            list_bytes(items@) + seq![BYTE_E] + (dict_bytes(ps2) + seq![BYTE_E] + x)));
            assert(y3 =~= seq![BYTE_L] + (path_bytes(f.path) + seq![BYTE_E] + (seq![BYTE_E] + y)));
            lemma_drop_head(
                BYTE_L,
                list_bytes(items@) + seq![BYTE_E] + (dict_bytes(ps2) + seq![BYTE_E] + x),
                path_bytes(f.path) + seq![BYTE_E] + (seq![BYTE_E] + y),
            );
            lemma_path_prefix(items@, f.path, dict_bytes(ps2) + seq![BYTE_E] + x, seq![BYTE_E] + y);
            lemma_dict_end(ps2, x, y);
            lemma_path_of(items, f.path);
            if let Value::Int(t) = ps[0].1 {
                lemma_u64_of_text(t, f.length);
            }
            assert(k_len.len() != k_path.len());
            assert(lookup(ps, k_len) == Some(ps[0].1));
            assert(lookup(ps, k_path) == lookup(ps1, k_path));
        }
    }
}

proof fn lemma_files_prefix(items: Seq<Value>, fs: Seq<FileView>, x: Seq<u8>, y: Seq<u8>)
    requires
        forall|j: int| 0 <= j < items.len() ==> well_formed(#[trigger] items[j]),
        list_bytes(items) + seq![BYTE_E] + x == files_bytes(fs) + seq![BYTE_E] + y,
    ensures
        files_of(items) == Ok::<Seq<FileView>, DecodeError>(fs),
        x == y,
    decreases fs.len(),
{
    if fs.len() == 0 {
        assert(files_bytes(fs) + seq![BYTE_E] + y =~= seq![BYTE_E] + y);
        lemma_list_end(items, x, y);
        assert(fs =~= Seq::<FileView>::empty());
    } else {
        let w = file_bytes(fs[0]);
        let rest = files_bytes(fs.drop_first()) + seq![BYTE_E] + y;
        assert(files_bytes(fs) + seq![BYTE_E] + y =~= w + rest);
        lemma_list_first(items, w, x, rest);
        let x1 = list_bytes(items.drop_first()) + seq![BYTE_E] + x;
        lemma_file_prefix(items[0], fs[0], x1, rest);
        assert forall|j: int| 0 <= j < items.len() - 1 implies well_formed(
            #[trigger] items.drop_first()[j],
        ) by {
            assert(items.drop_first()[j] == items[j + 1]);
        }
        lemma_files_prefix(items.drop_first(), fs.drop_first(), x, y);
        assert(seq![fs[0]] + fs.drop_first() =~= fs);
    }
}

/// Re-decoding the canonical encoding of a well-formed `info` record gives
/// the same record back: every value tree that those bytes hold projects to it.
#[verifier::rlimit(100)]
pub proof fn lemma_round_trip(i: InfoView, v: Value)
    requires
        info_wf(i),
        holds_value(info_bytes(i), v),
    ensures
        info_of(v) == Ok::<InfoView, DecodeError>(i),
{
    let k_len = key_bytes(Field::Length);
    let k_files = key_bytes(Field::Files);
    let k_name = key_bytes(Field::Name);
    let k_pl = key_bytes(Field::PieceLength);
    let k_pieces = key_bytes(Field::Pieces);
    let empty = Seq::<u8>::empty();
    let y4 = str_bytes(i.pieces) + seq![BYTE_E] + empty;
    let y3 = str_bytes(k_pieces) + y4;
    let y2 = seq![BYTE_I] + nat_text(i.piece_length as nat) + seq![BYTE_E] + y3;
    let y1b = text_bytes(i.name) + (str_bytes(k_pl) + y2);
    let y1 = str_bytes(k_name) + y1b;
    lemma_value_first_byte(v);
    assert(info_bytes(i) + empty =~= seq![BYTE_D] + (layout_bytes(i.files) + y1));
    assert(info_bytes(i)[0] == BYTE_D);
    if let Value::Dict(pairs) = v {
        let ps = pairs@;
        assert(value_bytes(v) + empty =~= seq![BYTE_D] + (dict_bytes(ps) + seq![BYTE_E] + empty));
        lemma_drop_head(BYTE_D, dict_bytes(ps) + seq![BYTE_E] + empty, layout_bytes(i.files) + y1);
        let ps1 = ps.drop_first();
        let x1 = dict_bytes(ps1) + seq![BYTE_E] + empty;
        assert(well_formed(ps[0].1));
        match i.files {
            FilesView::Single(n) => {
                let y0 = seq![BYTE_I] + nat_text(n as nat) + seq![BYTE_E] + y1;
                assert(layout_bytes(i.files) + y1 =~= str_bytes(k_len) + y0);
                lemma_dict_first(ps, k_len, empty, y0);
                lemma_int_prefix(ps[0].1, n as nat, x1, y1);
                if let Value::Int(t) = ps[0].1 {
                    lemma_u64_of_text(t, n);
                }
            },
            FilesView::Multiple(fs) => {
                let y0 = seq![BYTE_L] + files_bytes(fs) + seq![BYTE_E] + y1;
                assert(layout_bytes(i.files) + y1 =~= str_bytes(k_files) + y0);
                lemma_dict_first(ps, k_files, empty, y0);
                let pv = ps[0].1;
                lemma_value_first_byte(pv);
                assert((value_bytes(pv) + x1)[0] == value_bytes(pv)[0]);
                if let Value::List(items) = pv {
                    assert(value_bytes(pv) + x1 =~= seq![BYTE_L] + (list_bytes(items@) + seq![BYTE_E]
                        + x1));
                    assert(y0 =~= seq![BYTE_L] + (files_bytes(fs) + seq![BYTE_E] + y1));
                    lemma_drop_head(
                        BYTE_L,
                        list_bytes(items@) + seq![BYTE_E] + x1,
                        files_bytes(fs) + seq![BYTE_E] + y1,
                    );
                    lemma_files_prefix(items@, fs, x1, y1);
                    lemma_files_of_len(items@);
                }
            },
        }
        lemma_dict_first(ps1, k_name, empty, y1b);
        let ps2 = ps1.drop_first();
        let x2 = dict_bytes(ps2) + seq![BYTE_E] + empty;
        assert(well_formed(ps1[0].1)) by {
            assert(ps1[0] == ps[1]);
        }
        lemma_bytes_prefix(ps1[0].1, encode_utf8(i.name), x2, str_bytes(k_pl) + y2);
        lemma_dict_first(ps2, k_pl, empty, y2);
        let ps3 = ps2.drop_first();
        let x3 = dict_bytes(ps3) + seq![BYTE_E] + empty;
        assert(well_formed(ps2[0].1)) by {
            assert(ps2[0] == ps[2]);
        }
        lemma_int_prefix(ps2[0].1, i.piece_length as nat, x3, y3);
        lemma_dict_first(ps3, k_pieces, empty, y4);
        let ps4 = ps3.drop_first();
        let x4 = dict_bytes(ps4) + seq![BYTE_E] + empty;
        lemma_bytes_prefix(ps3[0].1, i.pieces, x4, seq![BYTE_E] + empty);
        lemma_dict_end(ps4, empty, empty);
        if let Value::Bytes(b) = ps1[0].1 {
            lemma_text_of_bytes(b, i.name);
        }
        if let Value::Int(t) = ps2[0].1 {
            lemma_u64_of_text(t, i.piece_length);
        }
        assert(k_len.len() == 6 && k_files.len() == 5 && k_name.len() == 4 && k_pl.len() == 12
            && k_pieces.len() == 6);
        assert(k_len[0] != k_pieces[0]);
        assert(ps[0].0@.len() == 5 || ps[0].0@.len() == 6);
        assert(ps[0].0@ != k_pieces) by {
            if ps[0].0@ == k_pieces {
                assert(ps[0].0@[0] == k_pieces[0]);
            }
        }
        assert(lookup(ps1, k_name) == Some(ps1[0].1));
        assert(lookup(ps, k_name) == lookup(ps1, k_name));
        assert(lookup(ps2, k_pl) == Some(ps2[0].1));
        assert(lookup(ps1, k_pl) == lookup(ps2, k_pl));
        assert(lookup(ps, k_pl) == lookup(ps1, k_pl));
        assert(lookup(ps3, k_pieces) == Some(ps3[0].1));
        assert(lookup(ps2, k_pieces) == lookup(ps3, k_pieces));
        assert(lookup(ps1, k_pieces) == lookup(ps2, k_pieces));
        assert(lookup(ps, k_pieces) == lookup(ps1, k_pieces));
        assert(lookup(ps4, k_files) is None);
        assert(lookup(ps3, k_files) == lookup(ps4, k_files));
        assert(lookup(ps2, k_files) == lookup(ps3, k_files));
        assert(lookup(ps1, k_files) == lookup(ps2, k_files));
    }
}


proof fn lemma_same_pairs_rest(xs: Seq<(Vec<u8>, Value)>, ys: Seq<(Vec<u8>, Value)>)
    requires
        same_pairs(xs, ys),
        xs.len() > 0,
    ensures
        same_pairs(xs.drop_first(), ys.drop_first()),
{
    assert forall|j: int| 0 <= j < xs.len() - 1 implies well_formed(
        #[trigger] xs.drop_first()[j].1,
    ) by {
        assert(xs.drop_first()[j] == xs[j + 1]);
    }
    assert forall|j: int| 0 <= j < ys.len() - 1 implies well_formed(
        #[trigger] ys.drop_first()[j].1,
    ) by {
        assert(ys.drop_first()[j] == ys[j + 1]);
    }
    assert forall|j: int| 0 <= j < xs.len() - 1 implies (#[trigger] xs.drop_first()[j]).0@
        == ys.drop_first()[j].0@ && value_bytes(xs.drop_first()[j].1) == value_bytes(
        ys.drop_first()[j].1,
    ) by {
        assert(xs.drop_first()[j] == xs[j + 1]);
        assert(ys.drop_first()[j] == ys[j + 1]);
    }
}

proof fn lemma_lookup_same(xs: Seq<(Vec<u8>, Value)>, ys: Seq<(Vec<u8>, Value)>, k: Seq<u8>)
    requires
        same_pairs(xs, ys),
    ensures
        lookup(xs, k) is None <==> lookup(ys, k) is None,
        lookup(xs, k) is Some ==> well_formed(lookup(xs, k)->Some_0) && well_formed(
            lookup(ys, k)->Some_0,
        ) && value_bytes(lookup(xs, k)->Some_0) == value_bytes(lookup(ys, k)->Some_0),
    decreases xs.len(),
{
    if xs.len() > 0 {
        assert(xs[0].0@ == ys[0].0@);
        assert(well_formed(xs[0].1) && well_formed(ys[0].1));
        if xs[0].0@ != k {
            lemma_same_pairs_rest(xs, ys);
            lemma_lookup_same(xs.drop_first(), ys.drop_first(), k);
        }
    }
}

proof fn lemma_path_same(a: Value, b: Value)
    requires
        well_formed(a),
        well_formed(b),
        value_bytes(a) == value_bytes(b),
    ensures
        path_of(a) == path_of(b),
{
    lemma_same_bytes_same_shape(a, b);
    if let (Value::List(x), Value::List(y)) = (a, b) {
        assert forall|j: int| 0 <= j < x@.len() implies text_of(x@[j]) == text_of(y@[j]) by {
            lemma_same_bytes_same_shape(x@[j], y@[j]);
        }
        if forall|i: int| 0 <= i < x@.len() ==> (#[trigger] text_of(x@[i])) is Ok {
            assert forall|i: int| 0 <= i < y@.len() implies (#[trigger] text_of(y@[i])) is Ok by {
                assert(text_of(x@[i]) is Ok);
            }
        }
        if forall|i: int| 0 <= i < y@.len() ==> (#[trigger] text_of(y@[i])) is Ok {
            assert forall|i: int| 0 <= i < x@.len() implies (#[trigger] text_of(x@[i])) is Ok by {
                assert(text_of(y@[i]) is Ok);
            }
        }
        assert(Seq::new(x@.len(), |i: int| text_of(x@[i])->Ok_0) =~= Seq::new(
            y@.len(),
            |i: int| text_of(y@[i])->Ok_0,
        ));
    }
}

proof fn lemma_file_same(a: Value, b: Value)
    requires
        well_formed(a),
        well_formed(b),
        value_bytes(a) == value_bytes(b),
    ensures
        file_of(a) == file_of(b),
{
    lemma_same_bytes_same_shape(a, b);
    if let (Value::Dict(x), Value::Dict(y)) = (a, b) {
        lemma_lookup_same(x@, y@, key_bytes(Field::Length));
        lemma_lookup_same(x@, y@, key_bytes(Field::Path));
        if let (Some(l1), Some(l2)) = (
            lookup(x@, key_bytes(Field::Length)),
            lookup(y@, key_bytes(Field::Length)),
        ) {
            lemma_same_bytes_same_shape(l1, l2);
        }
        if let (Some(p1), Some(p2)) = (
            lookup(x@, key_bytes(Field::Path)),
            lookup(y@, key_bytes(Field::Path)),
        ) {
            lemma_path_same(p1, p2);
        }
    }
}

proof fn lemma_files_same(xs: Seq<Value>, ys: Seq<Value>)
    requires
        same_items(xs, ys),
    ensures
        files_of(xs) == files_of(ys),
    decreases xs.len(),
{
    if xs.len() > 0 {
        lemma_file_same(xs[0], ys[0]);
        assert forall|j: int| 0 <= j < xs.len() - 1 implies value_bytes(
            #[trigger] xs.drop_first()[j],
        ) == value_bytes(ys.drop_first()[j]) && well_formed(xs.drop_first()[j]) && well_formed(
            ys.drop_first()[j],
        ) by {
            assert(xs.drop_first()[j] == xs[j + 1]);
            assert(ys.drop_first()[j] == ys[j + 1]);
        }
        lemma_files_same(xs.drop_first(), ys.drop_first());
    }
}

proof fn lemma_info_same(a: Value, b: Value)
    requires
        well_formed(a),
        well_formed(b),
        value_bytes(a) == value_bytes(b),
    ensures
        info_of(a) == info_of(b),
{
    lemma_same_bytes_same_shape(a, b);
    if let (Value::Dict(x), Value::Dict(y)) = (a, b) {
        let (xs, ys) = (x@, y@);
        lemma_lookup_same(xs, ys, key_bytes(Field::Name));
        lemma_lookup_same(xs, ys, key_bytes(Field::PieceLength));
        lemma_lookup_same(xs, ys, key_bytes(Field::Pieces));
        lemma_lookup_same(xs, ys, key_bytes(Field::Files));
        lemma_lookup_same(xs, ys, key_bytes(Field::Length));
        if let (Some(u), Some(w)) = (
            lookup(xs, key_bytes(Field::Name)),
            lookup(ys, key_bytes(Field::Name)),
        ) {
            lemma_same_bytes_same_shape(u, w);
        }
        if let (Some(u), Some(w)) = (
            lookup(xs, key_bytes(Field::PieceLength)),
            lookup(ys, key_bytes(Field::PieceLength)),
        ) {
            lemma_same_bytes_same_shape(u, w);
        }
        if let (Some(u), Some(w)) = (
            lookup(xs, key_bytes(Field::Pieces)),
            lookup(ys, key_bytes(Field::Pieces)),
        ) {
            lemma_same_bytes_same_shape(u, w);
        }
        if let (Some(u), Some(w)) = (
            lookup(xs, key_bytes(Field::Length)),
            lookup(ys, key_bytes(Field::Length)),
        ) {
            lemma_same_bytes_same_shape(u, w);
        }
        if let (Some(u), Some(w)) = (
            lookup(xs, key_bytes(Field::Files)),
            lookup(ys, key_bytes(Field::Files)),
        ) {
            lemma_same_bytes_same_shape(u, w);
            if let (Value::List(p), Value::List(q)) = (u, w) {
                lemma_files_same(p@, q@);
            }
        }
        assert(layout_of(xs) == layout_of(ys));
    }
}

/// Every value tree that the same bytes hold gives the same metainfo record
/// (or the same error): decoding depends on the bytes alone.
pub proof fn lemma_decoding_unique(s: Seq<u8>, a: Value, b: Value)
    requires
        holds_value(s, a),
        holds_value(s, b),
    ensures
        info_of(a) == info_of(b),
        metainfo_of(a) == metainfo_of(b),
{
    lemma_info_same(a, b);
    lemma_same_bytes_same_shape(a, b);
    if let (Value::Dict(x), Value::Dict(y)) = (a, b) {
        lemma_lookup_same(x@, y@, key_bytes(Field::Announce));
        lemma_lookup_same(x@, y@, key_bytes(Field::Info));
        if let (Some(u), Some(w)) = (
            lookup(x@, key_bytes(Field::Announce)),
            lookup(y@, key_bytes(Field::Announce)),
        ) {
            lemma_same_bytes_same_shape(u, w);
        }
        if let (Some(u), Some(w)) = (
            lookup(x@, key_bytes(Field::Info)),
            lookup(y@, key_bytes(Field::Info)),
        ) {
            lemma_info_same(u, w);
        }
    }
}

} // verus!
