use vstd::prelude::*;
use crate::bencode::{encoded_at, well_formed, 
    BencodeVal, DecodeError, decode, dict_get, lookup, decodes_to, decoded_from, copy_range,
    encoding, lemma_child_decoded,
};
use crate::keys::{
    announce_key, announce_key_bytes, info_key, info_key_bytes, name_key, name_key_bytes,
    piece_length_key, piece_length_key_bytes, pieces_key, pieces_key_bytes, length_key,
    length_key_bytes, files_key, files_key_bytes, path_key, path_key_bytes,
};
use crate::download::{Piece, build_pieces, is_fresh_table, piece_count};
use crate::primitives::{sha1_of, utf8_decode, sha1_digest, utf8_text};

verus! {

/// A field of the torrent descriptor.
#[derive(Debug, Clone, Copy, PartialEq, Eq, Structural)]
pub enum Field {
    Announce,
    Info,
    Name,
    PieceLength,
    Pieces,
    Length,
    FileLength,
    FilePath,
}

/// Why a descriptor was rejected.
#[derive(Debug, Clone, Copy, PartialEq, Eq, Structural)]
pub enum MetaError {
    /// The bytes are not Bencode.
    Decode(DecodeError),
    /// The top-level value is not a dictionary.
    NotADict,
    /// A required key is absent.
    Missing(Field),
    /// A key holds a value of the wrong kind.
    WrongType(Field),
    /// A text field is not valid UTF-8.
    NotUtf8(Field),
    /// A value of the right kind that is out of range: a piece length that is
    /// not positive, or a `pieces` string whose length is not a multiple of 20.
    BadValue(Field),
}

/// One file of a multi-file torrent; `path` joins its segments with `/`.
#[derive(Debug)]
pub struct File {
    pub length: i64,
    pub path: String,
}

/// The `info` dictionary of a torrent.
#[derive(Debug)]
pub struct Info {
    pub name: String,
    pub piece_length: i64,
    /// The 20-byte digest of each piece, in order.
    pub pieces: Vec<Vec<u8>>,
    pub length: Option<i64>,
    pub files: Option<Vec<File>>,
    /// SHA-1 of the raw bytes of the `info` dictionary.
    pub hash: Vec<u8>,
}

/// A parsed torrent descriptor.
#[derive(Debug)]
pub struct TorrentMetaInfo {
    pub announce: String,
    pub info: Info,
}

/// The content of a `File`.
pub ghost struct FileView {
    pub length: i64,
    pub path: Seq<char>,
}

/// The content of a `TorrentMetaInfo`.
pub ghost struct MetaView {
    pub announce: Seq<char>,
    pub name: Seq<char>,
    pub piece_length: i64,
    pub pieces: Seq<Seq<u8>>,
    pub length: Option<i64>,
    pub files: Option<Seq<FileView>>,
    pub hash: Seq<u8>,
}

impl View for File {
    type V = FileView;

    open spec fn view(&self) -> FileView {
        FileView { length: self.length, path: self.path@ }
    }
}

pub open spec fn files_view(fs: Seq<File>) -> Seq<FileView> {
    fs.map_values(|f: File| f@)
}

pub open spec fn pieces_view(ps: Seq<Vec<u8>>) -> Seq<Seq<u8>> {
    ps.map_values(|p: Vec<u8>| p@)
}

impl View for TorrentMetaInfo {
    type V = MetaView;

    open spec fn view(&self) -> MetaView {
        MetaView {
            announce: self.announce@,
            name: self.info.name@,
            piece_length: self.info.piece_length,
            pieces: pieces_view(self.info.pieces@),
            length: self.info.length,
            files: match self.info.files {
                Some(fs) => Some(files_view(fs@)),
                None => None,
            },
            hash: self.info.hash@,
        }
    }
}

/// The byte string stored under `key`.
pub open spec fn field_bytes(d: Seq<(Vec<u8>, BencodeVal)>, key: Seq<u8>, f: Field) -> Result<
    Seq<u8>,
    MetaError,
> {
    match lookup(d, key) {
        Some(BencodeVal::Str { byte_str, .. }) => Ok(byte_str@),
        Some(_) => Err(MetaError::WrongType(f)),
        None => Err(MetaError::Missing(f)),
    }
}

/// The UTF-8 text stored under `key`.
pub open spec fn field_text(d: Seq<(Vec<u8>, BencodeVal)>, key: Seq<u8>, f: Field) -> Result<
    Seq<char>,
    MetaError,
> {
    match field_bytes(d, key, f) {
        Ok(b) => match utf8_decode(b) {
            Some(t) => Ok(t),
            None => Err(MetaError::NotUtf8(f)),
        },
        Err(e) => Err(e),
    }
}

/// The integer stored under `key`.
pub open spec fn field_int(d: Seq<(Vec<u8>, BencodeVal)>, key: Seq<u8>, f: Field) -> Result<
    i64,
    MetaError,
> {
    match lookup(d, key) {
        Some(BencodeVal::Int { int: n, .. }) => Ok(n),
        Some(_) => Err(MetaError::WrongType(f)),
        None => Err(MetaError::Missing(f)),
    }
}

/// Every segment of a path is a byte string.
pub open spec fn all_str(segs: Seq<BencodeVal>) -> bool {
    forall|i: int| 0 <= i < segs.len() ==> #[trigger] segs[i] is Str
}

/// The byte strings of a path's segments joined by `/`.
pub open spec fn path_bytes(segs: Seq<BencodeVal>) -> Seq<u8>
    decreases segs.len(),
{
    if segs.len() == 0 {
        Seq::empty()
    } else if segs.len() == 1 {
        segs[0]->byte_str@
    } else {
        path_bytes(segs.drop_last()) + seq![47u8] + segs.last()->byte_str@
    }
}

/// The file that an entry of `files` describes; `None` for an entry that is
/// not a dictionary, which is passed over.
pub open spec fn file_of(v: BencodeVal) -> Option<Result<FileView, MetaError>> {
    match v {
        BencodeVal::Dict { dict, .. } => Some(
            match field_int(dict@, length_key(), Field::FileLength) {
                Err(e) => Err(e),
                Ok(len) => match lookup(dict@, path_key()) {
                    Some(BencodeVal::List { list, .. }) => if all_str(list@) {
                        match utf8_decode(path_bytes(list@)) {
                            Some(t) => Ok(FileView { length: len, path: t }),
                            None => Err(MetaError::NotUtf8(Field::FilePath)),
                        }
                    } else {
                        Err(MetaError::WrongType(Field::FilePath))
                    },
                    Some(_) => Err(MetaError::WrongType(Field::FilePath)),
                    None => Err(MetaError::Missing(Field::FilePath)),
                },
            },
        ),
        _ => None,
    }
}

/// The files that the entries of `files` describe, or the first entry's error.
pub open spec fn files_of(s: Seq<BencodeVal>) -> Result<Seq<FileView>, MetaError>
    decreases s.len(),
{
    if s.len() == 0 {
        Ok(Seq::empty())
    } else {
        match files_of(s.drop_last()) {
            Err(e) => Err(e),
            Ok(fs) => match file_of(s.last()) {
                None => Ok(fs),
                Some(Ok(f)) => Ok(fs.push(f)),
                Some(Err(e)) => Err(e),
            },
        }
    }
}

/// The consecutive 20-byte slices of `b`.
pub open spec fn chunks20(b: Seq<u8>) -> Seq<Seq<u8>> {
    Seq::new((b.len() / 20) as nat, |i: int| b.subrange(20 * i, 20 * i + 20))
}

/// The descriptor that the dictionary `info` (decoded from `s`) and the
/// announce URL describe.
pub open spec fn info_of(announce: Seq<char>, info: BencodeVal, s: Seq<u8>) -> Result<
    MetaView,
    MetaError,
> {
    match info {
        BencodeVal::Dict { index, dict, size } => {
            let d = dict@;
            match field_text(d, name_key(), Field::Name) {
                Err(e) => Err(e),
                Ok(name) => match field_int(d, piece_length_key(), Field::PieceLength) {
                    Err(e) => Err(e),
                    Ok(pl) => if pl <= 0 {
                        Err(MetaError::BadValue(Field::PieceLength))
                    } else {
                        match field_bytes(d, pieces_key(), Field::Pieces) {
                            Err(e) => Err(e),
                            Ok(pieces) => if pieces.len() % 20 != 0 {
                                Err(MetaError::BadValue(Field::Pieces))
                            } else {
                                let length = match lookup(d, length_key()) {
                                    Some(BencodeVal::Int { int: n, .. }) => Some(n),
                                    _ => None,
                                };
                                let files = match lookup(d, files_key()) {
                                    Some(BencodeVal::List { list, .. }) => Some(files_of(list@)),
                                    _ => None,
                                };
                                match files {
                                    Some(Err(e)) => Err(e),
                                    _ => if length is None && files is None {
                                        Err(MetaError::Missing(Field::Length))
                                    } else {
                                        Ok(
                                            MetaView {
                                                announce,
                                                name,
                                                piece_length: pl,
                                                pieces: chunks20(pieces),
                                                length,
                                                files: match files {
                                                    Some(Ok(fs)) => Some(fs),
                                                    _ => None,
                                                },
                                                hash: sha1_of(
                                                    s.subrange(index as int, index + size),
                                                ),
                                            },
                                        )
                                    },
                                }
                            },
                        }
                    },
                },
            }
        },
        _ => Err(MetaError::WrongType(Field::Info)),
    }
}

/// The descriptor that the decoded value `root` of `s` describes, or the
/// first error met in the order announce, info, name, piece length, pieces,
/// files, length.
pub open spec fn meta_of(root: BencodeVal, s: Seq<u8>) -> Result<MetaView, MetaError> {
    match root {
        BencodeVal::Dict { dict, .. } => match field_text(dict@, announce_key(), Field::Announce) {
            Err(e) => Err(e),
            Ok(announce) => match lookup(dict@, info_key()) {
                None => Err(MetaError::Missing(Field::Info)),
                Some(info) => info_of(announce, info, s),
            },
        },
        _ => Err(MetaError::NotADict),
    }
}

fn get_bytes<'a>(d: &'a Vec<(Vec<u8>, BencodeVal)>, key: &[u8], f: Field) -> (r: Result<
    &'a Vec<u8>,
    MetaError,
>)
    ensures
        !(r matches Err(MetaError::Decode(_))),
        match r {
            Ok(b) => field_bytes(d@, key@, f) == Ok::<Seq<u8>, MetaError>(b@),
            Err(e) => field_bytes(d@, key@, f) == Err::<Seq<u8>, MetaError>(e),
        },
{
    match dict_get(d, key) {
        Some(BencodeVal::Str { byte_str, .. }) => Ok(byte_str),
        Some(_) => Err(MetaError::WrongType(f)),
        None => Err(MetaError::Missing(f)),
    }
}

fn get_text(d: &Vec<(Vec<u8>, BencodeVal)>, key: &[u8], f: Field) -> (r: Result<String, MetaError>)
    ensures
        !(r matches Err(MetaError::Decode(_))),
        match r {
            Ok(t) => field_text(d@, key@, f) == Ok::<Seq<char>, MetaError>(t@),
            Err(e) => field_text(d@, key@, f) == Err::<Seq<char>, MetaError>(e),
        },
{
    let b = match get_bytes(d, key, f) {
        Ok(b) => b,
        Err(e) => return Err(e),
    };
    match utf8_text(b.as_slice()) {
        Some(t) => Ok(t),
        None => Err(MetaError::NotUtf8(f)),
    }
}

fn get_int(d: &Vec<(Vec<u8>, BencodeVal)>, key: &[u8], f: Field) -> (r: Result<i64, MetaError>)
    ensures
        !(r matches Err(MetaError::Decode(_))),
        match r {
            Ok(n) => field_int(d@, key@, f) == Ok::<i64, MetaError>(n),
            Err(e) => field_int(d@, key@, f) == Err::<i64, MetaError>(e),
        },
{
    match dict_get(d, key) {
        Some(BencodeVal::Int { int: n, .. }) => Ok(*n),
        Some(_) => Err(MetaError::WrongType(f)),
        None => Err(MetaError::Missing(f)),
    }
}


/// The segments of a path joined by `/`.
fn join_path(segs: &Vec<BencodeVal>) -> (r: Option<Vec<u8>>)
    ensures
        match r {
            Some(p) => all_str(segs@) && path_bytes(segs@) == p@,
            None => !all_str(segs@),
        },
{
    let mut out: Vec<u8> = Vec::new();
    let mut k: usize = 0;
    assert(segs@.subrange(0, 0) =~= Seq::<BencodeVal>::empty());
    while k < segs.len()
        invariant
            0 <= k <= segs@.len(),
            path_bytes(segs@.subrange(0, k as int)) == out@,
            forall|i: int| 0 <= i < k ==> #[trigger] segs@[i] is Str,
        decreases segs@.len() - k,
    {
        let ghost prev = out@;
        assert(segs@.subrange(0, k + 1).drop_last() =~= segs@.subrange(0, k as int));
        match &segs[k] {
            BencodeVal::Str { byte_str, .. } => {
                if k > 0 {
                    out.push(47);
                }
                let mut i: usize = 0;
                let ghost mid = out@;
                while i < byte_str.len()
                    invariant
                        0 <= i <= byte_str@.len(),
                        out@ == mid + byte_str@.subrange(0, i as int),
                    decreases byte_str@.len() - i,
                {
                    out.push(byte_str[i]);
                    assert(byte_str@.subrange(0, i + 1) =~= byte_str@.subrange(0, i as int).push(
                        byte_str@[i as int],
                    ));
                    i = i + 1;
                }
                assert(byte_str@.subrange(0, i as int) =~= byte_str@);
                proof {
                    if k == 0 {
                        assert(prev =~= Seq::<u8>::empty());
                        assert(out@ =~= byte_str@);
                    } else {
                        assert(out@ =~= prev + seq![47u8] + byte_str@);
                    }
                }
            },
            _ => {
                assert(!(segs@[k as int] is Str));
                return None;
            },
        }
        k = k + 1;
    }
    assert(segs@.subrange(0, k as int) =~= segs@);
    Some(out)
}

/// The file that an entry of `files` describes.
fn file_from(v: &BencodeVal) -> (r: Option<Result<File, MetaError>>)
    ensures
        !(r matches Some(Err(MetaError::Decode(_)))),
        match r {
            Some(Ok(f)) => file_of(*v) == Some(Ok::<FileView, MetaError>(f@)),
            Some(Err(e)) => file_of(*v) == Some(Err::<FileView, MetaError>(e)),
            None => file_of(*v) is None,
        },
{
    let dict = match v {
        BencodeVal::Dict { dict, .. } => dict,
        _ => return None,
    };
    let length = match get_int(dict, length_key_bytes().as_slice(), Field::FileLength) {
        Ok(n) => n,
        Err(e) => return Some(Err(e)),
    };
    let segs = match dict_get(dict, path_key_bytes().as_slice()) {
        Some(BencodeVal::List { list, .. }) => list,
        Some(_) => return Some(Err(MetaError::WrongType(Field::FilePath))),
        None => return Some(Err(MetaError::Missing(Field::FilePath))),
    };
    let joined = match join_path(segs) {
        Some(p) => p,
        None => return Some(Err(MetaError::WrongType(Field::FilePath))),
    };
    match utf8_text(joined.as_slice()) {
        Some(path) => Some(Ok(File { length, path })),
        None => Some(Err(MetaError::NotUtf8(Field::FilePath))),
    }
}

/// An error in the files of a prefix of the entries is the error of them all.
proof fn lemma_files_error_kept(s: Seq<BencodeVal>, k: int, e: MetaError)
    requires
        0 <= k <= s.len(),
        files_of(s.subrange(0, k)) == Err::<Seq<FileView>, MetaError>(e),
    ensures
        files_of(s) == Err::<Seq<FileView>, MetaError>(e),
    decreases s.len() - k,
{
    if k == s.len() {
        assert(s.subrange(0, k) =~= s);
    } else {
        assert(s.subrange(0, k + 1).drop_last() =~= s.subrange(0, k));
        lemma_files_error_kept(s, k + 1, e);
    }
}

/// The files that the entries of `files` describe.
fn files_from(list: &Vec<BencodeVal>) -> (r: Result<Vec<File>, MetaError>)
    ensures
        !(r matches Err(MetaError::Decode(_))),
        match r {
            Ok(fs) => files_of(list@) == Ok::<Seq<FileView>, MetaError>(files_view(fs@)),
            Err(e) => files_of(list@) == Err::<Seq<FileView>, MetaError>(e),
        },
{
    let mut out: Vec<File> = Vec::new();
    let mut k: usize = 0;
    assert(list@.subrange(0, 0) =~= Seq::<BencodeVal>::empty());
    assert(files_view(out@) =~= Seq::<FileView>::empty());
    while k < list.len()
        invariant
            0 <= k <= list@.len(),
            files_of(list@.subrange(0, k as int)) == Ok::<Seq<FileView>, MetaError>(
                files_view(out@),
            ),
        decreases list@.len() - k,
    {
        assert(list@.subrange(0, k + 1).drop_last() =~= list@.subrange(0, k as int));
        assert(list@.subrange(0, k + 1).last() == list@[k as int]);
        match file_from(&list[k]) {
            None => {},
            Some(Ok(f)) => {
                let ghost prev = out@;
                out.push(f);
                assert(files_view(out@) =~= files_view(prev).push(f@));
            },
            Some(Err(e)) => {
                proof {
                    lemma_files_error_kept(list@, k + 1, e);
                }
                return Err(e);
            },
        }
        k = k + 1;
    }
    assert(list@.subrange(0, k as int) =~= list@);
    Ok(out)
}

/// The consecutive 20-byte slices of `b`.
fn split_pieces(b: &Vec<u8>) -> (r: Vec<Vec<u8>>)
    requires
        b@.len() % 20 == 0,
    ensures
        pieces_view(r@) == chunks20(b@),
{
    let mut out: Vec<Vec<u8>> = Vec::new();
    let mut off: usize = 0;
    let ghost mut i: int = 0;
    while b.len() - off >= 20
        invariant
            b@.len() % 20 == 0,
            off == 20 * i,
            0 <= i <= b@.len() / 20,
            off <= b@.len(),
            pieces_view(out@) == chunks20(b@).take(i),
        decreases b@.len() - off,
    {
        let piece = copy_range(b.as_slice(), off, off + 20);
        let ghost prev = out@;
        out.push(piece);
        proof {
            assert(pieces_view(out@) =~= pieces_view(prev).push(piece@));
            assert(i < b@.len() / 20) by (nonlinear_arith)
                requires
                    20 * i + 20 <= b@.len(),
            ;
            assert(pieces_view(out@) =~= chunks20(b@).take(i + 1));
            i = i + 1;
        }
        off = off + 20;
    }
    proof {
        assert(i == b@.len() / 20) by (nonlinear_arith)
            requires
                20 * i + 20 > b@.len(),
                b@.len() % 20 == 0,
                0 <= i <= b@.len() / 20,
        ;
        assert(chunks20(b@).take(i) =~= chunks20(b@));
    }
    out
}

impl TorrentMetaInfo {
    /// Reads a torrent descriptor. The info-hash is the SHA-1 of the bytes
    /// that the `info` dictionary occupies in `contents`.
    pub fn new(contents: &[u8]) -> (r: Result<TorrentMetaInfo, MetaError>)
        ensures
            match r {
                Ok(m) => exists|root: BencodeVal, n: int|
                    decodes_to(contents@, root, n) && meta_of(root, contents@) == Ok::<
                        MetaView,
                        MetaError,
                    >(m@),
                Err(MetaError::Decode(_)) => forall|w: BencodeVal|
                #[trigger] encoded_at(w, contents@, 0) ==> !well_formed(w),
                Err(e) => exists|root: BencodeVal, n: int|
                    decodes_to(contents@, root, n) && meta_of(root, contents@) == Err::<
                        MetaView,
                        MetaError,
                    >(e),
            },
    {
        let (root, n) = match decode(contents) {
            Ok(p) => p,
            Err(e) => return Err(MetaError::Decode(e)),
        };
        let r = Self::from_value(&root, contents);
        assert(decodes_to(contents@, root, n as int));
        r
    }

    /// Reads a torrent descriptor from its decoded value `root`, whose offsets
    /// refer to `contents`.
    pub fn from_value(root: &BencodeVal, contents: &[u8]) -> (r: Result<TorrentMetaInfo, MetaError>)
        requires
            crate::bencode::decoded_from(*root, contents@),
        ensures
            !(r matches Err(MetaError::Decode(_))),
            match r {
                Ok(m) => meta_of(*root, contents@) == Ok::<MetaView, MetaError>(m@),
                Err(e) => meta_of(*root, contents@) == Err::<MetaView, MetaError>(e),
            },
    {
        let dict = match root {
            BencodeVal::Dict { dict, .. } => dict,
            _ => return Err(MetaError::NotADict),
        };
        let announce = match get_text(dict, announce_key_bytes().as_slice(), Field::Announce) {
            Ok(t) => t,
            Err(e) => return Err(e),
        };
        let ikey = info_key_bytes();
        let info = match dict_get(dict, ikey.as_slice()) {
            Some(v) => v,
            None => return Err(MetaError::Missing(Field::Info)),
        };
        let (index, idict, size) = match info {
            BencodeVal::Dict { index, dict, size } => (*index, dict, *size),
            _ => return Err(MetaError::WrongType(Field::Info)),
        };
        let name = match get_text(idict, name_key_bytes().as_slice(), Field::Name) {
            Ok(t) => t,
            Err(e) => return Err(e),
        };
        let piece_length = match get_int(
            idict,
            piece_length_key_bytes().as_slice(),
            Field::PieceLength,
        ) {
            Ok(n) => n,
            Err(e) => return Err(e),
        };
        if piece_length <= 0 {
            return Err(MetaError::BadValue(Field::PieceLength));
        }
        let pieces_bytes = match get_bytes(idict, pieces_key_bytes().as_slice(), Field::Pieces) {
            Ok(b) => b,
            Err(e) => return Err(e),
        };
        if pieces_bytes.len() % 20 != 0 {
            return Err(MetaError::BadValue(Field::Pieces));
        }
        let length = match dict_get(idict, length_key_bytes().as_slice()) {
            Some(BencodeVal::Int { int: n, .. }) => Some(*n),
            _ => None,
        };
        let files = match dict_get(idict, files_key_bytes().as_slice()) {
            Some(BencodeVal::List { list, .. }) => match files_from(list) {
                Ok(fs) => Some(fs),
                Err(e) => return Err(e),
            },
            _ => None,
        };
        if length.is_none() && files.is_none() {
            return Err(MetaError::Missing(Field::Length));
        }
        proof {
            crate::bencode::lemma_child_decoded(*root, contents@, info_key());
            assert(root->dict == *dict);
            assert(lookup(dict@, info_key()) == Some(*info));
            assert(info.start() == index && info.extent() == size);
            assert(crate::bencode::decoded_from(*info, contents@));
            assert(index + size <= contents@.len());
        }
        let clen = contents.len();
        let raw = copy_range(contents, index, index + size);
        let hash = sha1_digest(raw.as_slice());
        let pieces = split_pieces(pieces_bytes);
        let m = TorrentMetaInfo {
            announce,
            info: Info { name, piece_length, pieces, length, files, hash },
        };
        Ok(m)
    }
}


/// The info-hash of a descriptor is the digest of the encoding of its decoded
/// `info` dictionary: hashing the recorded byte range and hashing the
/// dictionary serialised again give the same digest.
pub proof fn lemma_info_hash_reserialised(root: BencodeVal, s: Seq<u8>, m: MetaView)
    requires
        decoded_from(root, s),
        meta_of(root, s) == Ok::<MetaView, MetaError>(m),
    ensures
        m.hash == sha1_of(encoding(lookup(root->dict@, info_key())->0)),
{
    lemma_child_decoded(root, s, info_key());
}


/// The sum of the files' lengths.
pub open spec fn files_total(fs: Seq<File>) -> int
    decreases fs.len(),
{
    if fs.len() == 0 {
        0
    } else {
        files_total(fs.drop_last()) + fs.last().length
    }
}

/// Every file length is at least zero.
pub open spec fn lengths_nonneg(fs: Seq<File>) -> bool {
    forall|i: int| 0 <= i < fs.len() ==> (#[trigger] fs[i]).length >= 0
}

impl Info {
    /// The payload's size in bytes: `length` in single-file mode, otherwise
    /// the sum of the files' lengths. `None` for a negative length, or a sum
    /// beyond `u64`.
    pub open spec fn total_spec(&self) -> Option<int> {
        match self.length {
            Some(n) => if n >= 0 {
                Some(n as int)
            } else {
                None
            },
            None => match self.files {
                Some(fs) => if lengths_nonneg(fs@) && files_total(fs@) <= u64::MAX {
                    Some(files_total(fs@))
                } else {
                    None
                },
                None => None,
            },
        }
    }

    /// The payload's size in bytes; see `total_spec`.
    pub fn total_length(&self) -> (r: Option<u64>)
        ensures
            match r {
                Some(t) => self.total_spec() == Some(t as int),
                None => self.total_spec() is None,
            },
    {
        match self.length {
            Some(n) => if n >= 0 {
                Some(n as u64)
            } else {
                None
            },
            None => match &self.files {
                Some(fs) => {
                    let mut sum: u64 = 0;
                    let mut k: usize = 0;
                    assert(fs@.subrange(0, 0) =~= Seq::<File>::empty());
                    while k < fs.len()
                        invariant
                            0 <= k <= fs@.len(),
                            self.length is None,
                            self.files matches Some(f) && f@ == fs@,
                            lengths_nonneg(fs@.subrange(0, k as int)),
                            sum == files_total(fs@.subrange(0, k as int)),
                        decreases fs@.len() - k,
                    {
                        let ghost pre = fs@.subrange(0, k as int);
                        assert(fs@.subrange(0, k + 1).drop_last() =~= pre);
                        let len = fs[k].length;
                        if len < 0 {
                            assert(!lengths_nonneg(fs@));
                            return None;
                        }
                        if len as u64 > u64::MAX - sum {
                            proof {
                                lemma_files_total_grows(fs@, k + 1);
                            }
                            return None;
                        }
                        sum = sum + len as u64;
                        k = k + 1;
                    }
                    assert(fs@.subrange(0, k as int) =~= fs@);
                    Some(sum)
                },
                None => None,
            },
        }
    }

    /// The piece table of the payload: each piece with its length and digest,
    /// no owner, available. `None` when the payload's size is not known (see
    /// `total_spec`), when there are fewer digests than pieces, or more pieces
    /// than a `u32` index can number.
    pub fn piece_table(&self) -> (r: Option<Vec<Piece>>)
        requires
            self.piece_length > 0,
        ensures
            match r {
                Some(t) => self.total_spec() matches Some(total) && is_fresh_table(
                    t@,
                    self.piece_length as int,
                    total,
                    self.pieces@,
                ),
                None => match self.total_spec() {
                    None => true,
                    Some(total) => self.pieces@.len() < piece_count(self.piece_length as int, total)
                        || piece_count(self.piece_length as int, total) > 4294967296,
                },
            },
    {
        let total = match self.total_length() {
            Some(t) => t,
            None => return None,
        };
        build_pieces(self.piece_length as u64, total, &self.pieces)
    }
}

/// With non-negative lengths, the sum of a prefix's lengths is at most the
/// sum of all of them.
proof fn lemma_files_total_grows(fs: Seq<File>, k: int)
    requires
        0 <= k <= fs.len(),
    ensures
        lengths_nonneg(fs) ==> files_total(fs.subrange(0, k)) <= files_total(fs),
    decreases fs.len() - k,
{
    if k < fs.len() {
        lemma_files_total_grows(fs, k + 1);
        assert(fs.subrange(0, k + 1).drop_last() =~= fs.subrange(0, k));
    } else {
        assert(fs.subrange(0, k) =~= fs);
    }
}

} // verus!
