//! The metainfo model: the typed representation of a torrent document, its
//! decoding from a bencoded value tree, and the canonical re-encoding of the
//! `info` dictionary that yields the info-hash.

use vstd::prelude::*;
use vstd::utf8::{decode_utf8, encode_utf8, valid_utf8};

use crate::bencode::{encode_value, parse_value_at, spec_encode_value, spec_parse_value};
use crate::error::{DecodeError, EncodeError, Field};
use crate::keys::{
    key_announce, key_announce_list, key_comment, key_created_by, key_creation_date, key_encoding,
    key_files, key_info, key_length, key_name, key_path, key_piece_length, key_pieces,
    key_private, key_source, spec_key_announce, spec_key_announce_list, spec_key_comment,
    spec_key_created_by, spec_key_creation_date, spec_key_encoding, spec_key_files, spec_key_info,
    spec_key_length, spec_key_name, spec_key_path, spec_key_piece_length, spec_key_pieces,
    spec_key_private, spec_key_source,
};
use crate::util::{
    get_optional_int_value, get_optional_utf8_value, get_utf8_value, spec_get_optional_int,
    spec_get_optional_utf8, spec_get_utf8, utf8_to_string,
};
use crate::value::{
    dict_lookup, lemma_model_entries, lemma_model_items, model_entries, model_items, spec_lookup,
    SpecValue, Value,
};

verus! {

/// One file of a multi-file torrent.
pub struct BFile {
    /// Size in bytes.
    pub length: i64,
    /// Path segments in order; joining them is left to the consumer.
    pub path: Vec<String>,
}

/// The mathematical model of a `BFile`.
pub struct SpecFileEntry {
    pub length: int,
    pub path: Seq<Seq<char>>,
}

impl View for BFile {
    type V = SpecFileEntry;

    open spec fn view(&self) -> SpecFileEntry {
        SpecFileEntry {
            length: self.length as int,
            path: Seq::new(self.path@.len(), |i: int| self.path@[i]@),
        }
    }
}

/// The hashed payload of a metainfo document.
pub struct BInfo {
    /// Present exactly when the torrent is a multi-file torrent; mutually
    /// exclusive with `length`.
    pub files: Option<Vec<BFile>>,
    /// Present exactly when the torrent is a single-file torrent; mutually
    /// exclusive with `files`.
    pub length: Option<i64>,
    /// Suggested title, and for a single-file torrent the suggested file
    /// name.
    pub name: String,
    /// Bytes per piece.
    pub piece_size: i64,
    /// The 20-byte piece hashes, concatenated.
    pub pieces: Vec<u8>,
    /// Whether DHT should be disabled; carried on the wire as integer 0/1.
    pub private: Option<bool>,
    /// The tracker the torrent came from; private trackers set it to force
    /// distinct info-hashes.
    pub source: Option<String>,
}

/// The mathematical model of a `BInfo`.
pub struct SpecInfo {
    pub files: Option<Seq<SpecFileEntry>>,
    pub length: Option<int>,
    pub name: Seq<char>,
    pub piece_size: int,
    pub pieces: Seq<u8>,
    pub private: Option<bool>,
    pub source: Option<Seq<char>>,
}

impl View for BInfo {
    type V = SpecInfo;

    open spec fn view(&self) -> SpecInfo {
        SpecInfo {
            files: match self.files {
                Some(fs) => Some(Seq::new(fs@.len(), |i: int| fs@[i]@)),
                None => None,
            },
            length: match self.length {
                Some(l) => Some(l as int),
                None => None,
            },
            name: self.name@,
            piece_size: self.piece_size as int,
            pieces: self.pieces@,
            private: self.private,
            source: match self.source {
                Some(s) => Some(s@),
                None => None,
            },
        }
    }
}

/// A metainfo document.
pub struct BMetainfo {
    /// The tracker to announce to; overridden by `announce_list` when that
    /// is present.
    pub announce: String,
    /// Tiers of fallback trackers.
    pub announce_list: Option<Vec<Vec<String>>>,
    /// Free-form comment.
    pub comment: Option<String>,
    /// The tool that created the torrent.
    pub created_by: Option<String>,
    /// Seconds since the epoch.
    pub created_on: Option<i64>,
    /// Encoding of the names in `info`; when present it must name UTF-8,
    /// case-insensitively, or decoding fails.
    pub encoding: Option<String>,
    /// The hashed payload.
    pub info: BInfo,
}

/// The mathematical model of a `BMetainfo`.
pub struct SpecMetainfo {
    pub announce: Seq<char>,
    pub announce_list: Option<Seq<Seq<Seq<char>>>>,
    pub comment: Option<Seq<char>>,
    pub created_by: Option<Seq<char>>,
    pub created_on: Option<int>,
    pub encoding: Option<Seq<char>>,
    pub info: SpecInfo,
}

impl View for BMetainfo {
    type V = SpecMetainfo;

    open spec fn view(&self) -> SpecMetainfo {
        SpecMetainfo {
            announce: self.announce@,
            announce_list: match self.announce_list {
                Some(al) => Some(
                    Seq::new(
                        al@.len(),
                        |i: int| Seq::new(al@[i]@.len(), |j: int| al@[i]@[j]@),
                    ),
                ),
                None => None,
            },
            comment: match self.comment {
                Some(s) => Some(s@),
                None => None,
            },
            created_by: match self.created_by {
                Some(s) => Some(s@),
                None => None,
            },
            created_on: match self.created_on {
                Some(t) => Some(t as int),
                None => None,
            },
            encoding: match self.encoding {
                Some(s) => Some(s@),
                None => None,
            },
            info: self.info@,
        }
    }
}

/// Decodes the elements of a `path` list: every element must be a UTF-8
/// byte string.
pub open spec fn spec_decode_path(items: Seq<SpecValue>) -> Result<Seq<Seq<char>>, DecodeError> {
    spec_decode_string_list(items, Field::Path, DecodeError::WrongType(Field::Path))
}

/// Decodes one entry of a `files` list, which must be a dictionary with a
/// non-negative `length` and a `path` list.
pub open spec fn spec_decode_file(v: SpecValue) -> Result<SpecFileEntry, DecodeError> {
    match v {
        SpecValue::Dictionary(es) => match spec_lookup(es, spec_key_length()) {
            None => Err(DecodeError::MissingField(Field::Length)),
            Some(SpecValue::Integer(l)) => if l < 0 {
                Err(DecodeError::NegativeValue(Field::Length))
            } else {
                match spec_lookup(es, spec_key_path()) {
                    None => Err(DecodeError::MissingField(Field::Path)),
                    Some(SpecValue::List(items)) => match spec_decode_path(items) {
                        Ok(p) => Ok(SpecFileEntry { length: l, path: p }),
                        Err(e) => Err(e),
                    },
                    Some(_) => Err(DecodeError::WrongType(Field::Path)),
                }
            },
            Some(_) => Err(DecodeError::WrongType(Field::Length)),
        },
        _ => Err(DecodeError::WrongType(Field::Files)),
    }
}

/// Decodes a `files` list, whose elements must all be file dictionaries.
pub open spec fn spec_decode_files(items: Seq<SpecValue>) -> Result<Seq<SpecFileEntry>, DecodeError>
    decreases items.len(),
{
    if items.len() == 0 {
        Ok(Seq::empty())
    } else {
        match spec_decode_file(items[0]) {
            Ok(f) => match spec_decode_files(items.drop_first()) {
                Ok(rest) => Ok(seq![f] + rest),
                Err(e) => Err(e),
            },
            Err(e) => Err(e),
        }
    }
}

/// Decodes an `info` dictionary. Unknown keys are ignored; exactly one of
/// `length` and `files` must be present, checked after all fields are read.
pub open spec fn spec_decode_info(es: Seq<(Seq<u8>, SpecValue)>) -> Result<SpecInfo, DecodeError> {
    let files_r: Result<Option<Seq<SpecFileEntry>>, DecodeError> = match spec_lookup(
        es,
        spec_key_files(),
    ) {
        None => Ok(None),
        Some(SpecValue::List(items)) => match spec_decode_files(items) {
            Ok(fs) => Ok(Some(fs)),
            Err(e) => Err(e),
        },
        Some(_) => Err(DecodeError::WrongType(Field::Files)),
    };
    match files_r {
        Err(e) => Err(e),
        Ok(files) => {
            let length_r: Result<Option<int>, DecodeError> = match spec_lookup(
                es,
                spec_key_length(),
            ) {
                None => Ok(None),
                Some(SpecValue::Integer(l)) => if l < 0 {
                    Err(DecodeError::NegativeValue(Field::Length))
                } else {
                    Ok(Some(l))
                },
                Some(_) => Err(DecodeError::WrongType(Field::Length)),
            };
            match length_r {
                Err(e) => Err(e),
                Ok(length) => match spec_get_utf8(es, spec_key_name(), Field::Name) {
                    Err(e) => Err(e),
                    Ok(name) => {
                        let piece_r: Result<int, DecodeError> = match spec_lookup(
                            es,
                            spec_key_piece_length(),
                        ) {
                            None => Err(DecodeError::MissingField(Field::PieceLength)),
                            Some(SpecValue::Integer(p)) => if p < 0 {
                                Err(DecodeError::NegativeValue(Field::PieceLength))
                            } else {
                                Ok(p)
                            },
                            Some(_) => Err(DecodeError::WrongType(Field::PieceLength)),
                        };
                        match piece_r {
                            Err(e) => Err(e),
                            Ok(piece_size) => {
                                let pieces_r: Result<Seq<u8>, DecodeError> = match spec_lookup(
                                    es,
                                    spec_key_pieces(),
                                ) {
                                    None => Err(DecodeError::MissingField(Field::Pieces)),
                                    Some(SpecValue::Bytes(b)) => Ok(b),
                                    Some(_) => Err(DecodeError::WrongType(Field::Pieces)),
                                };
                                match pieces_r {
                                    Err(e) => Err(e),
                                    Ok(pieces) => match spec_get_optional_int(
                                        es,
                                        spec_key_private(),
                                        Field::Private,
                                    ) {
                                        Err(e) => Err(e),
                                        Ok(private_int) => match spec_get_optional_utf8(
                                            es,
                                            spec_key_source(),
                                            Field::Source,
                                        ) {
                                            Err(e) => Err(e),
                                            Ok(source) => if (length is Some) == (files is Some) {
                                                Err(DecodeError::ConflictingFields)
                                            } else {
                                                Ok(
                                                    SpecInfo {
                                                        files,
                                                        length,
                                                        name,
                                                        piece_size,
                                                        pieces,
                                                        private: match private_int {
                                                            Some(i) => Some(i != 0),
                                                            None => None,
                                                        },
                                                        source,
                                                    },
                                                )
                                            },
                                        },
                                    },
                                }
                            },
                        }
                    },
                },
            }
        },
    }
}

/// Decodes one announce tier: a list of UTF-8 strings.
pub open spec fn spec_decode_tier(items: Seq<SpecValue>) -> Result<Seq<Seq<char>>, DecodeError> {
    spec_decode_string_list(items, Field::AnnounceList, DecodeError::MalformedAnnounceList)
}

/// Decodes an announce list: a list of tiers.
pub open spec fn spec_decode_tiers(items: Seq<SpecValue>) -> Result<
    Seq<Seq<Seq<char>>>,
    DecodeError,
>
    decreases items.len(),
{
    if items.len() == 0 {
        Ok(Seq::empty())
    } else {
        match items[0] {
            SpecValue::List(tier) => match spec_decode_tier(tier) {
                Ok(t) => match spec_decode_tiers(items.drop_first()) {
                    Ok(rest) => Ok(seq![t] + rest),
                    Err(e) => Err(e),
                },
                Err(e) => Err(e),
            },
            _ => Err(DecodeError::MalformedAnnounceList),
        }
    }
}

/// The optional announce list of a metainfo dictionary: absent is fine, but
/// a present value must be a list of lists of strings.
pub open spec fn spec_decode_announce_list(es: Seq<(Seq<u8>, SpecValue)>) -> Result<
    Option<Seq<Seq<Seq<char>>>>,
    DecodeError,
> {
    match spec_lookup(es, spec_key_announce_list()) {
        None => Ok(None),
        Some(SpecValue::List(items)) => match spec_decode_tiers(items) {
            Ok(tiers) => Ok(Some(tiers)),
            Err(e) => Err(e),
        },
        Some(_) => Err(DecodeError::MalformedAnnounceList),
    }
}

/// Whether a string names UTF-8, ASCII-case-insensitively.
pub open spec fn spec_is_utf8_label(cs: Seq<char>) -> bool {
    cs.len() == 5 && (cs[0] == 'u' || cs[0] == 'U') && (cs[1] == 't' || cs[1] == 'T') && (cs[2]
        == 'f' || cs[2] == 'F') && cs[3] == '-' && cs[4] == '8'
}

/// Decodes a metainfo document from its parsed value, which must be a
/// dictionary. Unknown keys are ignored for forward compatibility.
pub open spec fn spec_decode_metainfo(v: SpecValue) -> Result<SpecMetainfo, DecodeError> {
    match v {
        SpecValue::Dictionary(es) => match spec_get_utf8(es, spec_key_announce(), Field::Announce) {
            Err(e) => Err(e),
            Ok(announce) => match spec_decode_announce_list(es) {
                Err(e) => Err(e),
                Ok(announce_list) => match spec_get_optional_utf8(
                    es,
                    spec_key_comment(),
                    Field::Comment,
                ) {
                    Err(e) => Err(e),
                    Ok(comment) => match spec_get_optional_utf8(
                        es,
                        spec_key_created_by(),
                        Field::CreatedBy,
                    ) {
                        Err(e) => Err(e),
                        Ok(created_by) => match spec_get_optional_int(
                            es,
                            spec_key_creation_date(),
                            Field::CreationDate,
                        ) {
                            Err(e) => Err(e),
                            Ok(created_on) => match spec_get_optional_utf8(
                                es,
                                spec_key_encoding(),
                                Field::Encoding,
                            ) {
                                Err(e) => Err(e),
                                Ok(encoding) => if (encoding matches Some(cs)
                                    && !spec_is_utf8_label(cs)) {
                                    Err(DecodeError::UnsupportedEncoding)
                                } else {
                                    match spec_lookup(es, spec_key_info()) {
                                        None => Err(DecodeError::MissingField(Field::Info)),
                                        Some(SpecValue::Dictionary(ies)) => match spec_decode_info(
                                            ies,
                                        ) {
                                            Err(e) => Err(e),
                                            Ok(info) => Ok(
                                                SpecMetainfo {
                                                    announce,
                                                    announce_list,
                                                    comment,
                                                    created_by,
                                                    created_on,
                                                    encoding,
                                                    info,
                                                },
                                            ),
                                        },
                                        Some(_) => Err(DecodeError::WrongType(Field::Info)),
                                    }
                                },
                            },
                        },
                    },
                },
            },
        },
        _ => Err(DecodeError::WrongType(Field::Document)),
    }
}

/// Decodes a metainfo document from raw bytes: exactly one bencoded
/// dictionary and nothing after it.
pub open spec fn spec_metainfo_from_bytes(bytes: Seq<u8>) -> Result<SpecMetainfo, DecodeError> {
    match spec_parse_value(bytes) {
        None => Err(DecodeError::ParseFailure),
        Some((v, n)) => if n != bytes.len() {
            Err(DecodeError::TrailingData)
        } else {
            spec_decode_metainfo(v)
        },
    }
}

/// The views of a sequence of strings.
pub open spec fn strings_model(ss: Seq<String>) -> Seq<Seq<char>> {
    Seq::new(ss.len(), |i: int| ss[i]@)
}

/// The views of a sequence of file entries.
pub open spec fn files_model(fs: Seq<BFile>) -> Seq<SpecFileEntry> {
    Seq::new(fs.len(), |i: int| fs[i]@)
}

/// The views of a sequence of announce tiers.
pub open spec fn tiers_model(ts: Seq<Vec<String>>) -> Seq<Seq<Seq<char>>> {
    Seq::new(ts.len(), |i: int| strings_model(ts[i]@))
}

/// Decodes a list value whose elements must all be UTF-8 byte strings,
/// tagging failures with `f`. A non-string element fails with `other`.
fn decode_string_list(items: &Vec<Value>, f: Field, other: DecodeError) -> (r: Result<
    Vec<String>,
    DecodeError,
>)
    ensures
        match r {
            Ok(ss) => spec_decode_string_list(model_items(items@), f, other) == Ok::<
                Seq<Seq<char>>,
                DecodeError,
            >(strings_model(ss@)),
            Err(e) => spec_decode_string_list(model_items(items@), f, other) == Err::<
                Seq<Seq<char>>,
                DecodeError,
            >(e),
        },
{
    proof {
        lemma_model_items(items@);
        assert(model_items(items@).skip(0) =~= model_items(items@));
    }
    let ghost m = model_items(items@);
    let n = items.len();
    let mut out: Vec<String> = Vec::new();
    let mut i: usize = 0;
    while i < n
        invariant
            i <= n,
            n == items@.len(),
            m == model_items(items@),
            m.len() == n,
            forall|j: int| 0 <= j < n ==> m[j] == items@[j].model(),
            out@.len() == i,
            spec_decode_string_list(m, f, other) == (match spec_decode_string_list(
                m.skip(i as int),
                f,
                other,
            ) {
                Ok(rest) => Ok::<Seq<Seq<char>>, DecodeError>(strings_model(out@) + rest),
                Err(e) => Err::<Seq<Seq<char>>, DecodeError>(e),
            }),
        decreases n - i,
    {
        proof {
            assert(m.skip(i as int)[0] == m[i as int]);
            assert(m.skip(i as int).drop_first() =~= m.skip(i + 1));
        }
        match &items[i] {
            Value::Bytes(b) => {
                match utf8_to_string(b.as_slice()) {
                    Some(s) => {
                        let ghost prev = out@;
                        out.push(s);
                        proof {
                            if spec_decode_string_list(m.skip(i + 1), f, other) is Ok {
                                let rest = spec_decode_string_list(
                                    m.skip(i + 1),
                                    f,
                                    other,
                                )->Ok_0;
                                assert(strings_model(out@) + rest =~= strings_model(prev) + (seq![
                                    decode_utf8(b@),
                                ] + rest));
                            }
                        }
                    },
                    None => {
                        return Err(DecodeError::InvalidUtf8(f));
                    },
                }
            },
            _ => {
                return Err(other);
            },
        }
        i = i + 1;
    }
    proof {
        assert(m.skip(n as int) =~= Seq::<SpecValue>::empty());
        assert(strings_model(out@) + Seq::<Seq<char>>::empty() =~= strings_model(out@));
    }
    Ok(out)
}

/// Decodes the elements of a list that must all be UTF-8 byte strings; a
/// wrongly typed element fails with `other`, bad bytes with
/// `InvalidUtf8(f)`.
pub open spec fn spec_decode_string_list(
    items: Seq<SpecValue>,
    f: Field,
    other: DecodeError,
) -> Result<Seq<Seq<char>>, DecodeError>
    decreases items.len(),
{
    if items.len() == 0 {
        Ok(Seq::empty())
    } else {
        match items[0] {
            SpecValue::Bytes(b) => if !valid_utf8(b) {
                Err(DecodeError::InvalidUtf8(f))
            } else {
                match spec_decode_string_list(items.drop_first(), f, other) {
                    Ok(rest) => Ok(seq![decode_utf8(b)] + rest),
                    Err(e) => Err(e),
                }
            },
            _ => Err(other),
        }
    }
}

impl BFile {
    /// Builds a file entry from its dictionary.
    pub fn from_bencode_dict(dict: &Vec<(Vec<u8>, Value)>) -> (r: Result<BFile, DecodeError>)
        ensures
            match r {
                Ok(f) => spec_decode_file(SpecValue::Dictionary(model_entries(dict@))) == Ok::<
                    SpecFileEntry,
                    DecodeError,
                >(f@),
                Err(e) => spec_decode_file(SpecValue::Dictionary(model_entries(dict@))) == Err::<
                    SpecFileEntry,
                    DecodeError,
                >(e),
            },
    {
        let length: i64 = match dict_lookup(dict, key_length().as_slice()) {
            None => {
                return Err(DecodeError::MissingField(Field::Length));
            },
            Some(v) => match v {
                Value::Integer(l) => {
                    if *l < 0 {
                        return Err(DecodeError::NegativeValue(Field::Length));
                    }
                    *l
                },
                _ => {
                    return Err(DecodeError::WrongType(Field::Length));
                },
            },
        };
        let path: Vec<String> = match dict_lookup(dict, key_path().as_slice()) {
            None => {
                return Err(DecodeError::MissingField(Field::Path));
            },
            Some(v) => match v {
                Value::List(items) => {
                    match decode_string_list(
                        items,
                        Field::Path,
                        DecodeError::WrongType(Field::Path),
                    ) {
                        Ok(p) => p,
                        Err(e) => {
                            return Err(e);
                        },
                    }
                },
                _ => {
                    return Err(DecodeError::WrongType(Field::Path));
                },
            },
        };
        let f = BFile { length, path };
        proof {
            assert(f@.path =~= strings_model(f.path@));
        }
        Ok(f)
    }
}

/// Decodes a `files` list, each element a file dictionary.
fn decode_files_list(items: &Vec<Value>) -> (r: Result<Vec<BFile>, DecodeError>)
    ensures
        match r {
            Ok(fs) => spec_decode_files(model_items(items@)) == Ok::<
                Seq<SpecFileEntry>,
                DecodeError,
            >(files_model(fs@)),
            Err(e) => spec_decode_files(model_items(items@)) == Err::<
                Seq<SpecFileEntry>,
                DecodeError,
            >(e),
        },
{
    proof {
        lemma_model_items(items@);
        assert(model_items(items@).skip(0) =~= model_items(items@));
    }
    let ghost m = model_items(items@);
    let n = items.len();
    let mut out: Vec<BFile> = Vec::new();
    let mut i: usize = 0;
    while i < n
        invariant
            i <= n,
            n == items@.len(),
            m == model_items(items@),
            m.len() == n,
            forall|j: int| 0 <= j < n ==> m[j] == items@[j].model(),
            out@.len() == i,
            spec_decode_files(m) == (match spec_decode_files(m.skip(i as int)) {
                Ok(rest) => Ok::<Seq<SpecFileEntry>, DecodeError>(files_model(out@) + rest),
                Err(e) => Err::<Seq<SpecFileEntry>, DecodeError>(e),
            }),
        decreases n - i,
    {
        proof {
            assert(m.skip(i as int)[0] == m[i as int]);
            assert(m.skip(i as int).drop_first() =~= m.skip(i + 1));
        }
        match BFile::from_bencode_dict_value(&items[i]) {
            Ok(f) => {
                let ghost prev = out@;
                out.push(f);
                proof {
                    if spec_decode_files(m.skip(i + 1)) is Ok {
                        let rest = spec_decode_files(m.skip(i + 1))->Ok_0;
                        assert(files_model(out@) + rest =~= files_model(prev) + (seq![f@] + rest));
                    }
                }
            },
            Err(e) => {
                return Err(e);
            },
        }
        i = i + 1;
    }
    proof {
        assert(m.skip(n as int) =~= Seq::<SpecValue>::empty());
        assert(files_model(out@) + Seq::<SpecFileEntry>::empty() =~= files_model(out@));
    }
    Ok(out)
}

impl BFile {
    /// Builds a file entry from a list element, which must be a dictionary.
    fn from_bencode_dict_value(v: &Value) -> (r: Result<BFile, DecodeError>)
        ensures
            match r {
                Ok(f) => spec_decode_file(v.model()) == Ok::<SpecFileEntry, DecodeError>(f@),
                Err(e) => spec_decode_file(v.model()) == Err::<SpecFileEntry, DecodeError>(e),
            },
    {
        match v {
            Value::Dictionary(fd) => BFile::from_bencode_dict(fd),
            _ => Err(DecodeError::WrongType(Field::Files)),
        }
    }
}

impl BInfo {
    /// Builds the hashed payload from its dictionary. Unknown keys are
    /// ignored; exactly one of `length` and `files` must be present.
    pub fn from_bencode_dict(dict: &Vec<(Vec<u8>, Value)>) -> (r: Result<BInfo, DecodeError>)
        ensures
            match r {
                Ok(info) => spec_decode_info(model_entries(dict@)) == Ok::<SpecInfo, DecodeError>(
                    info@,
                ),
                Err(e) => spec_decode_info(model_entries(dict@)) == Err::<SpecInfo, DecodeError>(
                    e,
                ),
            },
    {
        let files: Option<Vec<BFile>> = match dict_lookup(dict, key_files().as_slice()) {
            None => None,
            Some(v) => match v {
                Value::List(items) => match decode_files_list(items) {
                    Ok(fs) => Some(fs),
                    Err(e) => {
                        return Err(e);
                    },
                },
                _ => {
                    return Err(DecodeError::WrongType(Field::Files));
                },
            },
        };
        let length: Option<i64> = match dict_lookup(dict, key_length().as_slice()) {
            None => None,
            Some(v) => match v {
                Value::Integer(l) => {
                    if *l < 0 {
                        return Err(DecodeError::NegativeValue(Field::Length));
                    }
                    Some(*l)
                },
                _ => {
                    return Err(DecodeError::WrongType(Field::Length));
                },
            },
        };
        let name: String = match get_utf8_value(dict, key_name().as_slice(), Field::Name) {
            Ok(s) => s,
            Err(e) => {
                return Err(e);
            },
        };
        let piece_size: i64 = match dict_lookup(dict, key_piece_length().as_slice()) {
            None => {
                return Err(DecodeError::MissingField(Field::PieceLength));
            },
            Some(v) => match v {
                Value::Integer(p) => {
                    if *p < 0 {
                        return Err(DecodeError::NegativeValue(Field::PieceLength));
                    }
                    *p
                },
                _ => {
                    return Err(DecodeError::WrongType(Field::PieceLength));
                },
            },
        };
        let pieces: Vec<u8> = match dict_lookup(dict, key_pieces().as_slice()) {
            None => {
                return Err(DecodeError::MissingField(Field::Pieces));
            },
            Some(v) => match v {
                Value::Bytes(b) => vstd::slice::slice_to_vec(b.as_slice()),
                _ => {
                    return Err(DecodeError::WrongType(Field::Pieces));
                },
            },
        };
        let private: Option<bool> = match get_optional_int_value(
            dict,
            key_private().as_slice(),
            Field::Private,
        ) {
            Ok(None) => None,
            Ok(Some(i)) => Some(i != 0),
            Err(e) => {
                return Err(e);
            },
        };
        let source: Option<String> = match get_optional_utf8_value(
            dict,
            key_source().as_slice(),
            Field::Source,
        ) {
            Ok(s) => s,
            Err(e) => {
                return Err(e);
            },
        };
        if length.is_some() == files.is_some() {
            return Err(DecodeError::ConflictingFields);
        }
        let info = BInfo { files, length, name, piece_size, pieces, private, source };
        proof {
            match &info.files {
                Some(fs) => {
                    assert(info@.files->0 =~= files_model(fs@));
                },
                None => {},
            }
        }
        Ok(info)
    }
}

impl BMetainfo {
    /// Builds a metainfo document from its parsed value, which must be a
    /// dictionary. Unknown top-level keys are ignored for forward
    /// compatibility.
    pub fn from_bencode_value(value: &Value) -> (r: Result<BMetainfo, DecodeError>)
        ensures
            match r {
                Ok(m) => spec_decode_metainfo(value.model()) == Ok::<SpecMetainfo, DecodeError>(
                    m@,
                ),
                Err(e) => spec_decode_metainfo(value.model()) == Err::<SpecMetainfo, DecodeError>(
                    e,
                ),
            },
    {
        let dict: &Vec<(Vec<u8>, Value)> = match value {
            Value::Dictionary(d) => d,
            _ => {
                return Err(DecodeError::WrongType(Field::Document));
            },
        };
        let announce: String = match get_utf8_value(
            dict,
            key_announce().as_slice(),
            Field::Announce,
        ) {
            Ok(s) => s,
            Err(e) => {
                return Err(e);
            },
        };
        let announce_list: Option<Vec<Vec<String>>> = match BMetainfo::from_bencode_value_anounce_list(
            dict,
        ) {
            Ok(al) => al,
            Err(e) => {
                return Err(e);
            },
        };
        let comment: Option<String> = match get_optional_utf8_value(
            dict,
            key_comment().as_slice(),
            Field::Comment,
        ) {
            Ok(s) => s,
            Err(e) => {
                return Err(e);
            },
        };
        let created_by: Option<String> = match get_optional_utf8_value(
            dict,
            key_created_by().as_slice(),
            Field::CreatedBy,
        ) {
            Ok(s) => s,
            Err(e) => {
                return Err(e);
            },
        };
        let created_on: Option<i64> = match get_optional_int_value(
            dict,
            key_creation_date().as_slice(),
            Field::CreationDate,
        ) {
            Ok(t) => t,
            Err(e) => {
                return Err(e);
            },
        };
        let encoding: Option<String> = match get_optional_utf8_value(
            dict,
            key_encoding().as_slice(),
            Field::Encoding,
        ) {
            Ok(None) => None,
            Ok(Some(s)) => {
                if !is_utf8_label(&s) {
                    return Err(DecodeError::UnsupportedEncoding);
                }
                Some(s)
            },
            Err(e) => {
                return Err(e);
            },
        };
        let info: BInfo = match dict_lookup(dict, key_info().as_slice()) {
            None => {
                return Err(DecodeError::MissingField(Field::Info));
            },
            Some(v) => match v {
                Value::Dictionary(ies) => match BInfo::from_bencode_dict(ies) {
                    Ok(info) => info,
                    Err(e) => {
                        return Err(e);
                    },
                },
                _ => {
                    return Err(DecodeError::WrongType(Field::Info));
                },
            },
        };
        let m = BMetainfo {
            announce,
            announce_list,
            comment,
            created_by,
            created_on,
            encoding,
            info,
        };
        proof {
            match &m.announce_list {
                Some(al) => {
                    assert(m@.announce_list->0 =~~= tiers_model(al@));
                },
                None => {},
            }
        }
        Ok(m)
    }

    /// Reads the optional announce list out of a metainfo dictionary.
    fn from_bencode_value_anounce_list(dict: &Vec<(Vec<u8>, Value)>) -> (r: Result<
        Option<Vec<Vec<String>>>,
        DecodeError,
    >)
        ensures
            match r {
                Ok(Some(al)) => spec_decode_announce_list(model_entries(dict@)) == Ok::<
                    Option<Seq<Seq<Seq<char>>>>,
                    DecodeError,
                >(Some(tiers_model(al@))),
                Ok(None) => spec_decode_announce_list(model_entries(dict@)) == Ok::<
                    Option<Seq<Seq<Seq<char>>>>,
                    DecodeError,
                >(None),
                Err(e) => spec_decode_announce_list(model_entries(dict@)) == Err::<
                    Option<Seq<Seq<Seq<char>>>>,
                    DecodeError,
                >(e),
            },
    {
        let items: &Vec<Value> = match dict_lookup(dict, key_announce_list().as_slice()) {
            None => {
                return Ok(None);
            },
            Some(v) => match v {
                Value::List(items) => items,
                _ => {
                    return Err(DecodeError::MalformedAnnounceList);
                },
            },
        };
        proof {
            lemma_model_items(items@);
            assert(model_items(items@).skip(0) =~= model_items(items@));
        }
        let ghost m = model_items(items@);
        let n = items.len();
        let mut out: Vec<Vec<String>> = Vec::new();
        let mut i: usize = 0;
        while i < n
            invariant
                i <= n,
                n == items@.len(),
                m == model_items(items@),
                m.len() == n,
                spec_lookup(model_entries(dict@), spec_key_announce_list()) == Some(
                    SpecValue::List(m),
                ),
                forall|j: int| 0 <= j < n ==> m[j] == items@[j].model(),
                out@.len() == i,
                spec_decode_tiers(m) == (match spec_decode_tiers(m.skip(i as int)) {
                    Ok(rest) => Ok::<Seq<Seq<Seq<char>>>, DecodeError>(tiers_model(out@) + rest),
                    Err(e) => Err::<Seq<Seq<Seq<char>>>, DecodeError>(e),
                }),
            decreases n - i,
        {
            proof {
                assert(m.skip(i as int)[0] == m[i as int]);
                assert(m.skip(i as int).drop_first() =~= m.skip(i + 1));
            }
            match &items[i] {
                Value::List(tier_items) => {
                    match decode_string_list(
                        tier_items,
                        Field::AnnounceList,
                        DecodeError::MalformedAnnounceList,
                    ) {
                        Ok(tier) => {
                            let ghost prev = out@;
                            out.push(tier);
                            proof {
                                if spec_decode_tiers(m.skip(i + 1)) is Ok {
                                    let rest = spec_decode_tiers(m.skip(i + 1))->Ok_0;
                                    assert(tiers_model(out@) + rest =~= tiers_model(prev) + (seq![
                                        strings_model(out@[i as int]@),
                                    ] + rest));
                                }
                            }
                        },
                        Err(e) => {
                            return Err(e);
                        },
                    }
                },
                _ => {
                    return Err(DecodeError::MalformedAnnounceList);
                },
            }
            i = i + 1;
        }
        proof {
            assert(m.skip(n as int) =~= Seq::<SpecValue>::empty());
            assert(tiers_model(out@) + Seq::<Seq<Seq<char>>>::empty() =~= tiers_model(out@));
        }
        Ok(Some(out))
    }

    /// Decodes a metainfo document from raw bytes: exactly one bencoded
    /// dictionary, with nothing after it.
    pub fn from_bytes(bytes: &[u8]) -> (r: Result<BMetainfo, DecodeError>)
        ensures
            match r {
                Ok(m) => spec_metainfo_from_bytes(bytes@) == Ok::<SpecMetainfo, DecodeError>(m@),
                Err(e) => spec_metainfo_from_bytes(bytes@) == Err::<SpecMetainfo, DecodeError>(e),
            },
    {
        proof {
            assert(bytes@.skip(0) =~= bytes@);
        }
        match parse_value_at(bytes, 0) {
            None => Err(DecodeError::ParseFailure),
            Some(p) => {
                let (value, end) = p;
                if end != bytes.len() {
                    Err(DecodeError::TrailingData)
                } else {
                    BMetainfo::from_bencode_value(&value)
                }
            },
        }
    }
}

/// The sum of the file lengths of a sequence of file entries.
pub open spec fn spec_file_total(fs: Seq<SpecFileEntry>) -> int
    decreases fs.len(),
{
    if fs.len() == 0 {
        0
    } else {
        spec_file_total(fs.drop_last()) + fs.last().length
    }
}

proof fn lemma_file_total_extend(fs: Seq<SpecFileEntry>, i: int)
    requires
        0 <= i < fs.len(),
    ensures
        spec_file_total(fs.take(i + 1)) == spec_file_total(fs.take(i)) + fs[i].length,
{
    assert(fs.take(i + 1).drop_last() =~= fs.take(i));
}

proof fn lemma_file_total_nonneg(fs: Seq<SpecFileEntry>)
    requires
        forall|j: int| 0 <= j < fs.len() ==> #[trigger] fs[j].length >= 0,
    ensures
        spec_file_total(fs) >= 0,
    decreases fs.len(),
{
    if fs.len() > 0 {
        assert forall|j: int| 0 <= j < fs.drop_last().len() implies #[trigger] fs.drop_last()[j].length
            >= 0 by {
            assert(fs.drop_last()[j] == fs[j]);
        }
        lemma_file_total_nonneg(fs.drop_last());
    }
}

proof fn lemma_file_total_prefix_le(fs: Seq<SpecFileEntry>, i: int)
    requires
        0 <= i <= fs.len(),
        forall|j: int| 0 <= j < fs.len() ==> #[trigger] fs[j].length >= 0,
    ensures
        spec_file_total(fs.take(i)) <= spec_file_total(fs),
        spec_file_total(fs.take(i)) >= 0,
    decreases fs.len() - i,
{
    assert forall|j: int| 0 <= j < fs.take(i).len() implies #[trigger] fs.take(i)[j].length
        >= 0 by {
        assert(fs.take(i)[j] == fs[j]);
    }
    lemma_file_total_nonneg(fs.take(i));
    if i == fs.len() {
        assert(fs.take(i) =~= fs);
    } else {
        lemma_file_total_extend(fs, i);
        lemma_file_total_prefix_le(fs, i + 1);
    }
}

impl BInfo {
    /// Whether the payload is well formed: the byte counts it carries are
    /// non-negative, as decoding guarantees.
    pub open spec fn wf(self) -> bool {
        &&& self@.piece_size >= 0
        &&& (self@.length matches Some(l) ==> l >= 0)
        &&& (self@.files matches Some(fs) ==> forall|i: int|
            0 <= i < fs.len() ==> #[trigger] fs[i].length >= 0)
    }

    /// The total number of pieces: the length of `pieces` divided by 20,
    /// truncating.
    pub open spec fn spec_total_piece_count(self) -> int {
        self@.pieces.len() as int / 20
    }

    /// The total size in bytes covered by the pieces.
    pub open spec fn spec_total_piece_size_bytes(self) -> int {
        self@.piece_size * self.spec_total_piece_count()
    }

    /// The size of the whole payload: the sum of the file lengths for a
    /// multi-file torrent, the single length otherwise, zero if neither is
    /// present.
    pub open spec fn spec_total_size_bytes(self) -> int {
        match self@.files {
            Some(fs) => spec_file_total(fs),
            None => match self@.length {
                Some(l) => l,
                None => 0,
            },
        }
    }

    /// The total number of all pieces.
    pub fn total_piece_count(&self) -> (r: i64)
        ensures
            r == self.spec_total_piece_count(),
    {
        let n = self.pieces.len();
        proof {
            vstd::arithmetic::div_mod::lemma_div_is_ordered(n as int, usize::MAX as int, 20);
        }
        (n / 20) as i64
    }

    /// The total size of all pieces.
    pub fn total_piece_size_bytes(&self) -> (r: i64)
        requires
            i64::MIN <= self.spec_total_piece_size_bytes() <= i64::MAX,
        ensures
            r == self.spec_total_piece_size_bytes(),
    {
        self.piece_size * self.total_piece_count()
    }

    /// The size of the entire metainfo payload.
    pub fn metainfo_total_size_bytes(&self) -> (r: i64)
        requires
            self.wf(),
            self.spec_total_size_bytes() <= i64::MAX,
        ensures
            r == self.spec_total_size_bytes(),
    {
        match &self.files {
            Some(files) => {
                let ghost fs = self@.files->0;
                proof {
                    assert(fs =~= files_model(files@));
                    assert(fs.take(0) =~= Seq::<SpecFileEntry>::empty());
                }
                let n = files.len();
                let mut sum: i64 = 0;
                let mut i: usize = 0;
                while i < n
                    invariant
                        i <= n,
                        n == files@.len(),
                        fs == files_model(files@),
                        fs.len() == n,
                        forall|j: int| 0 <= j < n ==> #[trigger] fs[j] == files@[j]@,
                        forall|j: int| 0 <= j < n ==> #[trigger] fs[j].length >= 0,
                        spec_file_total(fs) <= i64::MAX,
                        sum == spec_file_total(fs.take(i as int)),
                    decreases n - i,
                {
                    proof {
                        lemma_file_total_extend(fs, i as int);
                        lemma_file_total_prefix_le(fs, i as int);
                        lemma_file_total_prefix_le(fs, i + 1);
                    }
                    sum = sum + files[i].length;
                    i = i + 1;
                }
                proof {
                    assert(fs.take(n as int) =~= fs);
                }
                sum
            },
            None => match self.length {
                Some(l) => l,
                None => 0,
            },
        }
    }
}

/// The canonical value of one file entry: a dictionary with exactly
/// `length` and `path`, in that (byte-lexicographic) order.
pub open spec fn spec_canonical_file_value(f: SpecFileEntry) -> SpecValue {
    SpecValue::Dictionary(
        seq![
            (spec_key_length(), SpecValue::Integer(f.length)),
            (
                spec_key_path(),
                SpecValue::List(
                    Seq::new(f.path.len(), |i: int| SpecValue::Bytes(encode_utf8(f.path[i]))),
                ),
            ),
        ],
    )
}

/// The entries of the canonical info dictionary: exactly `files` or
/// `length` (whichever the payload carries), then `name`, `piece length`
/// and `pieces`, then `private` and `source` only if present — in strict
/// byte-lexicographic key order.
pub open spec fn spec_canonical_entries(m: SpecInfo) -> Seq<(Seq<u8>, SpecValue)> {
    (match m.files {
        Some(fs) => seq![
            (
                spec_key_files(),
                SpecValue::List(Seq::new(fs.len(), |i: int| spec_canonical_file_value(fs[i]))),
            ),
        ],
        None => match m.length {
            Some(l) => seq![(spec_key_length(), SpecValue::Integer(l))],
            None => Seq::empty(),
        },
    }) + seq![
        (spec_key_name(), SpecValue::Bytes(encode_utf8(m.name))),
        (spec_key_piece_length(), SpecValue::Integer(m.piece_size)),
        (spec_key_pieces(), SpecValue::Bytes(m.pieces)),
    ] + (match m.private {
        Some(p) => seq![
            (
                spec_key_private(),
                SpecValue::Integer(
                    if p {
                        1int
                    } else {
                        0int
                    },
                ),
            ),
        ],
        None => Seq::empty(),
    }) + (match m.source {
        Some(s) => seq![(spec_key_source(), SpecValue::Bytes(encode_utf8(s)))],
        None => Seq::empty(),
    })
}

/// The canonical re-encoding of an info payload as a value tree.
pub open spec fn spec_canonical_value(m: SpecInfo) -> SpecValue {
    SpecValue::Dictionary(spec_canonical_entries(m))
}

/// The info-hash: the SHA-1 digest of the canonical bencoding of the info
/// dictionary. A function of the payload alone.
pub open spec fn spec_info_hash(m: SpecInfo) -> Seq<u8> {
    sha1_of(spec_encode_value(spec_canonical_value(m)))
}

/// The SHA-1 digest of a byte sequence, named: the digest itself is
/// computed by an outside library and depends on the input bytes alone.
pub uninterp spec fn sha1_of(bytes: Seq<u8>) -> Seq<u8>;

/// Relies on ring's `digest::digest` with `SHA1_FOR_LEGACY_USE_ONLY`: a
/// 20-byte digest that is a function of the input bytes alone. ring panics
/// on inputs longer than SHA-1's 2^61 - 1 byte limit, so callers stay far
/// below it.
#[verifier::external_body]
fn sha1(bytes: &[u8]) -> (r: Vec<u8>)
    requires
        bytes@.len() <= 0x1000000000000000,
    ensures
        r@ == sha1_of(bytes@),
        r@.len() == 20,
{
    ring::digest::digest(&ring::digest::SHA1_FOR_LEGACY_USE_ONLY, bytes).as_ref().to_vec()
}

impl BInfo {
    /// Builds the canonical info dictionary value.
    fn canonical_value(&self) -> (cv: Value)
        ensures
            cv.model() == spec_canonical_value(self@),
    {
        let mut entries: Vec<(Vec<u8>, Value)> = Vec::new();
        match &self.files {
            Some(files) => {
                let ghost fs = self@.files->0;
                let ghost target = Seq::new(fs.len(), |j: int| spec_canonical_file_value(fs[j]));
                proof {
                    assert(fs =~= files_model(files@));
                    assert(target.take(0) =~= Seq::<SpecValue>::empty());
                }
                let n = files.len();
                let mut file_list: Vec<Value> = Vec::new();
                let mut i: usize = 0;
                while i < n
                    invariant
                        i <= n,
                        n == files@.len(),
                        fs == files_model(files@),
                        fs.len() == n,
                        target == Seq::new(fs.len(), |j: int| spec_canonical_file_value(fs[j])),
                        forall|j: int| 0 <= j < n ==> #[trigger] fs[j] == files@[j]@,
                        model_items(file_list@) == target.take(i as int),
                        file_list@.len() == i,
                    decreases n - i,
                {
                    let f = &files[i];
                    let mut fd: Vec<(Vec<u8>, Value)> = Vec::new();
                    fd.push((key_length(), Value::Integer(f.length)));
                    let ghost ptarget = Seq::new(
                        f@.path.len(),
                        |j: int| SpecValue::Bytes(encode_utf8(f@.path[j])),
                    );
                    proof {
                        assert(ptarget.take(0) =~= Seq::<SpecValue>::empty());
                    }
                    let pn = f.path.len();
                    let mut path_list: Vec<Value> = Vec::new();
                    let mut j: usize = 0;
                    while j < pn
                        invariant
                            j <= pn,
                            pn == f.path@.len(),
                            ptarget == Seq::new(
                                f@.path.len(),
                                |k: int| SpecValue::Bytes(encode_utf8(f@.path[k])),
                            ),
                            f@.path.len() == pn,
                            forall|k: int| 0 <= k < pn ==> #[trigger] f@.path[k] == f.path@[k]@,
                            model_items(path_list@) == ptarget.take(j as int),
                            path_list@.len() == j,
                        decreases pn - j,
                    {
                        let ghost prev_items = path_list@;
                        path_list.push(Value::Bytes(f.path[j].as_str().as_bytes_vec()));
                        proof {
                            assert(model_items(path_list@) == model_items(prev_items).push(
                                path_list@.last().model(),
                            )) by {
                                assert(path_list@.drop_last() =~= prev_items);
                            }
                            assert(model_items(path_list@) =~= ptarget.take(j + 1));
                        }
                        j = j + 1;
                    }
                    proof {
                        assert(ptarget.take(pn as int) =~= ptarget);
                    }
                    fd.push((key_path(), Value::List(path_list)));
                    let ghost prev_list = file_list@;
                    file_list.push(Value::Dictionary(fd));
                    proof {
                        assert(model_entries(fd@) =~= seq![
                            (spec_key_length(), SpecValue::Integer(f@.length)),
                            (spec_key_path(), SpecValue::List(ptarget)),
                        ]) by {
                            lemma_model_entries(fd@);
                        }
                        assert(spec_canonical_file_value(fs[i as int])
                            == SpecValue::Dictionary(model_entries(fd@))) by {
                            assert(fs[i as int] == f@);
                            assert(model_entries(fd@) =~~= spec_canonical_file_value(
                                f@,
                            )->Dictionary_0);
                        }
                        assert(model_items(file_list@) == model_items(prev_list).push(
                            file_list@.last().model(),
                        )) by {
                            assert(file_list@.drop_last() =~= prev_list);
                        }
                        assert(model_items(file_list@) =~= target.take(i + 1));
                    }
                    i = i + 1;
                }
                proof {
                    assert(target.take(n as int) =~= target);
                }
                entries.push((key_files(), Value::List(file_list)));
            },
            None => {
                match self.length {
                    Some(l) => {
                        entries.push((key_length(), Value::Integer(l)));
                    },
                    None => {},
                }
            },
        }
        entries.push((key_name(), Value::Bytes(self.name.as_str().as_bytes_vec())));
        entries.push((key_piece_length(), Value::Integer(self.piece_size)));
        entries.push((key_pieces(), Value::Bytes(vstd::slice::slice_to_vec(
            self.pieces.as_slice(),
        ))));
        match self.private {
            Some(p) => {
                entries.push((key_private(), Value::Integer(
                    if p {
                        1i64
                    } else {
                        0i64
                    },
                )));
            },
            None => {},
        }
        match &self.source {
            Some(src) => {
                entries.push((key_source(), Value::Bytes(src.as_str().as_bytes_vec())));
            },
            None => {},
        }
        let cv = Value::Dictionary(entries);
        proof {
            lemma_model_entries(entries@);
            assert(model_entries(entries@) =~~= spec_canonical_entries(self@));
        }
        cv
    }

    /// Computes the info-hash: the canonical dictionary is rebuilt from the
    /// typed fields, bencoded, and digested with SHA-1. Succeeds whenever
    /// the canonical encoding stays under the digest input cap, which every
    /// realisable payload does.
    pub fn compute_hash(&self) -> (r: Result<Vec<u8>, EncodeError>)
        ensures
            match r {
                Ok(h) => h@ == spec_info_hash(self@) && h@.len() == 20 && spec_encode_value(
                    spec_canonical_value(self@),
                ).len() <= 0x1000000000000000,
                Err(e) => e == EncodeError::PayloadTooLarge && spec_encode_value(
                    spec_canonical_value(self@),
                ).len() > 0x1000000000000000,
            },
    {
        let cv = self.canonical_value();
        let encoded = encode_value(&cv);
        if encoded.len() as u64 > 0x1000000000000000u64 {
            return Err(EncodeError::PayloadTooLarge);
        }
        Ok(sha1(encoded.as_slice()))
    }
}

/// The hashing law: the info-hash is a function of the payload alone, so
/// any two digests of the same payload — in particular, the results of two
/// calls to `compute_hash` on one `BInfo` — are identical.
pub proof fn lemma_info_hash_deterministic(m: SpecInfo, h1: Seq<u8>, h2: Seq<u8>)
    requires
        h1 == spec_info_hash(m),
        h2 == spec_info_hash(m),
    ensures
        h1 == h2,
{
}

proof fn lemma_decoded_files_nonnegative(items: Seq<SpecValue>, fs: Seq<SpecFileEntry>)
    requires
        spec_decode_files(items) == Ok::<Seq<SpecFileEntry>, DecodeError>(fs),
    ensures
        forall|i: int| 0 <= i < fs.len() ==> #[trigger] fs[i].length >= 0,
    decreases items.len(),
{
    if items.len() > 0 {
        let rest = spec_decode_files(items.drop_first())->Ok_0;
        lemma_decoded_files_nonnegative(items.drop_first(), rest);
        assert forall|i: int| 0 <= i < fs.len() implies #[trigger] fs[i].length >= 0 by {
            if i > 0 {
                assert(fs[i] == rest[i - 1]);
            }
        }
    }
}

/// The validation law: a decoded payload never carries a negative byte
/// count, so the derived-size accessors' well-formedness premise holds of
/// everything the decoder hands out.
pub proof fn lemma_decoded_info_well_formed(entries: Seq<(Seq<u8>, SpecValue)>, m: SpecInfo)
    requires
        spec_decode_info(entries) == Ok::<SpecInfo, DecodeError>(m),
    ensures
        m.piece_size >= 0,
        m.length matches Some(l) ==> l >= 0,
        m.files matches Some(fs) ==> forall|i: int| 0 <= i < fs.len() ==> #[trigger] fs[i].length
            >= 0,
{
    match spec_lookup(entries, spec_key_files()) {
        Some(SpecValue::List(items)) => {
            lemma_decoded_files_nonnegative(items, m.files->0);
        },
        _ => {},
    }
}

/// The trailing-data law: a metainfo document that decodes successfully
/// fails with `TrailingData` once any extra bytes are appended after the
/// top-level dictionary.
pub proof fn lemma_trailing_data_rejected(doc: Seq<u8>, extra: Seq<u8>)
    requires
        spec_metainfo_from_bytes(doc) is Ok,
        extra.len() >= 1,
    ensures
        spec_metainfo_from_bytes(doc + extra) == Err::<SpecMetainfo, DecodeError>(
            DecodeError::TrailingData,
        ),
{
    crate::bencode::lemma_parse_value_extend(doc, extra);
}

/// The canonical-form law: the canonical info dictionary lists its keys in
/// strictly ascending byte-lexicographic order, whichever optional fields
/// the payload carries.
pub proof fn lemma_canonical_keys_sorted(m: SpecInfo)
    ensures
        forall|i: int|
            0 <= i < spec_canonical_entries(m).len() - 1 ==> crate::bencode::bytes_lt(
                #[trigger] spec_canonical_entries(m)[i].0,
                spec_canonical_entries(m)[i + 1].0,
            ),
{
    assert(crate::bencode::bytes_lt(spec_key_files(), spec_key_name())) by {
        reveal_with_fuel(crate::bencode::bytes_lt, 8);
    }
    assert(crate::bencode::bytes_lt(spec_key_length(), spec_key_name())) by {
        reveal_with_fuel(crate::bencode::bytes_lt, 8);
    }
    assert(crate::bencode::bytes_lt(spec_key_name(), spec_key_piece_length())) by {
        reveal_with_fuel(crate::bencode::bytes_lt, 8);
    }
    assert(crate::bencode::bytes_lt(spec_key_piece_length(), spec_key_pieces())) by {
        reveal_with_fuel(crate::bencode::bytes_lt, 8);
    }
    assert(crate::bencode::bytes_lt(spec_key_pieces(), spec_key_private())) by {
        reveal_with_fuel(crate::bencode::bytes_lt, 8);
    }
    assert(crate::bencode::bytes_lt(spec_key_private(), spec_key_source())) by {
        reveal_with_fuel(crate::bencode::bytes_lt, 8);
    }
    assert(crate::bencode::bytes_lt(spec_key_pieces(), spec_key_source())) by {
        reveal_with_fuel(crate::bencode::bytes_lt, 8);
    }
}

/// The mutual-exclusion law: an info dictionary only ever decodes into a
/// payload carrying exactly one of `length` and `files`; both or neither
/// on the wire is rejected with the conflicting-fields error.
pub proof fn lemma_length_files_mutual_exclusion(
    entries: Seq<(Seq<u8>, SpecValue)>,
    m: SpecInfo,
)
    requires
        spec_decode_info(entries) == Ok::<SpecInfo, DecodeError>(m),
    ensures
        (m.length is Some) != (m.files is Some),
{
}

/// Whether a string names UTF-8, ASCII-case-insensitively.
fn is_utf8_label(s: &String) -> (r: bool)
    ensures
        r == spec_is_utf8_label(s@),
{
    let st = s.as_str();
    if st.unicode_len() != 5 {
        return false;
    }
    let c0 = st.get_char(0);
    let c1 = st.get_char(1);
    let c2 = st.get_char(2);
    let c3 = st.get_char(3);
    let c4 = st.get_char(4);
    (c0 == 'u' || c0 == 'U') && (c1 == 't' || c1 == 'T') && (c2 == 'f' || c2 == 'F') && c3 == '-'
        && c4 == '8'
}

} // verus!
