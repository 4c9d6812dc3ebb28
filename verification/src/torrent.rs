//! Assembly of a decoded metainfo dictionary into a validated torrent.

use vstd::prelude::*;

use crate::bencoding::DecodeError;
use crate::bencoding::Decoder;
use crate::bencoding::SpecValue;
use crate::bencoding::Value;
use crate::bencoding::spec_decode;
use crate::bencoding::abs_entries;
use crate::bencoding::abs_list;
use crate::bencoding::abs_value;
use crate::bencoding::bytes_to_string;
use crate::bencoding::utf8_decode;
use crate::piece::Piece;
use crate::piece::PieceModel;
use crate::piece::abs_piece;
use crate::piece::block_layout;
use crate::piece::ceil_div;

verus! {

/// A required field of the metainfo dictionary is absent or of the
/// wrong kind; carries the field's name.
#[derive(Debug, Clone, PartialEq, Eq)]
pub struct MissingRequiredFieldError {
    pub field: String,
}

/// Why a torrent could not be produced from a buffer: the buffer is
/// not well-formed bencoding, or a required field is missing.
#[derive(Debug, Clone, PartialEq, Eq)]
pub enum NewTorrentFromFileError {
    Decode(DecodeError),
    MissingField(MissingRequiredFieldError),
}

/// One tracker a torrent announces to.
#[derive(Debug)]
pub struct Tracker {
    /// The tracker's address.
    pub address: String,
}

impl Tracker {
    /// Builds a tracker from its address.
    pub fn new(address: String) -> (t: Tracker)
        ensures
            t.address@ == address@,
    {
        Tracker { address }
    }
}

/// One file of a torrent's content.
#[derive(Debug)]
pub struct File {
    /// The file's relative path.
    pub path: String,
    /// The file's size in bytes.
    pub size: i64,
    /// The file's byte offset into the virtual concatenation of all
    /// the torrent's files.
    pub offset: i64,
}

impl File {
    /// Builds a file record.
    pub fn new(path: String, size: i64, offset: i64) -> (f: File)
        ensures
            f.path@ == path@ && f.size == size && f.offset == offset,
    {
        File { path, size, offset }
    }
}

/// The model of a file.
pub struct FileModel {
    pub path: Seq<char>,
    pub size: int,
    pub offset: int,
}

/// The model of an assembled torrent.
pub struct TorrentModel {
    pub comment: Seq<char>,
    pub created_by: Seq<char>,
    pub encoding: Seq<char>,
    pub trackers: Seq<Seq<char>>,
    pub is_private: bool,
    pub piece_length: int,
    pub pieces: Seq<PieceModel>,
    pub files: Seq<FileModel>,
}

/// The validated result of decoding a metainfo file.
#[derive(Debug)]
pub struct Torrent {
    /// Free-text comment, empty where absent.
    pub comment: String,
    /// Who created the file, empty where absent.
    pub created_by: String,
    /// The text encoding named by the file, empty where absent.
    pub encoding: String,
    /// The trackers the torrent announces to.
    pub trackers: Vec<Tracker>,
    /// Whether the torrent is restricted to its own trackers.
    pub is_private: bool,
    /// Bytes per piece, except possibly the last.
    pub piece_length: i64,
    /// The torrent's pieces, in content order.
    pub pieces: Vec<Piece>,
    /// The torrent's files, in content order.
    pub files: Vec<File>,
}

impl Default for Torrent {
    /// An empty torrent: no trackers, files or pieces, public, with
    /// every text field empty.
    fn default() -> (t: Torrent)
        ensures
            t.comment@ == Seq::<char>::empty(),
            t.created_by@ == Seq::<char>::empty(),
            t.encoding@ == Seq::<char>::empty(),
            t.trackers@ == Seq::<Tracker>::empty(),
            !t.is_private,
            t.piece_length == 0,
            t.pieces@ == Seq::<Piece>::empty(),
            t.files@ == Seq::<File>::empty(),
    {
        Torrent {
            comment: String::new(),
            created_by: String::new(),
            encoding: String::new(),
            trackers: Vec::new(),
            is_private: false,
            piece_length: 0,
            pieces: Vec::new(),
            files: Vec::new(),
        }
    }
}

/// The model of a torrent.
pub open spec fn torrent_model(t: Torrent) -> TorrentModel {
    TorrentModel {
        comment: t.comment@,
        created_by: t.created_by@,
        encoding: t.encoding@,
        trackers: Seq::new(t.trackers@.len(), |i: int| t.trackers@[i].address@),
        is_private: t.is_private,
        piece_length: t.piece_length as int,
        pieces: Seq::new(t.pieces@.len(), |i: int| abs_piece(t.pieces@[i])),
        files: Seq::new(
            t.files@.len(),
            |i: int|
                FileModel {
                    path: t.files@[i].path@,
                    size: t.files@[i].size as int,
                    offset: t.files@[i].offset as int,
                },
        ),
    }
}

/// The value bound to a key in a dictionary: the binding written last
/// wins, as inserting into a map while decoding would have it.
pub open spec fn lookup(entries: Seq<(Seq<char>, SpecValue)>, key: Seq<char>) -> Option<SpecValue>
    decreases entries.len(),
{
    if entries.len() == 0 {
        None
    } else if entries.last().0 == key {
        Some(entries.last().1)
    } else {
        lookup(entries.drop_last(), key)
    }
}

/// A field read as text: present, a byte string, and valid UTF-8.
pub open spec fn str_field(entries: Seq<(Seq<char>, SpecValue)>, key: Seq<char>) -> Option<
    Seq<char>,
> {
    match lookup(entries, key) {
        Some(SpecValue::Bytes(b)) => utf8_decode(b),
        _ => None,
    }
}

/// A field read as an integer.
pub open spec fn int_field(entries: Seq<(Seq<char>, SpecValue)>, key: Seq<char>) -> Option<int> {
    match lookup(entries, key) {
        Some(SpecValue::Integer(n)) => Some(n),
        _ => None,
    }
}

/// A field read as a raw byte string.
pub open spec fn bytes_field(entries: Seq<(Seq<char>, SpecValue)>, key: Seq<char>) -> Option<
    Seq<u8>,
> {
    match lookup(entries, key) {
        Some(SpecValue::Bytes(b)) => Some(b),
        _ => None,
    }
}

/// An optional text field's value: empty where absent or malformed.
pub open spec fn opt_text(entries: Seq<(Seq<char>, SpecValue)>, key: Seq<char>) -> Seq<char> {
    match str_field(entries, key) {
        Some(t) => t,
        None => Seq::empty(),
    }
}

/// Whether a field belongs to the metainfo format's required set.
pub open spec fn spec_is_required(field: Seq<char>) -> bool {
    ||| field == "info"@
    ||| field == "announce"@
    ||| field == "piece length"@
    ||| field == "pieces"@
    ||| field == "name"@
    ||| field == "length"@
    ||| field == "files"@
    ||| field == "path"@
}

/// The entry models of a dictionary line up with its entries.
pub proof fn lemma_abs_entries_props(entries: Seq<(String, Value)>)
    ensures
        abs_entries(entries).len() == entries.len(),
        forall|i: int|
            0 <= i < entries.len() ==> #[trigger] abs_entries(entries)[i] == (
            entries[i].0@,
            abs_value(entries[i].1),
            ),
    decreases entries.len(),
{
    if entries.len() > 0 {
        lemma_abs_entries_props(entries.drop_first());
    }
}

/// The element models of a list line up with its elements.
pub proof fn lemma_abs_list_props(items: Seq<Value>)
    ensures
        abs_list(items).len() == items.len(),
        forall|i: int|
            0 <= i < items.len() ==> #[trigger] abs_list(items)[i] == abs_value(items[i]),
    decreases items.len(),
{
    if items.len() > 0 {
        lemma_abs_list_props(items.drop_first());
    }
}

/// Looks a key up in a decoded dictionary; the binding written last
/// wins.
fn dict_get<'a>(entries: &'a Vec<(String, Value)>, key: &String) -> (r: Option<&'a Value>)
    ensures
        r matches Some(v) ==> lookup(abs_entries(entries@), key@) == Some(abs_value(*v)),
        r is None ==> lookup(abs_entries(entries@), key@) is None,
{
    proof {
        lemma_abs_entries_props(entries@);
        assert(abs_entries(entries@).take(entries@.len() as int) =~= abs_entries(entries@));
    }
    let ghost whole = abs_entries(entries@);
    let mut idx: usize = entries.len();
    while idx > 0
        invariant
            idx <= entries@.len(),
            whole == abs_entries(entries@),
            abs_entries(entries@).len() == entries@.len(),
            forall|i: int|
                0 <= i < entries@.len() ==> #[trigger] abs_entries(entries@)[i] == (
                entries@[i].0@,
                abs_value(entries@[i].1),
                ),
            lookup(whole, key@) == lookup(whole.take(idx as int), key@),
        decreases idx,
    {
        idx = idx - 1;
        if entries[idx].0 == *key {
            proof {
                assert(whole.take(idx as int + 1).last() == whole[idx as int]);
            }
            return Some(&entries[idx].1);
        }
        proof {
            assert(whole.take(idx as int + 1).drop_last() =~= whole.take(idx as int));
        }
    }
    proof {
        assert(whole.take(0) =~= Seq::<(Seq<char>, SpecValue)>::empty());
    }
    None
}

/// Whether a field belongs to the metainfo format's required set.
pub fn is_required_field(field: &String) -> (r: bool)
    ensures
        r == spec_is_required(field@),
{
    *field == "info".to_owned() || *field == "announce".to_owned() || *field
        == "piece length".to_owned() || *field == "pieces".to_owned() || *field
        == "name".to_owned() || *field == "length".to_owned() || *field == "files".to_owned()
        || *field == "path".to_owned()
}

/// Copies a byte string.
fn copy_bytes(v: &Vec<u8>) -> (r: Vec<u8>)
    ensures
        r@ == v@,
{
    let mut r: Vec<u8> = Vec::new();
    let mut k: usize = 0;
    while k < v.len()
        invariant
            k <= v@.len(),
            r@ == v@.take(k as int),
        decreases v@.len() - k,
    {
        r.push(v[k]);
        proof {
            assert(v@.take(k as int + 1) =~= v@.take(k as int).push(v@[k as int]));
        }
        k = k + 1;
    }
    proof {
        assert(v@.take(v@.len() as int) =~= v@);
    }
    r
}

impl Torrent {
    /// Reads a field as text. A present, well-formed byte string is
    /// returned as text; otherwise a required field is an error and an
    /// optional one defaults to empty.
    pub fn bencoded_to_string(data: &Vec<(String, Value)>, field: String) -> (r: Result<
        String,
        MissingRequiredFieldError,
    >)
        ensures
            match str_field(abs_entries(data@), field@) {
                Some(t) => r matches Ok(s) && s@ == t,
                None => if spec_is_required(field@) {
                    r matches Err(e) && e.field@ == field@
                } else {
                    r matches Ok(s) && s@ == Seq::<char>::empty()
                },
            },
    {
        match dict_get(data, &field) {
            Some(Value::ByteString(b)) => match bytes_to_string(copy_bytes(b)) {
                Some(s) => Ok(s),
                None => if is_required_field(&field) {
                    Err(MissingRequiredFieldError { field })
                } else {
                    Ok(String::new())
                },
            },
            _ => if is_required_field(&field) {
                Err(MissingRequiredFieldError { field })
            } else {
                Ok(String::new())
            },
        }
    }

    /// Reads a field as a raw byte string. A required field that is
    /// absent or not a byte string is an error; an optional one
    /// defaults to empty.
    pub fn bencoded_to_bytes(data: &Vec<(String, Value)>, field: String) -> (r: Result<
        Vec<u8>,
        MissingRequiredFieldError,
    >)
        ensures
            match bytes_field(abs_entries(data@), field@) {
                Some(b) => r matches Ok(out) && out@ == b,
                None => if spec_is_required(field@) {
                    r matches Err(e) && e.field@ == field@
                } else {
                    r matches Ok(out) && out@ == Seq::<u8>::empty()
                },
            },
    {
        match dict_get(data, &field) {
            Some(Value::ByteString(b)) => Ok(copy_bytes(b)),
            _ => if is_required_field(&field) {
                Err(MissingRequiredFieldError { field })
            } else {
                Ok(Vec::new())
            },
        }
    }

    /// Reads a field as an integer. A required field that is absent or
    /// not an integer is an error; an optional one defaults to zero.
    pub fn bencoded_to_i64(data: &Vec<(String, Value)>, field: String) -> (r: Result<
        i64,
        MissingRequiredFieldError,
    >)
        ensures
            match int_field(abs_entries(data@), field@) {
                Some(n) => r matches Ok(v) && v == n,
                None => if spec_is_required(field@) {
                    r matches Err(e) && e.field@ == field@
                } else {
                    r matches Ok(v) && v == 0
                },
            },
    {
        match dict_get(data, &field) {
            Some(Value::Integer(n)) => Ok(*n),
            _ => if is_required_field(&field) {
                Err(MissingRequiredFieldError { field })
            } else {
                Ok(0)
            },
        }
    }

    /// Reads a field as a flag: true exactly where the field is
    /// present as a non-zero integer; never an error.
    pub fn bencoded_to_bool(data: &Vec<(String, Value)>, field: String) -> (r: bool)
        ensures
            r == (int_field(abs_entries(data@), field@) matches Some(n) && n != 0),
    {
        match dict_get(data, &field) {
            Some(Value::Integer(n)) => *n != 0,
            _ => false,
        }
    }
}

/// The bytes of a path list's segments, concatenated in order;
/// nothing where a segment is not a byte string.
pub open spec fn concat_path_bytes(items: Seq<SpecValue>) -> Option<Seq<u8>>
    decreases items.len(),
{
    if items.len() == 0 {
        Some(Seq::empty())
    } else {
        match concat_path_bytes(items.drop_last()) {
            Some(front) => match items.last() {
                SpecValue::Bytes(b) => Some(front + b),
                _ => None,
            },
            None => None,
        }
    }
}

/// A file entry's path: its `path` field must be a list of byte
/// strings whose concatenation is valid UTF-8 text.
pub open spec fn path_of(entry: Seq<(Seq<char>, SpecValue)>) -> Option<Seq<char>> {
    match lookup(entry, "path"@) {
        Some(SpecValue::List(items)) => match concat_path_bytes(items) {
            Some(bs) => utf8_decode(bs),
            None => None,
        },
        _ => None,
    }
}

/// The first malformed required field among a file list's entries, in
/// entry order; entries that are not dictionaries are skipped.
pub open spec fn files_error(items: Seq<SpecValue>) -> Option<Seq<char>>
    decreases items.len(),
{
    if items.len() == 0 {
        None
    } else {
        match items.first() {
            SpecValue::Dict(fe) => if path_of(fe) is None {
                Some("path"@)
            } else {
                match int_field(fe, "length"@) {
                    Some(n) => if n < 0 {
                        Some("length"@)
                    } else {
                        files_error(items.drop_first())
                    },
                    None => Some("length"@),
                }
            },
            _ => files_error(items.drop_first()),
        }
    }
}

/// The path and size of each dictionary entry of a file list, in
/// order; meaningful where `files_error` reports nothing.
pub open spec fn files_of(items: Seq<SpecValue>) -> Seq<(Seq<char>, int)>
    decreases items.len(),
{
    if items.len() == 0 {
        Seq::empty()
    } else {
        match items.first() {
            SpecValue::Dict(fe) => seq![
                (
                    match path_of(fe) {
                        Some(p) => p,
                        None => Seq::empty(),
                    },
                    match int_field(fe, "length"@) {
                        Some(n) => n,
                        None => 0,
                    },
                ),
            ] + files_of(items.drop_first()),
            _ => files_of(items.drop_first()),
        }
    }
}

/// The total of the sizes of a run of path/size pairs.
pub open spec fn sum_sizes(pairs: Seq<(Seq<char>, int)>) -> int
    decreases pairs.len(),
{
    if pairs.len() == 0 {
        0
    } else {
        sum_sizes(pairs.drop_last()) + pairs.last().1
    }
}

/// The models of extracted path/size pairs.
pub open spec fn abs_pairs(pairs: Seq<(String, i64)>) -> Seq<(Seq<char>, int)> {
    Seq::new(pairs.len(), |i: int| (pairs[i].0@, pairs[i].1 as int))
}

/// A file list that reports no malformed field holds no negative size.
pub proof fn lemma_files_of_nonneg(items: Seq<SpecValue>)
    requires
        files_error(items) is None,
    ensures
        forall|i: int| 0 <= i < files_of(items).len() ==> (#[trigger] files_of(items)[i]).1 >= 0,
    decreases items.len(),
{
    if items.len() > 0 {
        lemma_files_of_nonneg(items.drop_first());
        match items.first() {
            SpecValue::Dict(fe) => {
                let entry = (
                    match path_of(fe) {
                        Some(p) => p,
                        None => Seq::empty(),
                    },
                    match int_field(fe, "length"@) {
                        Some(n) => n,
                        None => 0,
                    },
                );
                assert(files_of(items) == seq![entry] + files_of(items.drop_first()));
                assert forall|i: int| 0 <= i < files_of(items).len() implies (
                #[trigger] files_of(items)[i]).1 >= 0 by {
                    if i > 0 {
                        assert(files_of(items)[i] == files_of(items.drop_first())[i - 1]);
                    }
                }
            },
            _ => {},
        }
    }
}

/// A prefix of sizes never sums to more than the whole, none of them
/// being negative.
pub proof fn lemma_sum_sizes_monotone(pairs: Seq<(Seq<char>, int)>, k: int)
    requires
        0 <= k <= pairs.len(),
        forall|i: int| 0 <= i < pairs.len() ==> (#[trigger] pairs[i]).1 >= 0,
    ensures
        sum_sizes(pairs.take(k)) <= sum_sizes(pairs),
    decreases pairs.len() - k,
{
    if k < pairs.len() {
        assert(pairs.take(k + 1).drop_last() =~= pairs.take(k));
        assert(pairs.take(k + 1).last() == pairs[k]);
        lemma_sum_sizes_monotone(pairs, k + 1);
    } else {
        assert(pairs.take(k) =~= pairs);
    }
}

/// A broken prefix breaks the whole concatenation.
proof fn lemma_concat_none(items: Seq<SpecValue>, m: int)
    requires
        0 <= m <= items.len(),
        concat_path_bytes(items.take(m)) is None,
    ensures
        concat_path_bytes(items) is None,
    decreases items.len() - m,
{
    if m < items.len() {
        assert(items.take(m + 1).drop_last() =~= items.take(m));
        lemma_concat_none(items, m + 1);
    } else {
        assert(items.take(m) =~= items);
    }
}

/// Joins the segments of a path list into one byte string.
fn join_path_segments(items: &Vec<Value>) -> (r: Option<Vec<u8>>)
    ensures
        r matches Some(b) ==> concat_path_bytes(abs_list(items@)) == Some(b@),
        r is None ==> concat_path_bytes(abs_list(items@)) is None,
{
    proof {
        lemma_abs_list_props(items@);
    }
    let ghost sitems = abs_list(items@);
    let mut acc: Vec<u8> = Vec::new();
    let mut k: usize = 0;
    proof {
        assert(sitems.take(0) =~= Seq::<SpecValue>::empty());
    }
    while k < items.len()
        invariant
            k <= items@.len(),
            sitems == abs_list(items@),
            sitems.len() == items@.len(),
            forall|i: int| 0 <= i < items@.len() ==> #[trigger] sitems[i] == abs_value(items@[i]),
            concat_path_bytes(sitems.take(k as int)) == Some(acc@),
        decreases items@.len() - k,
    {
        proof {
            assert(sitems.take(k as int + 1).drop_last() =~= sitems.take(k as int));
            assert(sitems.take(k as int + 1).last() == sitems[k as int]);
        }
        match &items[k] {
            Value::ByteString(b) => {
                let mut j: usize = 0;
                let ghost acc0 = acc@;
                while j < b.len()
                    invariant
                        j <= b@.len(),
                        acc@ == acc0 + b@.take(j as int),
                    decreases b@.len() - j,
                {
                    acc.push(b[j]);
                    proof {
                        assert(acc0 + b@.take(j as int + 1) =~= (acc0 + b@.take(j as int)).push(
                            b@[j as int],
                        ));
                    }
                    j = j + 1;
                }
                proof {
                    assert(b@.take(b@.len() as int) =~= b@);
                }
            },
            _ => {
                proof {
                    lemma_concat_none(sitems, k as int + 1);
                }
                return None;
            },
        }
        k = k + 1;
    }
    proof {
        assert(sitems.take(items@.len() as int) =~= sitems);
    }
    Some(acc)
}

/// Extracts the path and size of every file entry from position `idx`
/// on, skipping entries that are not dictionaries.
fn extract_files(items: &Vec<Value>, idx: usize) -> (r: Result<
    Vec<(String, i64)>,
    MissingRequiredFieldError,
>)
    requires
        idx <= items@.len(),
    ensures
        r matches Ok(pairs) ==> {
            &&& files_error(abs_list(items@).skip(idx as int)) is None
            &&& files_of(abs_list(items@).skip(idx as int)) == abs_pairs(pairs@)
        },
        r matches Err(e) ==> files_error(abs_list(items@).skip(idx as int)) == Some(e.field@),
    decreases items@.len() - idx,
{
    proof {
        lemma_abs_list_props(items@);
    }
    let ghost rest = abs_list(items@).skip(idx as int);
    if idx >= items.len() {
        let pairs: Vec<(String, i64)> = Vec::new();
        proof {
            assert(rest =~= Seq::<SpecValue>::empty());
            assert(abs_pairs(pairs@) =~= Seq::<(Seq<char>, int)>::empty());
        }
        return Ok(pairs);
    }
    proof {
        assert(rest[0] == abs_list(items@)[idx as int]);
        assert(rest.drop_first() =~= abs_list(items@).skip(idx as int + 1));
    }
    match &items[idx] {
        Value::Dictionary(fe) => {
            let path = match dict_get(fe, &"path".to_owned()) {
                Some(Value::List(segments)) => match join_path_segments(segments) {
                    Some(joined) => match bytes_to_string(joined) {
                        Some(text) => text,
                        None => {
                            return Err(MissingRequiredFieldError { field: "path".to_owned() });
                        },
                    },
                    None => {
                        return Err(MissingRequiredFieldError { field: "path".to_owned() });
                    },
                },
                _ => {
                    return Err(MissingRequiredFieldError { field: "path".to_owned() });
                },
            };
            let size = match Torrent::bencoded_to_i64(fe, "length".to_owned()) {
                Ok(n) => n,
                Err(e) => {
                    return Err(e);
                },
            };
            if size < 0 {
                return Err(MissingRequiredFieldError { field: "length".to_owned() });
            }
            let mut pairs = match extract_files(items, idx + 1) {
                Ok(pairs) => pairs,
                Err(e) => {
                    return Err(e);
                },
            };
            let ghost tail_pairs = abs_pairs(pairs@);
            pairs.insert(0, (path, size));
            proof {
                assert(abs_pairs(pairs@) =~= seq![(path@, size as int)] + tail_pairs);
            }
            Ok(pairs)
        },
        _ => extract_files(items, idx + 1),
    }
}

/// The path/size pairs of the torrent's files: the `files` list in
/// multi-file mode, else `name` and `length` as the one file; or the
/// first malformed required field.
pub open spec fn spec_file_pairs(info: Seq<(Seq<char>, SpecValue)>) -> Result<
    Seq<(Seq<char>, int)>,
    Seq<char>,
> {
    match lookup(info, "files"@) {
        Some(SpecValue::List(items)) => match files_error(items) {
            Some(f) => Err(f),
            None => Ok(files_of(items)),
        },
        _ => match str_field(info, "name"@) {
            None => Err("name"@),
            Some(name) => match int_field(info, "length"@) {
                Some(n) => if n < 0 {
                    Err("length"@)
                } else {
                    Ok(seq![(name, n)])
                },
                None => Err("length"@),
            },
        },
    }
}

/// The files of a torrent, with each offset the sum of the sizes
/// before it.
pub open spec fn files_layout(pairs: Seq<(Seq<char>, int)>) -> Seq<FileModel> {
    Seq::new(
        pairs.len(),
        |i: int| FileModel { path: pairs[i].0, size: pairs[i].1, offset: sum_sizes(pairs.take(i)) },
    )
}

/// The size of piece `i`: the piece length, except for the last piece
/// of an unevenly divided torrent, which covers the remainder.
pub open spec fn piece_size_at(total: int, pl: int, i: int) -> int {
    if i == ceil_div(total, pl) - 1 && total % pl != 0 {
        total % pl
    } else {
        pl
    }
}

/// The pieces of a torrent: `ceil(total / pl)` of them, each holding
/// its 20-byte record of the digest string, unverified, with its
/// blocks laid out.
pub open spec fn pieces_layout(total: int, pl: int, pb: Seq<u8>) -> Seq<PieceModel> {
    Seq::new(
        ceil_div(total, pl) as nat,
        |i: int|
            PieceModel {
                size: piece_size_at(total, pl, i),
                hash: pb.subrange(20 * i, 20 * i + 20),
                verified: false,
                blocks: block_layout(piece_size_at(total, pl, i)),
            },
    )
}

/// What assembling a decoded metainfo dictionary yields: the torrent's
/// model, or the name of the first malformed required field.
pub open spec fn spec_assemble(d: Seq<(Seq<char>, SpecValue)>) -> Result<TorrentModel, Seq<char>> {
    match str_field(d, "announce"@) {
        None => Err("announce"@),
        Some(announce) => match lookup(d, "info"@) {
            Some(SpecValue::Dict(info)) => match spec_file_pairs(info) {
                Err(f) => Err(f),
                Ok(pairs) => if sum_sizes(pairs) > i64::MAX {
                    Err("length"@)
                } else {
                    match int_field(info, "piece length"@) {
                        Some(pl) => if pl <= 0 {
                            Err("piece length"@)
                        } else {
                            match bytes_field(info, "pieces"@) {
                                Some(pb) => if pb.len() != 20 * ceil_div(sum_sizes(pairs), pl) {
                                    Err("pieces"@)
                                } else {
                                    Ok(
                                        TorrentModel {
                                            comment: opt_text(d, "comment"@),
                                            created_by: opt_text(d, "created by"@),
                                            encoding: opt_text(d, "encoding"@),
                                            trackers: seq![announce],
                                            is_private: (int_field(info, "private"@) matches Some(
                                                n,
                                            ) && n != 0),
                                            piece_length: pl,
                                            pieces: pieces_layout(sum_sizes(pairs), pl, pb),
                                            files: files_layout(pairs),
                                        },
                                    )
                                },
                                None => Err("pieces"@),
                            }
                        },
                        None => Err("piece length"@),
                    }
                },
            },
            _ => Err("info"@),
        },
    }
}

/// The optional metainfo fields are not in the required set.
proof fn lemma_optional_fields_not_required()
    ensures
        !spec_is_required("created by"@),
        !spec_is_required("comment"@),
        !spec_is_required("encoding"@),
{
    reveal_strlit("created by");
    reveal_strlit("comment");
    reveal_strlit("encoding");
    reveal_strlit("info");
    reveal_strlit("announce");
    reveal_strlit("piece length");
    reveal_strlit("pieces");
    reveal_strlit("name");
    reveal_strlit("length");
    reveal_strlit("files");
    reveal_strlit("path");
    assert(("created by"@).len() == 10);
    assert(("comment"@).len() == 7);
    assert(("encoding"@).len() == 8);
    assert(("info"@).len() == 4);
    assert(("announce"@).len() == 8);
    assert(("piece length"@).len() == 12);
    assert(("pieces"@).len() == 6);
    assert(("name"@).len() == 4);
    assert(("length"@).len() == 6);
    assert(("files"@).len() == 5);
    assert(("path"@).len() == 4);
    assert("encoding"@ != "announce"@) by {
        assert(("encoding"@)[0] != ("announce"@)[0]);
    }
}

impl Torrent {
    /// Assembles a decoded metainfo dictionary into a torrent,
    /// validating required fields and computing file offsets and the
    /// piece layout; fails with the name of the first malformed
    /// required field.
    #[verifier::loop_isolation(false)]
    pub fn bencoding_to_torrent(data: Vec<(String, Value)>) -> (r: Result<
        Torrent,
        MissingRequiredFieldError,
    >)
        ensures
            r matches Ok(t) ==> spec_assemble(abs_entries(data@)) == Ok::<
                TorrentModel,
                Seq<char>,
            >(torrent_model(t)),
            r matches Err(e) ==> spec_assemble(abs_entries(data@)) matches Err(f) && e.field@ == f,
    {
        proof {
            lemma_optional_fields_not_required();
        }
        let ghost d = abs_entries(data@);
        let announce = Torrent::bencoded_to_string(&data, "announce".to_owned())?;
        let created_by = Torrent::bencoded_to_string(&data, "created by".to_owned())?;
        let comment = Torrent::bencoded_to_string(&data, "comment".to_owned())?;
        let encoding = Torrent::bencoded_to_string(&data, "encoding".to_owned())?;
        let info = match dict_get(&data, &"info".to_owned()) {
            Some(Value::Dictionary(info)) => info,
            _ => {
                return Err(MissingRequiredFieldError { field: "info".to_owned() });
            },
        };
        let ghost sinfo = abs_entries(info@);
        let is_private = Torrent::bencoded_to_bool(info, "private".to_owned());

        let pairs: Vec<(String, i64)> = match dict_get(info, &"files".to_owned()) {
            Some(Value::List(items)) => {
                proof {
                    assert(abs_list(items@).skip(0) =~= abs_list(items@));
                }
                match extract_files(items, 0) {
                    Ok(pairs) => {
                        proof {
                            lemma_files_of_nonneg(abs_list(items@));
                            assert(spec_file_pairs(sinfo) == Ok::<Seq<(Seq<char>, int)>, Seq<char>>(
                                abs_pairs(pairs@),
                            ));
                        }
                        pairs
                    },
                    Err(e) => {
                        return Err(e);
                    },
                }
            },
            _ => {
                let name = Torrent::bencoded_to_string(info, "name".to_owned())?;
                let length = Torrent::bencoded_to_i64(info, "length".to_owned())?;
                if length < 0 {
                    return Err(MissingRequiredFieldError { field: "length".to_owned() });
                }
                let ghost gname = name@;
                let mut one: Vec<(String, i64)> = Vec::new();
                one.push((name, length));
                proof {
                    assert(abs_pairs(one@) =~= seq![(gname, length as int)]);
                    assert(spec_file_pairs(sinfo) == Ok::<Seq<(Seq<char>, int)>, Seq<char>>(
                        abs_pairs(one@),
                    ));
                }
                one
            },
        };
        let ghost spairs = abs_pairs(pairs@);
        proof {
            assert(spec_file_pairs(sinfo) == Ok::<Seq<(Seq<char>, int)>, Seq<char>>(spairs));
            assert(forall|i: int| 0 <= i < spairs.len() ==> (#[trigger] spairs[i]).1 >= 0);
        }

        // Offsets: each file starts where the sizes before it end.
        let mut files: Vec<File> = Vec::new();
        let mut total: i64 = 0;
        let mut k: usize = 0;
        proof {
            assert(spairs.take(0) =~= Seq::<(Seq<char>, int)>::empty());
        }
        while k < pairs.len()
            invariant
                k <= pairs@.len(),
                spairs == abs_pairs(pairs@),
                spairs.len() == pairs@.len(),
                forall|i: int| 0 <= i < spairs.len() ==> (#[trigger] spairs[i]).1 >= 0,
                total == sum_sizes(spairs.take(k as int)),
                total >= 0,
                files@.len() == k,
                forall|j: int|
                    0 <= j < k ==> {
                        &&& (#[trigger] files@[j]).path@ == spairs[j].0
                        &&& files@[j].size as int == spairs[j].1
                        &&& files@[j].offset as int == sum_sizes(spairs.take(j))
                    },
            decreases pairs@.len() - k,
        {
            let (path, size) = (pairs[k].0.clone(), pairs[k].1);
            proof {
                assert(spairs.take(k as int + 1).drop_last() =~= spairs.take(k as int));
                assert(spairs.take(k as int + 1).last() == spairs[k as int]);
            }
            if size > i64::MAX - total {
                proof {
                    lemma_sum_sizes_monotone(spairs, k as int + 1);
                }
                return Err(MissingRequiredFieldError { field: "length".to_owned() });
            }
            files.push(File { path, size, offset: total });
            total = total + size;
            k = k + 1;
        }
        proof {
            assert(spairs.take(pairs@.len() as int) =~= spairs);
        }

        let piece_length = Torrent::bencoded_to_i64(info, "piece length".to_owned())?;
        if piece_length <= 0 {
            return Err(MissingRequiredFieldError { field: "piece length".to_owned() });
        }
        let pieces_bytes = Torrent::bencoded_to_bytes(info, "pieces".to_owned())?;

        let q = total / piece_length;
        let rm = total % piece_length;
        let count64: u64 = q as u64 + (if rm == 0 {
            0
        } else {
            1
        });
        proof {
            assert(count64 as int == ceil_div(total as int, piece_length as int));
        }
        let pb_len = pieces_bytes.len();
        if count64 > u64::MAX / 20 || (pb_len as u64) != 20 * count64 {
            return Err(MissingRequiredFieldError { field: "pieces".to_owned() });
        }
        let count = pb_len / 20;
        proof {
            assert(pb_len as int == 20 * (count64 as int));
            assert((pb_len as int) / 20 == count64 as int) by (nonlinear_arith)
                requires
                    pb_len as int == 20 * (count64 as int),
            ;
        }

        let mut pieces: Vec<Piece> = Vec::new();
        let mut i: usize = 0;
        let ghost players = pieces_layout(total as int, piece_length as int, pieces_bytes@);
        while i < count
            invariant
                i <= count,
                count as int == ceil_div(total as int, piece_length as int),
                pieces_bytes@.len() == 20 * count,
                piece_length > 0,
                total >= 0,
                rm == total as int % piece_length as int,
                players == pieces_layout(total as int, piece_length as int, pieces_bytes@),
                pieces@.len() == i,
                forall|j: int| 0 <= j < i ==> abs_piece(#[trigger] pieces@[j]) == players[j],
            decreases count - i,
        {
            let size: i64 = if i + 1 < count || rm == 0 {
                piece_length
            } else {
                rm
            };
            let mut hash: Vec<u8> = Vec::new();
            let mut h: usize = 0;
            proof {
                assert(20 * (i as int) + 20 <= 20 * (count as int)) by (nonlinear_arith)
                    requires
                        (i as int) < (count as int),
                ;
            }
            while h < 20
                invariant
                    h <= 20,
                    i < count,
                    20 * i + 20 <= pieces_bytes@.len(),
                    hash@ == pieces_bytes@.subrange(20 * i as int, 20 * i as int + h as int),
                decreases 20 - h,
            {
                hash.push(pieces_bytes[20 * i + h]);
                proof {
                    assert(pieces_bytes@.subrange(20 * i as int, 20 * i as int + h as int + 1)
                        =~= pieces_bytes@.subrange(20 * i as int, 20 * i as int + h as int).push(
                        pieces_bytes@[20 * i as int + h as int],
                    ));
                }
                h = h + 1;
            }
            let piece = Piece::new(size, hash);
            proof {
                assert(size as int == piece_size_at(total as int, piece_length as int, i as int));
                assert(abs_piece(piece) == players[i as int]);
            }
            pieces.push(piece);
            i = i + 1;
        }

        let mut trackers: Vec<Tracker> = Vec::new();
        trackers.push(Tracker { address: announce });
        let t = Torrent {
            comment,
            created_by,
            encoding,
            trackers,
            is_private,
            piece_length,
            pieces,
            files,
        };
        proof {
            let m = spec_assemble(d)->Ok_0;
            assert(torrent_model(t).trackers =~= m.trackers);
            assert(torrent_model(t).pieces =~= m.pieces);
            assert(torrent_model(t).files =~= m.files);
        }
        Ok(t)
    }
}

/// The total size of a run of files.
pub open spec fn total_size_of(files: Seq<FileModel>) -> int
    decreases files.len(),
{
    if files.len() == 0 {
        0
    } else {
        total_size_of(files.drop_last()) + files.last().size
    }
}

/// What holds of every assembled torrent: no size is negative, each
/// file's offset is the sum of the sizes before it, the piece count is
/// the total size divided by the piece length rounded up, every piece
/// carries a 20-byte digest and starts unverified, each piece covers
/// the piece length except possibly the last, and each piece's blocks
/// are laid out from its size.
pub open spec fn torrent_model_wf(m: TorrentModel) -> bool {
    &&& m.piece_length > 0
    &&& forall|i: int| 0 <= i < m.files.len() ==> (#[trigger] m.files[i]).size >= 0
    &&& forall|i: int|
        0 <= i < m.files.len() ==> (#[trigger] m.files[i]).offset == total_size_of(
            m.files.take(i),
        )
    &&& m.pieces.len() == ceil_div(total_size_of(m.files), m.piece_length)
    &&& forall|i: int| 0 <= i < m.pieces.len() ==> (#[trigger] m.pieces[i]).hash.len() == 20
    &&& forall|i: int|
        0 <= i < m.pieces.len() ==> (#[trigger] m.pieces[i]).size == piece_size_at(
            total_size_of(m.files),
            m.piece_length,
            i,
        )
    &&& forall|i: int| 0 <= i < m.pieces.len() ==> (#[trigger] m.pieces[i]).verified == false
    &&& forall|i: int|
        0 <= i < m.pieces.len() ==> (#[trigger] m.pieces[i]).blocks == block_layout(
            m.pieces[i].size,
        )
}

/// The files laid out from a prefix of pairs total the prefix's sizes.
proof fn lemma_total_files_layout(pairs: Seq<(Seq<char>, int)>, k: int)
    requires
        0 <= k <= pairs.len(),
    ensures
        total_size_of(files_layout(pairs).take(k)) == sum_sizes(pairs.take(k)),
    decreases k,
{
    if k > 0 {
        lemma_total_files_layout(pairs, k - 1);
        assert(files_layout(pairs).take(k).drop_last() =~= files_layout(pairs).take(k - 1));
        assert(pairs.take(k).drop_last() =~= pairs.take(k - 1));
    }
}

/// Every torrent the assembler yields is well formed.
pub proof fn lemma_assembled_torrent_wf(d: Seq<(Seq<char>, SpecValue)>)
    requires
        spec_assemble(d) is Ok,
    ensures
        torrent_model_wf(spec_assemble(d)->Ok_0),
{
    let m = spec_assemble(d)->Ok_0;
    match str_field(d, "announce"@) {
        Some(announce) => match lookup(d, "info"@) {
            Some(SpecValue::Dict(info)) => match spec_file_pairs(info) {
                Ok(pairs) => {
                    match lookup(info, "files"@) {
                        Some(SpecValue::List(items)) => {
                            lemma_files_of_nonneg(items);
                        },
                        _ => {},
                    }
                    assert(forall|i: int|
                        0 <= i < pairs.len() ==> (#[trigger] pairs[i]).1 >= 0);
                    let total = sum_sizes(pairs);
                    assert(m.files == files_layout(pairs));
                    assert forall|k: int| 0 <= k <= pairs.len() implies total_size_of(
                        files_layout(pairs).take(k),
                    ) == sum_sizes(#[trigger] pairs.take(k)) by {
                        lemma_total_files_layout(pairs, k);
                    }
                    assert(pairs.take(pairs.len() as int) =~= pairs);
                    assert(files_layout(pairs).take(pairs.len() as int) =~= files_layout(pairs));
                    assert(total_size_of(m.files) == total);
                    assert forall|i: int| 0 <= i < m.files.len() implies (
                    #[trigger] m.files[i]).offset == total_size_of(m.files.take(i)) by {
                        assert(m.files.take(i) =~= files_layout(pairs).take(i));
                    }
                    let pl = m.piece_length;
                    let pb = bytes_field(info, "pieces"@)->Some_0;
                    assert(m.pieces == pieces_layout(total, pl, pb));
                    assert(pb.len() == 20 * ceil_div(total, pl));
                    assert forall|i: int| 0 <= i < m.pieces.len() implies (
                    #[trigger] m.pieces[i]).hash.len() == 20 by {
                        assert(20 * i + 20 <= 20 * ceil_div(total, pl)) by (nonlinear_arith)
                            requires
                                i < ceil_div(total, pl),
                        ;
                        assert(20 * i >= 0) by (nonlinear_arith)
                            requires
                                i >= 0,
                        ;
                    }
                },
                Err(_) => {},
            },
            _ => {},
        },
        None => {},
    }
}

/// A metainfo dictionary without an `announce` field does not
/// assemble: the error names that field.
pub proof fn lemma_missing_announce(d: Seq<(Seq<char>, SpecValue)>)
    requires
        lookup(d, "announce"@) is None,
    ensures
        spec_assemble(d) == Err::<TorrentModel, Seq<char>>("announce"@),
{
}

/// A torrent is private exactly where the info dictionary holds
/// `private` as a non-zero integer; an absent or zero flag leaves it
/// public.
pub proof fn lemma_private_flag(d: Seq<(Seq<char>, SpecValue)>)
    requires
        spec_assemble(d) is Ok,
    ensures
        lookup(d, "info"@) matches Some(SpecValue::Dict(info)) && ((spec_assemble(
            d,
        )->Ok_0).is_private <==> (int_field(info, "private"@) matches Some(n) && n != 0)),
{
}

impl Torrent {
    /// Decodes a whole metainfo buffer and assembles the torrent it
    /// describes, reporting whether the buffer was malformed bencoding
    /// or a required field was missing.
    pub fn from_bencoded(encoded: Vec<u8>) -> (r: Result<Torrent, NewTorrentFromFileError>)
        ensures
            match r {
                Ok(t) => spec_decode(encoded@) matches Some(SpecValue::Dict(d)) && spec_assemble(d)
                    == Ok::<TorrentModel, Seq<char>>(torrent_model(t)),
                Err(NewTorrentFromFileError::Decode(_)) => spec_decode(encoded@) is None,
                Err(NewTorrentFromFileError::MissingField(e)) => spec_decode(encoded@) matches Some(
                    SpecValue::Dict(d),
                ) && spec_assemble(d) matches Err(f) && e.field@ == f,
            },
    {
        let decoder = Decoder::new(encoded);
        match decoder.decode() {
            Ok(Value::Dictionary(entries)) => match Torrent::bencoding_to_torrent(entries) {
                Ok(t) => Ok(t),
                Err(e) => Err(NewTorrentFromFileError::MissingField(e)),
            },
            Ok(_) => Err(NewTorrentFromFileError::Decode(DecodeError)),
            Err(e) => Err(NewTorrentFromFileError::Decode(e)),
        }
    }
}

} // verus!
