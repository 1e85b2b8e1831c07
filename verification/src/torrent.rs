//! `.torrent` metainfo files (v1, single-file and multi-file).
//!
//! The info hash is the SHA-1 of the raw bencoded `info` dictionary.
use vstd::prelude::*;
use vstd::utf8::*;
use vstd::string::StringSliceAdditionalSpecFns;
use crate::bencode::{decode, decoded_as, dict_lookup, dict_value_range, fault_message, lemma_dict_value_span, lemma_value_span_bounds, reports_fault, sd_value, spec_decode, spec_dict_value_span, BDict, BVal, BValue, DecodeFault, Decoder};
use crate::endian::copy_into;
use crate::error::CoreError;
use crate::hash::{sha1_digest, sha1_spec};
use crate::hexcode::{hex_encode, hex_lower};
use crate::models::{FileInfo, FilePriority, TrackerInfo};
use crate::text::{opt_string_view, strings_view};

verus! {

broadcast use vstd::seq_lib::group_seq_properties;

// ─── The model ───────────────────────────────────────────────────────────────
/// One file of a torrent: its path (joined with `/`), size, and offset in the torrent's data.
#[derive(Debug, Clone)]
pub struct TorrentFileEntry {
    pub path: String,
    pub size: u64,
    pub offset: u64,
}

/// A parsed `.torrent` file.
#[derive(Debug, Clone)]
pub struct TorrentFile {
    pub info_hash: [u8; 20],
    pub name: String,
    pub piece_length: u32,
    /// One 20-byte SHA-1 hash per piece.
    pub pieces: Vec<[u8; 20]>,
    pub total_size: u64,
    pub files: Vec<TorrentFileEntry>,
    pub trackers: Vec<String>,
    pub comment: Option<String>,
    pub created_by: Option<String>,
}

pub struct EntryView {
    pub path: Seq<char>,
    pub size: u64,
    pub offset: u64,
}

pub struct TorrentView {
    pub info_hash: Seq<u8>,
    pub name: Seq<char>,
    pub piece_length: u32,
    pub pieces: Seq<Seq<u8>>,
    pub total_size: u64,
    pub files: Seq<EntryView>,
    pub trackers: Seq<Seq<char>>,
    pub comment: Option<Seq<char>>,
    pub created_by: Option<Seq<char>>,
}

impl View for TorrentFileEntry {
    type V = EntryView;

    open spec fn view(&self) -> EntryView {
        EntryView { path: self.path@, size: self.size, offset: self.offset }
    }
}

pub open spec fn entries_view(v: Seq<TorrentFileEntry>) -> Seq<EntryView> {
    v.map_values(|e: TorrentFileEntry| e@)
}

pub open spec fn hashes_view(v: Seq<[u8; 20]>) -> Seq<Seq<u8>> {
    v.map_values(|h: [u8; 20]| h@)
}

impl View for TorrentFile {
    type V = TorrentView;

    open spec fn view(&self) -> TorrentView {
        TorrentView {
            info_hash: self.info_hash@,
            name: self.name@,
            piece_length: self.piece_length,
            pieces: hashes_view(self.pieces@),
            total_size: self.total_size,
            files: entries_view(self.files@),
            trackers: strings_view(self.trackers@),
            comment: opt_string_view(self.comment),
            created_by: opt_string_view(self.created_by),
        }
    }
}

/// Why a torrent is refused.
pub enum TorrentFault {
    Missing(Seq<char>),
    Invalid(Seq<char>, Seq<char>),
    Decode(DecodeFault),
}

/// `e` is the error that reports `f`.
pub open spec fn reports_torrent_fault(e: CoreError, f: TorrentFault) -> bool {
    match f {
        TorrentFault::Missing(n) => e matches CoreError::TorrentMissingField(s) && s@ == n,
        TorrentFault::Invalid(n, m) => e matches CoreError::TorrentInvalidField(s, t) && s@ == n
            && t@ == m,
        TorrentFault::Decode(d) => reports_fault(e, d),
    }
}

/// An executable result agrees with a result of the model.
pub open spec fn torrent_as<T: View>(r: Result<T, CoreError>, s: Result<T::V, TorrentFault>) -> bool {
    match (r, s) {
        (Ok(t), Ok(v)) => t@ == v,
        (Err(e), Err(f)) => reports_torrent_fault(e, f),
        _ => false,
    }
}

// ─── Reading fields ──────────────────────────────────────────────────────────
/// The value under a text key.
pub open spec fn field(d: Seq<(Seq<u8>, BVal)>, k: Seq<char>) -> Option<BVal> {
    dict_lookup(d, encode_utf8(k))
}

/// A byte string holding valid UTF-8, as text.
pub open spec fn text_of(v: BVal) -> Option<Seq<char>> {
    match v {
        BVal::Bytes(b) => if valid_utf8(b) {
            Some(decode_utf8(b))
        } else {
            None
        },
        _ => None,
    }
}

pub open spec fn opt_text(v: Option<BVal>) -> Option<Seq<char>> {
    match v {
        Some(x) => text_of(x),
        None => None,
    }
}

pub open spec fn opt_int(v: Option<BVal>) -> Option<int> {
    match v {
        Some(BVal::Int(n)) => Some(n),
        _ => None,
    }
}

pub open spec fn opt_bytes(v: Option<BVal>) -> Option<Seq<u8>> {
    match v {
        Some(BVal::Bytes(b)) => Some(b),
        _ => None,
    }
}

pub open spec fn opt_list(v: Option<BVal>) -> Option<Seq<BVal>> {
    match v {
        Some(BVal::List(l)) => Some(l),
        _ => None,
    }
}

// ─── The info dictionary ─────────────────────────────────────────────────────
/// The piece hashes: consecutive 20-byte pieces of `raw`.
pub open spec fn chunks20(raw: Seq<u8>) -> Seq<Seq<u8>> {
    Seq::new(raw.len() / 20, |i: int| raw.subrange(20 * i, 20 * i + 20))
}

/// The texts of path parts, when every part is text.
pub open spec fn path_texts(parts: Seq<BVal>) -> Option<Seq<Seq<char>>>
    decreases parts.len(),
{
    if parts.len() == 0 {
        Some(Seq::empty())
    } else {
        match path_texts(parts.drop_last()) {
            None => None,
            Some(ts) => match text_of(parts.last()) {
                None => None,
                Some(t) => Some(ts.push(t)),
            },
        }
    }
}

/// `name/part/part/…`.
pub open spec fn path_join(name: Seq<char>, parts: Seq<Seq<char>>) -> Seq<char>
    decreases parts.len(),
{
    if parts.len() == 0 {
        name
    } else {
        path_join(name, parts.drop_last()) + "/"@ + parts.last()
    }
}

/// Addition that wraps around past `u64::MAX`.
pub open spec fn wrap_add(a: u64, b: u64) -> u64 {
    if a + b > u64::MAX {
        (a + b - 18446744073709551616int) as u64
    } else {
        (a + b) as u64
    }
}

/// One entry of a `files` list: its path and size.
pub open spec fn file_entry(name: Seq<char>, item: BVal) -> Result<(Seq<char>, u64), TorrentFault> {
    match item {
        BVal::Dict(d) => match opt_int(field(d, "length"@)) {
            None => Err(TorrentFault::Missing("file length"@)),
            Some(n) => match opt_list(field(d, "path"@)) {
                None => Err(TorrentFault::Missing("file path"@)),
                Some(parts) => match path_texts(parts) {
                    None => Err(TorrentFault::Invalid("file path part"@, "not utf8"@)),
                    Some(ts) => Ok((path_join(name, ts), n as u64)),
                },
            },
        },
        _ => Err(TorrentFault::Invalid("file entry"@, "not a dict"@)),
    }
}

/// The first `n` entries of a `files` list, each at the offset where the ones before it end,
/// and the offset after them.
pub open spec fn entries_upto(name: Seq<char>, l: Seq<BVal>, n: nat) -> Result<
    (Seq<EntryView>, u64),
    TorrentFault,
>
    decreases n,
{
    if n == 0 {
        Ok((Seq::empty(), 0u64))
    } else {
        match entries_upto(name, l, (n - 1) as nat) {
            Err(e) => Err(e),
            Ok((es, off)) => match file_entry(name, l[n - 1]) {
                Err(e) => Err(e),
                Ok((path, size)) => Ok(
                    (es.push(EntryView { path, size, offset: off }), wrap_add(off, size)),
                ),
            },
        }
    }
}

/// The files of a multi-file torrent and their total size.
pub open spec fn spec_multi_file(name: Seq<char>, v: BVal) -> Result<(Seq<EntryView>, u64), TorrentFault> {
    match v {
        BVal::List(l) => entries_upto(name, l, l.len()),
        _ => Err(TorrentFault::Invalid("files"@, "not a list"@)),
    }
}

/// A torrent read from its info dictionary alone: no info hash, trackers, comment or creator.
pub open spec fn spec_info(info: BVal) -> Result<TorrentView, TorrentFault> {
    match info {
        BVal::Dict(d) => {
            let name = match opt_text(field(d, "name"@)) {
                Some(t) => t,
                None => "Unknown"@,
            };
            match opt_int(field(d, "piece length"@)) {
                None => Err(TorrentFault::Missing("piece length"@)),
                Some(pl) => match opt_bytes(field(d, "pieces"@)) {
                    None => Err(TorrentFault::Missing("pieces"@)),
                    Some(raw) => if raw.len() % 20 != 0 {
                        Err(TorrentFault::Invalid("pieces"@, "length not multiple of 20"@))
                    } else {
                        let files = match field(d, "files"@) {
                            Some(fl) => spec_multi_file(name, fl),
                            None => match opt_int(field(d, "length"@)) {
                                None => Err(TorrentFault::Missing("length"@)),
                                Some(n) => Ok(
                                    (
                                        seq![EntryView { path: name, size: n as u64, offset: 0 }],
                                        n as u64,
                                    ),
                                ),
                            },
                        };
                        match files {
                            Err(e) => Err(e),
                            Ok((fs, total)) => Ok(
                                TorrentView {
                                    info_hash: Seq::new(20, |i: int| 0u8),
                                    name,
                                    piece_length: pl as u32,
                                    pieces: chunks20(raw),
                                    total_size: total,
                                    files: fs,
                                    trackers: Seq::empty(),
                                    comment: None,
                                    created_by: None,
                                },
                            ),
                        }
                    },
                },
            }
        },
        _ => Err(TorrentFault::Missing("info dict"@)),
    }
}

// ─── Parsing the info dictionary ─────────────────────────────────────────────
proof fn lemma_path_texts_none(parts: Seq<BVal>, k: int)
    requires
        0 <= k <= parts.len(),
        path_texts(parts.take(k)) is None,
    ensures
        path_texts(parts) is None,
    decreases parts.len() - k,
{
    if k < parts.len() {
        assert(parts.take(k + 1).drop_last() =~= parts.take(k));
        lemma_path_texts_none(parts, k + 1);
    } else {
        assert(parts.take(k) =~= parts);
    }
}

proof fn lemma_entries_err(name: Seq<char>, l: Seq<BVal>, k: nat, m: nat)
    requires
        k <= m,
        entries_upto(name, l, k) is Err,
    ensures
        entries_upto(name, l, m) == entries_upto(name, l, k),
    decreases m - k,
{
    if k < m {
        lemma_entries_err(name, l, k, (m - 1) as nat);
    }
}

/// Reads one entry of a `files` list: its path under `name`, and its size.
fn file_entry_of(name: &str, item: &BValue) -> (r: Result<(String, u64), CoreError>)
    ensures
        match file_entry(name@, item@) {
            Ok((path, size)) => r matches Ok((p, s)) && p@ == path && s == size,
            Err(f) => r matches Err(e) && reports_torrent_fault(e, f),
        },
{
    let d = match item.as_dict() {
        Some(d) => d,
        None => {
            return Err(
                CoreError::TorrentInvalidField("file entry", String::from_str("not a dict")),
            );
        },
    };
    let size = match d.get("length".as_bytes()) {
        Some(v) => match v.as_int() {
            Some(n) => #[verifier::truncate] (n as u64),
            None => return Err(CoreError::TorrentMissingField("file length")),
        },
        None => return Err(CoreError::TorrentMissingField("file length")),
    };
    let parts = match d.get("path".as_bytes()) {
        Some(v) => match v.as_list() {
            Some(l) => l,
            None => return Err(CoreError::TorrentMissingField("file path")),
        },
        None => return Err(CoreError::TorrentMissingField("file path")),
    };
    let ghost l = opt_list(field(d@, "path"@))->Some_0;
    let mut path = String::from_str(name);
    let ghost mut ts: Seq<Seq<char>> = Seq::empty();
    let mut i: usize = 0;
    assert(l.take(0) =~= Seq::<BVal>::empty());
    while i < parts.len()
        invariant
            0 <= i <= parts@.len(),
            parts@.len() == l.len(),
            forall|k: int| 0 <= k < l.len() ==> (#[trigger] parts@[k])@ == l[k],
            path_texts(l.take(i as int)) == Some(ts),
            path@ == path_join(name@, ts),
            item@ == BVal::Dict(d@),
            opt_int(field(d@, "length"@)) is Some,
            size == opt_int(field(d@, "length"@))->Some_0 as u64,
            opt_list(field(d@, "path"@)) == Some(l),
        decreases parts@.len() - i,
    {
        assert(l.take(i + 1).drop_last() =~= l.take(i as int));
        assert(l.take(i + 1).last() == l[i as int]);
        let t = match parts[i].as_str() {
            Some(t) => t,
            None => {
                proof {
                    assert(text_of(l[i as int]) is None);
                    assert(path_texts(l.take(i + 1)) is None);
                    lemma_path_texts_none(l, i + 1);
                }
                return Err(
                    CoreError::TorrentInvalidField("file path part", String::from_str("not utf8")),
                );
            },
        };
        path.append("/");
        path.append(t);
        proof {
            assert(ts.push(t@).drop_last() =~= ts);
            assert(path_texts(l.take(i + 1)) == Some(ts.push(t@)));
            ts = ts.push(t@);
        }
        i = i + 1;
    }
    assert(l.take(i as int) =~= l);
    Ok((path, size))
}

/// The files of a multi-file torrent, each at its offset, and their total size.
pub fn parse_multi_file(name: &str, files_val: &BValue) -> (r: Result<(Vec<TorrentFileEntry>, u64), CoreError>)
    ensures
        match spec_multi_file(name@, files_val@) {
            Ok((es, total)) => r matches Ok((v, t)) && entries_view(v@) == es && t == total,
            Err(f) => r matches Err(e) && reports_torrent_fault(e, f),
        },
{
    let list = match files_val.as_list() {
        Some(l) => l,
        None => {
            return Err(CoreError::TorrentInvalidField("files", String::from_str("not a list")));
        },
    };
    let ghost l = match files_val@ {
        BVal::List(l) => l,
        _ => Seq::empty(),
    };
    let mut entries: Vec<TorrentFileEntry> = Vec::new();
    let mut offset: u64 = 0;
    let mut i: usize = 0;
    assert(entries_view(entries@) =~= Seq::<EntryView>::empty());
    while i < list.len()
        invariant
            0 <= i <= list@.len(),
            files_val@ == BVal::List(l),
            list@.len() == l.len(),
            forall|k: int| 0 <= k < l.len() ==> (#[trigger] list@[k])@ == l[k],
            entries_upto(name@, l, i as nat) == Ok::<(Seq<EntryView>, u64), TorrentFault>(
                (entries_view(entries@), offset),
            ),
        decreases list@.len() - i,
    {
        let (path, size) = match file_entry_of(name, &list[i]) {
            Ok(x) => x,
            Err(e) => {
                proof {
                    lemma_entries_err(name@, l, (i + 1) as nat, l.len());
                }
                return Err(e);
            },
        };
        let ghost before = entries@;
        entries.push(TorrentFileEntry { path, size, offset });
        assert(entries_view(entries@) =~= entries_view(before).push(
            EntryView { path: path@, size, offset },
        ));
        offset = offset.wrapping_add(size);
        i = i + 1;
    }
    Ok((entries, offset))
}

impl TorrentFile {
    /// Reads a torrent from its info dictionary alone; the info hash is left zero.
    pub fn from_info_value(info: &BValue) -> (r: Result<Self, CoreError>)
        ensures
            torrent_as(r, spec_info(info@)),
    {
        let d = match info.as_dict() {
            Some(d) => d,
            None => return Err(CoreError::TorrentMissingField("info dict")),
        };
        let name = match d.get("name".as_bytes()) {
            Some(v) => match v.as_str() {
                Some(t) => String::from_str(t),
                None => String::from_str("Unknown"),
            },
            None => String::from_str("Unknown"),
        };
        let piece_length = match d.get("piece length".as_bytes()) {
            Some(v) => match v.as_int() {
                Some(n) => #[verifier::truncate] (n as u32),
                None => return Err(CoreError::TorrentMissingField("piece length")),
            },
            None => return Err(CoreError::TorrentMissingField("piece length")),
        };
        let raw = match d.get("pieces".as_bytes()) {
            Some(v) => match v.as_bytes() {
                Some(b) => b,
                None => return Err(CoreError::TorrentMissingField("pieces")),
            },
            None => return Err(CoreError::TorrentMissingField("pieces")),
        };
        if raw.len() % 20 != 0 {
            return Err(
                CoreError::TorrentInvalidField(
                    "pieces",
                    String::from_str("length not multiple of 20"),
                ),
            );
        }
        let mut pieces: Vec<[u8; 20]> = Vec::new();
        let mut k: usize = 0;
        while k < raw.len() / 20
            invariant
                0 <= k <= raw@.len() / 20,
                raw@.len() % 20 == 0,
                hashes_view(pieces@) == chunks20(raw@).take(k as int),
            decreases raw@.len() / 20 - k,
        {
            let mut h = [0u8; 20];
            copy_into(&mut h, raw, 20 * k);
            let ghost before = pieces@;
            pieces.push(h);
            proof {
                assert(hashes_view(pieces@) =~= hashes_view(before).push(h@));
                assert(chunks20(raw@)[k as int] == raw@.subrange(20 * k, 20 * k + 20));
                assert(chunks20(raw@).take(k + 1) =~= chunks20(raw@).take(k as int).push(
                    raw@.subrange(20 * k, 20 * k + 20),
                ));
            }
            k = k + 1;
        }
        assert(chunks20(raw@).take(k as int) =~= chunks20(raw@));
        let (files, total_size) = match d.get("files".as_bytes()) {
            Some(files_list) => match parse_multi_file(name.as_str(), files_list) {
                Ok(x) => x,
                Err(e) => return Err(e),
            },
            None => {
                let size = match d.get("length".as_bytes()) {
                    Some(v) => match v.as_int() {
                        Some(n) => #[verifier::truncate] (n as u64),
                        None => return Err(CoreError::TorrentMissingField("length")),
                    },
                    None => return Err(CoreError::TorrentMissingField("length")),
                };
                let entry = TorrentFileEntry { path: name.clone(), size, offset: 0 };
                let mut v = Vec::new();
                v.push(entry);
                assert(entries_view(v@) =~= seq![EntryView { path: name@, size, offset: 0 }]);
                (v, size)
            },
        };
        let t = TorrentFile {
            info_hash: [0u8; 20],
            name,
            piece_length,
            pieces,
            total_size,
            files,
            trackers: Vec::new(),
            comment: None,
            created_by: None,
        };
        assert(t@.info_hash =~= Seq::new(20, |i: int| 0u8));
        assert(t@.trackers =~= Seq::<Seq<char>>::empty());
        Ok(t)
    }
}

// ─── The info hash ───────────────────────────────────────────────────────────
/// The key under which a torrent file stores its info dictionary.
pub open spec fn info_name() -> Seq<u8> {
    encode_utf8("info"@)
}

/// The bytes that introduce the `info` value: the bencoded key `info`.
pub open spec fn info_key() -> Seq<u8> {
    encode_utf8("4:info"@)
}

/// `key` occurs in `data` at `i`.
pub open spec fn occurs_at(data: Seq<u8>, key: Seq<u8>, i: int) -> bool {
    0 <= i && i + key.len() <= data.len() && data.subrange(i, i + key.len()) == key
}

/// The first place at or after `i` where `key` occurs.
pub open spec fn first_occurrence(data: Seq<u8>, key: Seq<u8>, i: int) -> Option<int>
    decreases data.len() - i,
{
    if i < 0 || i >= data.len() || i + key.len() > data.len() {
        None
    } else if occurs_at(data, key, i) {
        Some(i)
    } else {
        first_occurrence(data, key, i + 1)
    }
}

/// The raw bytes of the bencoded value that follows the first `4:info` in `data`.
pub open spec fn scanned_info_span(data: Seq<u8>) -> Result<Seq<u8>, TorrentFault> {
    match first_occurrence(data, info_key(), 0) {
        None => Err(TorrentFault::Missing("info key"@)),
        Some(p) => {
            let rest = data.skip(p + info_key().len());
            match sd_value(rest, 0, 0) {
                (Err(f), _) => Err(TorrentFault::Decode(f)),
                (Ok(_), end) => Ok(rest.take(end)),
            }
        },
    }
}

/// The raw bytes of the info dictionary: the value stored under the `info` key of the
/// dictionary that `data` starts with. Bytes whose entries do not read as a dictionary are
/// searched for the bencoded key instead, and the value after its first occurrence is taken.
pub open spec fn info_span(data: Seq<u8>) -> Result<Seq<u8>, TorrentFault> {
    match spec_dict_value_span(data, info_name()) {
        Err(_) => scanned_info_span(data),
        Ok(None) => Err(TorrentFault::Missing("info key"@)),
        Ok(Some((s, e))) => Ok(data.subrange(s, e)),
    }
}

/// The text of the error that reports a decoding fault.
pub open spec fn fault_error_text(f: DecodeFault) -> Seq<char> {
    match fault_message(f) {
        None => "bencode: premature end of data"@,
        Some(m) => "bencode: invalid data — "@ + m,
    }
}

proof fn lemma_first_occurrence_is(data: Seq<u8>, key: Seq<u8>, i: int, j: int)
    requires
        0 <= i <= j,
        forall|k: int| i <= k < j ==> !occurs_at(data, key, k),
        j + key.len() > data.len() || occurs_at(data, key, j),
        key.len() > 0,
    ensures
        first_occurrence(data, key, i) == (if j + key.len() > data.len() {
            None::<int>
        } else {
            Some(j)
        }),
    decreases j - i,
{
    if i < j {
        lemma_first_occurrence_is(data, key, i + 1, j);
    }
}

/// `key` occurs in `data` at `i`.
fn bytes_at(data: &[u8], key: &[u8], i: usize) -> (r: bool)
    requires
        i + key@.len() <= data@.len(),
    ensures
        r == occurs_at(data@, key@, i as int),
{
    let n = data.len();
    let mut k: usize = 0;
    while k < key.len()
        invariant
            0 <= k <= key@.len(),
            n == data@.len(),
            i + key@.len() <= n,
            forall|j: int| 0 <= j < k ==> data@[i + j] == key@[j],
        decreases key@.len() - k,
    {
        if data[i + k] != key[k] {
            assert(data@.subrange(i as int, i + key@.len())[k as int] != key@[k as int]);
            return false;
        }
        k = k + 1;
    }
    assert(data@.subrange(i as int, i + key@.len()) =~= key@);
    true
}

/// The raw bytes of the value after the first `4:info` in `data`.
fn scan_info_value(data: &[u8]) -> (r: Result<&[u8], CoreError>)
    ensures
        match scanned_info_span(data@) {
            Ok(raw) => r matches Ok(x) && x@ == raw,
            Err(f) => r matches Err(e) && reports_torrent_fault(e, f),
        },
{
    let key = "4:info".as_bytes();
    proof {
        reveal_strlit("4:info");
        assert(key@.len() > 0);
    }
    let mut i: usize = 0;
    loop
        invariant_except_break
            forall|k: int| 0 <= k < i ==> !occurs_at(data@, key@, k),
            key@ == info_key(),
            key@.len() > 0,
        ensures
            first_occurrence(data@, key@, 0) == (if i + key@.len() > data@.len() {
                None::<int>
            } else {
                Some(i as int)
            }),
        decreases data@.len() - i,
    {
        if i > data.len() || data.len() - i < key.len() {
            proof {
                lemma_first_occurrence_is(data@, key@, 0, i as int);
            }
            break;
        }
        if bytes_at(data, key, i) {
            proof {
                lemma_first_occurrence_is(data@, key@, 0, i as int);
            }
            break;
        }
        i = i + 1;
    }
    if i > data.len() || data.len() - i < key.len() {
        return Err(CoreError::TorrentMissingField("info key"));
    }
    let info_start = i + key.len();
    let rest = &data[info_start..data.len()];
    assert(rest@ =~= data@.skip(info_start as int));
    let mut d = Decoder::new(rest);
    match d.decode() {
        Ok(_) => {},
        Err(e) => return Err(e),
    }
    let end = d.position();
    proof {
        crate::bencode::lemma_sd_value_bounds(rest@, 0, 0);
    }
    let raw = &data[info_start..info_start + end];
    assert(raw@ =~= rest@.take(end as int));
    Ok(raw)
}

/// SHA-1 of the raw bencoded info dictionary: the value stored under the `info` key of the
/// dictionary that `data` starts with (for bytes that do not read as one, the value after the
/// first `4:info`).
pub fn find_and_hash_info_dict(data: &[u8]) -> (r: Result<[u8; 20], CoreError>)
    ensures
        match info_span(data@) {
            Ok(raw) => r matches Ok(h) && h@ == sha1_spec(raw),
            Err(f) => r matches Err(e) && reports_torrent_fault(e, f),
        },
{
    let key = "info".as_bytes();
    proof {
        reveal_strlit("info");
    }
    assert(key@ == info_name());
    match dict_value_range(data, key) {
        Ok(Some((start, end))) => {
            proof {
                lemma_value_span_bounds(data@, 1, 1, info_name(), None);
            }
            Ok(sha1_digest(&data[start..end]))
        },
        Ok(None) => Err(CoreError::TorrentMissingField("info key")),
        Err(_) => match scan_info_value(data) {
            Ok(raw) => Ok(sha1_digest(raw)),
            Err(e) => Err(e),
        },
    }
}

/// In a file that decodes to a dictionary, the bytes hashed for the info hash are exactly those
/// of the value stored under `info`: they decode, where they stand, to that value; without an
/// `info` key there is nothing to hash.
pub proof fn law_info_hash_covers_info_value(data: Seq<u8>)
    requires
        spec_decode(data) matches Ok(BVal::Dict(_)),
    ensures
        spec_decode(data) matches Ok(BVal::Dict(d)) && match field(d, "info"@) {
            None => info_span(data) == Err::<Seq<u8>, TorrentFault>(TorrentFault::Missing("info key"@)),
            Some(v) => exists|s: int, e: int|
                #![trigger data.subrange(s, e)]
                info_span(data) == Ok::<Seq<u8>, TorrentFault>(data.subrange(s, e)) && sd_value(
                    data,
                    s,
                    1,
                ) == (Ok::<BVal, DecodeFault>(v), e),
        },
{
    lemma_dict_value_span(data, info_name());
    match spec_dict_value_span(data, info_name()) {
        Ok(Some((s, e))) => {
            assert(sd_value(data, s, 1).1 == e);
            assert(info_span(data) == Ok::<Seq<u8>, TorrentFault>(data.subrange(s, e)));
        },
        _ => {},
    }
}

/// The info hash of a torrent file, once the whole file decodes.
pub fn compute_info_hash(data: &[u8]) -> (r: Result<[u8; 20], CoreError>)
    ensures
        match spec_decode(data@) {
            Err(f) => r matches Err(CoreError::BencodeInvalid(m)) && m@ == "root: "@
                + fault_error_text(f),
            Ok(_) => match info_span(data@) {
                Ok(raw) => r matches Ok(h) && h@ == sha1_spec(raw),
                Err(f) => r matches Err(e) && reports_torrent_fault(e, f),
            },
        },
{
    let mut decoder = Decoder::new(data);
    match decoder.decode() {
        Ok(_) => {},
        Err(e) => {
            let mut m = String::from_str("root: ");
            let t = e.message();
            m.append(t.as_str());
            return Err(CoreError::BencodeInvalid(m));
        },
    }
    find_and_hash_info_dict(data)
}

// ─── Trackers ────────────────────────────────────────────────────────────────
/// `u` added at the end unless it is there already.
pub open spec fn add_unique(acc: Seq<Seq<char>>, u: Seq<char>) -> Seq<Seq<char>> {
    if acc.contains(u) {
        acc
    } else {
        acc.push(u)
    }
}

/// The text URLs of one tier added in order, each once.
pub open spec fn add_tier_urls(acc: Seq<Seq<char>>, urls: Seq<BVal>) -> Seq<Seq<char>>
    decreases urls.len(),
{
    if urls.len() == 0 {
        acc
    } else {
        let a = add_tier_urls(acc, urls.drop_last());
        match text_of(urls.last()) {
            Some(u) => add_unique(a, u),
            None => a,
        }
    }
}

/// The URLs of every tier that is a list, tier after tier.
pub open spec fn add_tiers(acc: Seq<Seq<char>>, tiers: Seq<BVal>) -> Seq<Seq<char>>
    decreases tiers.len(),
{
    if tiers.len() == 0 {
        acc
    } else {
        let a = add_tiers(acc, tiers.drop_last());
        match tiers.last() {
            BVal::List(us) => add_tier_urls(a, us),
            _ => a,
        }
    }
}

/// The trackers of a torrent: `announce`, then the URLs of `announce-list` not seen before.
pub open spec fn announce_urls(d: Seq<(Seq<u8>, BVal)>) -> Seq<Seq<char>> {
    let first = match opt_text(field(d, "announce"@)) {
        Some(a) => seq![a],
        None => Seq::empty(),
    };
    match opt_list(field(d, "announce-list"@)) {
        Some(tiers) => add_tiers(first, tiers),
        None => first,
    }
}

/// `u` is among the strings.
fn contains_string(v: &Vec<String>, u: &String) -> (r: bool)
    ensures
        r == strings_view(v@).contains(u@),
{
    let mut i: usize = 0;
    while i < v.len()
        invariant
            0 <= i <= v@.len(),
            forall|k: int| 0 <= k < i ==> v@[k]@ != u@,
        decreases v@.len() - i,
    {
        if v[i] == *u {
            assert(strings_view(v@)[i as int] == u@);
            return true;
        }
        i = i + 1;
    }
    proof {
        if strings_view(v@).contains(u@) {
            let k = choose|k: int| 0 <= k < strings_view(v@).len() && strings_view(v@)[k] == u@;
            assert(v@[k]@ == u@);
        }
    }
    false
}

/// Adds the text URLs of one tier, each once.
fn push_tier_urls(trackers: &mut Vec<String>, urls: &[BValue])
    ensures
        strings_view(final(trackers)@) == add_tier_urls(
            strings_view(old(trackers)@),
            urls@.map_values(|u: BValue| u@),
        ),
{
    let ghost us = urls@.map_values(|u: BValue| u@);
    let ghost start = strings_view(trackers@);
    let mut i: usize = 0;
    assert(us.take(0) =~= Seq::<BVal>::empty());
    while i < urls.len()
        invariant
            0 <= i <= urls@.len(),
            us == urls@.map_values(|u: BValue| u@),
            strings_view(trackers@) == add_tier_urls(start, us.take(i as int)),
        decreases urls@.len() - i,
    {
        assert(us.take(i + 1).drop_last() =~= us.take(i as int));
        assert(us.take(i + 1).last() == urls@[i as int]@);
        match urls[i].as_str() {
            Some(u) => {
                let s = String::from_str(u);
                if !contains_string(trackers, &s) {
                    let ghost before = trackers@;
                    trackers.push(s);
                    assert(strings_view(trackers@) =~= strings_view(before).push(u@));
                }
            },
            None => {},
        }
        i = i + 1;
    }
    assert(us.take(i as int) =~= us);
}

// ─── Whole torrent files ─────────────────────────────────────────────────────
/// What a `.torrent` file's bytes give: the torrent, or why it is refused.
pub open spec fn spec_torrent(data: Seq<u8>) -> Result<TorrentView, TorrentFault> {
    match spec_decode(data) {
        Err(f) => Err(TorrentFault::Decode(f)),
        Ok(root) => match root {
            BVal::Dict(d) => match info_span(data) {
                Err(e) => Err(e),
                Ok(raw) => match field(d, "info"@) {
                    None => Err(TorrentFault::Missing("info"@)),
                    Some(info) => match spec_info(info) {
                        Err(e) => Err(e),
                        Ok(t) => Ok(
                            TorrentView {
                                info_hash: sha1_spec(raw),
                                name: t.name,
                                piece_length: t.piece_length,
                                pieces: t.pieces,
                                total_size: t.total_size,
                                files: t.files,
                                trackers: announce_urls(d),
                                comment: opt_text(field(d, "comment"@)),
                                created_by: opt_text(field(d, "created by"@)),
                            },
                        ),
                    },
                },
            },
            _ => Err(TorrentFault::Missing("root dict"@)),
        },
    }
}

/// What the bytes of an info dictionary alone give; the info hash is their SHA-1.
pub open spec fn spec_info_dict(data: Seq<u8>) -> Result<TorrentView, TorrentFault> {
    match spec_decode(data) {
        Err(f) => Err(TorrentFault::Decode(f)),
        Ok(v) => match spec_info(v) {
            Err(e) => Err(e),
            Ok(t) => Ok(
                TorrentView {
                    info_hash: sha1_spec(data),
                    name: t.name,
                    piece_length: t.piece_length,
                    pieces: t.pieces,
                    total_size: t.total_size,
                    files: t.files,
                    trackers: t.trackers,
                    comment: t.comment,
                    created_by: t.created_by,
                },
            ),
        },
    }
}

/// The text of a text value, as a string.
fn text_field(d: &BDict, key: &str) -> (r: Option<String>)
    ensures
        opt_string_view(r) == opt_text(dict_lookup(d@, key.spec_bytes())),
{
    match d.get(key.as_bytes()) {
        Some(v) => match v.as_str() {
            Some(t) => Some(String::from_str(t)),
            None => None,
        },
        None => None,
    }
}

/// The trackers of a torrent's root dictionary.
fn announce_list(d: &BDict) -> (r: Vec<String>)
    ensures
        strings_view(r@) == announce_urls(d@),
{
    let mut trackers: Vec<String> = Vec::new();
    match text_field(d, "announce") {
        Some(a) => trackers.push(a),
        None => {},
    }
    let ghost first = strings_view(trackers@);
    assert(first =~= match opt_text(field(d@, "announce"@)) {
        Some(a) => seq![a],
        None => Seq::<Seq<char>>::empty(),
    });
    let tiers = match d.get("announce-list".as_bytes()) {
        Some(v) => match v.as_list() {
            Some(l) => l,
            None => return trackers,
        },
        None => return trackers,
    };
    let ghost tl = opt_list(field(d@, "announce-list"@))->Some_0;
    let mut i: usize = 0;
    assert(tl.take(0) =~= Seq::<BVal>::empty());
    while i < tiers.len()
        invariant
            0 <= i <= tiers@.len(),
            tiers@.len() == tl.len(),
            forall|k: int| 0 <= k < tl.len() ==> (#[trigger] tiers@[k])@ == tl[k],
            strings_view(trackers@) == add_tiers(first, tl.take(i as int)),
        decreases tiers@.len() - i,
    {
        assert(tl.take(i + 1).drop_last() =~= tl.take(i as int));
        assert(tl.take(i + 1).last() == tl[i as int]);
        match tiers[i].as_list() {
            Some(urls) => {
                proof {
                    let us = match tl[i as int] {
                        BVal::List(us) => us,
                        _ => Seq::empty(),
                    };
                    assert(urls@.map_values(|u: BValue| u@) =~= us);
                }
                push_tier_urls(&mut trackers, urls);
            },
            None => {},
        }
        i = i + 1;
    }
    assert(tl.take(i as int) =~= tl);
    trackers
}

/// A file of a torrent as the engine reports it: its position, path and size, nothing
/// downloaded yet, normal priority.
pub open spec fn reported_file(f: FileInfo, i: int, e: EntryView) -> bool {
    f.index == i && f.path@ == e.path && f.size == e.size && f.downloaded == 0 && f.priority
        == FilePriority::Normal
}

/// A tracker as the engine reports it before any announce.
pub open spec fn pending_tracker(t: TrackerInfo, url: Seq<char>) -> bool {
    t.url@ == url && t.status@ == "pending"@ && t.seeders is None && t.leechers is None
        && t.last_announce is None && t.next_announce is None
}

impl TorrentFile {
    /// Parses the raw bytes of a `.torrent` file.
    pub fn from_bytes(data: &[u8]) -> (r: Result<Self, CoreError>)
        ensures
            torrent_as(r, spec_torrent(data@)),
    {
        let root = match decode(data) {
            Ok(v) => v,
            Err(e) => return Err(e),
        };
        let dict = match root.as_dict() {
            Some(d) => d,
            None => return Err(CoreError::TorrentMissingField("root dict")),
        };
        let info_hash = match compute_info_hash(data) {
            Ok(h) => h,
            Err(e) => return Err(e),
        };
        let info = match dict.get("info".as_bytes()) {
            Some(v) => v,
            None => return Err(CoreError::TorrentMissingField("info")),
        };
        let mut torrent = match Self::from_info_value(info) {
            Ok(t) => t,
            Err(e) => return Err(e),
        };
        torrent.info_hash = info_hash;
        torrent.trackers = announce_list(dict);
        torrent.comment = text_field(dict, "comment");
        torrent.created_by = text_field(dict, "created by");
        Ok(torrent)
    }

    /// Parses a bencoded info dictionary alone (as fetched for a magnet link); the info hash is
    /// the SHA-1 of its bytes.
    pub fn from_info_dict(data: &[u8]) -> (r: Result<Self, CoreError>)
        ensures
            torrent_as(r, spec_info_dict(data@)),
    {
        let info_value = match decode(data) {
            Ok(v) => v,
            Err(e) => return Err(e),
        };
        let mut torrent = match Self::from_info_value(&info_value) {
            Ok(t) => t,
            Err(e) => return Err(e),
        };
        torrent.info_hash = sha1_digest(data);
        Ok(torrent)
    }

    /// The info hash in lowercase hex.
    pub fn info_hash_hex(&self) -> (r: String)
        ensures
            r@ == hex_lower(self.info_hash@),
    {
        hex_encode(&self.info_hash)
    }

    /// The number of pieces, as a `u32`.
    pub fn num_pieces(&self) -> (r: u32)
        ensures
            r == self.pieces@.len() as u32,
    {
        #[verifier::truncate]
        (self.pieces.len() as u32)
    }

    /// The files as the engine reports them.
    pub fn into_file_infos(&self) -> (r: Vec<FileInfo>)
        ensures
            r@.len() == self.files@.len(),
            forall|i: int| 0 <= i < r@.len() ==> reported_file(#[trigger] r@[i], i, self.files@[i]@),
    {
        let mut out: Vec<FileInfo> = Vec::new();
        let mut i: usize = 0;
        while i < self.files.len()
            invariant
                0 <= i <= self.files@.len(),
                out@.len() == i,
                forall|k: int| 0 <= k < i ==> reported_file(#[trigger] out@[k], k, self.files@[k]@),
            decreases self.files@.len() - i,
        {
            let f = &self.files[i];
            out.push(
                FileInfo {
                    index: i,
                    path: f.path.clone(),
                    size: f.size,
                    downloaded: 0,
                    priority: FilePriority::Normal,
                },
            );
            i = i + 1;
        }
        out
    }

    /// The trackers as the engine reports them before any announce.
    pub fn into_tracker_infos(&self) -> (r: Vec<TrackerInfo>)
        ensures
            r@.len() == self.trackers@.len(),
            forall|i: int| 0 <= i < r@.len() ==> pending_tracker(#[trigger] r@[i], self.trackers@[i]@),
    {
        let mut out: Vec<TrackerInfo> = Vec::new();
        let mut i: usize = 0;
        while i < self.trackers.len()
            invariant
                0 <= i <= self.trackers@.len(),
                out@.len() == i,
                forall|k: int| 0 <= k < i ==> pending_tracker(#[trigger] out@[k], self.trackers@[k]@),
            decreases self.trackers@.len() - i,
        {
            out.push(
                TrackerInfo {
                    url: self.trackers[i].clone(),
                    status: String::from_str("pending"),
                    seeders: None,
                    leechers: None,
                    last_announce: None,
                    next_announce: None,
                },
            );
            i = i + 1;
        }
        out
    }
}

impl Default for TorrentFile {
    fn default() -> (r: Self)
        ensures
            r.info_hash@ == Seq::new(20, |i: int| 0u8),
            r.name@ == "Unknown"@,
            r.piece_length == 0,
            r.pieces@.len() == 0,
            r.total_size == 0,
            r.files@.len() == 0,
            r.trackers@.len() == 0,
            r.comment is None,
            r.created_by is None,
    {
        let r = TorrentFile {
            info_hash: [0u8; 20],
            name: String::from_str("Unknown"),
            piece_length: 0,
            pieces: Vec::new(),
            total_size: 0,
            files: Vec::new(),
            trackers: Vec::new(),
            comment: None,
            created_by: None,
        };
        assert(r.info_hash@ =~= Seq::new(20, |i: int| 0u8));
        r
    }
}

/// Entries that follow each other: the first at offset 0, each where the one before it ends
/// (offsets wrapping past 2^64), and `end` where the last one ends.
pub open spec fn entries_abut(es: Seq<EntryView>, end: u64) -> bool {
    &&& es.len() > 0 ==> es[0].offset == 0
    &&& forall|i: int| 0 <= i < es.len() - 1 ==> #[trigger] es[i + 1].offset == wrap_add(es[i].offset, es[i].size)
    &&& end == (if es.len() == 0 {
        0u64
    } else {
        wrap_add(es.last().offset, es.last().size)
    })
}

proof fn lemma_entries_abut(name: Seq<char>, l: Seq<BVal>, n: nat)
    ensures
        entries_upto(name, l, n) matches Ok((es, end)) ==> entries_abut(es, end),
    decreases n,
{
    if n > 0 {
        lemma_entries_abut(name, l, (n - 1) as nat);
        match entries_upto(name, l, (n - 1) as nat) {
            Ok((es, off)) => match file_entry(name, l[n - 1]) {
                Ok((path, size)) => {
                    let e2 = es.push(EntryView { path, size, offset: off });
                    assert forall|i: int| 0 <= i < e2.len() - 1 implies #[trigger] e2[i + 1].offset
                        == wrap_add(e2[i].offset, e2[i].size) by {
                        assert(e2[i] == es[i]);
                        if i + 1 < es.len() {
                            assert(e2[i + 1] == es[i + 1]);
                        }
                    }
                },
                Err(_) => {},
            },
            Err(_) => {},
        }
    }
}

/// The files of a multi-file torrent follow each other in the torrent's data: the first at
/// offset 0, each where the one before it ends, and the total size is where the last one ends
/// (offsets wrapping past 2^64).
pub proof fn law_files_follow_each_other(name: Seq<char>, v: BVal)
    ensures
        spec_multi_file(name, v) matches Ok((es, total)) ==> entries_abut(es, total),
{
    match v {
        BVal::List(l) => lemma_entries_abut(name, l, l.len()),
        _ => {},
    }
}

/// The piece hashes of an info dictionary that parses are its `pieces` bytes cut into 20-byte
/// hashes in order: hash `i` is bytes `20 * i .. 20 * i + 20`, and a short tail is dropped.
pub proof fn law_piece_hashes_in_order(info: BVal)
    ensures
        match (spec_info(info), info) {
            (Ok(t), BVal::Dict(d)) => match opt_bytes(field(d, "pieces"@)) {
                Some(raw) => t.pieces.len() == raw.len() / 20 && forall|i: int| 0 <= i < t.pieces.len()
                    ==> #[trigger] t.pieces[i] == raw.subrange(20 * i, 20 * i + 20),
                None => false,
            },
            (Ok(_), _) => false,
            _ => true,
        },
{
}

/// The piece hashes of a torrent file that parses are the `pieces` bytes of its info
/// dictionary cut into 20-byte hashes in order.
pub proof fn law_torrent_piece_hashes_in_order(data: Seq<u8>)
    ensures
        match spec_torrent(data) {
            Ok(t) => match spec_decode(data) {
                Ok(BVal::Dict(d)) => match field(d, "info"@) {
                    Some(BVal::Dict(i)) => match opt_bytes(field(i, "pieces"@)) {
                        Some(raw) => t.pieces.len() == raw.len() / 20 && forall|k: int| 0 <= k < t.pieces.len()
                            ==> #[trigger] t.pieces[k] == raw.subrange(20 * k, 20 * k + 20),
                        None => false,
                    },
                    _ => false,
                },
                _ => false,
            },
            Err(_) => true,
        },
{
    match spec_decode(data) {
        Ok(BVal::Dict(d)) => match field(d, "info"@) {
            Some(info) => law_piece_hashes_in_order(info),
            None => {},
        },
        _ => {},
    }
}

} // verus!
