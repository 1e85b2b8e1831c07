//! What the engine reports about torrents, files and trackers.
use vstd::prelude::*;
use vstd::string::StringSliceAdditionalSpecFns;
use crate::error::CoreError;
use crate::hexcode::{hex_decode, hex_decodes};

verus! {

/// Where a torrent is in its life.
#[derive(Debug, Clone, PartialEq)]
pub enum TorrentStatus {
    Queued,
    Checking,
    Downloading,
    Seeding,
    Paused,
    Finished,
    DownloadingMetadata,
    Error(String),
}

/// The text a status is shown with.
pub open spec fn status_text(s: TorrentStatus) -> Seq<char> {
    match s {
        TorrentStatus::Queued => "Queued"@,
        TorrentStatus::Checking => "Checking"@,
        TorrentStatus::Downloading => "Downloading"@,
        TorrentStatus::Seeding => "Seeding"@,
        TorrentStatus::Paused => "Paused"@,
        TorrentStatus::Finished => "Finished"@,
        TorrentStatus::DownloadingMetadata => "Downloading Metadata"@,
        TorrentStatus::Error(e) => "Error: "@ + e@,
    }
}

impl TorrentStatus {
    /// The text this status is shown with.
    pub fn text(&self) -> (r: String)
        ensures
            r@ == status_text(*self),
    {
        match self {
            TorrentStatus::Queued => String::from_str("Queued"),
            TorrentStatus::Checking => String::from_str("Checking"),
            TorrentStatus::Downloading => String::from_str("Downloading"),
            TorrentStatus::Seeding => String::from_str("Seeding"),
            TorrentStatus::Paused => String::from_str("Paused"),
            TorrentStatus::Finished => String::from_str("Finished"),
            TorrentStatus::DownloadingMetadata => String::from_str("Downloading Metadata"),
            TorrentStatus::Error(e) => {
                let mut r = String::from_str("Error: ");
                r.append(e.as_str());
                r
            },
        }
    }
}

/// How eagerly a file is downloaded.
#[derive(Debug, Clone, Copy, PartialEq, Eq, Structural)]
pub enum FilePriority {
    Skip,
    Low,
    Normal,
    High,
}

/// One file of a torrent.
#[derive(Debug, Clone)]
pub struct FileInfo {
    pub index: usize,
    pub path: String,
    pub size: u64,
    pub downloaded: u64,
    pub priority: FilePriority,
}

/// One tracker of a torrent; announce times are Unix timestamps in seconds.
#[derive(Debug, Clone)]
pub struct TrackerInfo {
    pub url: String,
    pub status: String,
    pub seeders: Option<u32>,
    pub leechers: Option<u32>,
    pub last_announce: Option<i64>,
    pub next_announce: Option<i64>,
}

/// A torrent is complete when something is to be had and all of it has been downloaded.
pub fn torrent_is_complete(downloaded: u64, total_size: u64) -> (r: bool)
    ensures
        r == (downloaded >= total_size && total_size > 0),
{
    downloaded >= total_size && total_size > 0
}

/// `hex::FromHexError`'s `Display` text.
#[verifier::external_body]
fn hex_error_text(e: &hex::FromHexError) -> String {
    e.to_string()
}

/// The 20 bytes of an info hash written as 40 hex digits.
pub fn info_hash_from_hex(s: &str) -> (r: Result<[u8; 20], CoreError>)
    ensures
        s.spec_bytes().len() != 40 ==> (r matches Err(CoreError::TorrentInvalidField(f, m)) && f@
            == "info_hash"@ && m@ == "invalid hex length"@),
        s.spec_bytes().len() == 40 ==> match hex_decodes(s.spec_bytes()) {
            Some(v) => r matches Ok(a) && a@ == v,
            None => r matches Err(CoreError::TorrentInvalidField(f, _)) && f@ == "info_hash"@,
        },
{
    let b = s.as_bytes();
    if b.len() != 40 {
        return Err(
            CoreError::TorrentInvalidField("info_hash", String::from_str("invalid hex length")),
        );
    }
    match hex_decode(s) {
        Ok(bytes) => {
            assert(bytes@.len() == 20);
            let mut a = [0u8; 20];
            crate::endian::copy_into(&mut a, bytes.as_slice(), 0);
            assert(bytes@.subrange(0, 20) =~= bytes@);
            Ok(a)
        },
        Err(e) => Err(CoreError::TorrentInvalidField("info_hash", hex_error_text(&e))),
    }
}

} // verus!
