//! What the engine decides when torrents are added, updated, resumed and summed up.
//!
//! The engine itself (its task registry, channels and locks) runs in the application.
use vstd::prelude::*;
use crate::error::CoreError;
use crate::hexcode::hex_lower;
use crate::magnet::{shown_name, spec_parse_magnet, MagnetLink};
use crate::models::{FileInfo, TorrentStatus, TrackerInfo};
use crate::random::random_in;
use crate::text::strings_view;
use crate::torrent::{pending_tracker, reported_file, reports_torrent_fault, spec_torrent, TorrentFile};
use crate::torrent_task::TorrentUpdate;

verus! {

broadcast use vstd::seq_lib::group_seq_properties;

/// How a torrent is added: by magnet URI, or by the bytes of a `.torrent` file.
#[derive(Debug, Clone)]
pub enum AddMode {
    Magnet(String),
    TorrentFile(Vec<u8>),
}

/// What is known of a torrent when it is added.
#[derive(Debug, Clone)]
pub struct TorrentMeta {
    pub name: String,
    /// The info hash in lowercase hex.
    pub info_hash: String,
    /// The magnet URI it was added by, if any.
    pub magnet: Option<String>,
    pub total_size: u64,
    pub num_pieces: u32,
    pub piece_length: u32,
    pub files: Vec<FileInfo>,
    pub trackers: Vec<TrackerInfo>,
}

/// The trackers of a torrent as reported before any announce.
pub open spec fn pending_trackers(t: Seq<TrackerInfo>, urls: Seq<Seq<char>>) -> bool {
    t.len() == urls.len() && forall|i: int| 0 <= i < t.len() ==> pending_tracker(#[trigger] t[i], urls[i])
}

/// What is known of a torrent added by magnet link `uri`, or why it is refused.
pub open spec fn magnet_meta_ok(r: Result<TorrentMeta, CoreError>, uri: Seq<char>) -> bool {
    match spec_parse_magnet(uri) {
        Err(e) => r matches Err(CoreError::MagnetInvalid(m)) && m@ == e,
        Ok(m) => r matches Ok(t) && t.name@ == shown_name(m) && t.info_hash@ == hex_lower(
            m.info_hash,
        ) && (match t.magnet {
            Some(u) => u@ == uri,
            None => false,
        }) && t.total_size == 0 && t.num_pieces == 0
            && t.piece_length == 0 && t.files@.len() == 0 && pending_trackers(t.trackers@, m.trackers),
    }
}

/// What is known of a torrent added by `.torrent` bytes, or why it is refused.
pub open spec fn file_meta_ok(r: Result<TorrentMeta, CoreError>, data: Seq<u8>) -> bool {
    match spec_torrent(data) {
        Err(f) => r matches Err(e) && reports_torrent_fault(e, f),
        Ok(v) => r matches Ok(t) && t.name@ == v.name && t.info_hash@ == hex_lower(v.info_hash)
            && t.magnet is None && t.total_size == v.total_size && t.num_pieces == v.pieces.len() as u32
            && t.piece_length == v.piece_length && t.files@.len() == v.files.len() && (forall|i: int|
            0 <= i < t.files@.len() ==> reported_file(#[trigger] t.files@[i], i, v.files[i]))
            && pending_trackers(t.trackers@, v.trackers),
    }
}

/// Trackers as reported before any announce.
fn pending_tracker_list(urls: &Vec<String>) -> (r: Vec<TrackerInfo>)
    ensures
        pending_trackers(r@, strings_view(urls@)),
{
    let mut out: Vec<TrackerInfo> = Vec::new();
    let mut i: usize = 0;
    while i < urls.len()
        invariant
            0 <= i <= urls@.len(),
            out@.len() == i,
            forall|k: int| 0 <= k < i ==> pending_tracker(#[trigger] out@[k], urls@[k]@),
        decreases urls@.len() - i,
    {
        out.push(
            TrackerInfo {
                url: urls[i].clone(),
                status: String::from_str("pending"),
                seeders: None,
                leechers: None,
                last_announce: None,
                next_announce: None,
            },
        );
        i = i + 1;
    }
    out
}

impl AddMode {
    /// What is known of the torrent when it is added: from the magnet link, or from the
    /// `.torrent` file.
    pub fn metadata(&self) -> (r: Result<TorrentMeta, CoreError>)
        ensures
            match self {
                AddMode::Magnet(uri) => magnet_meta_ok(r, uri@),
                AddMode::TorrentFile(bytes) => file_meta_ok(r, bytes@),
            },
    {
        match self {
            AddMode::Magnet(uri) => {
                let m = match MagnetLink::parse(uri.as_str()) {
                    Ok(m) => m,
                    Err(e) => return Err(e),
                };
                let name = String::from_str(m.name());
                let info_hash = m.info_hash_hex();
                let trackers = pending_tracker_list(&m.trackers);
                Ok(
                    TorrentMeta {
                        name,
                        info_hash,
                        magnet: Some(uri.clone()),
                        total_size: 0,
                        num_pieces: 0,
                        piece_length: 0,
                        files: Vec::new(),
                        trackers,
                    },
                )
            },
            AddMode::TorrentFile(bytes) => {
                let t = match TorrentFile::from_bytes(bytes.as_slice()) {
                    Ok(t) => t,
                    Err(e) => return Err(e),
                };
                let files = t.into_file_infos();
                let trackers = t.into_tracker_infos();
                let info_hash = t.info_hash_hex();
                let num_pieces = t.num_pieces();
                Ok(
                    TorrentMeta {
                        name: t.name.clone(),
                        info_hash,
                        magnet: None,
                        total_size: t.total_size,
                        num_pieces,
                        piece_length: t.piece_length,
                        files,
                        trackers,
                    },
                )
            },
        }
    }
}

/// A torrent with this info hash is among those known.
pub fn already_added(known: &Vec<String>, info_hash: &String) -> (r: bool)
    ensures
        r == strings_view(known@).contains(info_hash@),
{
    let mut i: usize = 0;
    while i < known.len()
        invariant
            0 <= i <= known@.len(),
            forall|k: int| 0 <= k < i ==> known@[k]@ != info_hash@,
        decreases known@.len() - i,
    {
        if known[i] == *info_hash {
            assert(strings_view(known@)[i as int] == info_hash@);
            return true;
        }
        i = i + 1;
    }
    proof {
        if strings_view(known@).contains(info_hash@) {
            let k = choose|k: int| 0 <= k < strings_view(known@).len() && strings_view(known@)[k] == info_hash@;
            assert(known@[k]@ == info_hash@);
        }
    }
    false
}

/// Admits a torrent under the next id: refused when a torrent with the same info hash is known,
/// else given `next_id`, and the counter moves on by one (wrapping).
pub fn admit_torrent(known: &Vec<String>, info_hash: &String, next_id: usize) -> (r: Result<(usize, usize), CoreError>)
    ensures
        strings_view(known@).contains(info_hash@) ==> r matches Err(CoreError::TorrentAlreadyExists),
        !strings_view(known@).contains(info_hash@) ==> r == Ok::<(usize, usize), CoreError>(
            (next_id, if next_id == usize::MAX { 0 } else { (next_id + 1) as usize }),
        ),
{
    if already_added(known, info_hash) {
        return Err(CoreError::TorrentAlreadyExists);
    }
    Ok((next_id, next_id.wrapping_add(1)))
}

/// Resuming moves a paused or failed torrent back to downloading and leaves others alone.
pub fn resumed_status(status: &TorrentStatus) -> (r: Option<TorrentStatus>)
    ensures
        match status {
            TorrentStatus::Paused => r matches Some(TorrentStatus::Downloading),
            TorrentStatus::Error(_) => r matches Some(TorrentStatus::Downloading),
            _ => r is None,
        },
{
    match status {
        TorrentStatus::Paused => Some(TorrentStatus::Downloading),
        TorrentStatus::Error(_) => Some(TorrentStatus::Downloading),
        _ => None,
    }
}

/// The counters of a torrent that the engine keeps up to date (its progress and ratio, which
/// are fractions, are worked out by the application from these).
#[derive(Debug, Clone)]
pub struct TorrentStats {
    pub total_size: u64,
    pub piece_length: u32,
    pub num_pieces: u32,
    pub downloaded: u64,
    pub uploaded: u64,
    pub dl_speed: u64,
    pub ul_speed: u64,
    pub eta_secs: Option<u64>,
    pub num_peers: usize,
    pub num_seeds: usize,
    pub num_leechers: usize,
    pub status: TorrentStatus,
}

/// `a - b`, or 0 when `b` is larger.
pub open spec fn sat_sub(a: u64, b: u64) -> u64 {
    if a >= b {
        (a - b) as u64
    } else {
        0
    }
}

/// The counters after a progress report from the torrent's task: sizes learnt from metadata
/// are taken, the download speed is what was downloaded since the last report, and the time
/// left is what remains at that speed.
pub open spec fn updated_stats(s: TorrentStats, u: TorrentUpdate) -> TorrentStats {
    let total = match u.total_size {
        Some(t) => t,
        None => s.total_size,
    };
    let speed = sat_sub(u.downloaded, s.downloaded);
    TorrentStats {
        total_size: total,
        piece_length: match u.piece_length {
            Some(p) => p,
            None => s.piece_length,
        },
        num_pieces: match u.num_pieces {
            Some(n) => n,
            None => s.num_pieces,
        },
        downloaded: u.downloaded,
        uploaded: u.uploaded,
        dl_speed: speed,
        ul_speed: s.ul_speed,
        eta_secs: if speed > 0 {
            Some((sat_sub(total, u.downloaded) / speed) as u64)
        } else {
            None
        },
        num_peers: u.num_peers,
        num_seeds: u.num_seeds,
        num_leechers: u.num_leechers,
        status: u.status,
    }
}

impl TorrentStats {
    /// Applies a progress report from the torrent's task.
    pub fn apply_update(&mut self, update: TorrentUpdate)
        ensures
            *final(self) == updated_stats(*old(self), update),
    {
        match update.total_size {
            Some(size) => self.total_size = size,
            None => {},
        }
        match update.piece_length {
            Some(plen) => self.piece_length = plen,
            None => {},
        }
        match update.num_pieces {
            Some(n) => self.num_pieces = n,
            None => {},
        }
        let delta_dl = update.downloaded.saturating_sub(self.downloaded);
        self.dl_speed = delta_dl;
        self.downloaded = update.downloaded;
        self.uploaded = update.uploaded;
        self.num_peers = update.num_peers;
        self.num_seeds = update.num_seeds;
        self.num_leechers = update.num_leechers;
        self.status = update.status;
        let left = self.total_size.saturating_sub(self.downloaded);
        self.eta_secs = if self.dl_speed > 0 {
            Some(left / self.dl_speed)
        } else {
            None
        };
    }
}

/// Totals over all torrents (the overall ratio, a fraction, is worked out by the application).
#[derive(Debug, Clone, Copy, PartialEq, Eq, Structural)]
pub struct GlobalTotals {
    pub dl_speed: u64,
    pub ul_speed: u64,
    pub total_downloaded: u64,
    pub total_uploaded: u64,
    pub active_torrents: usize,
    pub seeding_torrents: usize,
    pub paused_torrents: usize,
}

/// Addition that wraps around past `u64::MAX`.
pub open spec fn wadd(a: u64, b: u64) -> u64 {
    if a + b > u64::MAX {
        (a + b - 18446744073709551616int) as u64
    } else {
        (a + b) as u64
    }
}

/// The totals of the first `n` torrents: speeds and byte counts summed (wrapping around), and
/// torrents counted by state: downloading and seeding ones are active, seeding ones are also
/// counted as seeding, paused ones as paused.
pub open spec fn totals_upto(s: Seq<TorrentStats>, n: int) -> GlobalTotals
    decreases n,
{
    if n <= 0 {
        GlobalTotals {
            dl_speed: 0,
            ul_speed: 0,
            total_downloaded: 0,
            total_uploaded: 0,
            active_torrents: 0,
            seeding_torrents: 0,
            paused_torrents: 0,
        }
    } else {
        let g = totals_upto(s, n - 1);
        let t = s[n - 1];
        GlobalTotals {
            dl_speed: wadd(g.dl_speed, t.dl_speed),
            ul_speed: wadd(g.ul_speed, t.ul_speed),
            total_downloaded: wadd(g.total_downloaded, t.downloaded),
            total_uploaded: wadd(g.total_uploaded, t.uploaded),
            active_torrents: (g.active_torrents + if t.status is Downloading || t.status is Seeding {
                1int
            } else {
                0int
            }) as usize,
            seeding_torrents: (g.seeding_torrents + if t.status is Seeding {
                1int
            } else {
                0int
            }) as usize,
            paused_torrents: (g.paused_torrents + if t.status is Paused {
                1int
            } else {
                0int
            }) as usize,
        }
    }
}

proof fn lemma_totals_bounds(s: Seq<TorrentStats>, n: int)
    requires
        0 <= n <= s.len(),
    ensures
        totals_upto(s, n).active_torrents <= n,
        totals_upto(s, n).seeding_torrents <= n,
        totals_upto(s, n).paused_torrents <= n,
    decreases n,
{
    if n > 0 {
        lemma_totals_bounds(s, n - 1);
    }
}

/// Sums up all torrents.
pub fn global_totals(torrents: &[TorrentStats]) -> (r: GlobalTotals)
    ensures
        r == totals_upto(torrents@, torrents@.len() as int),
{
    let mut g = GlobalTotals {
        dl_speed: 0,
        ul_speed: 0,
        total_downloaded: 0,
        total_uploaded: 0,
        active_torrents: 0,
        seeding_torrents: 0,
        paused_torrents: 0,
    };
    let mut i: usize = 0;
    while i < torrents.len()
        invariant
            0 <= i <= torrents@.len(),
            g == totals_upto(torrents@, i as int),
        decreases torrents@.len() - i,
    {
        proof {
            lemma_totals_bounds(torrents@, i as int);
        }
        let t = &torrents[i];
        g.dl_speed = g.dl_speed.wrapping_add(t.dl_speed);
        g.ul_speed = g.ul_speed.wrapping_add(t.ul_speed);
        g.total_downloaded = g.total_downloaded.wrapping_add(t.downloaded);
        g.total_uploaded = g.total_uploaded.wrapping_add(t.uploaded);
        match t.status {
            TorrentStatus::Downloading => g.active_torrents = g.active_torrents + 1,
            TorrentStatus::Seeding => {
                g.seeding_torrents = g.seeding_torrents + 1;
                g.active_torrents = g.active_torrents + 1;
            },
            TorrentStatus::Paused => g.paused_torrents = g.paused_torrents + 1,
            _ => {},
        }
        i = i + 1;
    }
    g
}

/// The prefix of every peer id this client uses.
pub open spec fn peer_id_prefix() -> Seq<u8> {
    seq![45u8, 70, 84, 48, 48, 48, 49, 45]
}

/// A fresh peer id: `-FT0001-`, then twelve random printable ASCII bytes (33 to 125).
pub fn generate_peer_id() -> (r: [u8; 20])
    ensures
        r@.take(8) == peer_id_prefix(),
        forall|i: int| 8 <= i < 20 ==> 33 <= #[trigger] r@[i] < 126,
{
    let mut id = [0u8; 20];
    let prefix: [u8; 8] = [45, 70, 84, 48, 48, 48, 49, 45];
    let mut i: usize = 0;
    while i < 8
        invariant
            0 <= i <= 8,
            id@.len() == 20,
            prefix@ == peer_id_prefix(),
            forall|k: int| 0 <= k < i ==> id@[k] == prefix@[k],
        decreases 8 - i,
    {
        id.set(i, prefix[i]);
        i = i + 1;
    }
    while i < 20
        invariant
            8 <= i <= 20,
            id@.len() == 20,
            prefix@ == peer_id_prefix(),
            forall|k: int| 0 <= k < 8 ==> id@[k] == prefix@[k],
            forall|k: int| 8 <= k < i ==> 33 <= #[trigger] id@[k] < 126,
        decreases 20 - i,
    {
        id.set(i, random_in(33, 126));
        i = i + 1;
    }
    assert(id@.take(8) =~= peer_id_prefix());
    id
}

} // verus!
