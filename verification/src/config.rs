//! The daemon's settings.
use vstd::prelude::*;

verus! {

/// All settings.
#[derive(Debug, Clone)]
pub struct FeConfig {
    pub server: ServerConfig,
    pub downloads: DownloadsConfig,
    pub limits: LimitsConfig,
}

/// Where the web API listens.
#[derive(Debug, Clone)]
pub struct ServerConfig {
    pub port: u16,
    pub bind: String,
}

/// Where downloads go, and how many peers a torrent may have.
#[derive(Debug, Clone)]
pub struct DownloadsConfig {
    pub directory: String,
    pub max_peers: usize,
}

/// Transfer rate limits in KiB/s; 0 is no limit.
#[derive(Debug, Clone)]
pub struct LimitsConfig {
    pub download_kbps: u32,
    pub upload_kbps: u32,
}

impl Default for FeConfig {
    /// Port 6977 on the loopback address, downloads under `~/Downloads/FeTorrent` with up to
    /// 200 peers, no rate limits.
    fn default() -> (r: Self)
        ensures
            r.server.port == 6977,
            r.server.bind@ == "127.0.0.1"@,
            r.downloads.directory@ == "~/Downloads/FeTorrent"@,
            r.downloads.max_peers == 200,
            r.limits.download_kbps == 0,
            r.limits.upload_kbps == 0,
    {
        FeConfig {
            server: ServerConfig { port: 6977, bind: String::from_str("127.0.0.1") },
            downloads: DownloadsConfig {
                directory: String::from_str("~/Downloads/FeTorrent"),
                max_peers: 200,
            },
            limits: LimitsConfig { download_kbps: 0, upload_kbps: 0 },
        }
    }
}

} // verus!
