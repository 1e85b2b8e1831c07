//! What the command-line client computes: which daemon it may start, and how it shows names,
//! sizes and times.
use vstd::prelude::*;
use crate::decimal::{nat_string, nat_text};
use crate::text::{ascii_chars_of, chars_of, string_of_chars};

verus! {

/// What `url::Url` reads from URL text: the host and the port (the scheme's known default when
/// none is written), or `None` when the text is no URL.
pub uninterp spec fn url_host_port(s: Seq<char>) -> Option<(Option<Seq<char>>, Option<u16>)>;

/// `reqwest::Url::parse`, then `host_str` and `port_or_known_default` of the result.
#[verifier::external_body]
fn parse_host_port(s: &str) -> (r: Option<(Option<String>, Option<u16>)>)
    ensures
        match (r, url_host_port(s@)) {
            (Some((h, p)), Some((sh, sp))) => p == sp && match (h, sh) {
                (Some(x), Some(y)) => x@ == y,
                (None, None) => true,
                _ => false,
            },
            (None, None) => true,
            _ => false,
        },
{
    reqwest::Url::parse(s).ok().map(|u| (u.host_str().map(|h| h.to_string()), u.port_or_known_default()))
}

/// The daemon the client may start for an API URL: a loopback host (`127.0.0.1` or
/// `localhost`) with a port.
pub open spec fn daemon_endpoint(api_url: Seq<char>) -> Option<(Seq<char>, u16)> {
    match url_host_port(api_url) {
        Some((Some(h), Some(p))) => if h == "127.0.0.1"@ || h == "localhost"@ {
            Some((h, p))
        } else {
            None
        },
        _ => None,
    }
}

/// The host and port of the daemon to start for `api_url`, when it is a local one.
pub fn daemon_endpoint_from_api_url(api_url: &str) -> (r: Option<(String, u16)>)
    ensures
        match daemon_endpoint(api_url@) {
            Some((h, p)) => r matches Some((x, y)) && x@ == h && y == p,
            None => r is None,
        },
{
    let (host, port) = match parse_host_port(api_url) {
        Some((Some(h), p)) => (h, p),
        _ => return None,
    };
    if !(host == String::from_str("127.0.0.1") || host == String::from_str("localhost")) {
        return None;
    }
    match port {
        Some(p) => Some((host, p)),
        None => None,
    }
}

/// The client may start the daemon itself when the API URL names a local one.
pub fn can_auto_start_daemon(url: &str) -> (r: bool)
    ensures
        r == daemon_endpoint(url@) is Some,
{
    daemon_endpoint_from_api_url(url).is_some()
}

/// A name cut to `max` characters: when longer, its first `max - 3` characters and `...`.
pub open spec fn truncated(s: Seq<char>, max: nat) -> Seq<char> {
    if s.len() > max {
        s.take(max - 3) + "..."@
    } else {
        s
    }
}

/// Cuts `s` to at most `max` characters, marking a cut with `...`; a cut needs room for the
/// marker.
pub fn truncate(s: &str, max: usize) -> (r: String)
    requires
        s@.len() > max ==> max >= 3,
    ensures
        r@ == truncated(s@, max as nat),
{
    let cs = chars_of(s);
    if cs.len() > max {
        let mut t = string_of_chars(&cs.as_slice()[0..max - 3]);
        t.append("...");
        proof {
            assert(cs@.subrange(0, max - 3) =~= s@.take(max - 3));
        }
        t
    } else {
        String::from_str(s)
    }
}

/// A time left as shown: `∞` when unknown, `Done` at zero, else days, hours and minutes,
/// minutes and seconds, or seconds, by size.
pub open spec fn eta_text(secs: Option<u64>) -> Seq<char> {
    match secs {
        None => "∞"@,
        Some(s) => if s == 0 {
            "Done"@
        } else if s > 86400 {
            ascii_chars_of(nat_text((s / 86400) as nat)) + "d"@
        } else if s > 3600 {
            ascii_chars_of(nat_text((s / 3600) as nat)) + "h "@ + ascii_chars_of(
                nat_text(((s % 3600) / 60) as nat),
            ) + "m"@
        } else if s > 60 {
            ascii_chars_of(nat_text((s / 60) as nat)) + "m "@ + ascii_chars_of(nat_text((s % 60) as nat))
                + "s"@
        } else {
            ascii_chars_of(nat_text(s as nat)) + "s"@
        },
    }
}

/// Shows a time left in seconds.
pub fn format_eta(secs: Option<u64>) -> (r: String)
    ensures
        r@ == eta_text(secs),
{
    match secs {
        None => String::from_str("∞"),
        Some(s) => {
            if s == 0 {
                String::from_str("Done")
            } else if s > 86400 {
                let mut t = nat_string(s / 86400);
                t.append("d");
                t
            } else if s > 3600 {
                let mut t = nat_string(s / 3600);
                t.append("h ");
                let m = nat_string((s % 3600) / 60);
                t.append(m.as_str());
                t.append("m");
                t
            } else if s > 60 {
                let mut t = nat_string(s / 60);
                t.append("m ");
                let m = nat_string(s % 60);
                t.append(m.as_str());
                t.append("s");
                t
            } else {
                let mut t = nat_string(s);
                t.append("s");
                t
            }
        },
    }
}

/// The unit a byte count is shown in (B, KB, MB, GB, TB): the largest power of 1024, up to
/// the fourth, that the count reaches.
pub open spec fn unit_index(bytes: u64) -> usize {
    if bytes >= 1099511627776 {
        4
    } else if bytes >= 1073741824 {
        3
    } else if bytes >= 1048576 {
        2
    } else if bytes >= 1024 {
        1
    } else {
        0
    }
}

/// The unit a byte count is shown in.
pub fn byte_unit(bytes: u64) -> (r: usize)
    ensures
        r == unit_index(bytes),
{
    if bytes >= 1099511627776 {
        4
    } else if bytes >= 1073741824 {
        3
    } else if bytes >= 1048576 {
        2
    } else if bytes >= 1024 {
        1
    } else {
        0
    }
}

/// A byte count below 1024, shown in bytes.
pub fn format_small_bytes(bytes: u64) -> (r: String)
    ensures
        r@ == ascii_chars_of(nat_text(bytes as nat)) + " B"@,
{
    let mut t = nat_string(bytes);
    t.append(" B");
    t
}

/// The client's commands.
#[derive(Debug, Clone)]
pub enum Commands {
    /// Add a new torrent (magnet or file path)
    Add { target: String, dir: Option<String> },
    /// List all torrents
    List { watch: bool },
    /// Info on a specific torrent
    Info { id: usize },
    /// Pause a torrent
    Pause { id: usize },
    /// Resume a torrent
    Resume { id: usize },
    /// Remove a torrent
    Remove { id: usize },
    /// Show global statistics
    Stats,
    /// Launch the daemon process in the background
    Run { port: Option<u16>, foreground: bool },
    /// View daemon logs
    Log { live: bool, lines: usize },
    /// Terminate the background daemon process
    Kill,
}

/// The banner is printed when the daemon is launched, unless JSON output is asked for.
pub fn should_print_banner(command: &Commands, json: bool) -> (r: bool)
    ensures
        r == (!json && command is Run),
{
    !json && match command {
        Commands::Run { .. } => true,
        _ => false,
    }
}

} // verus!
