//! Engine-wide and per-torrent settings, and the download mode of a
//! torrent.

use vstd::prelude::*;
use vstd::string::StringSliceAdditionalSpecFns;

use crate::bitfield::{bits, Bitfield, MAX_BITFIELD_LEN};
use crate::tracker::PeerAddr;

verus! {

/// Engine-wide settings.
#[derive(Clone, Debug)]
pub struct EngineConf {
    /// The 20-byte peer id sent to trackers and peers.
    pub client_id: [u8; 20],
    /// The directory where torrents are downloaded and seeded from.
    pub download_dir: String,
}

/// Which optional alerts a torrent sends.
#[derive(Clone, Copy, Debug, Default, PartialEq, Eq, Structural)]
pub struct TorrentAlertConf {
    pub completed_pieces: bool,
    pub peers: bool,
}

/// Per-torrent settings.
#[derive(Clone, Copy, Debug, PartialEq, Eq, Structural)]
pub struct TorrentConf {
    /// Below this many connected peers, more are asked of the tracker.
    pub min_requested_peer_count: usize,
    /// The most peers a torrent connects to.
    pub max_connected_peer_count: usize,
    /// Seconds between periodic announces.
    pub announce_interval_secs: u64,
    /// The consecutive tracker failures after which a tracker is disabled.
    pub tracker_error_threshold: usize,
    pub alerts: TorrentAlertConf,
}

impl TorrentConf {
    /// The default settings: ten peers wanted, fifty at most, an announce
    /// every hour, fifteen tracker failures tolerated, no optional alerts.
    pub fn default() -> (r: Self)
        ensures
            r.min_requested_peer_count == 10,
            r.max_connected_peer_count == 50,
            r.announce_interval_secs == 3600,
            r.tracker_error_threshold == 15,
            r.alerts == (TorrentAlertConf { completed_pieces: false, peers: false }),
    {
        TorrentConf {
            min_requested_peer_count: 10,
            max_connected_peer_count: 50,
            announce_interval_secs: 60 * 60,
            tracker_error_threshold: 15,
            alerts: TorrentAlertConf { completed_pieces: false, peers: false },
        }
    }
}

/// All settings.
#[derive(Clone, Debug)]
pub struct Conf {
    pub engine: EngineConf,
    pub torrent: TorrentConf,
}

impl Conf {
    /// Default settings for downloads into `download_dir`, with an all-zero
    /// client id.
    pub fn new(download_dir: String) -> (r: Self)
        ensures
            r.engine.client_id@ == Seq::new(20, |_i: int| 0u8),
            r.engine.download_dir == download_dir,
            r.torrent.max_connected_peer_count == 50,
            r.torrent.min_requested_peer_count == 10,
            r.torrent.announce_interval_secs == 3600,
            r.torrent.tracker_error_threshold == 15,
            r.torrent.alerts == (TorrentAlertConf { completed_pieces: false, peers: false }),
    {
        let client_id = [0u8; 20];
        assert(client_id@ =~= Seq::new(20, |_i: int| 0u8));
        Conf { engine: EngineConf { client_id, download_dir }, torrent: TorrentConf::default() }
    }
}

/// Whether a torrent is downloaded, from the given seeds, or seeded.
#[derive(Clone, Debug)]
pub enum Mode {
    Download { seeds: Vec<PeerAddr> },
    Seed,
}

impl Mode {
    /// The pieces had when the torrent starts: none when downloading, all
    /// when seeding.
    pub fn own_pieces(&self, piece_count: usize) -> (r: Bitfield)
        requires
            piece_count <= MAX_BITFIELD_LEN,
        ensures
            bits(r) == Seq::new(piece_count as nat, |_i: int| *self is Seed),
    {
        match self {
            Mode::Download { .. } => Bitfield::repeat(false, piece_count),
            Mode::Seed => Bitfield::repeat(true, piece_count),
        }
    }

    /// The seeds to connect to: those given for a download, none for a seed.
    pub fn seeds(self) -> (r: Vec<PeerAddr>)
        ensures
            match self {
                Mode::Download { seeds } => r@ == seeds@,
                Mode::Seed => r@.len() == 0,
            },
    {
        match self {
            Mode::Download { seeds } => seeds,
            Mode::Seed => Vec::new(),
        }
    }
}

/// The mode named on a command line: `seed` seeds, anything else downloads
/// from no seeds yet.
pub fn parse_mode(s: &str) -> (r: Mode)
    ensures
        (r is Seed) == (s.spec_bytes() == seq![115u8, 101, 101, 100]),
        r matches Mode::Download { seeds } ==> seeds@.len() == 0,
{
    let b = s.as_bytes();
    if b.len() == 4 && b[0] == 115 && b[1] == 101 && b[2] == 101 && b[3] == 100 {
        assert(b@ =~= seq![115u8, 101, 101, 100]);
        Mode::Seed
    } else {
        Mode::Download { seeds: Vec::new() }
    }
}

} // verus!
