//! The command line, as data: what each subcommand carries once parsed.

use vstd::prelude::*;

verus! {

/// The parsed command line.
pub struct Cli {
    /// Log filter directive (also read from `PACEFINDER_LOG`).
    pub log: String,
    pub command: Command,
}

/// Which NFO kinds get `<lockdata>true</lockdata>`.
#[derive(Debug, Clone, Copy, PartialEq, Eq, Structural)]
pub enum LockMode {
    /// No NFO is locked.
    Off,
    /// `tvshow.nfo` is locked.
    Show,
    /// Every NFO is locked.
    All,
}

/// Whether a lock mode locks the series NFO, and the season and episode
/// NFOs.
pub fn lock_targets(mode: LockMode) -> (r: (bool, bool))
    ensures
        r.0 == (mode == LockMode::Show || mode == LockMode::All),
        r.1 == (mode == LockMode::All),
{
    match mode {
        LockMode::Off => (false, false),
        LockMode::Show => (true, false),
        LockMode::All => (true, true),
    }
}

/// What the `cache` subcommand does.
#[derive(Debug, Clone, Copy, PartialEq, Eq, Structural)]
pub enum CacheAction {
    /// Print where cached upstream responses live.
    Path,
    /// Delete every cached response.
    Clear,
}

/// The subcommands.
pub enum Command {
    /// Walk a media directory and report what would be processed.
    Scan { path: String },
    /// Write NFOs and posters next to every recognized file.
    Generate {
        path: String,
        dry_run: bool,
        cache_ttl_hours: u64,
        refresh: bool,
        force: bool,
        non_interactive: bool,
        display_order: String,
        lock: LockMode,
    },
    /// Queue missing releases to qBittorrent.
    Download {
        path: String,
        qbt_url: String,
        qbt_user: String,
        qbt_pass: String,
        qbt_category: Option<String>,
        resolution: String,
        cache_ttl_hours: u64,
        refresh: bool,
        dry_run: bool,
        prepopulate_nfo: bool,
        requeue_existing: bool,
        prefer_extended: bool,
        only_arc: Option<String>,
        save_path_map: Option<String>,
        fail_on_empty: bool,
    },
    /// Wrap top-level arc folders inside a series folder.
    Reorder { path: String, dry_run: bool, series_folder: String },
    /// Show or wipe the HTTP cache.
    Cache { action: CacheAction },
}

} // verus!
