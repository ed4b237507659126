//! The configuration of the daemon. Every setting has a default that works.

use vstd::prelude::*;

use crate::store::merge_plan::MergePolicy;
use crate::store::watcher::WatchConfig;

verus! {

/// One root to watch from the start.
#[derive(Debug, PartialEq, Eq)]
pub struct RootConfig {
    pub path: String,
    /// In place of the crawler's limit.
    pub max_file_size_bytes: Option<u64>,
    /// Reconcile at least this often.
    pub reconcile_interval_secs: Option<u64>,
}

impl Default for RootConfig {
    fn default() -> (c: Self)
        ensures
            c.path@ == Seq::<char>::empty(),
            c.max_file_size_bytes is None,
            c.reconcile_interval_secs is None,
    {
        let path = String::new();
        assert(path@ =~= Seq::empty());
        RootConfig { path, max_file_size_bytes: None, reconcile_interval_secs: None }
    }
}

/// How much background work may take.
#[derive(Debug, Clone, Copy, PartialEq, Eq, Structural)]
pub struct GovernorConfig {
    pub bytes_per_sec: u64,
    /// The part of the time that may be spent working, in millionths.
    pub cpu_ppm: u32,
}

impl Default for GovernorConfig {
    fn default() -> (c: Self)
        ensures
            c.bytes_per_sec == 50 * 1024 * 1024,
            c.cpu_ppm == 500_000,
    {
        GovernorConfig { bytes_per_sec: 50 * 1024 * 1024, cpu_ppm: 500_000 }
    }
}

/// When segments are merged.
#[derive(Debug, Clone, Copy, PartialEq, Eq, Structural)]
pub struct MergeConfig {
    pub tier_size: usize,
    pub max_merge: usize,
    pub max_segment_bytes: u64,
    /// In millionths.
    pub del_ppm_threshold: u32,
}

impl Default for MergeConfig {
    fn default() -> (c: Self)
        ensures
            c.tier_size == 4,
            c.max_merge == 10,
            c.max_segment_bytes == 512 * 1024 * 1024,
            c.del_ppm_threshold == 300_000,
    {
        let d = MergePolicy::default();
        MergeConfig {
            tier_size: d.tier_size,
            max_merge: d.max_merge,
            max_segment_bytes: d.max_segment_bytes,
            del_ppm_threshold: d.del_ppm_threshold,
        }
    }
}

impl From<MergeConfig> for MergePolicy {
    fn from(c: MergeConfig) -> (p: Self) {
        MergePolicy {
            tier_size: c.tier_size,
            max_merge: c.max_merge,
            max_segment_bytes: c.max_segment_bytes,
            del_ppm_threshold: c.del_ppm_threshold,
        }
    }
}

impl vstd::std_specs::convert::FromSpecImpl<MergeConfig> for MergePolicy {
    open spec fn obeys_from_spec() -> bool {
        true
    }

    open spec fn from_spec(c: MergeConfig) -> Self {
        MergePolicy {
            tier_size: c.tier_size,
            max_merge: c.max_merge,
            max_segment_bytes: c.max_segment_bytes,
            del_ppm_threshold: c.del_ppm_threshold,
        }
    }
}

/// The configuration of the daemon.
#[derive(Debug, PartialEq, Eq)]
pub struct Config {
    pub roots: Vec<RootConfig>,
    pub governor: GovernorConfig,
    pub merge: MergeConfig,
    /// End after this long without a client and without a root; never where it
    /// is zero. Default four hours.
    pub idle_timeout_secs: u64,
    pub watch_debounce_ms: u64,
    pub periodic_reconcile_secs: u64,
}

impl Config {
    /// Every setting has its default.
    pub open spec fn is_default(&self) -> bool {
        &&& self.roots@.len() == 0
        &&& self.governor.bytes_per_sec == 50 * 1024 * 1024
        &&& self.governor.cpu_ppm == 500_000
        &&& self.merge.tier_size == 4
        &&& self.merge.max_merge == 10
        &&& self.merge.max_segment_bytes == 512 * 1024 * 1024
        &&& self.merge.del_ppm_threshold == 300_000
        &&& self.idle_timeout_secs == 4 * 3600
        &&& self.watch_debounce_ms == 500
        &&& self.periodic_reconcile_secs == 600
    }
}

impl Default for Config {
    fn default() -> (c: Self)
        ensures
            c.is_default(),
    {
        Config {
            roots: Vec::new(),
            governor: GovernorConfig::default(),
            merge: MergeConfig::default(),
            idle_timeout_secs: 4 * 3600,
            watch_debounce_ms: 500,
            periodic_reconcile_secs: 600,
        }
    }
}

/// Seconds in milliseconds, as far as they fit.
pub open spec fn millis(secs: u64) -> u64 {
    if secs * 1000 <= u64::MAX {
        (secs * 1000) as u64
    } else {
        u64::MAX
    }
}

fn to_millis(secs: u64) -> (ms: u64)
    ensures
        ms == millis(secs),
{
    match secs.checked_mul(1000) {
        Some(ms) => ms,
        None => u64::MAX,
    }
}

/// What there is to read of the configuration.
#[derive(Debug)]
pub enum ConfigFile {
    /// There is no such file.
    Missing,
    /// It could not be read, or holds no configuration: why.
    Unreadable(String),
    /// What it holds.
    Holds(Config),
}

impl Config {
    /// The configuration: the default where there is no file, since none is
    /// needed; an error where there is one that cannot be understood, since a
    /// mistake in it should not pass in silence.
    pub fn load(file: ConfigFile) -> (r: Result<Config, String>)
        ensures
            match (file, r) {
                (ConfigFile::Missing, Ok(c)) => c.is_default(),
                (ConfigFile::Holds(held), Ok(c)) => c == held,
                (ConfigFile::Unreadable(why), Err(e)) => e == why,
                _ => false,
            },
    {
        match file {
            ConfigFile::Missing => Ok(Config::default()),
            ConfigFile::Holds(c) => Ok(c),
            ConfigFile::Unreadable(why) => Err(why),
        }
    }

    /// How the roots are watched.
    pub fn watch_config(&self) -> (w: WatchConfig)
        ensures
            w.debounce_ms == self.watch_debounce_ms,
            w.periodic_reconcile_ms == millis(self.periodic_reconcile_secs),
    {
        WatchConfig {
            debounce_ms: self.watch_debounce_ms,
            periodic_reconcile_ms: to_millis(self.periodic_reconcile_secs),
        }
    }

    /// The time after which an idle daemon ends, in milliseconds, if it does.
    pub fn idle_timeout_ms(&self) -> (ms: Option<u64>)
        ensures
            ms == if self.idle_timeout_secs == 0 {
                None::<u64>
            } else {
                Some(millis(self.idle_timeout_secs))
            },
    {
        if self.idle_timeout_secs == 0 {
            None
        } else {
            Some(to_millis(self.idle_timeout_secs))
        }
    }
}

} // verus!
