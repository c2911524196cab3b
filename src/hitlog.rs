use vstd::prelude::*;

verus! {

/// Default size at which a hitlog file is rotated: 100 MiB.
pub const DEFAULT_ROTATION_BYTES: u64 = 104857600;

/// When a hitlog file is rotated.
#[derive(Debug, Clone, Copy, PartialEq, Eq, Structural)]
pub enum RotationPolicy {
    /// Once the file holds at least this many bytes.
    BySize(u64),
    /// Once the file is at least this many seconds old.
    ByTime(u64),
    /// When the UTC day changes.
    Daily,
    /// When the UTC hour changes.
    Hourly,
    /// Never.
    Never,
}

/// Whether a file of `bytes_written` bytes, created at `created_secs`, is due
/// for rotation at `now_secs` (seconds since the Unix epoch). A clock before
/// the creation time counts as no time elapsed.
pub open spec fn rotation_due(
    policy: RotationPolicy,
    bytes_written: u64,
    created_secs: u64,
    now_secs: u64,
) -> bool {
    match policy {
        RotationPolicy::BySize(max) => bytes_written >= max,
        RotationPolicy::ByTime(secs) => (if now_secs >= created_secs {
            now_secs - created_secs
        } else {
            0
        }) >= secs,
        RotationPolicy::Daily => now_secs / 86400 > created_secs / 86400,
        RotationPolicy::Hourly => now_secs / 3600 > created_secs / 3600,
        RotationPolicy::Never => false,
    }
}

/// Whether the current hitlog file is due for rotation; see `rotation_due`.
pub fn should_rotate(policy: &RotationPolicy, bytes_written: u64, created_secs: u64, now_secs: u64) -> (r:
    bool)
    ensures
        r == rotation_due(*policy, bytes_written, created_secs, now_secs),
{
    match policy {
        RotationPolicy::BySize(max) => bytes_written >= *max,
        RotationPolicy::ByTime(secs) => {
            let elapsed = if now_secs >= created_secs {
                now_secs - created_secs
            } else {
                0
            };
            elapsed >= *secs
        },
        RotationPolicy::Daily => now_secs / 86400 > created_secs / 86400,
        RotationPolicy::Hourly => now_secs / 3600 > created_secs / 3600,
        RotationPolicy::Never => false,
    }
}

/// How hitlogs are written.
#[derive(Debug, Clone, PartialEq, Eq)]
pub struct HitlogConfig {
    /// Directory of the hitlog files.
    pub base_dir: String,
    pub rotation: RotationPolicy,
    /// Whether rotated files are gzip-compressed.
    pub compress_rotated: bool,
    /// How many rotated files are kept.
    pub max_rotated_files: usize,
    /// Write buffer size in bytes.
    pub buffer_size: usize,
    /// Whether every session is flushed at once.
    pub immediate_flush: bool,
}

impl HitlogConfig {
    /// The default settings, writing under `hitlog_dir`.
    pub fn from_telemetry_config(hitlog_dir: &str) -> (r: HitlogConfig)
        ensures
            r.base_dir@ == hitlog_dir@,
            r.rotation == RotationPolicy::BySize(DEFAULT_ROTATION_BYTES),
            r.compress_rotated,
            r.max_rotated_files == 10,
            r.buffer_size == 8192,
            !r.immediate_flush,
    {
        HitlogConfig {
            base_dir: crate::text::to_owned_string(hitlog_dir),
            rotation: RotationPolicy::BySize(DEFAULT_ROTATION_BYTES),
            compress_rotated: true,
            max_rotated_files: 10,
            buffer_size: 8192,
            immediate_flush: false,
        }
    }
}

impl Default for HitlogConfig {
    /// Under `/var/hitlogs`, rotated at 100 MiB, compressed, ten kept.
    fn default() -> (r: HitlogConfig)
        ensures
            r.base_dir@ == "/var/hitlogs"@,
            r.rotation == RotationPolicy::BySize(DEFAULT_ROTATION_BYTES),
            r.compress_rotated,
            r.max_rotated_files == 10,
            r.buffer_size == 8192,
            !r.immediate_flush,
    {
        HitlogConfig::from_telemetry_config("/var/hitlogs")
    }
}

/// Counters of the current hitlog file.
#[derive(Debug, Clone, PartialEq, Eq)]
pub struct HitlogStats {
    pub path: String,
    pub bytes_written: u64,
    pub sessions_written: u64,
    /// Creation time in seconds since the Unix epoch.
    pub created_at_secs: u64,
}

} // verus!
