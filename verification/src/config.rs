//! Settings of a run.

use vstd::prelude::*;

verus! {

/// The standard library's `std::path::PathBuf`, declared so that a path can
/// be carried through to whoever opens the file. Nothing is claimed of what
/// it holds.
#[verifier::external_type_specification]
#[verifier::external_body]
pub struct ExPathBuf(std::path::PathBuf);

/// The shortest wait between two generations, in microseconds.
pub const MIN_REFRESH_RATE_USEC: u64 = 1;

/// The longest wait between two generations, in microseconds.
pub const MAX_REFRESH_RATE_USEC: u64 = 1_000_000;

/// The wait between two generations where none is asked for, in microseconds.
pub const DEFAULT_REFRESH_RATE_USEC: u64 = 100;

/// Whether a wait of `usec` microseconds between generations is accepted.
pub open spec fn valid_refresh_rate(usec: u64) -> bool {
    MIN_REFRESH_RATE_USEC <= usec <= MAX_REFRESH_RATE_USEC
}

/// Tells whether a wait of `usec` microseconds between generations is
/// accepted.
pub fn is_valid_refresh_rate(usec: u64) -> (valid: bool)
    ensures
        valid == valid_refresh_rate(usec),
{
    MIN_REFRESH_RATE_USEC <= usec && usec <= MAX_REFRESH_RATE_USEC
}

/// Settings of a run: where the pattern comes from and how fast the
/// generations follow each other.
pub struct Config {
    /// Path to the file that holds the initial pattern.
    pub init_state_file: std::path::PathBuf,
    /// Wait between two generations, in microseconds.
    pub refresh_rate_usec: u64,
}

impl Config {
    /// Creates the settings from their two parts.
    pub fn new(init_state_file: std::path::PathBuf, refresh_rate_usec: u64) -> (config: Config)
        ensures
            config.init_state_file == init_state_file,
            config.refresh_rate_usec == refresh_rate_usec,
    {
        Config { init_state_file, refresh_rate_usec }
    }
}

} // verus!
