//! Label-driven tuning: where the tuned weights are written, when there
//! are enough labels to tune on, and the stamp recorded with them.

use vstd::prelude::*;
use vstd::string::StringExecFns;
use crate::text::{decimal, decimal_string, join_path, spec_join};

verus! {

/// Minimum Yes-labeled pages per character before tuning.
pub const MIN_POS: usize = 10;

/// Minimum No-labeled pages per character before tuning.
pub const MIN_NEG: usize = 10;

/// Number of random-search candidates per character.
pub const N_ITER: usize = 2000;

/// Where the tuned configuration lives: `out_dir/tuned_config.json`.
pub fn default_tuned_config_path(out_dir: &str) -> (r: String)
    ensures
        r@ == spec_join(out_dir@, "tuned_config.json"@),
{
    join_path(out_dir, "tuned_config.json")
}

/// A character is tuned only with at least `MIN_POS` positive and
/// `MIN_NEG` negative labels; below that its default weights are kept.
pub fn has_enough_labels(n_pos: usize, n_neg: usize) -> (r: bool)
    ensures
        r == (n_pos >= MIN_POS && n_neg >= MIN_NEG),
{
    n_pos >= MIN_POS && n_neg >= MIN_NEG
}

/// The stamp for a time `secs` seconds after the Unix epoch:
/// `epoch:<secs>`.
pub open spec fn spec_epoch_stamp(secs: nat) -> Seq<char> {
    "epoch:"@ + decimal(secs)
}

/// `epoch:<secs>`.
pub fn epoch_stamp(secs: u64) -> (r: String)
    ensures
        r@ == spec_epoch_stamp(secs as nat),
{
    let mut r = "epoch:".to_owned();
    let d = decimal_string(secs);
    r.append(d.as_str());
    r
}

/// Whole seconds from the Unix epoch to now by the system clock
/// (`SystemTime::elapsed` on `UNIX_EPOCH`, the duration taken in whole
/// seconds), or `None` when the clock reads earlier than the epoch.
/// Nothing is claimed of the value: it is the time.
#[verifier::external_body]
fn seconds_since_epoch() -> (r: Option<u64>) {
    match std::time::UNIX_EPOCH.elapsed() {
        Ok(d) => Some(d.as_secs()),
        Err(_) => None,
    }
}

/// The stamp for a clock reading in whole seconds since the Unix epoch;
/// `None`, a clock reading earlier than the epoch, stamps as `epoch:0`.
pub open spec fn spec_clock_stamp(reading: Option<u64>) -> Seq<char> {
    spec_epoch_stamp(
        match reading {
            Some(s) => s as nat,
            None => 0,
        },
    )
}

/// `epoch:<seconds>` for a clock reading, `epoch:0` for one earlier than
/// the epoch.
pub fn clock_stamp(reading: Option<u64>) -> (r: String)
    ensures
        r@ == spec_clock_stamp(reading),
{
    let secs = match reading {
        Some(s) => s,
        None => 0,
    };
    epoch_stamp(secs)
}

/// An informational "now" stamp, `epoch:<seconds since the epoch>`
/// (`epoch:0` when the clock reads earlier than the epoch).
pub fn chrono_now() -> (r: String)
    ensures
        exists|reading: Option<u64>| r@ == spec_clock_stamp(reading),
{
    let reading = seconds_since_epoch();
    clock_stamp(reading)
}

} // verus!
