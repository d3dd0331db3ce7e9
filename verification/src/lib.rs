//! Kernel event monitoring core for a periodically refreshed status line.
//!
//! Three monitors, none of which polls expensive syscalls every tick:
//! a network interface inventory, a netlink-based address-change monitor
//! (binary protocol decoding), and a sysfs attribute watcher (change
//! detection over inotify event batches). All decoding and state logic is
//! verified; the callers perform the actual socket, ioctl and file I/O and
//! hand the raw bytes and outcomes to this library.

use vstd::prelude::*;

pub mod inotify;
pub mod interface;
pub mod netlink;
pub mod network;
pub mod sysfs;
pub mod time;

verus! {

/// Rounds `n` up to the next multiple of 4, as the netlink framing
/// requires when stepping to the next message or attribute record.
pub open spec fn align4_spec(n: int) -> int {
    ((n + 3) / 4) * 4
}

pub proof fn lemma_align4_bounds(n: int)
    requires
        0 <= n,
    ensures
        n <= align4_spec(n) <= n + 3,
{
    assert(n <= ((n + 3) / 4) * 4 <= n + 3) by (nonlinear_arith);
}

/// 4-byte alignment, the framing step of the netlink decoder.
pub fn align4(n: usize) -> (r: usize)
    requires
        n + 3 <= usize::MAX,
    ensures
        r == align4_spec(n as int),
{
    ((n + 3) / 4) * 4
}

} // verus!
