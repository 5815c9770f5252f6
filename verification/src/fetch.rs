//! Property fetcher arithmetic: the two-phase probe-then-fetch read of a
//! variable-length property first probes with a bounded request, then
//! fetches the remainder with a request sized exactly to the bytes still
//! missing, rounded up to the protocol's four-byte read unit.

use vstd::prelude::*;

verus! {

/// Number of 32-bit read units that cover `bytes_after` remaining bytes:
/// the byte count rounded up to the next multiple of four, in units.
pub fn probe_followup_length(bytes_after: u32) -> (r: u32)
    ensures
        r as int == ((bytes_after as int) + 3) / 4,
{
    let r = bytes_after / 4 + if bytes_after % 4 != 0 {
        1u32
    } else {
        0u32
    };
    proof {
        assert(r as int == ((bytes_after as int) + 3) / 4) by (nonlinear_arith)
            requires
                r as int == (bytes_after as int) / 4 + if (bytes_after as int) % 4 != 0 {
                    1int
                } else {
                    0int
                },
                0 <= bytes_after as int <= 0xFFFF_FFFF,
        ;
    }
    r
}

} // verus!
