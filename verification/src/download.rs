use vstd::prelude::*;

verus! {

/// Byte accounting for one streaming transfer: the total grows as each
/// chunk is written out, so the whole body is never buffered at once.
pub struct Transfer {
    total_bytes: u64,
}

impl Transfer {
    /// Bytes accounted so far.
    pub closed spec fn bytes(&self) -> nat {
        self.total_bytes as nat
    }

    /// A transfer that has not received anything yet.
    pub fn new() -> (r: Self)
        ensures
            r.bytes() == 0,
    {
        Transfer { total_bytes: 0 }
    }

    /// Accounts one received chunk the moment it is written out.
    pub fn record_chunk(&mut self, len: usize)
        requires
            old(self).bytes() + len <= u64::MAX,
        ensures
            final(self).bytes() == old(self).bytes() + len,
    {
        self.total_bytes = self.total_bytes + (len as u64);
    }

    /// Total bytes accounted so far.
    pub fn total_bytes(&self) -> (r: u64)
        ensures
            r == self.bytes(),
    {
        self.total_bytes
    }
}

/// Throughput in bytes per second from a byte count and a duration in
/// milliseconds, rounded to the nearest integer, halves rounding up.
pub open spec fn throughput_spec(bytes: nat, millis: nat) -> int
    recommends
        millis > 0,
{
    (2000 * (bytes as int) + (millis as int)) / (2 * (millis as int))
}

/// The reported throughput of a finished transfer: bytes divided by
/// elapsed seconds, rounded to the nearest whole number.
pub fn throughput_bps(total_bytes: u64, elapsed_millis: u64) -> (r: u64)
    requires
        elapsed_millis > 0,
        throughput_spec(total_bytes as nat, elapsed_millis as nat) <= u64::MAX,
    ensures
        r == throughput_spec(total_bytes as nat, elapsed_millis as nat),
{
    let num: u128 = 2000u128 * (total_bytes as u128) + (elapsed_millis as u128);
    let den: u128 = 2u128 * (elapsed_millis as u128);
    let q: u128 = num / den;
    q as u64
}

} // verus!
