//! Counters of written bytes, from which the write amplification is
//! derived.
use vstd::prelude::*;

verus! {

/// `a + b` on 64-bit counters, wrapping around above the maximum.
pub open spec fn wrap_add_u64(a: u64, b: u64) -> u64 {
    if a + b <= u64::MAX {
        (a + b) as u64
    } else {
        (a + b - 0x1_0000_0000_0000_0000) as u64
    }
}

/// Counts the bytes that users wrote and the bytes that reached the host
/// disk. Both counters wrap around.
pub struct WafStats {
    logical_bytes: u64,
    physical_bytes: u64,
}

impl WafStats {
    pub closed spec fn logical(&self) -> u64 {
        self.logical_bytes
    }

    pub closed spec fn physical(&self) -> u64 {
        self.physical_bytes
    }

    /// Counters at zero.
    pub fn new() -> (s: WafStats)
        ensures
            s.logical() == 0,
            s.physical() == 0,
    {
        WafStats { logical_bytes: 0, physical_bytes: 0 }
    }

    /// Counts `bytes` written by a user.
    pub fn add_logical(&mut self, bytes: u64)
        ensures
            final(self).logical() == wrap_add_u64(old(self).logical(), bytes),
            final(self).physical() == old(self).physical(),
    {
        self.logical_bytes = self.logical_bytes.wrapping_add(bytes);
    }

    /// Counts `bytes` written to the host disk.
    pub fn add_physical(&mut self, bytes: u64)
        ensures
            final(self).physical() == wrap_add_u64(old(self).physical(), bytes),
            final(self).logical() == old(self).logical(),
    {
        self.physical_bytes = self.physical_bytes.wrapping_add(bytes);
    }

    pub fn get_logical(&self) -> (n: u64)
        ensures
            n == self.logical(),
    {
        self.logical_bytes
    }

    pub fn get_physical(&self) -> (n: u64)
        ensures
            n == self.physical(),
    {
        self.physical_bytes
    }

    /// Sets both counters to zero.
    pub fn reset(&mut self)
        ensures
            final(self).logical() == 0,
            final(self).physical() == 0,
    {
        self.logical_bytes = 0;
        self.physical_bytes = 0;
    }
}

} // verus!
