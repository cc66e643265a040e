//! A tone to be played or one that was heard.
use vstd::prelude::*;

use crate::SYMBOL_DURATION_MS;

verus! {

/// A tone: its frequency in Hz and how long it sounds, in milliseconds.
///
/// Two tones are equal when their frequencies are equal; the duration
/// plays no part in the comparison.
#[derive(Debug, Clone, Copy)]
pub struct Frequency {
    pub freq: u32,
    pub len: u64,
}

impl Frequency {
    /// A tone of the given frequency that lasts one symbol.
    pub fn new(freq: u32) -> (r: Self)
        ensures
            r.freq == freq,
            r.len == SYMBOL_DURATION_MS,
    {
        Self { freq, len: SYMBOL_DURATION_MS }
    }

    /// A tone of the given frequency and duration.
    pub fn new_with_len(freq: u32, len: u64) -> (r: Self)
        ensures
            r.freq == freq,
            r.len == len,
    {
        Self { freq, len }
    }
}

impl PartialEq for Frequency {
    fn eq(&self, other: &Self) -> (r: bool) {
        self.freq == other.freq
    }
}

impl vstd::std_specs::cmp::PartialEqSpecImpl for Frequency {
    open spec fn obeys_eq_spec() -> bool {
        true
    }

    open spec fn eq_spec(&self, other: &Self) -> bool {
        self.freq == other.freq
    }
}

} // verus!
