//! The search configuration and the enumeration bounds derived from it: the
//! digit-width ceiling `10^W`, the effective upper bound after clamping, the
//! per-entry count, and the total candidate count.

use vstd::prelude::*;
use crate::digits::{pow10, pow10_u64};

verus! {

/// A configuration the search cannot run with.
#[derive(Clone, Copy, Debug, PartialEq, Eq, Structural)]
pub enum ConfigError {
    /// The digit width is zero, or so large that `10^W` and the candidate
    /// count would overflow 64-bit arithmetic (width above 19).
    DigitWidthOutOfRange,
}

/// Everything one run enumerates over. The prefix and each alphabet entry are
/// byte sequences; an entry is the encoding of one alphabet character.
/// Immutable once constructed.
#[derive(Debug)]
pub struct SearchConfig {
    /// Bytes hashed ahead of every candidate, before case folding.
    pub prefix: Vec<u8>,
    /// The ordered alphabet; duplicates are permitted but wasteful.
    pub alphabet: Vec<Vec<u8>>,
    /// Lowest numeric suffix tried (inclusive).
    pub min_num: u64,
    /// Requested upper bound on the numeric suffix (exclusive); clamped to
    /// `10^digits` before use.
    pub max_num: u64,
    /// Width W of the rendered numeric suffix, in decimal digits.
    pub digits: usize,
    /// Collect every match instead of stopping at the first.
    pub continue_after_match: bool,
}

impl SearchConfig {
    /// A width the arithmetic of the run is safe under: positive, and small
    /// enough that `10^W` fits in `u64`.
    pub open spec fn wf(self) -> bool {
        1 <= self.digits <= 19
    }

    /// The ceiling `10^W` imposed by the digit width.
    pub open spec fn digit_max_spec(self) -> nat {
        pow10(self.digits as nat)
    }

    /// The requested upper bound, clamped to the digit-width ceiling.
    pub open spec fn effective_max_spec(self) -> nat {
        if self.max_num as nat <= self.digit_max_spec() {
            self.max_num as nat
        } else {
            self.digit_max_spec()
        }
    }

    /// How many suffixes each alphabet entry is tried with; zero when the
    /// effective range is empty.
    pub open spec fn per_entry_spec(self) -> nat {
        if (self.min_num as nat) < self.effective_max_spec() {
            (self.effective_max_spec() - self.min_num) as nat
        } else {
            0
        }
    }

    /// The exact number of candidates in the space.
    pub open spec fn total_spec(self) -> nat {
        self.alphabet@.len() * self.per_entry_spec()
    }

    /// Validates the digit width up front; every other configuration, an
    /// empty range included, is a degenerate but valid run.
    pub fn new(
        prefix: Vec<u8>,
        alphabet: Vec<Vec<u8>>,
        min_num: u64,
        max_num: u64,
        digits: usize,
        continue_after_match: bool,
    ) -> (r: Result<SearchConfig, ConfigError>)
        ensures
            r is Ok <==> 1 <= digits <= 19,
            r is Ok ==> r->Ok_0 == (SearchConfig {
                prefix,
                alphabet,
                min_num,
                max_num,
                digits,
                continue_after_match,
            }),
            r is Err ==> r->Err_0 == ConfigError::DigitWidthOutOfRange,
    {
        if digits < 1 || digits > 19 {
            Err(ConfigError::DigitWidthOutOfRange)
        } else {
            Ok(SearchConfig { prefix, alphabet, min_num, max_num, digits, continue_after_match })
        }
    }

    /// The ceiling `10^W`.
    pub fn digit_max(&self) -> (r: u64)
        requires
            self.wf(),
        ensures
            r == self.digit_max_spec(),
    {
        pow10_u64(self.digits)
    }

    /// The effective upper bound: never above `10^digits`, whatever
    /// `max_num` requests.
    pub fn effective_max(&self) -> (r: u64)
        requires
            self.wf(),
        ensures
            r == self.effective_max_spec(),
            r <= self.digit_max_spec(),
    {
        let dm = self.digit_max();
        if self.max_num < dm {
            self.max_num
        } else {
            dm
        }
    }

    /// How many suffixes each alphabet entry is tried with.
    pub fn per_entry_count(&self) -> (r: u64)
        requires
            self.wf(),
        ensures
            r == self.per_entry_spec(),
    {
        let emax = self.effective_max();
        if self.min_num < emax {
            emax - self.min_num
        } else {
            0
        }
    }

    /// The total candidate count: exactly the alphabet size times the
    /// per-entry count, computed in 128 bits so it never overflows.
    pub fn total_candidates(&self) -> (r: u128)
        requires
            self.wf(),
        ensures
            r == self.total_spec(),
    {
        let pc = self.per_entry_count();
        let len = self.alphabet.len();
        proof {
            vstd::arithmetic::mul::lemma_mul_upper_bound(
                len as int,
                u64::MAX as int,
                pc as int,
                u64::MAX as int,
            );
        }
        (len as u128) * (pc as u128)
    }
}

} // verus!
