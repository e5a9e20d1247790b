//! Inclusive byte ranges of a remote resource.

use vstd::prelude::*;
use vstd::string::*;
use crate::text::{decimal, spec_decimal};

verus! {

/// The value of the `Range` header that asks for `range`:
/// `bytes=<start>-<end>`, both bounds in decimal.
pub open spec fn spec_range_header(range: ByteRange) -> Seq<char> {
    "bytes="@ + spec_decimal(range.start as nat) + "-"@ + spec_decimal(range.end as nat)
}

/// An inclusive range of byte offsets, `start..=end`.
#[derive(Clone, Copy, Debug, PartialEq, Eq, Structural)]
pub struct ByteRange {
    pub start: u64,
    pub end: u64,
}

impl ByteRange {
    /// A range is well formed when it holds at least one byte.
    pub open spec fn wf(self) -> bool {
        self.start <= self.end
    }

    /// Number of bytes in the range, as a mathematical integer.
    pub open spec fn spec_len(self) -> int {
        self.end - self.start + 1
    }

    /// Builds the range `start..=end`.
    pub fn new(start: u64, end: u64) -> (r: ByteRange)
        requires
            start <= end,
        ensures
            r.start == start,
            r.end == end,
            r.wf(),
    {
        ByteRange { start, end }
    }

    /// The value of the `Range` header that asks for this range.
    pub fn range_header(&self) -> (value: String)
        ensures
            value@ == spec_range_header(*self),
    {
        let mut value = String::from_str("bytes=");
        let start = decimal(self.start);
        value.append(start.as_str());
        value.append("-");
        let end = decimal(self.end);
        value.append(end.as_str());
        value
    }
}

} // verus!
