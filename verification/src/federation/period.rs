//! Spans of time.
use vstd::prelude::*;

verus! {

/// A span of time: whole seconds and a part of one.
#[derive(Clone, Copy, Debug, PartialEq, Eq, Structural)]
pub struct Period {
    /// The whole seconds.
    pub secs: u64,
    /// The part of a second, in nanoseconds.
    pub nanos: u32,
}

/// How a span of `secs` seconds and `nanos` nanoseconds is shown.
pub uninterp spec fn shown_span(secs: u64, nanos: u32) -> Seq<char>;

/// The `Debug` form of a `std::time::Duration` of `secs` seconds and `nanos`
/// nanoseconds, which depends on those two alone.
#[verifier::external_body]
fn show_span(secs: u64, nanos: u32) -> (r: String)
    requires
        nanos < 1_000_000_000,
    ensures
        r@ == shown_span(secs, nanos),
{
    format!("{:?}", std::time::Duration::new(secs, nanos))
}

impl Period {
    /// Whether the part is less than a second.
    pub open spec fn wf(self) -> bool {
        self.nanos < 1_000_000_000
    }

    /// How the span is shown.
    pub open spec fn shown(self) -> Seq<char> {
        shown_span(self.secs, self.nanos)
    }

    /// A span of whole seconds.
    pub fn from_secs(secs: u64) -> (r: Period)
        ensures
            r.wf(),
            r == (Period { secs, nanos: 0 }),
    {
        Period { secs, nanos: 0 }
    }

    /// A span of milliseconds.
    pub fn from_millis(millis: u64) -> (r: Period)
        ensures
            r.wf(),
            r.secs * 1_000_000_000 + r.nanos == millis * 1_000_000,
    {
        Period { secs: millis / 1_000, nanos: (millis % 1_000) as u32 * 1_000_000 }
    }

    /// How the span is shown.
    pub fn text(&self) -> (r: String)
        requires
            self.wf(),
        ensures
            r@ == self.shown(),
    {
        show_span(self.secs, self.nanos)
    }
}

} // verus!
