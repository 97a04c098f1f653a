//! Progress of a scan, reported as `(scanned, total)` pairs.

use vstd::prelude::*;

verus! {

/// Consumer of the progress reports of a scan.
pub trait ProgressSink {
    fn report(&mut self, scanned: usize, total: usize);
}

/// A sink that keeps every report.
pub struct ProgressLog {
    pub events: Vec<(usize, usize)>,
}

impl ProgressLog {
    pub fn new() -> (r: ProgressLog)
        ensures
            r.events@ == Seq::<(usize, usize)>::empty(),
    {
        ProgressLog { events: Vec::new() }
    }
}

impl ProgressSink for ProgressLog {
    fn report(&mut self, scanned: usize, total: usize) {
        self.events.push((scanned, total));
    }
}

/// Passes reports on to `sink` and keeps, for the proofs, the sequence
/// of reports passed on so far.
pub struct Reporter<S> {
    pub sink: S,
    pub sent: Ghost<Seq<(usize, usize)>>,
}

impl<S: ProgressSink> Reporter<S> {
    /// The reports passed on to the sink, oldest first.
    pub open spec fn reports(&self) -> Seq<(usize, usize)> {
        self.sent@
    }

    pub fn new(sink: S) -> (r: Reporter<S>)
        ensures
            r.sink == sink,
            r.reports() == Seq::<(usize, usize)>::empty(),
    {
        Reporter { sink, sent: Ghost(Seq::empty()) }
    }

    pub fn report(&mut self, scanned: usize, total: usize)
        ensures
            final(self).reports() == old(self).reports().push((scanned, total)),
    {
        self.sink.report(scanned, total);
        self.sent = Ghost(self.sent@.push((scanned, total)));
    }
}

/// The reports never go back, and the last one is `(total, total)`.
pub open spec fn monotone_to_total(r: Seq<(usize, usize)>, total: usize) -> bool {
    &&& r.len() > 0
    &&& r.last() == (total, total)
    &&& forall|i: int, j: int| 0 <= i <= j < r.len() ==> #[trigger] r[i].0 <= #[trigger] r[j].0
}

} // verus!
