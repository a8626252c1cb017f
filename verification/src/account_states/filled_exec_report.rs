use vstd::prelude::*;
use crate::key::Key;

verus! {

/// Number of slots in the ring of execution reports.
pub const REPORT_SIZE: u8 = 200;

/// Filled execution report: one trade between a resting order and an
/// incoming one.
#[derive(Clone, Copy, Debug)]
pub struct FilledExecReport {
    /// Owner of the resting order.
    pub maker: Key,
    /// Owner of the incoming order.
    pub taker: Key,
    /// Quantity traded.
    pub quantity: u64,
    /// Price of the trade (the resting order's limit).
    pub avg_px: u64,
    /// Slot of execution.
    pub slot: u64,
    /// Time of execution, Unix seconds.
    pub transact_time: i64,
    /// 0 when the incoming order buys, 1 when it sells.
    pub side: u8,
}

/// The report that `FilledExecReport::new` builds.
pub open spec fn report_of(
    maker: Key,
    taker: Key,
    quantity: u64,
    avg_px: u64,
    is_buy: bool,
    slot: u64,
    transact_time: i64,
) -> FilledExecReport {
    FilledExecReport {
        maker,
        taker,
        quantity,
        avg_px,
        slot,
        transact_time,
        side: if is_buy { 0u8 } else { 1u8 },
    }
}

impl FilledExecReport {
    pub fn new(
        maker: Key,
        taker: Key,
        quantity: u64,
        avg_px: u64,
        is_buy: bool,
        slot: u64,
        transact_time: i64,
    ) -> (r: FilledExecReport)
        ensures
            r == report_of(maker, taker, quantity, avg_px, is_buy, slot, transact_time),
    {
        FilledExecReport {
            maker,
            taker,
            quantity,
            avg_px,
            slot,
            transact_time,
            side: if is_buy { 0u8 } else { 1u8 },
        }
    }

    /// A report with every field zero.
    pub fn empty() -> (r: FilledExecReport)
        ensures
            r == report_of(crate::key::zero_key(), crate::key::zero_key(), 0, 0, true, 0, 0),
    {
        FilledExecReport::new(Key::zero(), Key::zero(), 0, 0, true, 0, 0)
    }

    /// Account space of one report.
    pub fn space() -> (r: usize)
        ensures
            r == 104,
    {
        32 * 2 + 8 * 4 + 1 + 7
    }
}

/// The contents of a report ring: its slots and where the next report goes.
pub ghost struct ReportRing {
    pub reports: Seq<FilledExecReport>,
    pub next: int,
}

/// The ring after one report was written.
pub open spec fn ring_with(r: ReportRing, rep: FilledExecReport) -> ReportRing {
    ReportRing { reports: r.reports.update(r.next, rep), next: (r.next + 1) % (REPORT_SIZE as int) }
}

/// The ring after the reports of `reps` were written, first to last.
pub open spec fn ring_with_all(r: ReportRing, reps: Seq<FilledExecReport>) -> ReportRing
    decreases reps.len(),
{
    if reps.len() == 0 {
        r
    } else {
        ring_with_all(ring_with(r, reps[0]), reps.drop_first())
    }
}

pub proof fn lemma_ring_with_all_push(r: ReportRing, reps: Seq<FilledExecReport>, rep: FilledExecReport)
    ensures
        ring_with_all(r, reps.push(rep)) == ring_with(ring_with_all(r, reps), rep),
    decreases reps.len(),
{
    assert(reps.push(rep)[0] == (if reps.len() == 0 { rep } else { reps[0] }));
    if reps.len() == 0 {
        assert(reps.push(rep).drop_first() =~= Seq::<FilledExecReport>::empty());
        assert(ring_with_all(r, reps) == r);
        assert(ring_with_all(ring_with(r, rep), Seq::<FilledExecReport>::empty()) == ring_with(r, rep));
    } else {
        assert(reps.push(rep).drop_first() =~= reps.drop_first().push(rep));
        lemma_ring_with_all_push(ring_with(r, reps[0]), reps.drop_first(), rep);
    }
}

/// Ring buffer of filled execution reports: the newest overwrites the oldest.
pub struct RingBufferFilledExecReport {
    pub filled_exec_reports: [FilledExecReport; 200],
    pub next_index: u8,
}

impl View for RingBufferFilledExecReport {
    type V = ReportRing;

    open spec fn view(&self) -> ReportRing {
        ReportRing { reports: self.filled_exec_reports@, next: self.next_index as int }
    }
}

impl RingBufferFilledExecReport {
    pub open spec fn wf(&self) -> bool {
        self.next_index < REPORT_SIZE
    }

    /// An empty ring.
    pub fn new() -> (r: RingBufferFilledExecReport)
        ensures
            r.wf(),
            r.next_index == 0,
            forall|i: int| 0 <= i < 200 ==> #[trigger] r.filled_exec_reports@[i] == report_of(
                crate::key::zero_key(), crate::key::zero_key(), 0, 0, true, 0, 0),
    {
        RingBufferFilledExecReport { filled_exec_reports: [FilledExecReport::empty(); 200], next_index: 0 }
    }

    /// Writes `filled_exec_report` at the next slot and moves past it,
    /// wrapping round after the last slot.
    pub fn insert(&mut self, filled_exec_report: FilledExecReport)
        requires
            old(self).wf(),
        ensures
            final(self).wf(),
            final(self)@ == ring_with(old(self)@, filled_exec_report),
    {
        self.filled_exec_reports[self.next_index as usize] = filled_exec_report;
        self.next_index = (self.next_index + 1) % REPORT_SIZE;
    }

    /// Account space of the ring.
    pub fn space() -> (r: usize)
        ensures
            r == 200 * 104 + 1 + 7,
    {
        REPORT_SIZE as usize * FilledExecReport::space() + 1 + 7
    }
}

} // verus!
