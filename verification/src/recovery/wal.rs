use vstd::prelude::*;

use super::log::{LogRecord, Lsn};

verus! {

/// Errors of log-position bookkeeping.
#[derive(Debug, Clone, Copy, PartialEq, Eq, Structural)]
pub enum WalError {
    /// The LSN was never assigned to a record.
    UnknownLsn,
}

/// Mathematical model of the write-ahead log's positions.
pub struct LogStateView {
    /// The LSN the next appended record receives.
    pub next: Lsn,
    /// The LSN of the last record known to be on stable storage.
    pub durable: Option<Lsn>,
}

impl LogStateView {
    /// A durable LSN is always one that was assigned.
    pub open spec fn wf(self) -> bool {
        match self.durable {
            Some(d) => d < self.next,
            None => true,
        }
    }
}

/// Which LSNs of the write-ahead log were assigned and which are durable.
pub struct LogState {
    next_lsn: Lsn,
    durable_lsn: Option<Lsn>,
}

impl View for LogState {
    type V = LogStateView;

    closed spec fn view(&self) -> LogStateView {
        LogStateView { next: self.next_lsn, durable: self.durable_lsn }
    }
}

impl LogState {
    /// The positions of a log whose stored records are `records`: all of
    /// them are durable and numbering continues after the last one.
    pub fn from_records(records: &[LogRecord]) -> (s: Self)
        requires
            records@.len() > 0 ==> records@.last()@.lsn < u64::MAX,
        ensures
            s@.wf(),
            records@.len() == 0 ==> s@ == (LogStateView { next: 0, durable: None }),
            records@.len() > 0 ==> s@ == (LogStateView {
                next: (records@.last()@.lsn + 1) as u64,
                durable: Some(records@.last()@.lsn),
            }),
    {
        if records.len() == 0 {
            LogState { next_lsn: 0, durable_lsn: None }
        } else {
            let last = records[records.len() - 1].lsn;
            LogState { next_lsn: last + 1, durable_lsn: Some(last) }
        }
    }

    /// Keeps numbering above `floor`, so that records appended after the log
    /// was compacted still come after the ones the pages already reflect.
    pub fn continue_from(&mut self, floor: Lsn)
        ensures
            final(self)@.next == if old(self)@.next >= floor {
                old(self)@.next
            } else {
                floor
            },
            final(self)@.durable == old(self)@.durable,
            old(self)@.wf() ==> final(self)@.wf(),
    {
        if self.next_lsn < floor {
            self.next_lsn = floor;
        }
    }

    /// The LSN of the last record appended, if any; a checkpoint taken now
    /// covers the log up to it.
    pub fn last_assigned(&self) -> (l: Option<Lsn>)
        ensures
            l == if self@.next > 0 {
                Some((self@.next - 1) as u64)
            } else {
                None::<Lsn>
            },
    {
        if self.next_lsn > 0 {
            Some(self.next_lsn - 1)
        } else {
            None
        }
    }

    pub fn next_lsn(&self) -> (n: Lsn)
        ensures
            n == self@.next,
    {
        self.next_lsn
    }

    pub fn durable_lsn(&self) -> (d: Option<Lsn>)
        ensures
            d == self@.durable,
    {
        self.durable_lsn
    }

    /// Hands out the LSN of a record about to be appended.
    pub fn assign_lsn(&mut self) -> (lsn: Lsn)
        requires
            old(self)@.next < u64::MAX,
        ensures
            lsn == old(self)@.next,
            final(self)@ == (LogStateView { next: (lsn + 1) as u64, durable: old(self)@.durable }),
            old(self)@.wf() ==> final(self)@.wf(),
    {
        let lsn = self.next_lsn;
        self.next_lsn = lsn + 1;
        lsn
    }

    /// Records that every appended record reached stable storage.
    pub fn mark_flushed(&mut self)
        ensures
            final(self)@.next == old(self)@.next,
            final(self)@.durable == if old(self)@.next > 0 {
                Some((old(self)@.next - 1) as u64)
            } else {
                old(self)@.durable
            },
            old(self)@.wf() ==> final(self)@.wf(),
    {
        if self.next_lsn > 0 {
            self.durable_lsn = Some(self.next_lsn - 1);
        }
    }

    /// Whether the log must be flushed for record `lsn` to be durable; an
    /// LSN that was never assigned is an error.
    pub fn needs_flush_through(&self, lsn: Lsn) -> (r: Result<bool, WalError>)
        ensures
            lsn >= self@.next ==> r == Err::<bool, WalError>(WalError::UnknownLsn),
            lsn < self@.next ==> r == Ok::<bool, WalError>(
                match self@.durable {
                    Some(d) => d < lsn,
                    None => true,
                },
            ),
    {
        if lsn >= self.next_lsn {
            return Err(WalError::UnknownLsn);
        }
        match self.durable_lsn {
            Some(d) => Ok(d < lsn),
            None => Ok(true),
        }
    }
}

/// After a flush, every LSN that was assigned before it is durable.
pub proof fn lemma_flush_makes_assigned_durable(before: LogStateView, after: LogStateView, lsn: Lsn)
    requires
        before.wf(),
        lsn < before.next,
        after.next == before.next,
        after.durable == (if before.next > 0 {
            Some((before.next - 1) as u64)
        } else {
            before.durable
        }),
    ensures
        after.durable matches Some(d) && d >= lsn,
{
}

} // verus!
