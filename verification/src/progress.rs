//! Progress reporting: a bounded, lossy queue between the pipeline and a
//! display.
//!
//! The pipeline never waits for the display. Where the queue is full, the
//! oldest report in it is dropped to make room, so the newest report is
//! always the last one in the queue. A display that finds the queue empty
//! stays at its last report. Once the pipeline has closed the queue and the
//! display has taken every report that waited, the display ends.

use vstd::prelude::*;

verus! {

/// One progress report: bytes transferred so far, and the expected total.
#[derive(Clone, Copy, Debug, PartialEq, Eq, Structural)]
pub struct ProgressEvent {
    pub transferred: u64,
    pub total: u64,
}

/// A count as a `u64`: itself, or the largest `u64` where it is larger.
pub open spec fn capped(n: nat) -> u64 {
    if n <= u64::MAX {
        n as u64
    } else {
        u64::MAX
    }
}

/// What a look at the queue finds.
#[derive(Clone, Copy, Debug, PartialEq, Eq, Structural)]
pub enum Poll {
    /// The oldest report that waited.
    Report(ProgressEvent),
    /// No report waits, and more may come.
    Empty,
    /// No report waits, and none will come.
    Closed,
}

/// What the display does after a look at the queue.
#[derive(Clone, Copy, Debug, PartialEq, Eq, Structural)]
pub enum Action {
    /// A report came: show it.
    Show(ProgressEvent),
    /// Nothing came: stay at the report shown last.
    Keep(ProgressEvent),
    /// Nothing will come: end the display at the report shown last.
    Finish(ProgressEvent),
}

/// The queue that the pipeline sends its reports through.
pub struct ProgressQueue {
    /// The most reports that the queue holds.
    pub capacity: usize,
    /// The reports that wait for the display, the oldest first.
    pub waiting: Vec<ProgressEvent>,
    /// Whether the pipeline has said that no report will follow.
    pub closed: bool,
    /// Every report that was ever sent, in order.
    pub sent: Ghost<Seq<ProgressEvent>>,
}

impl ProgressQueue {
    /// The queue holds no more than its capacity, and what it holds is the
    /// end of what was sent.
    pub open spec fn wf(&self) -> bool {
        &&& self.waiting.len() <= self.capacity
        &&& self.waiting.len() <= self.sent@.len()
        &&& self.waiting@ == self.sent@.skip(self.sent@.len() - self.waiting.len())
    }

    /// An empty queue that holds up to `capacity` reports.
    pub fn new(capacity: usize) -> (queue: ProgressQueue)
        ensures
            queue.wf(),
            queue.capacity == capacity,
            queue.waiting@ == Seq::<ProgressEvent>::empty(),
            queue.sent@ == Seq::<ProgressEvent>::empty(),
            !queue.closed,
    {
        let queue = ProgressQueue {
            capacity,
            waiting: Vec::new(),
            closed: false,
            sent: Ghost(Seq::empty()),
        };
        assert(queue.waiting@ =~= queue.sent@.skip(0));
        queue
    }

    /// Sends a report without ever waiting: a full queue drops its oldest
    /// report, and a queue without room for any drops this one.
    pub fn send(&mut self, event: ProgressEvent)
        requires
            old(self).wf(),
        ensures
            final(self).wf(),
            final(self).capacity == old(self).capacity,
            final(self).closed == old(self).closed,
            final(self).sent@ == old(self).sent@.push(event),
            final(self).waiting@ == if old(self).capacity == 0 {
                Seq::<ProgressEvent>::empty()
            } else if old(self).waiting.len() < old(self).capacity {
                old(self).waiting@.push(event)
            } else {
                old(self).waiting@.skip(1).push(event)
            },
            old(self).capacity > 0 ==> final(self).waiting@.last() == event,
    {
        let ghost before = self.sent@;
        self.sent = Ghost(before.push(event));
        if self.capacity == 0 {
            assert(self.waiting@ =~= self.sent@.skip(self.sent@.len() - 0));
            return ;
        }
        if self.waiting.len() == self.capacity {
            let _ = self.waiting.remove(0);
        }
        self.waiting.push(event);
        assert(self.waiting@ =~= self.sent@.skip(self.sent@.len() - self.waiting.len()));
    }

    /// Takes the oldest waiting report, if there is one.
    pub fn try_recv(&mut self) -> (res: Option<ProgressEvent>)
        requires
            old(self).wf(),
        ensures
            final(self).wf(),
            final(self).capacity == old(self).capacity,
            final(self).closed == old(self).closed,
            final(self).sent@ == old(self).sent@,
            match res {
                Some(event) => old(self).waiting.len() > 0 && event == old(self).waiting@[0]
                    && final(self).waiting@ == old(self).waiting@.skip(1),
                None => old(self).waiting.len() == 0 && final(self).waiting@ == old(self).waiting@,
            },
    {
        if self.waiting.len() == 0 {
            None
        } else {
            let event = self.waiting.remove(0);
            assert(self.waiting@ =~= self.sent@.skip(self.sent@.len() - self.waiting.len()));
            Some(event)
        }
    }

    /// Says that no report will follow. The reports that wait stay.
    pub fn close(&mut self)
        ensures
            final(self).closed,
            final(self).capacity == old(self).capacity,
            final(self).waiting == old(self).waiting,
            final(self).sent == old(self).sent,
    {
        self.closed = true;
    }

    /// Looks at the queue: takes the oldest waiting report; where none
    /// waits, says whether more may come. A closed queue hands out every
    /// report that waits before it says that it is closed.
    pub fn poll(&mut self) -> (res: Poll)
        requires
            old(self).wf(),
        ensures
            final(self).wf(),
            final(self).capacity == old(self).capacity,
            final(self).closed == old(self).closed,
            final(self).sent@ == old(self).sent@,
            res == if old(self).waiting.len() > 0 {
                Poll::Report(old(self).waiting@[0])
            } else if old(self).closed {
                Poll::Closed
            } else {
                Poll::Empty
            },
            final(self).waiting@ == if old(self).waiting.len() > 0 {
                old(self).waiting@.skip(1)
            } else {
                old(self).waiting@
            },
    {
        match self.try_recv() {
            Some(event) => Poll::Report(event),
            None => if self.closed {
                Poll::Closed
            } else {
                Poll::Empty
            },
        }
    }
}

/// Where the pipeline sends its reports. Sending never waits for a reader.
pub trait ProgressSink {
    /// The sink's own invariant. A sink that states none has none.
    open spec fn ready(&self) -> bool {
        true
    }

    /// Every report that was ever sent, in order. A sink that keeps no
    /// record leaves that open.
    open spec fn reported(&self) -> Seq<ProgressEvent> {
        arbitrary()
    }

    /// Sends one report.
    fn report(&mut self, event: ProgressEvent)
        requires
            old(self).ready(),
        ensures
            final(self).ready(),
            final(self).reported() == old(self).reported().push(event),
    ;
}

impl ProgressSink for ProgressQueue {
    open spec fn ready(&self) -> bool {
        self.wf()
    }

    open spec fn reported(&self) -> Seq<ProgressEvent> {
        self.sent@
    }

    fn report(&mut self, event: ProgressEvent) {
        self.send(event)
    }
}

/// The display's side: what to show after each look at the queue.
#[derive(Clone, Copy, Debug, PartialEq, Eq, Structural)]
pub struct ProgressMonitor {
    /// The report shown last; zero of zero before the first.
    pub last: ProgressEvent,
}

impl ProgressMonitor {
    /// A monitor that has seen no report yet.
    pub fn new() -> (monitor: ProgressMonitor)
        ensures
            monitor.last == (ProgressEvent { transferred: 0, total: 0 }),
    {
        ProgressMonitor { last: ProgressEvent { transferred: 0, total: 0 } }
    }

    /// What to show now: the report that was received, or the last one shown
    /// where none was.
    pub fn observe(&mut self, received: Option<ProgressEvent>) -> (shown: ProgressEvent)
        ensures
            shown == match received {
                Some(event) => event,
                None => old(self).last,
            },
            final(self).last == shown,
    {
        match received {
            Some(event) => {
                self.last = event;
                event
            },
            None => self.last,
        }
    }

    /// What the display does after a look at the queue: it shows a report
    /// that came, stays at the last one where none came, and ends at the
    /// last one where none will come.
    pub fn react(&mut self, poll: Poll) -> (action: Action)
        ensures
            action == match poll {
                Poll::Report(event) => Action::Show(event),
                Poll::Empty => Action::Keep(old(self).last),
                Poll::Closed => Action::Finish(old(self).last),
            },
            final(self).last == match poll {
                Poll::Report(event) => event,
                _ => old(self).last,
            },
    {
        match poll {
            Poll::Report(event) => Action::Show(self.observe(Some(event))),
            Poll::Empty => Action::Keep(self.observe(None)),
            Poll::Closed => Action::Finish(self.observe(None)),
        }
    }
}

} // verus!
