//! The log pipeline's decisions: which entries are kept, how the recent ones
//! are held for readers, and when the background writer rotates its file and
//! flushes its batch.
//!
//! The clock, the hand-off queue and the files belong to the caller, which
//! hands this module plain values (an entry, an event, today's date) and acts
//! on what it gets back.
use vstd::prelude::*;
use vstd::utf8::encode_utf8;
use crate::record::append_bytes;
use crate::ring::{pushed, CircularBuffer};

verus! {

/// The number of entries that the background writer batches before it
/// flushes regardless of the time.
pub const BATCH_LIMIT: usize = 500;

/// How long, in milliseconds, the background writer waits for an entry
/// before it flushes what it holds.
pub const IDLE_TIMEOUT_MS: u64 = 500;

/// The number of recent entries kept in memory unless told otherwise.
pub const DEFAULT_CAPACITY: usize = 100;

/// One logged event.
#[derive(Clone)]
pub struct LogEntry {
    pub level: String,
    pub message: String,
    pub timestamp: String,
}

/// The line that stands for `e` in a log file:
/// `<timestamp> [<level>] <message>` and a newline.
pub open spec fn line_of(e: LogEntry) -> Seq<u8> {
    encode_utf8(e.timestamp@) + seq![32u8, 91u8] + encode_utf8(e.level@) + seq![93u8, 32u8]
        + encode_utf8(e.message@) + seq![10u8]
}

/// The lines of `entries`, one after another.
pub open spec fn lines_of(entries: Seq<LogEntry>) -> Seq<u8>
    decreases entries.len(),
{
    if entries.len() == 0 {
        Seq::empty()
    } else {
        lines_of(entries.drop_last()) + line_of(entries.last())
    }
}

impl LogEntry {
    /// The line that stands for this entry in a log file.
    pub fn line(&self) -> (r: Vec<u8>)
        ensures
            r@ == line_of(*self),
    {
        let mut out: Vec<u8> = Vec::new();
        append_bytes(&mut out, self.timestamp.as_str().as_bytes());
        out.push(32u8);
        out.push(91u8);
        append_bytes(&mut out, self.level.as_str().as_bytes());
        out.push(93u8);
        out.push(32u8);
        append_bytes(&mut out, self.message.as_str().as_bytes());
        out.push(10u8);
        assert(out@ =~= line_of(*self));
        out
    }
}

/// The bytes written for a flushed batch: each entry's line, in order.
pub fn batch_lines(entries: &Vec<LogEntry>) -> (r: Vec<u8>)
    ensures
        r@ == lines_of(entries@),
{
    let mut out: Vec<u8> = Vec::new();
    let mut i: usize = 0;
    while i < entries.len()
        invariant
            i <= entries@.len(),
            out@ == lines_of(entries@.subrange(0, i as int)),
        decreases entries@.len() - i,
    {
        let line = entries[i].line();
        append_bytes(&mut out, line.as_slice());
        i = i + 1;
        assert(entries@.subrange(0, i as int).drop_last() =~= entries@.subrange(0, i - 1));
    }
    assert(entries@.subrange(0, i as int) =~= entries@);
    out
}

/// How severe an event is, from the most severe to the least.
#[derive(Clone, Copy, PartialEq, Eq, Structural, Debug)]
pub enum Level {
    Error,
    Warn,
    Info,
    Debug,
    Trace,
}

/// The rank of a level: the more severe, the lower.
pub open spec fn rank(l: Level) -> nat {
    match l {
        Level::Error => 1,
        Level::Warn => 2,
        Level::Info => 3,
        Level::Debug => 4,
        Level::Trace => 5,
    }
}

impl Level {
    fn rank(&self) -> (r: u8)
        ensures
            r == rank(*self),
    {
        match self {
            Level::Error => 1,
            Level::Warn => 2,
            Level::Info => 3,
            Level::Debug => 4,
            Level::Trace => 5,
        }
    }

    /// Whether an event at this level passes a filter set at `threshold`:
    /// it does when it is at least as severe.
    pub fn passes(&self, threshold: Level) -> (r: bool)
        ensures
            r == (rank(*self) <= rank(threshold)),
    {
        self.rank() <= threshold.rank()
    }
}

/// The synchronous side of the pipeline: a severity filter in front of a
/// ring of the most recent entries.
pub struct LogPipeline {
    ring: CircularBuffer<LogEntry>,
    threshold: Level,
}

impl LogPipeline {
    pub closed spec fn wf(&self) -> bool {
        self.ring.wf()
    }

    /// The entries held in memory, oldest first.
    pub closed spec fn recent(&self) -> Seq<LogEntry> {
        self.ring@
    }

    /// How many entries are held in memory at most.
    pub closed spec fn cap(&self) -> nat {
        self.ring.cap()
    }

    /// The least severe level that is kept.
    pub closed spec fn spec_threshold(&self) -> Level {
        self.threshold
    }

    /// A pipeline that keeps up to `capacity` recent entries at or above
    /// `threshold`.
    pub fn new(capacity: usize, threshold: Level) -> (r: LogPipeline)
        ensures
            r.wf(),
            r.recent() == Seq::<LogEntry>::empty(),
            r.cap() == capacity,
            r.spec_threshold() == threshold,
    {
        LogPipeline { ring: CircularBuffer::new(capacity), threshold }
    }

    /// Takes an event at `level`. One that passes the filter goes into the
    /// ring, dropping the oldest if it is full, and a copy comes back to be
    /// sent to the background writer; any other leaves everything as it was
    /// and gives `None`.
    pub fn log(&mut self, level: Level, entry: LogEntry) -> (r: Option<LogEntry>)
        requires
            old(self).wf(),
        ensures
            final(self).wf(),
            final(self).cap() == old(self).cap(),
            final(self).spec_threshold() == old(self).spec_threshold(),
            rank(level) <= rank(old(self).spec_threshold()) ==> {
                &&& final(self).recent() == pushed(old(self).recent(), entry, old(self).cap())
                &&& r matches Some(copy) && cloned(entry, copy)
            },
            rank(level) > rank(old(self).spec_threshold()) ==> {
                &&& final(self).recent() == old(self).recent()
                &&& r is None
            },
    {
        if level.passes(self.threshold) {
            let copy = entry.clone();
            self.ring.push(entry);
            Some(copy)
        } else {
            None
        }
    }

    /// A copy of the entries held in memory, oldest first.
    pub fn get_logs(&self) -> (r: Vec<LogEntry>)
        ensures
            r@.len() == self.recent().len(),
            forall|i: int| 0 <= i < r@.len() ==> cloned(#[trigger] self.recent()[i], r@[i]),
    {
        self.ring.get_logs()
    }
}

/// A calendar date.
#[derive(Clone, Copy, PartialEq, Eq, Structural, Debug)]
pub struct LogDate {
    pub year: i32,
    pub month: u32,
    pub day: u32,
}

/// What the background writer learns in one wait on the queue.
pub enum WorkerEvent {
    /// An entry arrived.
    Received(LogEntry),
    /// The wait timed out with no entry.
    Timeout,
    /// Every sender is gone.
    Disconnected,
}

/// What the background writer does after one wait, in this order: open the
/// file for today if `rotate`, write `flush` to it if it is not empty, then
/// stop if `stop`.
pub struct WorkerStep {
    pub rotate: bool,
    pub flush: Vec<LogEntry>,
    pub stop: bool,
}

/// The batch after `event` reaches a writer holding `batch`.
pub open spec fn next_batch(batch: Seq<LogEntry>, event: WorkerEvent) -> Seq<LogEntry> {
    match event {
        WorkerEvent::Received(e) => if batch.len() + 1 >= BATCH_LIMIT {
            Seq::empty()
        } else {
            batch.push(e)
        },
        _ => Seq::empty(),
    }
}

/// The entries flushed when `event` reaches a writer holding `batch`; empty
/// when nothing is flushed.
pub open spec fn flushed(batch: Seq<LogEntry>, event: WorkerEvent) -> Seq<LogEntry> {
    match event {
        WorkerEvent::Received(e) => if batch.len() + 1 >= BATCH_LIMIT {
            batch.push(e)
        } else {
            Seq::empty()
        },
        _ => batch,
    }
}

/// The batch left and the non-empty flushes made, in order, when `events`
/// reach a writer holding `batch` one after another.
pub open spec fn run(batch: Seq<LogEntry>, events: Seq<WorkerEvent>) -> (
    Seq<LogEntry>,
    Seq<Seq<LogEntry>>,
)
    decreases events.len(),
{
    if events.len() == 0 {
        (batch, Seq::empty())
    } else {
        let (b, done) = run(batch, events.drop_last());
        let f = flushed(b, events.last());
        (next_batch(b, events.last()), if f.len() > 0 {
            done.push(f)
        } else {
            done
        })
    }
}

/// The events by which `entries` arrive one after another.
pub open spec fn arrivals(entries: Seq<LogEntry>) -> Seq<WorkerEvent> {
    Seq::new(entries.len(), |i: int| WorkerEvent::Received(entries[i]))
}

/// The background writer's state: the batch not yet written, and the date
/// of the file it writes to.
pub struct LogWorker {
    batch: Vec<LogEntry>,
    file_date: LogDate,
}

impl LogWorker {
    pub closed spec fn pending(&self) -> Seq<LogEntry> {
        self.batch@
    }

    pub closed spec fn date(&self) -> LogDate {
        self.file_date
    }

    /// A writer with nothing batched, whose file is that of `today`.
    pub fn new(today: LogDate) -> (r: LogWorker)
        ensures
            r.pending() == Seq::<LogEntry>::empty(),
            r.date() == today,
    {
        LogWorker { batch: Vec::new(), file_date: today }
    }

    /// The date of the file being written to.
    pub fn file_date(&self) -> (r: LogDate)
        ensures
            r == self.date(),
    {
        self.file_date
    }

    /// Takes the outcome of one wait on `today`. The file is rotated when
    /// the day has changed since it was opened. An entry joins the batch,
    /// which is flushed once it reaches the size limit; a timeout flushes
    /// what is batched; a disconnect flushes what is batched and stops.
    pub fn step(&mut self, event: WorkerEvent, today: LogDate) -> (r: WorkerStep)
        ensures
            r.rotate == (today != old(self).date()),
            final(self).date() == today,
            r.flush@ == flushed(old(self).pending(), event),
            final(self).pending() == next_batch(old(self).pending(), event),
            r.stop == (event is Disconnected),
    {
        let rotate = today != self.file_date;
        self.file_date = today;
        match event {
            WorkerEvent::Received(e) => {
                self.batch.push(e);
                if self.batch.len() >= BATCH_LIMIT {
                    let flush = self.batch.split_off(0);
                    WorkerStep { rotate, flush, stop: false }
                } else {
                    WorkerStep { rotate, flush: Vec::new(), stop: false }
                }
            },
            WorkerEvent::Timeout => {
                let flush = self.batch.split_off(0);
                WorkerStep { rotate, flush, stop: false }
            },
            WorkerEvent::Disconnected => {
                let flush = self.batch.split_off(0);
                WorkerStep { rotate, flush, stop: true }
            },
        }
    }
}

/// Fewer entries than the size limit, arriving at an empty writer, are all
/// held in the batch and nothing is flushed.
pub proof fn lemma_short_burst_is_held(entries: Seq<LogEntry>)
    requires
        entries.len() < BATCH_LIMIT,
    ensures
        run(Seq::empty(), arrivals(entries)) == (entries, Seq::<Seq<LogEntry>>::empty()),
    decreases entries.len(),
{
    if entries.len() > 0 {
        let init = entries.drop_last();
        assert(arrivals(entries).drop_last() =~= arrivals(init));
        lemma_short_burst_is_held(init);
        assert(init.push(entries.last()) =~= entries);
    } else {
        assert(entries =~= Seq::<LogEntry>::empty());
    }
}

/// Entries arriving at an empty writer one more than the size limit: the
/// first `BATCH_LIMIT` of them are flushed together on the arrival of the
/// last of those, with no timeout, and the one after is held.
pub proof fn lemma_size_triggered_flush(entries: Seq<LogEntry>)
    requires
        entries.len() == BATCH_LIMIT + 1,
    ensures
        run(Seq::empty(), arrivals(entries)) == (
            seq![entries.last()],
            seq![entries.subrange(0, BATCH_LIMIT as int)],
        ),
{
    let first = entries.subrange(0, BATCH_LIMIT as int);
    let init = first.drop_last();
    lemma_short_burst_is_held(init);
    assert(arrivals(entries).drop_last().drop_last() =~= arrivals(init));
    assert(arrivals(entries).drop_last() =~= arrivals(first));
    assert(arrivals(entries).drop_last().last() == WorkerEvent::Received(first.last()));
    assert(arrivals(entries).last() == WorkerEvent::Received(entries.last()));
    assert(init.push(first.last()) =~= first);
    assert(run(Seq::empty(), arrivals(first)) == (
        Seq::<LogEntry>::empty(),
        Seq::<Seq<LogEntry>>::empty().push(first),
    ));
    assert(Seq::<LogEntry>::empty().push(entries.last()) =~= seq![entries.last()]);
    assert(Seq::<Seq<LogEntry>>::empty().push(first) =~= seq![first]);
}

/// One entry, then a wait that times out: exactly one flush, holding that
/// entry, and nothing left batched.
pub proof fn lemma_timeout_flushes_single_entry(e: LogEntry)
    ensures
        run(Seq::empty(), seq![WorkerEvent::Received(e), WorkerEvent::Timeout]) == (
            Seq::<LogEntry>::empty(),
            seq![seq![e]],
        ),
{
    let evs = seq![WorkerEvent::Received(e), WorkerEvent::Timeout];
    assert(evs.drop_last() =~= seq![WorkerEvent::Received(e)]);
    assert(evs.drop_last().drop_last() =~= Seq::<WorkerEvent>::empty());
    assert(evs.last() == WorkerEvent::Timeout);
    assert(evs.drop_last().last() == WorkerEvent::Received(e));
    assert(run(Seq::empty(), evs.drop_last().drop_last()) == (
        Seq::<LogEntry>::empty(),
        Seq::<Seq<LogEntry>>::empty(),
    ));
    assert(Seq::<LogEntry>::empty().push(e) =~= seq![e]);
    assert(run(Seq::empty(), evs.drop_last()) == (seq![e], Seq::<Seq<LogEntry>>::empty()));
    assert(Seq::<Seq<LogEntry>>::empty().push(seq![e]) =~= seq![seq![e]]);
}

} // verus!
