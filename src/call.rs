//! Outcomes of HTTP exchanges: the record kept for each, the ring that
//! holds the most recent ones, and the per-exchange state machine that
//! follows a streamed response body to its end.
use crate::ring::{keep_last, Ring};
use vstd::prelude::*;

verus! {

/// Default capacity of a call ring, in records.
pub const DEFAULT_CALL_CAPACITY: usize = 100;

/// The code recorded when reading a response body failed: no HTTP status
/// uses it.
pub const STREAM_ERROR_CODE: u16 = 65535;

/// How an exchange ended.
#[derive(PartialEq, Eq, Structural, Clone, Copy, Debug)]
pub enum CallResponse {
    /// The whole body was delivered; `length` bytes in all.
    Success { length: usize },
    /// The exchange failed with `code`.
    Failure { code: u16 },
}

/// One observed request/response exchange.
#[derive(Debug)]
pub struct Call {
    /// Wall-clock time of the request's arrival, in milliseconds since the
    /// Unix epoch.
    pub timestamp_ms: u64,
    /// Time from the request's arrival to the exchange's end.
    pub duration_us: u64,
    pub path: String,
    pub response: CallResponse,
}

/// A call record as plain values.
pub struct CallRecord {
    pub timestamp_ms: u64,
    pub duration_us: u64,
    pub path: Seq<char>,
    pub response: CallResponse,
}

impl View for Call {
    type V = CallRecord;

    open spec fn view(&self) -> CallRecord {
        CallRecord {
            timestamp_ms: self.timestamp_ms,
            duration_us: self.duration_us,
            path: self.path@,
            response: self.response,
        }
    }
}

pub open spec fn calls_view(v: Seq<Call>) -> Seq<CallRecord> {
    v.map_values(|c: Call| c@)
}

impl Call {
    /// The record of an exchange whose body was delivered in full.
    pub fn successfull(
        timestamp_ms: u64,
        duration_us: u64,
        path: String,
        reponse_length: usize,
    ) -> (r: Self)
        ensures
            r@ == (CallRecord {
                timestamp_ms,
                duration_us,
                path: path@,
                response: CallResponse::Success { length: reponse_length },
            }),
    {
        Call {
            timestamp_ms,
            duration_us,
            path,
            response: CallResponse::Success { length: reponse_length },
        }
    }

    /// The record of an exchange that failed with `response_code`.
    pub fn error(timestamp_ms: u64, duration_us: u64, path: String, response_code: u16) -> (r:
        Self)
        ensures
            r@ == (CallRecord {
                timestamp_ms,
                duration_us,
                path: path@,
                response: CallResponse::Failure { code: response_code },
            }),
    {
        Call {
            timestamp_ms,
            duration_us,
            path,
            response: CallResponse::Failure { code: response_code },
        }
    }

    /// An independent copy of this record.
    pub fn duplicate(&self) -> (r: Self)
        ensures
            r@ == self@,
    {
        Call {
            timestamp_ms: self.timestamp_ms,
            duration_us: self.duration_us,
            path: self.path.clone(),
            response: self.response,
        }
    }
}

/// A ring of at most `SIZE` call records; the oldest is evicted when a
/// record is pushed into a full ring.
pub struct Buffer<const SIZE: usize> {
    ring: Ring<Call>,
}

impl<const SIZE: usize> View for Buffer<SIZE> {
    type V = Seq<CallRecord>;

    /// The records held, oldest first.
    closed spec fn view(&self) -> Seq<CallRecord> {
        calls_view(self.ring@)
    }
}

impl<const SIZE: usize> Buffer<SIZE> {
    pub closed spec fn wf(&self) -> bool {
        self.ring.wf() && self.ring.spec_capacity() == SIZE
    }

    pub fn new() -> (r: Self)
        ensures
            r.wf(),
            r@ == Seq::<CallRecord>::empty(),
    {
        let r = Buffer { ring: Ring::new(SIZE) };
        assert(calls_view(r.ring@) =~= Seq::<CallRecord>::empty());
        r
    }

    /// Appends `call`, evicting the oldest record when the ring is full.
    pub fn push_back(&mut self, call: Call)
        requires
            old(self).wf(),
        ensures
            final(self).wf(),
            final(self)@ == keep_last(old(self)@.push(call@), SIZE as nat),
    {
        let ghost before = self.ring@;
        self.ring.push(call);
        proof {
            let all = before.push(call);
            assert(calls_view(all) =~= calls_view(before).push(call@));
            assert(calls_view(keep_last(all, SIZE as nat)) =~= keep_last(
                calls_view(all),
                SIZE as nat,
            ));
        }
    }

    /// Records an exchange whose body was delivered in full.
    pub fn record_success(
        &mut self,
        timestamp_ms: u64,
        duration_us: u64,
        path: String,
        response_length: usize,
    )
        requires
            old(self).wf(),
        ensures
            final(self).wf(),
            final(self)@ == keep_last(
                old(self)@.push(
                    CallRecord {
                        timestamp_ms,
                        duration_us,
                        path: path@,
                        response: CallResponse::Success { length: response_length },
                    },
                ),
                SIZE as nat,
            ),
    {
        self.push_back(Call::successfull(timestamp_ms, duration_us, path, response_length));
    }

    /// Records an exchange that failed with `status_code`.
    pub fn record_failure(&mut self, timestamp_ms: u64, duration_us: u64, path: String, status_code: u16)
        requires
            old(self).wf(),
        ensures
            final(self).wf(),
            final(self)@ == keep_last(
                old(self)@.push(
                    CallRecord {
                        timestamp_ms,
                        duration_us,
                        path: path@,
                        response: CallResponse::Failure { code: status_code },
                    },
                ),
                SIZE as nat,
            ),
    {
        self.push_back(Call::error(timestamp_ms, duration_us, path, status_code));
    }

    pub fn len(&self) -> (r: usize)
        requires
            self.wf(),
        ensures
            r == self@.len(),
            r <= SIZE,
    {
        self.ring.len()
    }

    /// A copy of the records held, oldest first.
    pub fn snapshot(&self) -> (r: Vec<Call>)
        requires
            self.wf(),
        ensures
            calls_view(r@) == self@,
    {
        let mut out: Vec<Call> = Vec::new();
        let n = self.ring.len();
        for i in 0..n
            invariant
                n == self.ring@.len(),
                calls_view(out@) == calls_view(self.ring@).take(i as int),
        {
            let held = self.ring.get(i);
            let c = held.duplicate();
            let ghost before = out@;
            out.push(c);
            assert(calls_view(out@) =~= calls_view(before).push(c@));
            assert(calls_view(self.ring@)[i as int] == self.ring@[i as int]@);
            assert(calls_view(out@) =~= calls_view(self.ring@).take(i + 1));
        }
        assert(calls_view(self.ring@).take(n as int) =~= calls_view(self.ring@));
        out
    }
}


/// What one read of a response body brought.
#[derive(PartialEq, Eq, Structural, Clone, Copy, Debug)]
pub enum BodyEvent {
    /// A chunk of `n` bytes; `n` may be 0 for a spurious empty chunk that
    /// does not end the body.
    Chunk(usize),
    /// The body ended cleanly.
    End,
    /// Reading the body failed.
    Failed,
}

/// Whether an exchange in state `recorded` emits a record on `event`.
pub open spec fn emits(recorded: bool, event: BodyEvent) -> bool {
    !recorded && !(event is Chunk)
}

/// Whether an exchange is finished after `event`.
pub open spec fn finished_after(recorded: bool, event: BodyEvent) -> bool {
    recorded || !(event is Chunk)
}

/// How many records an exchange in state `recorded` emits over `events`.
pub open spec fn records_emitted(recorded: bool, events: Seq<BodyEvent>) -> nat
    decreases events.len(),
{
    if events.len() == 0 {
        0
    } else {
        (if emits(recorded, events[0]) {
            1nat
        } else {
            0nat
        }) + records_emitted(
            finished_after(recorded, events[0]),
            events.subrange(1, events.len() as int),
        )
    }
}

/// Whether `events` holds the end of the body or a failed read.
pub open spec fn drained(events: Seq<BodyEvent>) -> bool {
    exists|i: int| 0 <= i < events.len() && !(#[trigger] events[i] is Chunk)
}

/// An exchange emits exactly one record if its body is read to its end or
/// to a failure, and none if its reader gives up before.
pub proof fn law_at_most_one_record(events: Seq<BodyEvent>)
    ensures
        records_emitted(false, events) == (if drained(events) {
            1nat
        } else {
            0nat
        }),
    decreases events.len(),
{
    if events.len() > 0 {
        let rest = events.subrange(1, events.len() as int);
        if events[0] is Chunk {
            law_at_most_one_record(rest);
            if drained(rest) {
                let i = choose|i: int| 0 <= i < rest.len() && !(#[trigger] rest[i] is Chunk);
                assert(events[i + 1] == rest[i]);
            }
            if drained(events) {
                let i = choose|i: int| 0 <= i < events.len() && !(#[trigger] events[i] is Chunk);
                assert(rest[i - 1] == events[i]);
            }
        } else {
            lemma_finished_emits_nothing(rest);
        }
    }
}

/// A finished exchange emits nothing more.
pub proof fn lemma_finished_emits_nothing(events: Seq<BodyEvent>)
    ensures
        records_emitted(true, events) == 0,
    decreases events.len(),
{
    if events.len() > 0 {
        lemma_finished_emits_nothing(events.subrange(1, events.len() as int));
    }
}

/// The state of one exchange whose response body is being delivered.
pub struct BodyReader {
    timestamp_ms: u64,
    path: String,
    length: usize,
    recorded: bool,
}

/// A body reader's state as plain values.
pub struct BodyState {
    pub timestamp_ms: u64,
    pub path: Seq<char>,
    pub length: nat,
    pub recorded: bool,
}

impl View for BodyReader {
    type V = BodyState;

    closed spec fn view(&self) -> BodyState {
        BodyState {
            timestamp_ms: self.timestamp_ms,
            path: self.path@,
            length: self.length as nat,
            recorded: self.recorded,
        }
    }
}

impl BodyReader {
    /// The state of an exchange that arrived at `timestamp_ms` for `path` and
    /// whose handler produced a response; nothing has been read yet.
    pub fn new(timestamp_ms: u64, path: String) -> (r: Self)
        ensures
            r@ == (BodyState { timestamp_ms, path: path@, length: 0, recorded: false }),
    {
        BodyReader { timestamp_ms, path, length: 0, recorded: false }
    }

    /// Bytes delivered so far.
    pub fn length(&self) -> (r: usize)
        ensures
            r == self@.length,
    {
        self.length
    }

    /// Whether the exchange's record was emitted.
    pub fn is_recorded(&self) -> (r: bool)
        ensures
            r == self@.recorded,
    {
        self.recorded
    }

    /// Takes one read of the body, `elapsed_us` after the request arrived,
    /// and returns the exchange's record when this read ends it.
    pub fn on_event(&mut self, event: BodyEvent, elapsed_us: u64) -> (r: Option<Call>)
        ensures
            r is Some <==> emits(old(self)@.recorded, event),
            final(self)@.recorded == finished_after(old(self)@.recorded, event),
            final(self)@.timestamp_ms == old(self)@.timestamp_ms,
            old(self)@.recorded ==> final(self)@ == old(self)@,
            !old(self)@.recorded ==> match event {
                BodyEvent::Chunk(n) => final(self)@ == (BodyState {
                    length: if old(self)@.length + n > usize::MAX {
                        usize::MAX as nat
                    } else {
                        (old(self)@.length + n) as nat
                    },
                    ..old(self)@
                }),
                BodyEvent::End => r matches Some(c) && c@ == (CallRecord {
                    timestamp_ms: old(self)@.timestamp_ms,
                    duration_us: elapsed_us,
                    path: old(self)@.path,
                    response: CallResponse::Success { length: old(self)@.length as usize },
                }),
                BodyEvent::Failed => r matches Some(c) && c@ == (CallRecord {
                    timestamp_ms: old(self)@.timestamp_ms,
                    duration_us: elapsed_us,
                    path: old(self)@.path,
                    response: CallResponse::Failure { code: STREAM_ERROR_CODE },
                }),
            },
    {
        if self.recorded {
            return None;
        }
        match event {
            BodyEvent::Chunk(n) => {
                self.length = self.length.saturating_add(n);
                None
            },
            BodyEvent::End => {
                self.recorded = true;
                let mut path = String::new();
                std::mem::swap(&mut path, &mut self.path);
                Some(Call::successfull(self.timestamp_ms, elapsed_us, path, self.length))
            },
            BodyEvent::Failed => {
                self.recorded = true;
                let mut path = String::new();
                std::mem::swap(&mut path, &mut self.path);
                Some(Call::error(self.timestamp_ms, elapsed_us, path, STREAM_ERROR_CODE))
            },
        }
    }
}

impl<const SIZE: usize> Buffer<SIZE> {
    /// Passes one read of a body to `reader` and keeps the record it emits,
    /// if any.
    pub fn observe(&mut self, reader: &mut BodyReader, event: BodyEvent, elapsed_us: u64)
        requires
            old(self).wf(),
        ensures
            final(self).wf(),
            final(reader)@.recorded == finished_after(old(reader)@.recorded, event),
            emits(old(reader)@.recorded, event) ==> exists|c: CallRecord|
                #![trigger old(self)@.push(c)]
                final(self)@ == keep_last(old(self)@.push(c), SIZE as nat) && c.timestamp_ms
                    == old(reader)@.timestamp_ms && c.path == old(reader)@.path,
            !emits(old(reader)@.recorded, event) ==> final(self)@ == old(self)@,
    {
        match reader.on_event(event, elapsed_us) {
            Some(call) => {
                let ghost c = call@;
                self.push_back(call);
                assert(self@ == keep_last(old(self)@.push(c), SIZE as nat));
            },
            None => {},
        }
    }
}


impl<const SIZE: usize> Default for Buffer<SIZE> {
    fn default() -> (r: Self)
        ensures
            r.wf(),
            r@ == Seq::<CallRecord>::empty(),
    {
        Self::new()
    }
}

} // verus!
