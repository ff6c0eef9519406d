//! The byte ring shared by log lines and trace output, with the frame
//! encoder and decoders.
use crate::frame::{
    decode_logs, decode_traces, lemma_pow16_values, hex_char, hex_digit_value, hex_digits, hex_value, is_hex_digit,
    header_fault, log_frame, logs_from, next_sentinel, pow16, trace_frame, traces_from,
    DecodeFault, LogRecord, LOG_HEADER_LEN, SENTINEL, TIMESTAMP_DIGITS,
};
use crate::ring::{keep_last, lemma_keep_last_append, Ring};
use crate::text::text_from_utf8;
use vstd::prelude::*;
use vstd::string::StringSliceAdditionalSpecFns;

verus! {

/// Default capacity of a log ring, in bytes.
pub const DEFAULT_BUFFER_SIZE: usize = 65536;

/// One decoded log line.
#[derive(Debug)]
pub struct LogLine {
    /// Seconds since the Unix epoch.
    pub timestamp: u64,
    pub level: u8,
    pub message: String,
}

impl View for LogLine {
    type V = LogRecord;

    open spec fn view(&self) -> LogRecord {
        LogRecord { timestamp: self.timestamp, level: self.level, message: self.message@ }
    }
}

pub open spec fn lines_view(v: Seq<LogLine>) -> Seq<LogRecord> {
    v.map_values(|l: LogLine| l@)
}

pub open spec fn texts_view(v: Seq<String>) -> Seq<Seq<char>> {
    v.map_values(|t: String| t@)
}

/// Why the contents of a ring could not be decoded.
#[derive(Debug)]
pub enum LogError {
    /// Found an unexpected character in place of a header digit.
    UnexpectedTimestampValue,
    /// The data ended inside a header.
    ValueExpected,
    /// A message's bytes are not valid UTF-8.
    Utf8(std::string::FromUtf8Error),
}

impl LogError {
    pub open spec fn fault(&self) -> DecodeFault {
        match self {
            LogError::UnexpectedTimestampValue => DecodeFault::UnexpectedTimestampValue,
            LogError::ValueExpected => DecodeFault::ValueExpected,
            LogError::Utf8(_) => DecodeFault::Utf8,
        }
    }
}

pub open spec fn prepend_all<A>(prefix: Seq<A>, r: Result<Seq<A>, DecodeFault>) -> Result<
    Seq<A>,
    DecodeFault,
> {
    match r {
        Ok(rest) => Ok(prefix + rest),
        Err(e) => Err(e),
    }
}

/// The value of one uppercase hex digit.
pub fn read_hex(v: u8) -> (r: Result<u64, LogError>)
    ensures
        r is Ok <==> is_hex_digit(v),
        r matches Ok(d) ==> d == hex_digit_value(v) && d < 16,
        r matches Err(e) ==> e is UnexpectedTimestampValue,
{
    if 0x30 <= v && v <= 0x39 {
        Ok((v - 0x30) as u64)
    } else if 0x41 <= v && v <= 0x46 {
        Ok((v - 0x41 + 10) as u64)
    } else {
        Err(LogError::UnexpectedTimestampValue)
    }
}

/// The uppercase hex digit of `d < 16`.
fn hex_digit(d: u64) -> (r: u8)
    requires
        d < 16,
    ensures
        r == hex_char(d as nat),
{
    if d < 10 {
        (0x30 + d) as u8
    } else {
        (0x41 + d - 10) as u8
    }
}

/// Appends the `n` lowest hex digits of `v`, most significant first.
fn push_hex(out: &mut Vec<u8>, v: u64, n: usize)
    ensures
        final(out)@ == old(out)@ + hex_digits(v as nat, n as nat),
    decreases n,
{
    if n == 0 {
        assert(old(out)@ + hex_digits(v as nat, 0) =~= old(out)@);
    } else {
        push_hex(out, v / 16, n - 1);
        out.push(hex_digit(v % 16));
        assert(final(out)@ =~= old(out)@ + hex_digits(v as nat, n as nat));
    }
}

/// The log lines held in `s`, decoded; see `decode_logs`.
pub fn decode_log_bytes(s: &Vec<u8>) -> (r: Result<Vec<LogLine>, LogError>)
    ensures
        match r {
            Ok(v) => decode_logs(s@) == Ok::<Seq<LogRecord>, DecodeFault>(lines_view(v@)),
            Err(e) => decode_logs(s@) == Err::<Seq<LogRecord>, DecodeFault>(e.fault()),
        },
{
    let n = s.len();
    let mut p: usize = 0;
    while p < n && s[p] != SENTINEL
        invariant
            p <= n,
            n == s@.len(),
            next_sentinel(s@, 0) == next_sentinel(s@, p as int),
        decreases n - p,
    {
        p = p + 1;
    }
    let mut out: Vec<LogLine> = Vec::new();
    if p >= n {
        assert(lines_view(out@) =~= Seq::<LogRecord>::empty());
        return Ok(out);
    }
    proof {
        assert(lines_view(out@) =~= Seq::<LogRecord>::empty());
        assert(prepend_all(lines_view(out@), logs_from(s@, p + 1)) == logs_from(s@, p + 1)) by {
            match logs_from(s@, p + 1) {
                Ok(rest) => {
                    assert(lines_view(out@) + rest =~= rest);
                },
                Err(_) => {},
            }
        }
        lemma_pow16_values();
    }
    let mut q: usize = p + 1;
    loop
        invariant
            q <= n,
            n == s@.len(),
            pow16(15) == 0x1000_0000_0000_0000,
            pow16(16) == 0x1_0000_0000_0000_0000,
            decode_logs(s@) == prepend_all(lines_view(out@), logs_from(s@, q as int)),
        decreases n - q,
    {
        let ghost full = logs_from(s@, q as int);
        let mut timestamp: u64 = 0;
        let mut level: u8 = 0;
        let mut j: usize = 0;
        while j < LOG_HEADER_LEN
            invariant
                j <= 17,
                q <= n,
                n == s@.len(),
                pow16(15) == 0x1000_0000_0000_0000,
                pow16(16) == 0x1_0000_0000_0000_0000,
                header_fault(s@, q as int, 0) == header_fault(s@, q as int, j as int),
                j <= 16 ==> timestamp == hex_value(s@.subrange(q as int, q + j)),
                j <= 16 ==> timestamp < pow16(j as nat),
                j == 17 ==> timestamp == hex_value(s@.subrange(q as int, q + 16)),
                j == 17 ==> level == hex_digit_value(s@[q + 16]),
                q + j <= n,
                decode_logs(s@) == prepend_all(lines_view(out@), full),
                full == logs_from(s@, q as int),
            decreases 17 - j,
        {
            if j >= n - q {
                return Err(LogError::ValueExpected);
            }
            let d = match read_hex(s[q + j]) {
                Ok(d) => d,
                Err(e) => {
                    return Err(e);
                },
            };
            if j < TIMESTAMP_DIGITS {
                proof {
                    let t = s@.subrange(q as int, q + j + 1);
                    assert(t.drop_last() =~= s@.subrange(q as int, q + j));
                    reveal_with_fuel(pow16, 2);
                    assert(pow16((j + 1) as nat) == 16 * pow16(j as nat));
                    if j < 15 {
                        lemma_pow16_mono(j as nat + 1, 15);
                    }
                }
                timestamp = timestamp * 16 + d;
            } else {
                level = d as u8;
            }
            j = j + 1;
        }
        let mut message: Vec<u8> = Vec::new();
        let mut e: usize = q + LOG_HEADER_LEN;
        while e < n && s[e] != SENTINEL
            invariant
                q + 17 <= e <= n,
                n == s@.len(),
                next_sentinel(s@, q + 17) == next_sentinel(s@, e as int),
                message@ == s@.subrange(q + 17, e as int),
            decreases n - e,
        {
            message.push(s[e]);
            e = e + 1;
            assert(message@ =~= s@.subrange(q + 17, e as int));
        }
        let text = match text_from_utf8(message) {
            Ok(t) => t,
            Err(err) => {
                return Err(LogError::Utf8(err));
            },
        };
        let line = LogLine { timestamp, level, message: text };
        let ghost before = out@;
        out.push(line);
        proof {
            assert(lines_view(out@) =~= lines_view(before) + seq![line@]);
        }
        if e >= n {
            proof {
                assert(lines_view(out@) =~= lines_view(before) + seq![line@] + Seq::<LogRecord>::empty());
            }
            return Ok(out);
        }
        proof {
            match logs_from(s@, e + 1) {
                Ok(rest) => {
                    assert(lines_view(before) + (seq![line@] + rest) =~= lines_view(out@) + rest);
                },
                Err(_) => {},
            }
        }
        q = e + 1;
    }
}

proof fn lemma_pow16_mono(a: nat, b: nat)
    requires
        a <= b,
    ensures
        pow16(a) <= pow16(b),
    decreases b - a,
{
    if a < b {
        lemma_pow16_mono(a, (b - 1) as nat);
        reveal_with_fuel(pow16, 2);
    }
}


/// The trace messages held in `s`, decoded; see `decode_traces`.
pub fn decode_trace_bytes(s: &Vec<u8>) -> (r: Result<Vec<String>, LogError>)
    ensures
        match r {
            Ok(v) => decode_traces(s@) == Ok::<Seq<Seq<char>>, DecodeFault>(texts_view(v@)),
            Err(e) => decode_traces(s@) == Err::<Seq<Seq<char>>, DecodeFault>(e.fault()),
        },
{
    let n = s.len();
    let mut p: usize = 0;
    while p < n && s[p] != SENTINEL
        invariant
            p <= n,
            n == s@.len(),
            next_sentinel(s@, 0) == next_sentinel(s@, p as int),
        decreases n - p,
    {
        p = p + 1;
    }
    let mut out: Vec<String> = Vec::new();
    if p >= n {
        assert(texts_view(out@) =~= Seq::<Seq<char>>::empty());
        return Ok(out);
    }
    proof {
        assert(texts_view(out@) =~= Seq::<Seq<char>>::empty());
        match traces_from(s@, p + 1) {
            Ok(rest) => {
                assert(texts_view(out@) + rest =~= rest);
            },
            Err(_) => {},
        }
    }
    let mut q: usize = p + 1;
    loop
        invariant
            q <= n,
            n == s@.len(),
            decode_traces(s@) == prepend_all(texts_view(out@), traces_from(s@, q as int)),
        decreases n - q,
    {
        let mut message: Vec<u8> = Vec::new();
        let mut e: usize = q;
        while e < n && s[e] != SENTINEL
            invariant
                q <= e <= n,
                n == s@.len(),
                next_sentinel(s@, q as int) == next_sentinel(s@, e as int),
                message@ == s@.subrange(q as int, e as int),
            decreases n - e,
        {
            message.push(s[e]);
            e = e + 1;
            assert(message@ =~= s@.subrange(q as int, e as int));
        }
        let text = match text_from_utf8(message) {
            Ok(t) => t,
            Err(err) => {
                return Err(LogError::Utf8(err));
            },
        };
        let ghost before = out@;
        let ghost t = text@;
        out.push(text);
        proof {
            assert(texts_view(out@) =~= texts_view(before) + seq![t]);
        }
        if e >= n {
            proof {
                assert(texts_view(out@) =~= texts_view(before) + seq![t] + Seq::<Seq<char>>::empty());
            }
            return Ok(out);
        }
        proof {
            match traces_from(s@, e + 1) {
                Ok(rest) => {
                    assert(texts_view(before) + (seq![t] + rest) =~= texts_view(out@) + rest);
                },
                Err(_) => {},
            }
        }
        q = e + 1;
    }
}

/// A ring of `SIZE` bytes holding log and trace frames. Writes never fail:
/// the oldest bytes are evicted to make room.
pub struct Buffer<const SIZE: usize> {
    ring: Ring<u8>,
}

impl<const SIZE: usize> View for Buffer<SIZE> {
    type V = Seq<u8>;

    /// The bytes held, oldest first.
    closed spec fn view(&self) -> Seq<u8> {
        self.ring@
    }
}

impl<const SIZE: usize> Buffer<SIZE> {
    pub closed spec fn wf(&self) -> bool {
        self.ring.wf() && self.ring.spec_capacity() == SIZE
    }

    pub fn new() -> (r: Self)
        ensures
            r.wf(),
            r@ == Seq::<u8>::empty(),
    {
        Buffer { ring: Ring::new(SIZE) }
    }

    /// Appends `bytes`; only the most recent `SIZE` bytes of all that was
    /// written stay.
    pub fn write(&mut self, bytes: &[u8])
        requires
            old(self).wf(),
        ensures
            final(self).wf(),
            final(self)@ == keep_last(old(self)@ + bytes@, SIZE as nat),
    {
        self.ring.extend_from_slice(bytes);
    }

    /// The bytes held, oldest first, as they are at the time of the call.
    pub fn contents(&self) -> (r: Vec<u8>)
        requires
            self.wf(),
        ensures
            r@ == self@,
            r@.len() <= SIZE,
    {
        self.ring.to_vec()
    }

    /// Appends one log frame for `message` at `timestamp` (seconds since the
    /// Unix epoch) and `level`.
    pub fn write_log(&mut self, level: u8, message: &str, timestamp: u64)
        requires
            old(self).wf(),
            level < 16,
        ensures
            final(self).wf(),
            final(self)@ == keep_last(
                old(self)@ + log_frame(timestamp, level, message.spec_bytes()),
                SIZE as nat,
            ),
    {
        let mut header: Vec<u8> = Vec::new();
        header.push(SENTINEL);
        push_hex(&mut header, timestamp, TIMESTAMP_DIGITS);
        header.push(hex_digit(level as u64));
        let ghost h = header@;
        self.write(header.as_slice());
        self.write(message.as_bytes());
        proof {
            lemma_keep_last_append(old(self)@ + h, message.spec_bytes(), SIZE as nat);
            assert(h =~= seq![SENTINEL] + hex_digits(timestamp as nat, 16) + seq![
                hex_char(level as nat),
            ]);
            assert(old(self)@ + h + message.spec_bytes() =~= old(self)@ + log_frame(
                timestamp,
                level,
                message.spec_bytes(),
            ));
        }
    }

    /// Appends one trace frame for `message`.
    pub fn write_trace(&mut self, message: &str)
        requires
            old(self).wf(),
        ensures
            final(self).wf(),
            final(self)@ == keep_last(old(self)@ + trace_frame(message.spec_bytes()), SIZE as nat),
    {
        let sentinel: [u8; 1] = [SENTINEL];
        self.write(sentinel.as_slice());
        self.write(message.as_bytes());
        proof {
            lemma_keep_last_append(old(self)@ + seq![SENTINEL], message.spec_bytes(), SIZE as nat);
            assert(old(self)@ + seq![SENTINEL] + message.spec_bytes() =~= old(self)@ + trace_frame(
                message.spec_bytes(),
            ));
        }
    }

    /// The log lines held, oldest first.
    pub fn get_logs(&self) -> (r: Result<Vec<LogLine>, LogError>)
        requires
            self.wf(),
        ensures
            match r {
                Ok(v) => decode_logs(self@) == Ok::<Seq<LogRecord>, DecodeFault>(lines_view(v@)),
                Err(e) => decode_logs(self@) == Err::<Seq<LogRecord>, DecodeFault>(e.fault()),
            },
    {
        let bytes = self.contents();
        decode_log_bytes(&bytes)
    }

    /// The trace messages held, oldest first.
    pub fn get_traces(&self) -> (r: Result<Vec<String>, LogError>)
        requires
            self.wf(),
        ensures
            match r {
                Ok(v) => decode_traces(self@) == Ok::<Seq<Seq<char>>, DecodeFault>(texts_view(v@)),
                Err(e) => decode_traces(self@) == Err::<Seq<Seq<char>>, DecodeFault>(e.fault()),
            },
    {
        let bytes = self.contents();
        decode_trace_bytes(&bytes)
    }
}


impl<const SIZE: usize> Default for Buffer<SIZE> {
    fn default() -> (r: Self)
        ensures
            r.wf(),
            r@ == Seq::<u8>::empty(),
    {
        Self::new()
    }
}

} // verus!
