//! The self-delimiting frame format of the byte rings, stated over byte
//! sequences: what a frame holds and what a decoder reads back.
use vstd::prelude::*;
use crate::ring::keep_last;
use vstd::arithmetic::div_mod::lemma_breakdown;
use vstd::utf8::*;

verus! {

/// The byte that starts every frame.
pub const SENTINEL: u8 = 0;

/// Number of hex digits of a log frame's timestamp.
pub const TIMESTAMP_DIGITS: usize = 16;

/// Length of a log frame's header: the timestamp and one level digit.
pub const LOG_HEADER_LEN: usize = 17;

pub open spec fn is_hex_digit(b: u8) -> bool {
    (0x30 <= b <= 0x39) || (0x41 <= b <= 0x46)
}

pub open spec fn hex_digit_value(b: u8) -> nat {
    if 0x30 <= b <= 0x39 {
        (b - 0x30) as nat
    } else {
        (b - 0x41 + 10) as nat
    }
}

/// The uppercase hex digit for `d < 16`.
pub open spec fn hex_char(d: nat) -> u8 {
    if d < 10 {
        (0x30 + d) as u8
    } else {
        (0x41 + d - 10) as u8
    }
}

pub open spec fn pow16(n: nat) -> nat
    decreases n,
{
    if n == 0 {
        1
    } else {
        16 * pow16((n - 1) as nat)
    }
}

/// The number that a string of hex digits spells, most significant first.
pub open spec fn hex_value(s: Seq<u8>) -> nat
    decreases s.len(),
{
    if s.len() == 0 {
        0
    } else {
        hex_value(s.drop_last()) * 16 + hex_digit_value(s.last())
    }
}

/// The `n` lowest hex digits of `v`, most significant first.
pub open spec fn hex_digits(v: nat, n: nat) -> Seq<u8>
    decreases n,
{
    if n == 0 {
        Seq::empty()
    } else {
        hex_digits(v / 16, (n - 1) as nat).push(hex_char(v % 16))
    }
}

/// What a log frame carries, as a decoder gives it back.
pub struct LogRecord {
    pub timestamp: u64,
    pub level: u8,
    pub message: Seq<char>,
}

/// A log frame: the sentinel, sixteen hex digits of the timestamp, one hex
/// digit of the level and the message's bytes.
pub open spec fn log_frame(timestamp: u64, level: u8, message: Seq<u8>) -> Seq<u8> {
    seq![SENTINEL] + hex_digits(timestamp as nat, 16) + seq![hex_char(level as nat)] + message
}

/// A trace frame: the sentinel and the message's bytes.
pub open spec fn trace_frame(message: Seq<u8>) -> Seq<u8> {
    seq![SENTINEL] + message
}

/// Why decoding stopped.
#[derive(PartialEq, Eq, Structural, Clone, Copy, Debug)]
pub enum DecodeFault {
    /// A header position held something other than an uppercase hex digit.
    UnexpectedTimestampValue,
    /// The data ended inside a header.
    ValueExpected,
    /// A message was not valid UTF-8.
    Utf8,
}

/// The first index at or after `from` that holds the sentinel, or `s.len()`.
pub open spec fn next_sentinel(s: Seq<u8>, from: int) -> int
    decreases s.len() - from,
{
    if from >= s.len() {
        s.len() as int
    } else if s[from] == SENTINEL {
        from
    } else {
        next_sentinel(s, from + 1)
    }
}

/// The first fault among the header positions `q + j .. q + 17`, in order.
pub open spec fn header_fault(s: Seq<u8>, q: int, j: int) -> Option<DecodeFault>
    decreases 17 - j,
{
    if j >= 17 {
        None
    } else if q + j >= s.len() {
        Some(DecodeFault::ValueExpected)
    } else if !is_hex_digit(s[q + j]) {
        Some(DecodeFault::UnexpectedTimestampValue)
    } else {
        header_fault(s, q, j + 1)
    }
}

pub open spec fn prepend<A>(x: A, r: Result<Seq<A>, DecodeFault>) -> Result<Seq<A>, DecodeFault> {
    match r {
        Ok(rest) => Ok(seq![x] + rest),
        Err(e) => Err(e),
    }
}

/// The log frames that start at `q`, just after a sentinel, up to the end
/// of `s`.
pub open spec fn logs_from(s: Seq<u8>, q: int) -> Result<Seq<LogRecord>, DecodeFault>
    decreases s.len() - q,
{
    match header_fault(s, q, 0) {
        Some(f) => Err(f),
        None => {
            let end = next_sentinel(s, q + 17);
            let message = s.subrange(q + 17, end);
            if !valid_utf8(message) {
                Err(DecodeFault::Utf8)
            } else {
                let record = LogRecord {
                    timestamp: hex_value(s.subrange(q, q + 16)) as u64,
                    level: hex_digit_value(s[q + 16]) as u8,
                    message: decode_utf8(message),
                };
                if end >= s.len() || end < q + 17 {
                    Ok(seq![record])
                } else {
                    prepend(record, logs_from(s, end + 1))
                }
            }
        },
    }
}

/// Decoding of a log ring's bytes: what precedes the first sentinel is the
/// remnant of an evicted frame and is skipped.
pub open spec fn decode_logs(s: Seq<u8>) -> Result<Seq<LogRecord>, DecodeFault> {
    let p = next_sentinel(s, 0);
    if p >= s.len() {
        Ok(Seq::empty())
    } else {
        logs_from(s, p + 1)
    }
}

/// The trace frames that start at `q`, just after a sentinel.
pub open spec fn traces_from(s: Seq<u8>, q: int) -> Result<Seq<Seq<char>>, DecodeFault>
    decreases s.len() - q,
{
    let end = next_sentinel(s, q);
    let message = s.subrange(q, end);
    if !valid_utf8(message) {
        Err(DecodeFault::Utf8)
    } else if end >= s.len() || end < q {
        Ok(seq![decode_utf8(message)])
    } else {
        prepend(decode_utf8(message), traces_from(s, end + 1))
    }
}

/// Decoding of a trace ring's bytes, skipping the remnant before the first
/// sentinel.
pub open spec fn decode_traces(s: Seq<u8>) -> Result<Seq<Seq<char>>, DecodeFault> {
    let p = next_sentinel(s, 0);
    if p >= s.len() {
        Ok(Seq::empty())
    } else {
        traces_from(s, p + 1)
    }
}


/// What follows the sentinel in a record's log frame.
pub open spec fn log_body(r: LogRecord) -> Seq<u8> {
    hex_digits(r.timestamp as nat, 16) + seq![hex_char(r.level as nat)] + encode_utf8(r.message)
}

/// The log frames of `records`, one after another.
pub open spec fn encode_log_records(records: Seq<LogRecord>) -> Seq<u8>
    decreases records.len(),
{
    if records.len() == 0 {
        Seq::empty()
    } else {
        seq![SENTINEL] + log_body(records[0]) + encode_log_records(
            records.subrange(1, records.len() as int),
        )
    }
}

/// A record that a log frame can carry: a level of one hex digit and a
/// message whose bytes hold no sentinel.
pub open spec fn loggable(r: LogRecord) -> bool {
    r.level < 16 && !encode_utf8(r.message).contains(SENTINEL)
}

pub open spec fn all_loggable(records: Seq<LogRecord>) -> bool {
    forall|i: int| 0 <= i < records.len() ==> loggable(#[trigger] records[i])
}

pub open spec fn sentinel_free(s: Seq<u8>) -> bool {
    !s.contains(SENTINEL)
}

proof fn lemma_hex_digits_shape(v: nat, n: nat)
    ensures
        hex_digits(v, n).len() == n,
        forall|i: int| 0 <= i < n ==> is_hex_digit(#[trigger] hex_digits(v, n)[i]),
    decreases n,
{
    if n > 0 {
        lemma_hex_digits_shape(v / 16, (n - 1) as nat);
    }
}

proof fn lemma_hex_digits_value(v: nat, n: nat)
    ensures
        hex_value(hex_digits(v, n)) == v % pow16(n),
    decreases n,
{
    if n == 0 {
    } else {
        let d = hex_digits(v, n);
        lemma_hex_digits_value(v / 16, (n - 1) as nat);
        assert(d.drop_last() =~= hex_digits(v / 16, (n - 1) as nat));
        lemma_pow16_positive((n - 1) as nat);
        lemma_breakdown(v as int, 16, pow16((n - 1) as nat) as int);
    }
}

proof fn lemma_pow16_positive(n: nat)
    ensures
        pow16(n) > 0,
    decreases n,
{
    if n > 0 {
        lemma_pow16_positive((n - 1) as nat);
    }
}

pub proof fn lemma_pow16_values()
    ensures
        pow16(15) == 0x1000_0000_0000_0000,
        pow16(16) == 0x1_0000_0000_0000_0000,
{
    reveal_with_fuel(pow16, 17);
}

/// The header positions `q + j .. q + 17` all hold hex digits: no fault.
proof fn lemma_header_clean(s: Seq<u8>, q: int, j: int)
    requires
        0 <= j <= 17,
        0 <= q,
        q + 17 <= s.len(),
        forall|k: int| j <= k < 17 ==> is_hex_digit(#[trigger] s[q + k]),
    ensures
        header_fault(s, q, j) == None::<DecodeFault>,
    decreases 17 - j,
{
    if j < 17 {
        lemma_header_clean(s, q, j + 1);
    }
}

/// A run without sentinels from `from` up to `to`, where the data ends or a
/// sentinel stands, ends the search at `to`.
proof fn lemma_next_sentinel_at(s: Seq<u8>, from: int, to: int)
    requires
        0 <= from <= to <= s.len(),
        forall|k: int| from <= k < to ==> s[k] != SENTINEL,
        to == s.len() || s[to] == SENTINEL,
    ensures
        next_sentinel(s, from) == to,
    decreases to - from,
{
    if from < to {
        lemma_next_sentinel_at(s, from + 1, to);
    }
}

proof fn lemma_body_sentinel_free(r: LogRecord)
    requires
        loggable(r),
    ensures
        sentinel_free(log_body(r)),
        log_body(r).len() == 17 + encode_utf8(r.message).len(),
{
    lemma_hex_digits_shape(r.timestamp as nat, 16);
    let b = log_body(r);
    let m = encode_utf8(r.message);
    if b.contains(SENTINEL) {
        let i = choose|i: int| 0 <= i < b.len() && b[i] == SENTINEL;
        if i < 16 {
            assert(is_hex_digit(hex_digits(r.timestamp as nat, 16)[i]));
        } else if i == 16 {
        } else {
            assert(m[i - 17] == b[i]);
        }
    }
}

/// Decoding at `q`, just after a sentinel, reads back every record whose
/// frames follow.
proof fn lemma_logs_from_encoded(prefix: Seq<u8>, records: Seq<LogRecord>)
    requires
        records.len() > 0,
        all_loggable(records),
    ensures
        logs_from(prefix + encode_log_records(records), prefix.len() as int + 1) == Ok::<
            Seq<LogRecord>,
            DecodeFault,
        >(records),
    decreases records.len(),
{
    let r = records[0];
    let rest = records.subrange(1, records.len() as int);
    let body = log_body(r);
    let m = encode_utf8(r.message);
    let digits = hex_digits(r.timestamp as nat, 16);
    let s = prefix + encode_log_records(records);
    let q: int = prefix.len() as int + 1;
    assert(loggable(r));
    lemma_body_sentinel_free(r);
    lemma_hex_digits_shape(r.timestamp as nat, 16);
    assert(s =~= prefix + seq![SENTINEL] + body + encode_log_records(rest));
    assert forall|k: int| 0 <= k < 17 implies is_hex_digit(#[trigger] s[q + k]) by {
        assert(s[q + k] == body[k]);
        if k < 16 {
            assert(body[k] == digits[k]);
        }
    }
    lemma_header_clean(s, q, 0);
    let end: int = q + body.len();
    assert forall|k: int| q + 17 <= k < end implies s[k] != SENTINEL by {
        assert(s[k] == body[k - q]);
        assert(body.contains(SENTINEL) ==> false);
        if s[k] == SENTINEL {
            assert(body[k - q] == SENTINEL);
        }
    }
    if rest.len() > 0 {
        assert(encode_log_records(rest)[0] == SENTINEL);
        assert(s[end] == encode_log_records(rest)[0]);
    } else {
        assert(encode_log_records(rest) =~= Seq::<u8>::empty());
    }
    lemma_next_sentinel_at(s, q + 17, end);
    assert(s.subrange(q + 17, end) =~= m);
    assert(s.subrange(q, q + 16) =~= digits);
    encode_utf8_valid_utf8(r.message);
    encode_utf8_decode_utf8(r.message);
    lemma_hex_digits_value(r.timestamp as nat, 16);
    lemma_pow16_values();
    assert(s[q + 16] == hex_char(r.level as nat));
    let decoded = LogRecord {
        timestamp: hex_value(s.subrange(q, q + 16)) as u64,
        level: hex_digit_value(s[q + 16]) as u8,
        message: decode_utf8(s.subrange(q + 17, end)),
    };
    assert(decoded == r);
    if rest.len() > 0 {
        let prefix2 = prefix + seq![SENTINEL] + body;
        lemma_logs_from_encoded(prefix2, rest);
        assert(prefix2 + encode_log_records(rest) =~= s);
        assert(seq![r] + rest =~= records);
    } else {
        assert(seq![r] =~= records);
    }
}

/// Log lines written one after another into an empty ring that holds them
/// all decode to exactly those lines, in order.
pub proof fn law_log_round_trip(records: Seq<LogRecord>, capacity: nat)
    requires
        all_loggable(records),
        encode_log_records(records).len() <= capacity,
    ensures
        decode_logs(keep_last(encode_log_records(records), capacity)) == Ok::<
            Seq<LogRecord>,
            DecodeFault,
        >(records),
{
    law_truncated_remnant_skipped(Seq::empty(), records);
    assert(Seq::<u8>::empty() + encode_log_records(records) =~= encode_log_records(records));
}

/// Bytes without a sentinel before whole log frames, such as the remnant of a
/// frame whose start was evicted, are skipped: the frames decode without
/// error.
pub proof fn law_truncated_remnant_skipped(remnant: Seq<u8>, records: Seq<LogRecord>)
    requires
        sentinel_free(remnant),
        all_loggable(records),
    ensures
        decode_logs(remnant + encode_log_records(records)) == Ok::<Seq<LogRecord>, DecodeFault>(
            records,
        ),
{
    let s = remnant + encode_log_records(records);
    if records.len() == 0 {
        assert(records =~= Seq::<LogRecord>::empty());
        assert(s =~= remnant);
        assert forall|k: int| 0 <= k < s.len() implies s[k] != SENTINEL by {
            if s[k] == SENTINEL {
                assert(remnant[k] == SENTINEL);
            }
        }
        lemma_next_sentinel_at(s, 0, s.len() as int);
    } else {
        assert forall|k: int| 0 <= k < remnant.len() implies s[k] != SENTINEL by {
            if s[k] == SENTINEL {
                assert(remnant[k] == SENTINEL);
            }
        }
        assert(s[remnant.len() as int] == SENTINEL);
        lemma_next_sentinel_at(s, 0, remnant.len() as int);
        lemma_logs_from_encoded(remnant, records);
    }
}

proof fn lemma_evicted_shape(records: Seq<LogRecord>, n: nat) -> (k: int)
    requires
        all_loggable(records),
    ensures
        0 <= k <= records.len(),
        exists|remnant: Seq<u8>|
            sentinel_free(remnant) && keep_last(encode_log_records(records), n) == remnant
                + encode_log_records(#[trigger] records.subrange(k, records.len() as int)),
    decreases records.len(),
{
    let e = encode_log_records(records);
    if e.len() <= n {
        assert(records.subrange(0, records.len() as int) =~= records);
        assert(keep_last(e, n) =~= Seq::<u8>::empty() + e);
        assert(sentinel_free(Seq::<u8>::empty()));
        assert(keep_last(e, n) == Seq::<u8>::empty() + encode_log_records(
            records.subrange(0, records.len() as int),
        ));
        0
    } else {
        let r = records[0];
        let rest = records.subrange(1, records.len() as int);
        let er = encode_log_records(rest);
        let frame = seq![SENTINEL] + log_body(r);
        assert(e =~= frame + er);
        assert(all_loggable(rest)) by {
            assert forall|i: int| 0 <= i < rest.len() implies loggable(#[trigger] rest[i]) by {
                assert(rest[i] == records[i + 1]);
            }
        }
        if n <= er.len() {
            let k1 = lemma_evicted_shape(rest, n);
            assert(keep_last(e, n) =~= keep_last(er, n));
            assert(rest.subrange(k1, rest.len() as int) =~= records.subrange(
                k1 + 1,
                records.len() as int,
            ));
            let remnant = choose|remnant: Seq<u8>|
                sentinel_free(remnant) && keep_last(er, n) == remnant + encode_log_records(
                    #[trigger] rest.subrange(k1, rest.len() as int),
                );
            assert(keep_last(e, n) == remnant + encode_log_records(
                records.subrange(k1 + 1, records.len() as int),
            ));
            k1 + 1
        } else {
            assert(loggable(r));
            lemma_body_sentinel_free(r);
            let remnant = frame.subrange(e.len() - n, frame.len() as int);
            assert(keep_last(e, n) =~= remnant + er);
            assert(sentinel_free(remnant)) by {
                if remnant.contains(SENTINEL) {
                    let i = choose|i: int| 0 <= i < remnant.len() && remnant[i] == SENTINEL;
                    assert(log_body(r)[e.len() - n + i - 1] == remnant[i]);
                }
            }
            assert(records.subrange(1, records.len() as int) == rest);
            assert(keep_last(e, n) == remnant + encode_log_records(
                records.subrange(1, records.len() as int),
            ));
            1
        }
    }
}

/// Whatever a ring of any capacity kept of whole log frames decodes without
/// error to the most recent of their records, in order.
pub proof fn law_evicted_logs_decode_to_tail(records: Seq<LogRecord>, capacity: nat)
    requires
        all_loggable(records),
    ensures
        exists|k: int|
            0 <= k <= records.len() && decode_logs(keep_last(encode_log_records(records), capacity))
                == Ok::<Seq<LogRecord>, DecodeFault>(
                #[trigger] records.subrange(k, records.len() as int),
            ),
{
    let k = lemma_evicted_shape(records, capacity);
    let tail = records.subrange(k, records.len() as int);
    let remnant = choose|remnant: Seq<u8>|
        sentinel_free(remnant) && keep_last(encode_log_records(records), capacity) == remnant
            + encode_log_records(#[trigger] records.subrange(k, records.len() as int));
    assert(all_loggable(tail)) by {
        assert forall|i: int| 0 <= i < tail.len() implies loggable(#[trigger] tail[i]) by {
            assert(tail[i] == records[k + i]);
        }
    }
    law_truncated_remnant_skipped(remnant, tail);
}


proof fn lemma_encode_push(records: Seq<LogRecord>, r: LogRecord)
    ensures
        encode_log_records(records.push(r)) == encode_log_records(records) + seq![SENTINEL]
            + log_body(r),
    decreases records.len(),
{
    let all = records.push(r);
    if records.len() == 0 {
        assert(all.subrange(1, all.len() as int) =~= Seq::<LogRecord>::empty());
        assert(encode_log_records(all.subrange(1, all.len() as int)) =~= Seq::<u8>::empty());
        assert(all[0] == r);
        assert(encode_log_records(all) =~= seq![SENTINEL] + log_body(r));
        assert(encode_log_records(records) =~= Seq::<u8>::empty());
        assert(encode_log_records(all) =~= encode_log_records(records) + seq![SENTINEL] + log_body(
            r,
        ));
    } else {
        let rest = records.subrange(1, records.len() as int);
        lemma_encode_push(rest, r);
        assert(all.subrange(1, all.len() as int) =~= rest.push(r));
        assert(all[0] == records[0]);
        assert(encode_log_records(all) =~= encode_log_records(records) + seq![SENTINEL] + log_body(
            r,
        ));
    }
}

/// Writing the log frame of one more record into a ring that holds what it
/// kept of earlier frames leaves what it would keep of all the frames.
pub proof fn law_log_writes_concatenate(earlier: Seq<LogRecord>, r: LogRecord, capacity: nat)
    ensures
        keep_last(
            keep_last(encode_log_records(earlier), capacity) + log_frame(
                r.timestamp,
                r.level,
                encode_utf8(r.message),
            ),
            capacity,
        ) == keep_last(encode_log_records(earlier.push(r)), capacity),
{
    lemma_encode_push(earlier, r);
    crate::ring::lemma_keep_last_append(
        encode_log_records(earlier),
        log_frame(r.timestamp, r.level, encode_utf8(r.message)),
        capacity,
    );
    assert(encode_log_records(earlier) + log_frame(r.timestamp, r.level, encode_utf8(r.message))
        =~= encode_log_records(earlier) + seq![SENTINEL] + log_body(r));
}


/// The trace frames of `messages`, one after another.
pub open spec fn encode_trace_messages(messages: Seq<Seq<char>>) -> Seq<u8>
    decreases messages.len(),
{
    if messages.len() == 0 {
        Seq::empty()
    } else {
        seq![SENTINEL] + encode_utf8(messages[0]) + encode_trace_messages(
            messages.subrange(1, messages.len() as int),
        )
    }
}

pub open spec fn all_traceable(messages: Seq<Seq<char>>) -> bool {
    forall|i: int| 0 <= i < messages.len() ==> sentinel_free(encode_utf8(#[trigger] messages[i]))
}

proof fn lemma_traces_from_encoded(prefix: Seq<u8>, messages: Seq<Seq<char>>)
    requires
        messages.len() > 0,
        all_traceable(messages),
    ensures
        traces_from(prefix + encode_trace_messages(messages), prefix.len() as int + 1) == Ok::<
            Seq<Seq<char>>,
            DecodeFault,
        >(messages),
    decreases messages.len(),
{
    let m = messages[0];
    let rest = messages.subrange(1, messages.len() as int);
    let bytes = encode_utf8(m);
    let s = prefix + encode_trace_messages(messages);
    let q: int = prefix.len() as int + 1;
    assert(sentinel_free(bytes));
    assert(s =~= prefix + seq![SENTINEL] + bytes + encode_trace_messages(rest));
    let end: int = q + bytes.len();
    assert forall|k: int| q <= k < end implies s[k] != SENTINEL by {
        assert(s[k] == bytes[k - q]);
        if s[k] == SENTINEL {
            assert(bytes.contains(SENTINEL));
        }
    }
    if rest.len() > 0 {
        assert(s[end] == encode_trace_messages(rest)[0]);
    } else {
        assert(encode_trace_messages(rest) =~= Seq::<u8>::empty());
    }
    lemma_next_sentinel_at(s, q, end);
    assert(s.subrange(q, end) =~= bytes);
    encode_utf8_valid_utf8(m);
    encode_utf8_decode_utf8(m);
    if rest.len() > 0 {
        let prefix2 = prefix + seq![SENTINEL] + bytes;
        assert(all_traceable(rest)) by {
            assert forall|i: int| 0 <= i < rest.len() implies sentinel_free(
                encode_utf8(#[trigger] rest[i]),
            ) by {
                assert(rest[i] == messages[i + 1]);
            }
        }
        lemma_traces_from_encoded(prefix2, rest);
        assert(prefix2 + encode_trace_messages(rest) =~= s);
        assert(seq![m] + rest =~= messages);
    } else {
        assert(seq![m] =~= messages);
    }
}

/// Bytes without a sentinel before whole trace frames, such as the remnant
/// of an evicted frame, are skipped: the frames decode to their messages.
pub proof fn law_trace_frames_decode(remnant: Seq<u8>, messages: Seq<Seq<char>>)
    requires
        sentinel_free(remnant),
        all_traceable(messages),
    ensures
        decode_traces(remnant + encode_trace_messages(messages)) == Ok::<
            Seq<Seq<char>>,
            DecodeFault,
        >(messages),
{
    let s = remnant + encode_trace_messages(messages);
    assert forall|k: int| 0 <= k < remnant.len() implies s[k] != SENTINEL by {
        if s[k] == SENTINEL {
            assert(remnant[k] == SENTINEL);
        }
    }
    if messages.len() == 0 {
        assert(messages =~= Seq::<Seq<char>>::empty());
        assert(s =~= remnant);
        lemma_next_sentinel_at(s, 0, s.len() as int);
    } else {
        assert(s[remnant.len() as int] == SENTINEL);
        lemma_next_sentinel_at(s, 0, remnant.len() as int);
        lemma_traces_from_encoded(remnant, messages);
    }
}

} // verus!
