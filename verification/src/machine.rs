//! The chunk-framing state machine, at the level of byte sequences: what one
//! read consumes and returns, and what a full drain of the stream yields.

use vstd::prelude::*;
use crate::hex::all_hex_digits;
use crate::hex::hex_value;

verus! {

/// Carriage return, the first byte of every line terminator.
pub const CR: u8 = 13;

/// Line feed, the second byte of every line terminator.
pub const LF: u8 = 10;

/// How decoding can fail.
#[derive(Clone, Copy, Debug, PartialEq, Eq, Structural)]
pub enum DecoderError {
    /// The chunk-size line is empty, holds a non-hexadecimal byte, denotes a
    /// number that does not fit in `usize`, or its `\r` is not followed by `\n`.
    MalformedChunkSize,
    /// The two bytes expected after a chunk's data, or after the terminal
    /// zero-size chunk, are present but are not `\r\n`.
    MissingChunkTerminator,
    /// The source ran out where more framing or data bytes were required.
    UnexpectedEndOfSource,
}

/// Where the decoder stands in the chunk framing.
#[derive(Clone, Copy, Debug, PartialEq, Eq, Structural)]
pub enum DecoderState {
    /// The next bytes of the source are a chunk-size line.
    AwaitingSize,
    /// Inside a chunk: `remaining` data bytes are still unread.
    AwaitingData { remaining: usize },
    /// The terminal chunk has been consumed; the stream has ended cleanly.
    Done,
}

/// A state is well formed when a chunk in progress has data left to read.
pub open spec fn state_wf(st: DecoderState) -> bool {
    st matches DecoderState::AwaitingData { remaining } ==> remaining >= 1
}

/// Index of the first carriage return at or after `i`, if any.
pub open spec fn find_cr(s: Seq<u8>, i: int) -> Option<int>
    decreases s.len() - i,
{
    if i < 0 || i >= s.len() {
        None
    } else if s[i] == CR {
        Some(i)
    } else {
        find_cr(s, i + 1)
    }
}

/// Where `find_cr` answers, it answers with the first carriage return.
pub proof fn lemma_find_cr_bounds(s: Seq<u8>, i: int)
    requires
        0 <= i <= s.len(),
    ensures
        match find_cr(s, i) {
            Some(j) => i <= j < s.len() && s[j] == CR && (forall|k: int|
                i <= k < j ==> s[k] != CR),
            None => forall|k: int| i <= k < s.len() ==> s[k] != CR,
        },
    decreases s.len() - i,
{
    if i < s.len() && s[i] != CR {
        lemma_find_cr_bounds(s, i + 1);
    }
}

/// Scanning finds the carriage return that is there to be found.
pub proof fn lemma_find_cr_at(s: Seq<u8>, i: int, j: int)
    requires
        0 <= i <= j < s.len(),
        s[j] == CR,
        forall|k: int| i <= k < j ==> s[k] != CR,
    ensures
        find_cr(s, i) == Some(j),
    decreases j - i,
{
    if i < j {
        lemma_find_cr_at(s, i + 1, j);
    }
}

/// No carriage return, no answer.
pub proof fn lemma_find_cr_none(s: Seq<u8>, i: int)
    requires
        0 <= i <= s.len(),
        forall|k: int| i <= k < s.len() ==> s[k] != CR,
    ensures
        find_cr(s, i) is None,
    decreases s.len() - i,
{
    if i < s.len() {
        lemma_find_cr_none(s, i + 1);
    }
}

/// What the chunk-size line at the head of `s` comes to.
#[verifier::ext_equal]
pub enum SizeLine {
    /// A size and the offset of the first byte after the line's CRLF.
    Parsed { size: nat, end: int },
    /// The line violates the framing.
    Bad { kind: DecoderError },
}

/// Parses the chunk-size line at the head of `s`: scan to the first `\r`,
/// require `\n` right after it, and read the token before it as hexadecimal.
pub open spec fn size_line(s: Seq<u8>) -> SizeLine {
    match find_cr(s, 0) {
        None => SizeLine::Bad { kind: DecoderError::UnexpectedEndOfSource },
        Some(i) => {
            if i + 1 >= s.len() {
                SizeLine::Bad { kind: DecoderError::UnexpectedEndOfSource }
            } else if s[i + 1] != LF {
                SizeLine::Bad { kind: DecoderError::MalformedChunkSize }
            } else if s.take(i).len() == 0 || !all_hex_digits(s.take(i)) || hex_value(s.take(i))
                > usize::MAX as nat {
                SizeLine::Bad { kind: DecoderError::MalformedChunkSize }
            } else {
                SizeLine::Parsed { size: hex_value(s.take(i)), end: i + 2 }
            }
        },
    }
}

/// Error, if any, in the two framing bytes expected at offset `q` of `s`.
pub open spec fn crlf_error_at(s: Seq<u8>, q: int) -> Option<DecoderError> {
    if q >= s.len() {
        Some(DecoderError::UnexpectedEndOfSource)
    } else if s[q] != CR {
        Some(DecoderError::MissingChunkTerminator)
    } else if q + 1 >= s.len() {
        Some(DecoderError::UnexpectedEndOfSource)
    } else if s[q + 1] != LF {
        Some(DecoderError::MissingChunkTerminator)
    } else {
        None
    }
}

/// A parsed size line ends inside the source and after its own two bytes.
pub proof fn lemma_size_line_bounds(s: Seq<u8>)
    ensures
        size_line(s) matches SizeLine::Parsed { size, end } ==> 2 <= end <= s.len() && size
            <= usize::MAX as nat,
{
    lemma_find_cr_bounds(s, 0);
}

/// What draining a chunked stream yields: its data, or the first framing error.
#[verifier::ext_equal]
pub enum DecodeOutcome {
    /// The stream is well formed up to its terminal chunk and carries `data`.
    Decoded { data: Seq<u8> },
    /// The first framing violation reached has this kind.
    Failed { kind: DecoderError },
}

/// Draining the chunked body at the head of `s`, starting on a size line.
pub open spec fn decode_rest(s: Seq<u8>) -> DecodeOutcome
    decreases s.len(), 1int,
    via decode_rest_decreases
{
    match size_line(s) {
        SizeLine::Bad { kind } => DecodeOutcome::Failed { kind },
        SizeLine::Parsed { size, end } => {
            if size == 0 {
                match crlf_error_at(s, end) {
                    Some(kind) => DecodeOutcome::Failed { kind },
                    None => DecodeOutcome::Decoded { data: Seq::empty() },
                }
            } else {
                chunk_data_rest(s.skip(end), size)
            }
        },
    }
}

#[via_fn]
proof fn decode_rest_decreases(s: Seq<u8>) {
    lemma_size_line_bounds(s);
}

/// Draining a stream whose head is the last `size` data bytes of a chunk,
/// followed by the chunk's CRLF and the rest of the body.
pub open spec fn chunk_data_rest(t: Seq<u8>, size: nat) -> DecodeOutcome
    decreases t.len(), 0int,
{
    match crlf_error_at(t, size as int) {
        Some(kind) => DecodeOutcome::Failed { kind },
        None => match decode_rest(t.skip(size as int + 2)) {
            DecodeOutcome::Decoded { data } => DecodeOutcome::Decoded {
                data: t.take(size as int) + data,
            },
            DecodeOutcome::Failed { kind } => DecodeOutcome::Failed { kind },
        },
    }
}

/// What a full drain from state `st` over remaining source `s` must yield.
pub open spec fn pending(s: Seq<u8>, st: DecoderState) -> DecodeOutcome {
    match st {
        DecoderState::Done => DecodeOutcome::Decoded { data: Seq::empty() },
        DecoderState::AwaitingSize => decode_rest(s),
        DecoderState::AwaitingData { remaining } => chunk_data_rest(s, remaining as nat),
    }
}

/// What a single read call consumes and returns.
#[verifier::ext_equal]
pub enum ReadStep {
    /// `data` is copied out, `consumed` source bytes are eaten, and the
    /// decoder moves to state `next`.
    Bytes { data: Seq<u8>, consumed: int, next: DecoderState },
    /// The read fails with this kind; nothing is copied out.
    Failed { kind: DecoderError },
}

/// The smaller of two lengths.
pub open spec fn min_nat(a: nat, b: nat) -> nat {
    if a <= b {
        a
    } else {
        b
    }
}

/// One data-phase read over suffix `t`, whose head is chunk data: `size`
/// bytes of the chunk are left and the caller's buffer holds `cap` bytes.
/// At most one pull from the source: the smaller of `cap`, `size` and what
/// the source still has. Only a pull that finishes the chunk consumes the
/// chunk's trailing CRLF.
pub open spec fn data_step(t: Seq<u8>, size: nat, cap: nat) -> ReadStep
    recommends
        size >= 1,
        cap >= 1,
{
    if t.len() == 0 {
        ReadStep::Failed { kind: DecoderError::UnexpectedEndOfSource }
    } else {
        let n = min_nat(min_nat(cap, size), t.len() as nat);
        if n == size {
            match crlf_error_at(t, size as int) {
                Some(kind) => ReadStep::Failed { kind },
                None => ReadStep::Bytes {
                    data: t.take(size as int),
                    consumed: size as int + 2,
                    next: DecoderState::AwaitingSize,
                },
            }
        } else {
            ReadStep::Bytes {
                data: t.take(n as int),
                consumed: n as int,
                next: DecoderState::AwaitingData { remaining: (size - n) as usize },
            }
        }
    }
}

/// A data-phase read that hands bytes out consumes no more than the source has.
pub proof fn lemma_data_step_consumed(t: Seq<u8>, size: nat, cap: nat)
    ensures
        data_step(t, size, cap) matches ReadStep::Bytes { consumed, .. } ==> 0 <= consumed
            <= t.len(),
{
}

/// One read call on remaining source `s` in state `st` with capacity `cap`.
/// A zero-capacity read and a read after the terminal chunk consume nothing.
/// A read that starts on a size line parses it and, for a nonzero size, goes
/// on to deliver data from the same call.
pub open spec fn read_step(s: Seq<u8>, st: DecoderState, cap: nat) -> ReadStep {
    if cap == 0 {
        ReadStep::Bytes { data: Seq::empty(), consumed: 0, next: st }
    } else {
        match st {
            DecoderState::Done => ReadStep::Bytes {
                data: Seq::empty(),
                consumed: 0,
                next: DecoderState::Done,
            },
            DecoderState::AwaitingData { remaining } => data_step(s, remaining as nat, cap),
            DecoderState::AwaitingSize => match size_line(s) {
                SizeLine::Bad { kind } => ReadStep::Failed { kind },
                SizeLine::Parsed { size, end } => {
                    if size == 0 {
                        match crlf_error_at(s, end) {
                            Some(kind) => ReadStep::Failed { kind },
                            None => ReadStep::Bytes {
                                data: Seq::empty(),
                                consumed: end + 2,
                                next: DecoderState::Done,
                            },
                        }
                    } else {
                        match data_step(s.skip(end), size, cap) {
                            ReadStep::Bytes { data, consumed, next } => ReadStep::Bytes {
                                data,
                                consumed: end + consumed,
                                next,
                            },
                            ReadStep::Failed { kind } => ReadStep::Failed { kind },
                        }
                    }
                },
            },
        }
    }
}

/// Skipping `n` delivered data bytes commutes with draining the chunk.
proof fn lemma_chunk_data_shift(t: Seq<u8>, size: nat, n: nat)
    requires
        1 <= n < size,
        n <= t.len(),
    ensures
        chunk_data_rest(t.skip(n as int), (size - n) as nat) == match chunk_data_rest(t, size) {
            DecodeOutcome::Decoded { data } => DecodeOutcome::Decoded { data: data.skip(n as int) },
            DecodeOutcome::Failed { kind } => DecodeOutcome::Failed { kind },
        },
{
    let u = t.skip(n as int);
    let m = (size - n) as nat;
    assert(u.len() == t.len() - n);
    assert(crlf_error_at(u, m as int) == crlf_error_at(t, size as int)) by {
        if (size as int) < t.len() {
            assert(u[m as int] == t[size as int]);
            if size as int + 1 < t.len() {
                assert(u[m as int + 1] == t[size as int + 1]);
            }
        }
    }
    if crlf_error_at(t, size as int) is None {
        assert(u.skip(m as int + 2) =~= t.skip(size as int + 2));
        match decode_rest(t.skip(size as int + 2)) {
            DecodeOutcome::Decoded { data } => {
                assert(u.take(m as int) + data =~= (t.take(size as int) + data).skip(n as int));
            },
            DecodeOutcome::Failed { .. } => {},
        }
    }
}

/// One data-phase read peels a prefix of what the chunk drain owes; the first
/// framing error, if one is owed, keeps its kind along the way.
proof fn lemma_data_step_drains(t: Seq<u8>, size: nat, cap: nat)
    requires
        1 <= size <= usize::MAX as nat,
        1 <= cap,
    ensures
        match chunk_data_rest(t, size) {
            DecodeOutcome::Decoded { data: out } => match data_step(t, size, cap) {
                ReadStep::Bytes { data, consumed, next } => data.len() <= cap && 1 <= data.len()
                    <= consumed <= t.len() && data.len() <= out.len() && data == out.take(
                    data.len() as int,
                ) && state_wf(next) && pending(t.skip(consumed), next) == (DecodeOutcome::Decoded {
                    data: out.skip(data.len() as int),
                }),
                ReadStep::Failed { .. } => false,
            },
            DecodeOutcome::Failed { kind } => match data_step(t, size, cap) {
                ReadStep::Bytes { data, consumed, next } => 1 <= data.len() && 1 <= consumed
                    <= t.len() && state_wf(next) && pending(t.skip(consumed), next) == (
                DecodeOutcome::Failed { kind }),
                ReadStep::Failed { kind: k } => k == kind,
            },
        },
{
    if t.len() == 0 {
        return ;
    }
    let n = min_nat(min_nat(cap, size), t.len() as nat);
    if n == size {
        match crlf_error_at(t, size as int) {
            Some(_) => {},
            None => {
                let u = t.skip(size as int + 2);
                match decode_rest(u) {
                    DecodeOutcome::Decoded { data } => {
                        let out = t.take(size as int) + data;
                        assert(t.take(size as int) =~= out.take(size as int));
                        assert(data =~= out.skip(size as int));
                    },
                    DecodeOutcome::Failed { .. } => {},
                }
            },
        }
    } else {
        assert(1 <= n < size);
        lemma_chunk_data_shift(t, size, n);
        match chunk_data_rest(t, size) {
            DecodeOutcome::Decoded { data: out } => {
                assert(crlf_error_at(t, size as int) is None);
                assert(t.len() > size);
                assert(t.take(n as int) =~= out.take(n as int));
            },
            DecodeOutcome::Failed { .. } => {},
        }
    }
}

/// Law: one read peels an exact prefix of what the drain owes, whatever the
/// buffer's capacity, and ends the stream exactly when nothing more is owed;
/// a stream that owes a framing error keeps owing that same error until a
/// read surfaces it.
pub proof fn lemma_read_step_drains(s: Seq<u8>, st: DecoderState, cap: nat)
    requires
        1 <= cap,
        state_wf(st),
    ensures
        match pending(s, st) {
            DecodeOutcome::Decoded { data: out } => match read_step(s, st, cap) {
                ReadStep::Bytes { data, consumed, next } => data.len() <= cap && data.len()
                    <= consumed <= s.len() && data.len() <= out.len() && data == out.take(
                    data.len() as int,
                ) && state_wf(next) && (data.len() == 0 ==> out.len() == 0 && next is Done) && (
                consumed == 0 ==> st is Done) && pending(s.skip(consumed), next) == (
                DecodeOutcome::Decoded { data: out.skip(data.len() as int) }),
                ReadStep::Failed { .. } => false,
            },
            DecodeOutcome::Failed { kind } => match read_step(s, st, cap) {
                ReadStep::Bytes { data, consumed, next } => 1 <= data.len() && 1 <= consumed
                    <= s.len() && state_wf(next) && pending(s.skip(consumed), next) == (
                DecodeOutcome::Failed { kind }),
                ReadStep::Failed { kind: k } => k == kind,
            },
        },
{
    match st {
        DecoderState::Done => {
            assert(s.skip(0) =~= s);
            assert(Seq::<u8>::empty().take(0) =~= Seq::<u8>::empty());
            assert(Seq::<u8>::empty().skip(0) =~= Seq::<u8>::empty());
        },
        DecoderState::AwaitingData { remaining } => {
            lemma_data_step_drains(s, remaining as nat, cap);
        },
        DecoderState::AwaitingSize => {
            lemma_size_line_bounds(s);
            match size_line(s) {
                SizeLine::Bad { .. } => {},
                SizeLine::Parsed { size, end } => {
                    if size == 0 {
                        match crlf_error_at(s, end) {
                            Some(_) => {},
                            None => {
                                assert(Seq::<u8>::empty().take(0) =~= Seq::<u8>::empty());
                                assert(Seq::<u8>::empty().skip(0) =~= Seq::<u8>::empty());
                            },
                        }
                    } else {
                        let t = s.skip(end);
                        lemma_data_step_drains(t, size, cap);
                        match data_step(t, size, cap) {
                            ReadStep::Bytes { data, consumed, next } => {
                                assert(s.skip(end + consumed) =~= t.skip(consumed));
                            },
                            ReadStep::Failed { .. } => {},
                        }
                    }
                },
            }
        },
    }
}

} // verus!
