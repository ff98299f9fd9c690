//! The executable decoder: a streaming read over an in-memory encoded source.

use vstd::prelude::*;
use crate::hex::all_hex_digits;
use crate::hex::hex_value;
use crate::hex::is_hex_digit;
use crate::hex::hex_digit_value;
use crate::hex::lemma_hex_value_step;
use crate::hex::lemma_hex_value_prefix_le;
use crate::machine::CR;
use crate::machine::LF;
use crate::machine::DecoderError;
use crate::machine::DecoderState;
use crate::machine::SizeLine;
use crate::machine::ReadStep;
use crate::machine::size_line;
use crate::machine::data_step;
use crate::machine::read_step;
use crate::machine::min_nat;
use crate::machine::state_wf;
use crate::machine::crlf_error_at;
use crate::machine::lemma_data_step_consumed;
use crate::machine::lemma_size_line_bounds;
use crate::machine::DecodeOutcome;
use crate::machine::decode_rest;
use crate::machine::pending;
use crate::machine::lemma_read_step_drains;
use crate::machine::lemma_find_cr_at;
use crate::machine::lemma_find_cr_none;

verus! {

/// Reads HTTP chunks out of an encoded source and hands back the data bytes.
pub struct Decoder {
    // where the chunks come from
    source: Vec<u8>,
    // how much of it has been consumed
    pos: usize,
    // whether the next bytes are a size line, chunk data, or nothing
    state: DecoderState,
}

/// The decoder as the contracts see it: the source bytes not yet consumed,
/// and the framing state.
#[verifier::ext_equal]
pub struct DecoderView {
    /// The suffix of the source that has not been consumed.
    pub rest: Seq<u8>,
    /// The framing state.
    pub state: DecoderState,
}

impl View for Decoder {
    type V = DecoderView;

    closed spec fn view(&self) -> DecoderView {
        DecoderView { rest: self.source@.skip(self.pos as int), state: self.state }
    }
}

impl Decoder {
    /// The decoder's cursor stands inside its source and a chunk in progress
    /// has data left.
    pub closed spec fn wf(&self) -> bool {
        self.pos <= self.source@.len() && state_wf(self@.state)
    }

    /// A well-formed decoder has a well-formed state.
    pub proof fn lemma_wf_state(&self)
        requires
            self.wf(),
        ensures
            state_wf(self@.state),
    {
    }

    /// Wraps an encoded source; the decoder starts ahead of the first size line.
    pub fn new(source: Vec<u8>) -> (d: Decoder)
        ensures
            d@.rest == source@,
            d@.state == DecoderState::AwaitingSize,
            d.wf(),
    {
        let d = Decoder { source, pos: 0, state: DecoderState::AwaitingSize };
        proof {
            assert(d@.rest =~= d.source@);
        }
        d
    }

    // Parses the chunk-size line at the cursor: bytes up to the first `\r`
    // form the hexadecimal size token, and `\n` must follow the `\r`.
    #[verifier::loop_isolation(false)]
    fn read_chunk_size(&mut self) -> (r: Result<usize, DecoderError>)
        requires
            old(self).wf(),
        ensures
            final(self).wf(),
            final(self)@.state == old(self)@.state,
            match size_line(old(self)@.rest) {
                SizeLine::Parsed { size, end } => r matches Ok(v) && v == size
                    && final(self)@.rest == old(self)@.rest.skip(end),
                SizeLine::Bad { kind } => r matches Err(e) && e == kind
                    && final(self)@.rest == old(self)@.rest,
            },
    {
        let ghost t = self@.rest;
        let len = self.source.len();
        let start = self.pos;
        let mut i = start;
        while i < len && self.source[i] != CR
            invariant
                start <= i <= len,
                len == self.source@.len(),
                start == self.pos,
                self == old(self),
                forall|k: int| start <= k < i ==> self.source@[k] != CR,
            decreases len - i,
        {
            i = i + 1;
        }
        proof {
            assert(t =~= self.source@.subrange(start as int, len as int));
            assert forall|k: int| 0 <= k < i - start implies t[k] != CR by {
                assert(t[k] == self.source@[start + k]);
            }
        }
        if i == len {
            // the size line never ends
            proof {
                lemma_find_cr_none(t, 0);
            }
            return Err(DecoderError::UnexpectedEndOfSource);
        }
        let ghost ci = i - start;
        proof {
            assert(t[ci] == self.source@[i as int]);
            lemma_find_cr_at(t, 0, ci);
        }
        if i + 1 == len {
            // the `\r` is the last source byte, so no `\n` can follow
            return Err(DecoderError::UnexpectedEndOfSource);
        }
        proof {
            assert(t[ci + 1] == self.source@[i + 1]);
        }
        if self.source[i + 1] != LF {
            return Err(DecoderError::MalformedChunkSize);
        }
        let ghost tok = t.take(ci);
        if i == start {
            // empty size token
            return Err(DecoderError::MalformedChunkSize);
        }
        let mut acc: usize = 0;
        let mut j = start;
        while j < i
            invariant
                start <= j <= i < len,
                len == self.source@.len(),
                start == self.pos,
                self == old(self),
                t == self.source@.subrange(start as int, len as int),
                tok == t.take(ci),
                ci == i - start,
                all_hex_digits(tok.take(j - start)),
                acc == hex_value(tok.take(j - start)),
            decreases i - j,
        {
            let b = self.source[j];
            let ghost k = j - start;
            proof {
                assert(tok[k] == self.source@[j as int]);
            }
            let d: usize;
            if 48 <= b && b <= 57 {
                d = (b - 48) as usize;
            } else if 65 <= b && b <= 70 {
                d = (b - 55) as usize;
            } else if 97 <= b && b <= 102 {
                d = (b - 87) as usize;
            } else {
                // a byte of the size token is not a hexadecimal digit
                proof {
                    assert(!is_hex_digit(tok[k]));
                }
                return Err(DecoderError::MalformedChunkSize);
            }
            proof {
                assert(is_hex_digit(tok[k]) && d == hex_digit_value(tok[k]));
                lemma_hex_value_step(tok, k);
            }
            if acc > (usize::MAX - d) / 16 {
                // the size does not fit in `usize`
                proof {
                    let m = (usize::MAX - d) as int;
                    assert(16 * (m / 16) > m - 16) by (nonlinear_arith)
                        requires
                            m >= 0,
                    ;
                    assert(16 * acc > m);
                    assert(hex_value(tok.take(k + 1)) > usize::MAX as nat);
                    lemma_hex_value_prefix_le(tok, k + 1);
                }
                return Err(DecoderError::MalformedChunkSize);
            }
            proof {
                let m = (usize::MAX - d) as int;
                assert(16 * (m / 16) <= m) by (nonlinear_arith)
                    requires
                        m >= 0,
                ;
                assert(16 * acc <= m);
            }
            acc = acc * 16 + d;
            j = j + 1;
        }
        proof {
            assert(tok.take(ci) =~= tok);
            assert(size_line(t) == (SizeLine::Parsed { size: acc as nat, end: ci + 2 }));
        }
        self.pos = i + 2;
        proof {
            assert(self@.rest =~= t.skip(ci + 2));
        }
        Ok(acc)
    }

    // Pulls chunk data into the front of `buf`: at most `buf.len()` bytes, at
    // most `remaining`, and at most what the source still has. A pull that
    // finishes the chunk also consumes the chunk's trailing CRLF.
    #[verifier::loop_isolation(false)]
    fn read_within_chunk(&mut self, buf: &mut Vec<u8>, remaining: usize) -> (r: Result<
        usize,
        DecoderError,
    >)
        requires
            old(self).wf(),
            old(self)@.state == (DecoderState::AwaitingData { remaining }),
            remaining >= 1,
            old(buf).len() >= 1,
        ensures
            final(self).wf(),
            final(buf)@.len() == old(buf)@.len(),
            match data_step(old(self)@.rest, remaining as nat, old(buf)@.len() as nat) {
                ReadStep::Bytes { data, consumed, next } => r matches Ok(n) && n == data.len()
                    && final(self)@.rest == old(self)@.rest.skip(consumed)
                    && final(self)@.state == next
                    && final(buf)@ == data + old(buf)@.skip(data.len() as int),
                ReadStep::Failed { kind } => r matches Err(e) && e == kind
                    && final(buf)@ == old(buf)@,
            },
    {
        let ghost t = self@.rest;
        let cap = buf.len();
        let len = self.source.len();
        let avail = len - self.pos;
        if avail == 0 {
            // the source ran out inside the chunk
            proof {
                assert(t.len() == 0);
            }
            return Err(DecoderError::UnexpectedEndOfSource);
        }
        let want: usize = if cap < remaining {
            cap
        } else {
            remaining
        };
        let n: usize = if want < avail {
            want
        } else {
            avail
        };
        proof {
            assert(n == min_nat(min_nat(cap as nat, remaining as nat), t.len() as nat));
        }
        let start = self.pos;
        if n == remaining {
            // the pull finishes the chunk: its CRLF must follow the data
            let q = start + remaining;
            if q == len {
                return Err(DecoderError::UnexpectedEndOfSource);
            }
            proof {
                assert(t[remaining as int] == self.source@[q as int]);
            }
            if self.source[q] != CR {
                return Err(DecoderError::MissingChunkTerminator);
            }
            if q + 1 == len {
                return Err(DecoderError::UnexpectedEndOfSource);
            }
            proof {
                assert(t[remaining as int + 1] == self.source@[q + 1]);
            }
            if self.source[q + 1] != LF {
                return Err(DecoderError::MissingChunkTerminator);
            }
            self.copy_out(buf, remaining);
            self.pos = q + 2;
            self.state = DecoderState::AwaitingSize;
            proof {
                assert(self@.rest =~= t.skip(remaining as int + 2));
                assert(buf@ =~= t.take(remaining as int) + old(buf)@.skip(remaining as int));
            }
            Ok(remaining)
        } else {
            // a partial pull: the chunk stays open
            self.copy_out(buf, n);
            self.pos = start + n;
            self.state = DecoderState::AwaitingData { remaining: remaining - n };
            proof {
                assert(self@.rest =~= t.skip(n as int));
                assert(buf@ =~= t.take(n as int) + old(buf)@.skip(n as int));
            }
            Ok(n)
        }
    }

    /// Copies decoded data bytes into the front of `buf` and says how many.
    ///
    /// `Ok(0)` means end of stream once the terminal chunk has been consumed.
    /// It is also returned, with nothing consumed, for a zero-capacity `buf`
    /// and on every further call after the terminal chunk. A call that starts
    /// on a size line with a nonzero size goes on to deliver data from that
    /// chunk in the same call. After an `Err` the stream is unusable.
    pub fn read(&mut self, buf: &mut Vec<u8>) -> (r: Result<usize, DecoderError>)
        requires
            old(self).wf(),
        ensures
            final(self).wf(),
            final(buf)@.len() == old(buf)@.len(),
            match read_step(old(self)@.rest, old(self)@.state, old(buf)@.len() as nat) {
                ReadStep::Bytes { data, consumed, next } => r matches Ok(n) && n == data.len()
                    && final(self)@.rest == old(self)@.rest.skip(consumed)
                    && final(self)@.state == next
                    && final(buf)@ == data + old(buf)@.skip(data.len() as int),
                ReadStep::Failed { kind } => r matches Err(e) && e == kind
                    && final(buf)@ == old(buf)@,
            },
    {
        let ghost s0 = self@.rest;
        if buf.len() == 0 {
            proof {
                assert(self@.rest =~= s0.skip(0));
                assert(buf@ =~= Seq::<u8>::empty() + buf@.skip(0));
            }
            return Ok(0);
        }
        match self.state {
            DecoderState::Done => {
                proof {
                    assert(self@.rest =~= s0.skip(0));
                    assert(buf@ =~= Seq::<u8>::empty() + buf@.skip(0));
                }
                Ok(0)
            },
            DecoderState::AwaitingData { remaining } => self.read_within_chunk(buf, remaining),
            DecoderState::AwaitingSize => {
                let size = match self.read_chunk_size() {
                    Ok(v) => v,
                    Err(e) => {
                        return Err(e);
                    },
                };
                let ghost end: int = match size_line(s0) {
                    SizeLine::Parsed { end, .. } => end,
                    SizeLine::Bad { .. } => 0,
                };
                let ghost mid = self@.rest;
                proof {
                    lemma_size_line_bounds(s0);
                    assert(mid == s0.skip(end));
                    assert(mid.len() == s0.len() - end);
                }
                if size == 0 {
                    // the terminal chunk: its own CRLF must follow at once
                    let len = self.source.len();
                    let p = self.pos;
                    proof {
                        assert(mid.len() == len - p);
                    }
                    if p == len {
                        return Err(DecoderError::UnexpectedEndOfSource);
                    }
                    proof {
                        assert(s0[end] == mid[0] && mid[0] == self.source@[p as int]);
                    }
                    if self.source[p] != CR {
                        return Err(DecoderError::MissingChunkTerminator);
                    }
                    if p + 1 == len {
                        return Err(DecoderError::UnexpectedEndOfSource);
                    }
                    proof {
                        assert(s0[end + 1] == mid[1] && mid[1] == self.source@[p + 1]);
                    }
                    if self.source[p + 1] != LF {
                        return Err(DecoderError::MissingChunkTerminator);
                    }
                    self.pos = p + 2;
                    self.state = DecoderState::Done;
                    proof {
                        assert(crlf_error_at(s0, end) is None);
                        assert(self@.rest =~= mid.skip(2));
                        assert(mid.skip(2) =~= s0.skip(end + 2));
                        assert(buf@ =~= Seq::<u8>::empty() + buf@.skip(0));
                    }
                    Ok(0)
                } else {
                    self.state = DecoderState::AwaitingData { remaining: size };
                    let r = self.read_within_chunk(buf, size);
                    proof {
                        if let ReadStep::Bytes { data, consumed, next } = data_step(
                            mid,
                            size as nat,
                            buf@.len() as nat,
                        ) {
                            assert(0 <= consumed <= mid.len()) by {
                                lemma_data_step_consumed(mid, size as nat, buf@.len() as nat);
                            }
                            assert(mid.skip(consumed) =~= s0.skip(end + consumed));
                        }
                    }
                    r
                }
            },
        }
    }

    // Appends the first `n` delivered bytes of `buf` to `out`.
    #[verifier::loop_isolation(false)]
    fn append_prefix(out: &mut Vec<u8>, buf: &Vec<u8>, n: usize)
        requires
            n <= buf.len(),
        ensures
            final(out)@ == old(out)@ + buf@.take(n as int),
    {
        let mut k: usize = 0;
        while k < n
            invariant
                k <= n,
                out@ == old(out)@ + buf@.take(k as int),
            decreases n - k,
        {
            let b = buf[k];
            out.push(b);
            proof {
                assert(old(out)@ + buf@.take(k + 1) =~= (old(out)@ + buf@.take(k as int)).push(
                    buf@[k as int],
                ));
            }
            k = k + 1;
        }
    }

    // Copies the `n` source bytes at the cursor into the front of `buf`.
    #[verifier::loop_isolation(false)]
    fn copy_out(&self, buf: &mut Vec<u8>, n: usize)
        requires
            self.pos + n <= self.source@.len(),
            n <= old(buf).len(),
        ensures
            final(buf)@.len() == old(buf)@.len(),
            forall|k: int| 0 <= k < n ==> final(buf)@[k] == self.source@[self.pos + k],
            forall|k: int| n <= k < old(buf)@.len() ==> final(buf)@[k] == old(buf)@[k],
    {
        let slen = self.source.len();
        let mut k: usize = 0;
        while k < n
            invariant
                k <= n,
                buf@.len() == old(buf)@.len(),
                forall|j: int| 0 <= j < k ==> buf@[j] == self.source@[self.pos + j],
                forall|j: int| k <= j < old(buf)@.len() ==> buf@[j] == old(buf)@[j],
            decreases n - k,
        {
            let b = self.source[self.pos + k];
            buf[k] = b;
            k = k + 1;
        }
    }
}

/// Decodes a whole chunked body by reading `cap` bytes at a time until the
/// stream ends or fails. The contract speaks of the source bytes alone: the
/// decoded bytes, and the error on a malformed stream, never depend on `cap`.
#[verifier::loop_isolation(false)]
pub fn decode_all_with(source: Vec<u8>, cap: usize) -> (r: Result<Vec<u8>, DecoderError>)
    requires
        cap >= 1,
    ensures
        match decode_rest(source@) {
            DecodeOutcome::Decoded { data } => r matches Ok(v) && v@ == data,
            DecodeOutcome::Failed { kind } => r matches Err(e) && e == kind,
        },
{
    let ghost src = source@;
    let mut d = Decoder::new(source);
    let mut buf: Vec<u8> = vec![0u8; cap];
    let mut out: Vec<u8> = Vec::new();
    proof {
        assert(src.skip(0) =~= src);
        assert(match decode_rest(src) {
            DecodeOutcome::Decoded { data } => out@ =~= data.take(out@.len() as int),
            DecodeOutcome::Failed { .. } => true,
        });
    }
    loop
        invariant
            d.wf(),
            buf@.len() == cap as nat,
            match decode_rest(src) {
                DecodeOutcome::Decoded { data } => out@.len() <= data.len() && out@ == data.take(
                    out@.len() as int,
                ) && pending(d@.rest, d@.state) == (DecodeOutcome::Decoded {
                    data: data.skip(out@.len() as int),
                }),
                DecodeOutcome::Failed { kind } => pending(d@.rest, d@.state) == (
                DecodeOutcome::Failed { kind }),
            },
        decreases d@.rest.len(),
    {
        let ghost pre_rest = d@.rest;
        let ghost pre_state = d@.state;
        let ghost pre_out = out@;
        proof {
            d.lemma_wf_state();
            lemma_read_step_drains(pre_rest, pre_state, cap as nat);
        }
        match d.read(&mut buf) {
            Err(e) => {
                return Err(e);
            },
            Ok(n) => {
                if n == 0 {
                    proof {
                        if let DecodeOutcome::Decoded { data } = decode_rest(src) {
                            assert(data.skip(out@.len() as int).len() == 0);
                            assert(out@ =~= data);
                        }
                    }
                    return Ok(out);
                }
                Decoder::append_prefix(&mut out, &buf, n);
                proof {
                    if let ReadStep::Bytes { data, consumed, next } = read_step(
                        pre_rest,
                        pre_state,
                        cap as nat,
                    ) {
                        assert(buf@.take(n as int) =~= data);
                        if let DecodeOutcome::Decoded { data: full } = decode_rest(src) {
                            let pend = full.skip(pre_out.len() as int);
                            assert(out@ =~= full.take(out@.len() as int)) by {
                                assert(data == pend.take(n as int));
                                assert(out@ =~= pre_out + pend.take(n as int));
                            }
                            assert(pend.skip(n as int) =~= full.skip(out@.len() as int));
                        }
                    }
                }
            },
        }
    }
}

} // verus!
