//! The inverse direction, at the specification level only: what a sequence of
//! byte slices looks like on the wire as a chunked body, and the proof that
//! decoding such a body gives the slices' concatenation back.

use vstd::prelude::*;
use crate::hex::is_hex_digit;
use crate::hex::hex_digit_value;
use crate::hex::all_hex_digits;
use crate::hex::hex_value;
use crate::machine::CR;
use crate::machine::LF;
use crate::machine::SizeLine;
use crate::machine::DecodeOutcome;
use crate::machine::size_line;
use crate::machine::crlf_error_at;
use crate::machine::find_cr;
use crate::machine::decode_rest;
use crate::machine::chunk_data_rest;
use crate::machine::lemma_find_cr_at;

verus! {

/// The byte spelling digit `d` in lowercase hexadecimal.
pub open spec fn hex_digit_ascii(d: nat) -> u8
    recommends
        d < 16,
{
    if d < 10 {
        (48 + d) as u8
    } else {
        (87 + d) as u8
    }
}

/// The minimal hexadecimal spelling of `n`, most significant digit first.
pub open spec fn hex_repr(n: nat) -> Seq<u8>
    decreases n,
{
    if n < 16 {
        seq![hex_digit_ascii(n)]
    } else {
        hex_repr(n / 16).push(hex_digit_ascii(n % 16))
    }
}

/// One nonempty chunk on the wire: size line, data bytes, trailing CRLF.
pub open spec fn encode_chunk(data: Seq<u8>) -> Seq<u8> {
    hex_repr(data.len()) + seq![CR, LF] + data + seq![CR, LF]
}

/// The terminal zero-size chunk together with its final CRLF.
pub open spec fn terminal_chunk() -> Seq<u8> {
    seq![48u8, CR, LF, CR, LF]
}

/// A whole chunked body carrying the given slices; an empty slice adds no
/// chunk, since a zero size line would end the body early.
pub open spec fn encode_chunks(chunks: Seq<Seq<u8>>) -> Seq<u8>
    decreases chunks.len(),
{
    if chunks.len() == 0 {
        terminal_chunk()
    } else if chunks[0].len() == 0 {
        encode_chunks(chunks.skip(1))
    } else {
        encode_chunk(chunks[0]) + encode_chunks(chunks.skip(1))
    }
}

/// A spelling consists of hexadecimal digits, so it holds no `\r` or `\n`.
proof fn lemma_hex_repr_digits(n: nat)
    ensures
        hex_repr(n).len() >= 1,
        all_hex_digits(hex_repr(n)),
    decreases n,
{
    if n < 16 {
        assert(is_hex_digit(hex_repr(n)[0]));
    } else {
        lemma_hex_repr_digits(n / 16);
        assert forall|i: int| 0 <= i < hex_repr(n).len() implies is_hex_digit(
            #[trigger] hex_repr(n)[i],
        ) by {
            if i < hex_repr(n / 16).len() {
                assert(hex_repr(n)[i] == hex_repr(n / 16)[i]);
            } else {
                assert(hex_repr(n)[i] == hex_digit_ascii(n % 16));
            }
        }
    }
}

/// A spelling reads back as the number it spells.
proof fn lemma_hex_repr_value(n: nat)
    ensures
        hex_value(hex_repr(n)) == n,
    decreases n,
{
    if n < 16 {
        reveal_with_fuel(hex_value, 2);
        let t = hex_repr(n);
        assert(t.drop_last() =~= Seq::<u8>::empty());
        assert(hex_value(t) == hex_digit_value(hex_digit_ascii(n)));
    } else {
        lemma_hex_repr_value(n / 16);
        let t = hex_repr(n);
        assert(t.drop_last() =~= hex_repr(n / 16));
        assert(t.last() == hex_digit_ascii(n % 16));
        assert(hex_value(t) == (n / 16) * 16 + (n % 16));
        assert((n / 16) * 16 + (n % 16) == n) by (nonlinear_arith);
    }
}

/// Law: encoding any sequence of slices as a chunked body and then decoding
/// that body yields exactly the slices' concatenation. Sizes must fit the
/// machine, as every decodable chunk's size must.
pub proof fn lemma_encode_decode_round_trip(chunks: Seq<Seq<u8>>)
    requires
        forall|i: int| 0 <= i < chunks.len() ==> (#[trigger] chunks[i]).len() <= usize::MAX,
    ensures
        decode_rest(encode_chunks(chunks)) == (DecodeOutcome::Decoded { data: chunks.flatten() }),
    decreases chunks.len(),
{
    if chunks.len() == 0 {
        reveal_with_fuel(hex_value, 2);
        let s = terminal_chunk();
        assert(s[0] != CR && s[1] == CR);
        lemma_find_cr_at(s, 0, 1);
        assert(s.take(1) =~= seq![48u8]);
        assert(s.take(1).drop_last() =~= Seq::<u8>::empty());
        assert(hex_value(s.take(1)) == 0);
        assert(all_hex_digits(s.take(1)));
        assert(size_line(s) == (SizeLine::Parsed { size: 0, end: 3 }));
        assert(crlf_error_at(s, 3) is None);
        assert(chunks.flatten() =~= Seq::<u8>::empty());
    } else if chunks[0].len() == 0 {
        lemma_round_trip_tail(chunks);
        lemma_encode_decode_round_trip(chunks.skip(1));
        assert(chunks.flatten() =~= chunks.skip(1).flatten()) by {
            assert(chunks.drop_first() =~= chunks.skip(1));
            assert(chunks.flatten() == chunks.first() + chunks.drop_first().flatten());
            assert(chunks.first() + chunks.skip(1).flatten() =~= chunks.skip(1).flatten());
        }
    } else {
        lemma_round_trip_tail(chunks);
        lemma_encode_decode_round_trip(chunks.skip(1));
        let c = chunks[0];
        let len: nat = c.len();
        let hr = hex_repr(len);
        let h = hr.len() as int;
        let s = encode_chunks(chunks);
        let tail = encode_chunks(chunks.skip(1));
        lemma_hex_repr_digits(len);
        lemma_hex_repr_value(len);
        assert(s =~= hr + seq![CR, LF] + c + seq![CR, LF] + tail);
        assert(tail.len() >= 5) by {
            lemma_encode_len(chunks.skip(1));
        }
        assert forall|k: int| 0 <= k < h implies s[k] != CR by {
            assert(s[k] == hr[k]);
            assert(is_hex_digit(hr[k]));
        }
        assert(s[h] == CR && s[h + 1] == LF);
        lemma_find_cr_at(s, 0, h);
        assert(s.take(h) =~= hr);
        assert(size_line(s) == (SizeLine::Parsed { size: len, end: h + 2 }));
        let t = s.skip(h + 2);
        assert(t =~= c + seq![CR, LF] + tail);
        assert(decode_rest(s) == chunk_data_rest(t, len));
        assert(t[len as int] == CR && t[len as int + 1] == LF);
        assert(crlf_error_at(t, len as int) is None);
        assert(t.skip(len as int + 2) =~= tail);
        assert(t.take(len as int) =~= c);
        assert(chunks.flatten() =~= c + chunks.skip(1).flatten()) by {
            assert(chunks.drop_first() =~= chunks.skip(1));
            assert(chunks.flatten() == chunks.first() + chunks.drop_first().flatten());
        }
    }
}

/// The tail of a slice sequence keeps every slice within the machine's sizes.
proof fn lemma_round_trip_tail(chunks: Seq<Seq<u8>>)
    requires
        chunks.len() >= 1,
        forall|i: int| 0 <= i < chunks.len() ==> (#[trigger] chunks[i]).len() <= usize::MAX,
    ensures
        forall|i: int| 0 <= i < chunks.skip(1).len() ==> (#[trigger] chunks.skip(1)[i]).len()
            <= usize::MAX,
{
    assert forall|i: int| 0 <= i < chunks.skip(1).len() implies (#[trigger] chunks.skip(
        1,
    )[i]).len() <= usize::MAX by {
        assert(chunks.skip(1)[i] == chunks[i + 1]);
    }
}

/// An encoded body is never shorter than the terminal chunk alone.
proof fn lemma_encode_len(chunks: Seq<Seq<u8>>)
    ensures
        encode_chunks(chunks).len() >= 5,
    decreases chunks.len(),
{
    if chunks.len() == 0 {
    } else if chunks[0].len() == 0 {
        lemma_encode_len(chunks.skip(1));
    } else {
        lemma_encode_len(chunks.skip(1));
        lemma_hex_repr_digits(chunks[0].len());
    }
}

} // verus!
