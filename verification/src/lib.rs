//! Verified codecs for two Windows sliding-window compression formats: the
//! flat LZXPRESS format (compression and decompression) and the chunked LZNT1
//! format (decompression).  Every decoder is proved to compute exactly the
//! decode relation of its format; the compressor is proved to emit exactly
//! the stream `data::xpress_encode` describes, and that stream is proved to
//! decode back to the input, under the current decoder and the older one
//! alike (the `agreement` module).
//!
//! The crate root keeps an older variant of the flat-format decoder that
//! predates `data::decompress`: it ends the stream silently where the current
//! one reports `MemLimit`, skips a copy whose distance exceeds the output
//! instead of failing, and has no 32-bit length escape.

pub mod agreement;
pub mod bytes;
pub mod data;
pub mod error;
pub mod lznt1;
pub mod truncation;

use vstd::prelude::*;

use crate::bytes::le16_at;
use crate::bytes::le32_at;
use crate::bytes::lz_copy;
use crate::bytes::lz_extend;
use crate::bytes::pow2_u32;
use crate::bytes::pow2i;
use crate::bytes::read_le16;
use crate::bytes::read_le32;
use crate::data::in_left;
use crate::data::XpressState;
use crate::error::Error;

verus! {

/// One decode round of the older flat-format decoder: a truncated indicator
/// word ends the stream silently with the output so far.
pub open spec fn legacy_decode_from(inp: Seq<u8>, st: XpressState) -> Result<Seq<u8>, Error>
    decreases 4 * in_left(inp, st.i) + 3,
{
    if st.i >= inp.len() {
        Ok(st.out)
    } else if st.fcount == 0 {
        if st.i + 4 > inp.len() {
            Ok(st.out)
        } else {
            legacy_decode_token(inp, st.i + 4, le32_at(inp, st.i), 32, st.nib, st.out)
        }
    } else {
        legacy_decode_token(inp, st.i, st.flags, st.fcount, st.nib, st.out)
    }
}

/// One token of the older decoder.  It differs from the current one in three
/// ways: every truncation ends the stream silently with the output so far, so
/// there is no end-of-stream marker; a copy whose distance exceeds the bytes
/// produced is skipped rather than an error; and the escape chain stops at
/// the 16-bit field, whose underflow is the only error.
pub open spec fn legacy_decode_token(
    inp: Seq<u8>,
    i: int,
    flags: int,
    fcount: int,
    nib: int,
    out: Seq<u8>,
) -> Result<Seq<u8>, Error>
    decreases 4 * in_left(inp, i) + 2,
{
    let fc = fcount - 1;
    if flags / pow2i(fc) % 2 == 0 {
        if i >= inp.len() {
            Ok(out)
        } else {
            legacy_decode_from(
                inp,
                XpressState { i: i + 1, flags, fcount: fc, nib, out: out.push(inp[i]) },
            )
        }
    } else if i + 1 >= inp.len() {
        Ok(out)
    } else {
        let token = le16_at(inp, i);
        let off = token / 8;
        if token % 8 < 7 {
            legacy_copy_step(inp, i + 2, flags, fc, nib, out, off, token % 8 + 3)
        } else if nib == 0 {
            if i + 2 >= inp.len() {
                Ok(out)
            } else {
                legacy_ext_len(inp, i + 3, flags, fc, i + 2, out, off, (inp[i + 2] as int) % 16)
            }
        } else if nib >= inp.len() {
            Ok(out)
        } else {
            legacy_ext_len(inp, i + 2, flags, fc, 0, out, off, (inp[nib] as int) / 16)
        }
    }
}

/// The older decoder's length-escape chain: nibble, byte, 16-bit field.
pub open spec fn legacy_ext_len(
    inp: Seq<u8>,
    i: int,
    flags: int,
    fcount: int,
    nib: int,
    out: Seq<u8>,
    off: int,
    n: int,
) -> Result<Seq<u8>, Error>
    decreases 4 * in_left(inp, i) + 5,
{
    if n < 15 {
        legacy_copy_step(inp, i, flags, fcount, nib, out, off, n + 7 + 3)
    } else if i >= inp.len() {
        Ok(out)
    } else if inp[i] < 255 {
        legacy_copy_step(inp, i + 1, flags, fcount, nib, out, off, inp[i] + 15 + 7 + 3)
    } else if i + 2 >= inp.len() {
        Ok(out)
    } else {
        let w = le16_at(inp, i + 1);
        if w < 15 + 7 {
            Err(Error::CorruptedData)
        } else {
            legacy_copy_step(inp, i + 3, flags, fcount, nib, out, off, w - 15 - 7 + 15 + 7 + 3)
        }
    }
}

/// The older decoder's copy: a distance reaching before the start of the
/// output skips the copy instead of failing.
pub open spec fn legacy_copy_step(
    inp: Seq<u8>,
    i: int,
    flags: int,
    fcount: int,
    nib: int,
    out: Seq<u8>,
    off: int,
    mlen: int,
) -> Result<Seq<u8>, Error>
    decreases 4 * in_left(inp, i) + 4,
{
    if off + 1 > out.len() {
        legacy_decode_from(inp, XpressState { i, flags, fcount, nib, out })
    } else {
        legacy_decode_from(
            inp,
            XpressState { i, flags, fcount, nib, out: lz_extend(out, off + 1, mlen) },
        )
    }
}

/// The result of the older flat-format decoder on `inp`.
pub open spec fn legacy_decode(inp: Seq<u8>) -> Result<Seq<u8>, Error> {
    legacy_decode_from(inp, crate::data::xpress_init())
}

/// The older variant of the flat-format decoder, kept for callers of the
/// crate root.  Truncated input ends the stream silently with the bytes
/// decoded so far; the only error is a 16-bit length escape below its bias.
/// Prefer `data::decompress`, which reports truncation.
#[verifier::rlimit(60)]
pub fn decompress(input_buffer: &[u8]) -> (r: Result<Vec<u8>, Error>)
    ensures
        match (r, legacy_decode(input_buffer@)) {
            (Ok(v), Ok(s)) => v@ == s,
            (Err(e), Err(se)) => e == se,
            _ => false,
        },
{
    let mut output_buffer: Vec<u8> = Vec::new();
    let mut input_index: usize = 0;
    let mut indicator: u32 = 0;
    let mut indicator_bit: u32 = 0;
    let mut nibble_index: usize = 0;
    let ghost goal = legacy_decode(input_buffer@);

    proof {
        assert(output_buffer@ =~= Seq::<u8>::empty());
    }

    while input_index < input_buffer.len()
        invariant
            input_index <= input_buffer@.len(),
            indicator_bit <= 31,
            nibble_index == 0 || nibble_index < input_buffer@.len(),
            goal == legacy_decode(input_buffer@),
            legacy_decode_from(
                input_buffer@,
                XpressState {
                    i: input_index as int,
                    flags: indicator as int,
                    fcount: indicator_bit as int,
                    nib: nibble_index as int,
                    out: output_buffer@,
                },
            ) == goal,
        decreases input_buffer@.len() - input_index,
    {
        let ghost st0 = XpressState {
            i: input_index as int,
            flags: indicator as int,
            fcount: indicator_bit as int,
            nib: nibble_index as int,
            out: output_buffer@,
        };
        if indicator_bit == 0 {
            if input_buffer.len() - input_index < 4 {
                assert(goal == Ok::<Seq<u8>, Error>(output_buffer@));
                return Ok(output_buffer);
            }
            indicator = read_le32(input_buffer, input_index);
            input_index = input_index + 4;
            indicator_bit = 32;
        }
        assert(legacy_decode_from(input_buffer@, st0) == legacy_decode_token(
            input_buffer@,
            input_index as int,
            indicator as int,
            indicator_bit as int,
            nibble_index as int,
            output_buffer@,
        ));
        indicator_bit = indicator_bit - 1;
        let bit = (indicator / pow2_u32(indicator_bit)) % 2;
        if bit == 0 {
            if input_index >= input_buffer.len() {
                assert(goal == Ok::<Seq<u8>, Error>(output_buffer@));
                return Ok(output_buffer);
            }
            let b = input_buffer[input_index];
            output_buffer.push(b);
            input_index = input_index + 1;
        } else {
            if input_buffer.len() - input_index < 2 {
                assert(goal == Ok::<Seq<u8>, Error>(output_buffer@));
                return Ok(output_buffer);
            }
            let token = read_le16(input_buffer, input_index) as usize;
            input_index = input_index + 2;
            let offset = token / 8;
            let mut length: usize = token % 8;
            if length == 7 {
                let n: usize;
                if nibble_index == 0 {
                    if input_index >= input_buffer.len() {
                        assert(goal == Ok::<Seq<u8>, Error>(output_buffer@));
                        return Ok(output_buffer);
                    }
                    n = (input_buffer[input_index] % 16) as usize;
                    nibble_index = input_index;
                    input_index = input_index + 1;
                } else {
                    n = (input_buffer[nibble_index] / 16) as usize;
                    nibble_index = 0;
                }
                assert(goal == legacy_ext_len(
                    input_buffer@,
                    input_index as int,
                    indicator as int,
                    indicator_bit as int,
                    nibble_index as int,
                    output_buffer@,
                    offset as int,
                    n as int,
                ));
                if n < 15 {
                    length = n + 7;
                } else {
                    if input_index >= input_buffer.len() {
                        assert(goal == Ok::<Seq<u8>, Error>(output_buffer@));
                        return Ok(output_buffer);
                    }
                    let e = input_buffer[input_index] as usize;
                    input_index = input_index + 1;
                    if e < 255 {
                        length = e + 15 + 7;
                    } else {
                        if input_buffer.len() - input_index < 2 {
                            assert(goal == Ok::<Seq<u8>, Error>(output_buffer@));
                            return Ok(output_buffer);
                        }
                        let w = read_le16(input_buffer, input_index) as usize;
                        input_index = input_index + 2;
                        if w < 15 + 7 {
                            assert(goal == Err::<Seq<u8>, Error>(Error::CorruptedData));
                            return Err(Error::CorruptedData);
                        }
                        length = w - 15 - 7 + 15 + 7;
                    }
                }
            }
            length = length + 3;
            assert(goal == legacy_copy_step(
                input_buffer@,
                input_index as int,
                indicator as int,
                indicator_bit as int,
                nibble_index as int,
                output_buffer@,
                offset as int,
                length as int,
            ));
            if offset + 1 <= output_buffer.len() {
                lz_copy(&mut output_buffer, offset + 1, length as u64);
            }
        }
    }
    assert(goal == Ok::<Seq<u8>, Error>(output_buffer@));
    Ok(output_buffer)
}

} // verus!
