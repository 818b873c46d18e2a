//! The flat LZXPRESS codec: 32-bit indicator words select literal bytes or
//! 16-bit match tokens, and long match lengths escalate through a shared
//! nibble, an extra byte, a 16-bit field and a 32-bit field.

use vstd::prelude::*;

use crate::bytes::le16_at;
use crate::bytes::le32_at;
use crate::bytes::lemma_lz_extend_replay;
use crate::bytes::lz_copy;
use crate::bytes::lz_extend;
use crate::bytes::pow2_u32;
use crate::bytes::pow2i;
use crate::bytes::read_le16;
use crate::bytes::read_le32;

pub use crate::error::Error;

verus! {

/// Decoder state between two tokens: `i` is the read cursor, `flags` the
/// current indicator word of which the low `fcount` bits are still unused,
/// `nib` the position of a half-consumed length nibble byte (0 when none),
/// and `out` the bytes produced so far.
pub struct XpressState {
    pub i: int,
    pub flags: int,
    pub fcount: int,
    pub nib: int,
    pub out: Seq<u8>,
}

/// The input remaining past the cursor, clamped to zero; keeps the decode
/// measures non-negative.
pub open spec fn in_left(inp: Seq<u8>, i: int) -> int {
    if inp.len() - i >= 0 {
        inp.len() - i
    } else {
        0
    }
}

/// One decode round: stop at the end of the input, refill the indicator word
/// when its bits are spent, then decode one token.
pub open spec fn xpress_decode_from(inp: Seq<u8>, st: XpressState) -> Result<Seq<u8>, Error>
    decreases 4 * in_left(inp, st.i) + 3,
{
    if st.i >= inp.len() {
        Ok(st.out)
    } else if st.fcount == 0 {
        if st.i + 4 > inp.len() {
            Err(Error::MemLimit)
        } else {
            xpress_decode_token(inp, st.i + 4, le32_at(inp, st.i), 32, st.nib, st.out)
        }
    } else {
        xpress_decode_token(inp, st.i, st.flags, st.fcount, st.nib, st.out)
    }
}

/// Decodes one token, consuming the indicator bit `fcount - 1` of `flags`:
/// bit 0 is a literal byte; bit 1 is a match token, or the end-of-stream
/// marker when the input is exactly exhausted.
pub open spec fn xpress_decode_token(
    inp: Seq<u8>,
    i: int,
    flags: int,
    fcount: int,
    nib: int,
    out: Seq<u8>,
) -> Result<Seq<u8>, Error>
    decreases 4 * in_left(inp, i) + 2,
{
    let fc = fcount - 1;
    if flags / pow2i(fc) % 2 == 0 {
        if i >= inp.len() {
            Err(Error::MemLimit)
        } else {
            xpress_decode_from(
                inp,
                XpressState { i: i + 1, flags, fcount: fc, nib, out: out.push(inp[i]) },
            )
        }
    } else if i == inp.len() {
        Ok(out)
    } else if i + 2 > inp.len() {
        Err(Error::MemLimit)
    } else {
        let token = le16_at(inp, i);
        let dist = token / 8 + 1;
        if token % 8 < 7 {
            xpress_copy_step(inp, i + 2, flags, fc, nib, out, dist, token % 8 + 3)
        } else if nib == 0 {
            if i + 2 >= inp.len() {
                Err(Error::MemLimit)
            } else {
                xpress_ext_len(inp, i + 3, flags, fc, i + 2, out, dist, (inp[i + 2] as int) % 16)
            }
        } else {
            xpress_ext_len(inp, i + 2, flags, fc, 0, out, dist, (inp[nib] as int) / 16)
        }
    }
}

/// The length-escape chain past the shared nibble, whose value is `n`:
/// 0 to 14 end the chain; 15 escalates to a byte, the byte to a 16-bit field,
/// and a zero 16-bit field to a 32-bit field, each level restoring the bias
/// subtracted by the encoder.
pub open spec fn xpress_ext_len(
    inp: Seq<u8>,
    i: int,
    flags: int,
    fcount: int,
    nib: int,
    out: Seq<u8>,
    dist: int,
    n: int,
) -> Result<Seq<u8>, Error>
    decreases 4 * in_left(inp, i) + 5,
{
    if n < 15 {
        xpress_copy_step(inp, i, flags, fcount, nib, out, dist, n + 7 + 3)
    } else if i >= inp.len() {
        Err(Error::MemLimit)
    } else if inp[i] < 255 {
        xpress_copy_step(inp, i + 1, flags, fcount, nib, out, dist, inp[i] + 15 + 7 + 3)
    } else if i + 3 > inp.len() {
        Err(Error::MemLimit)
    } else {
        let w = le16_at(inp, i + 1);
        if w != 0 {
            if w < 15 + 7 {
                Err(Error::CorruptedData)
            } else {
                xpress_copy_step(inp, i + 3, flags, fcount, nib, out, dist, w - 15 - 7 + 15 + 7 + 3)
            }
        } else if i + 7 > inp.len() {
            Err(Error::MemLimit)
        } else {
            let d = le32_at(inp, i + 3);
            if d < 15 + 7 {
                Err(Error::CorruptedData)
            } else {
                xpress_copy_step(inp, i + 7, flags, fcount, nib, out, dist, d - 15 - 7 + 15 + 7 + 3)
            }
        }
    }
}

/// Validates the back-reference distance against the bytes produced so far,
/// replays the match, and continues with the next token.
pub open spec fn xpress_copy_step(
    inp: Seq<u8>,
    i: int,
    flags: int,
    fcount: int,
    nib: int,
    out: Seq<u8>,
    dist: int,
    mlen: int,
) -> Result<Seq<u8>, Error>
    decreases 4 * in_left(inp, i) + 4,
{
    if dist > out.len() {
        Err(Error::CorruptedData)
    } else {
        xpress_decode_from(
            inp,
            XpressState { i, flags, fcount, nib, out: lz_extend(out, dist, mlen) },
        )
    }
}

/// The decoder's starting state.
pub open spec fn xpress_init() -> XpressState {
    XpressState { i: 0, flags: 0, fcount: 0, nib: 0, out: Seq::empty() }
}

/// The result of decoding `inp` as a flat LZXPRESS stream.
pub open spec fn xpress_decode(inp: Seq<u8>) -> Result<Seq<u8>, Error> {
    xpress_decode_from(inp, xpress_init())
}

/// Reads the length-escape chain of a match token whose 3-bit length field
/// held 7: the shared nibble (a fresh byte, or the upper half of the pending
/// one), then the escape bytes it calls for.  Returns the decoded length
/// before the +3 bias, or the error the decode relation assigns.
fn read_ext_length(
    in_buf: &[u8],
    in_idx: &mut usize,
    nibble_idx: &mut usize,
    Ghost(flags): Ghost<int>,
    Ghost(fcount): Ghost<int>,
    Ghost(out): Ghost<Seq<u8>>,
    Ghost(dist): Ghost<int>,
    Ghost(goal): Ghost<Result<Seq<u8>, Error>>,
) -> (r: Result<u64, Error>)
    requires
        *old(in_idx) <= in_buf@.len(),
        *old(nibble_idx) == 0 || *old(nibble_idx) < in_buf@.len(),
        ({
            let i = *old(in_idx) as int;
            let nib = *old(nibble_idx) as int;
            if nib == 0 {
                if i >= in_buf@.len() {
                    goal == Err::<Seq<u8>, Error>(Error::MemLimit)
                } else {
                    goal == xpress_ext_len(
                        in_buf@,
                        i + 1,
                        flags,
                        fcount,
                        i,
                        out,
                        dist,
                        (in_buf@[i] as int) % 16,
                    )
                }
            } else {
                goal == xpress_ext_len(
                    in_buf@,
                    i,
                    flags,
                    fcount,
                    0,
                    out,
                    dist,
                    (in_buf@[nib] as int) / 16,
                )
            }
        }),
    ensures
        *final(in_idx) <= in_buf@.len(),
        *final(in_idx) >= *old(in_idx),
        *final(nibble_idx) == 0 || *final(nibble_idx) < in_buf@.len(),
        match r {
            Ok(len7) => len7 <= 0xFFFF_FFFF && goal == xpress_copy_step(
                in_buf@,
                *final(in_idx) as int,
                flags,
                fcount,
                *final(nibble_idx) as int,
                out,
                dist,
                len7 as int + 3,
            ),
            Err(e) => goal == Err::<Seq<u8>, Error>(e),
        },
{
    let n: u64;
    if *nibble_idx == 0 {
        if *in_idx >= in_buf.len() {
            return Err(Error::MemLimit);
        }
        n = (in_buf[*in_idx] % 16) as u64;
        *nibble_idx = *in_idx;
        *in_idx = *in_idx + 1;
    } else {
        n = (in_buf[*nibble_idx] / 16) as u64;
        *nibble_idx = 0;
    }
    assert(goal == xpress_ext_len(
        in_buf@,
        *in_idx as int,
        flags,
        fcount,
        *nibble_idx as int,
        out,
        dist,
        n as int,
    ));
    let length: u64;
    if n < 15 {
        length = n + 7;
    } else {
        if *in_idx >= in_buf.len() {
            assert(goal == Err::<Seq<u8>, Error>(Error::MemLimit));
            return Err(Error::MemLimit);
        }
        let e = in_buf[*in_idx] as u64;
        *in_idx = *in_idx + 1;
        if e < 255 {
            length = e + 15 + 7;
        } else {
            if in_buf.len() - *in_idx < 2 {
                assert(goal == Err::<Seq<u8>, Error>(Error::MemLimit));
                return Err(Error::MemLimit);
            }
            let w = read_le16(in_buf, *in_idx) as u64;
            *in_idx = *in_idx + 2;
            if w != 0 {
                if w < 15 + 7 {
                    assert(goal == Err::<Seq<u8>, Error>(Error::CorruptedData));
                    return Err(Error::CorruptedData);
                }
                length = w - 15 - 7 + 15 + 7;
            } else {
                if in_buf.len() - *in_idx < 4 {
                    assert(goal == Err::<Seq<u8>, Error>(Error::MemLimit));
                    return Err(Error::MemLimit);
                }
                let d = read_le32(in_buf, *in_idx) as u64;
                *in_idx = *in_idx + 4;
                if d < 15 + 7 {
                    assert(goal == Err::<Seq<u8>, Error>(Error::CorruptedData));
                    return Err(Error::CorruptedData);
                }
                length = d - 15 - 7 + 15 + 7;
            }
        }
    }
    Ok(length)
}

/// Decompresses a flat LZXPRESS stream, returning exactly what the format's
/// decode relation assigns to `in_buf`: the decoded bytes, `MemLimit` where a
/// field would cross the end of the input, and `CorruptedData` where a match
/// reaches before the start of the output or a length escape underflows.
#[verifier::rlimit(100)]
#[verifier::spinoff_prover]
pub fn decompress(in_buf: &[u8]) -> (r: Result<Vec<u8>, Error>)
    ensures
        match (r, xpress_decode(in_buf@)) {
            (Ok(v), Ok(s)) => v@ == s,
            (Err(e), Err(se)) => e == se,
            _ => false,
        },
{
    let mut out_buf: Vec<u8> = Vec::new();
    let mut in_idx: usize = 0;
    let mut flags: u32 = 0;
    let mut flag_count: u32 = 0;
    let mut nibble_idx: usize = 0;
    let ghost goal = xpress_decode(in_buf@);

    proof {
        assert(out_buf@ =~= Seq::<u8>::empty());
    }

    while in_idx < in_buf.len()
        invariant
            in_idx <= in_buf@.len(),
            flag_count <= 31,
            nibble_idx == 0 || nibble_idx < in_buf@.len(),
            goal == xpress_decode(in_buf@),
            xpress_decode_from(
                in_buf@,
                XpressState {
                    i: in_idx as int,
                    flags: flags as int,
                    fcount: flag_count as int,
                    nib: nibble_idx as int,
                    out: out_buf@,
                },
            ) == goal,
        decreases in_buf@.len() - in_idx,
    {
        let ghost st0 = XpressState {
            i: in_idx as int,
            flags: flags as int,
            fcount: flag_count as int,
            nib: nibble_idx as int,
            out: out_buf@,
        };
        if flag_count == 0 {
            if in_buf.len() - in_idx < 4 {
                assert(xpress_decode_from(in_buf@, st0) == Err::<Seq<u8>, Error>(Error::MemLimit));
                return Err(Error::MemLimit);
            }
            flags = read_le32(in_buf, in_idx);
            in_idx = in_idx + 4;
            flag_count = 32;
        }
        assert(xpress_decode_from(in_buf@, st0) == xpress_decode_token(
            in_buf@,
            in_idx as int,
            flags as int,
            flag_count as int,
            nibble_idx as int,
            out_buf@,
        ));
        flag_count = flag_count - 1;
        let bit = (flags / pow2_u32(flag_count)) % 2;
        if bit == 0 {
            if in_idx >= in_buf.len() {
                assert(goal == Err::<Seq<u8>, Error>(Error::MemLimit));
                return Err(Error::MemLimit);
            }
            let b = in_buf[in_idx];
            out_buf.push(b);
            in_idx = in_idx + 1;
        } else {
            if in_idx == in_buf.len() {
                assert(goal == Ok::<Seq<u8>, Error>(out_buf@));
                return Ok(out_buf);
            }
            if in_buf.len() - in_idx < 2 {
                assert(goal == Err::<Seq<u8>, Error>(Error::MemLimit));
                return Err(Error::MemLimit);
            }
            let token = read_le16(in_buf, in_idx) as usize;
            in_idx = in_idx + 2;
            let dist = token / 8 + 1;
            let mut length: u64 = (token % 8) as u64;
            if length == 7 {
                proof {
                    if nibble_idx == 0 {
                        if in_idx < in_buf.len() {
                            assert(goal == xpress_ext_len(
                                in_buf@,
                                in_idx as int + 1,
                                flags as int,
                                flag_count as int,
                                in_idx as int,
                                out_buf@,
                                dist as int,
                                (in_buf@[in_idx as int] as int) % 16,
                            ));
                        } else {
                            assert(goal == Err::<Seq<u8>, Error>(Error::MemLimit));
                        }
                    } else {
                        assert(goal == xpress_ext_len(
                            in_buf@,
                            in_idx as int,
                            flags as int,
                            flag_count as int,
                            0,
                            out_buf@,
                            dist as int,
                            (in_buf@[nibble_idx as int] as int) / 16,
                        ));
                    }
                }
                let chain = read_ext_length(
                    in_buf,
                    &mut in_idx,
                    &mut nibble_idx,
                    Ghost(flags as int),
                    Ghost(flag_count as int),
                    Ghost(out_buf@),
                    Ghost(dist as int),
                    Ghost(goal),
                );
                match chain {
                    Ok(len7) => {
                        length = len7;
                    },
                    Err(e) => {
                        return Err(e);
                    },
                }
            }
            length = length + 3;
            assert(goal == xpress_copy_step(
                in_buf@,
                in_idx as int,
                flags as int,
                flag_count as int,
                nibble_idx as int,
                out_buf@,
                dist as int,
                length as int,
            ));
            if dist > out_buf.len() {
                assert(goal == Err::<Seq<u8>, Error>(Error::CorruptedData));
                return Err(Error::CorruptedData);
            }
            lz_copy(&mut out_buf, dist, length);
        }
    }
    assert(goal == Ok::<Seq<u8>, Error>(out_buf@));
    Ok(out_buf)
}

/// Byte `k` of the 32-bit little-endian encoding of `w`.
pub open spec fn le_byte(w: int, k: int) -> u8 {
    ((w / pow2i(8 * k)) % 256) as u8
}

/// The compressed stream as the decoder will see it once the encoder is done:
/// the bytes emitted so far (`out`), with the still-reserved indicator word at
/// `foff` replaced by `w`, the upper half of a pending length nibble byte at
/// `nib` (when `nib != 0`) filled with `hi`, and `rest` appended for whatever
/// the encoder emits later.
pub open spec fn completion(
    out: Seq<u8>,
    foff: int,
    w: int,
    nib: int,
    hi: int,
    rest: Seq<u8>,
) -> Seq<u8> {
    Seq::new(
        (out.len() + rest.len()) as nat,
        |p: int|
            if foff <= p < foff + 4 {
                le_byte(w, p - foff)
            } else if nib != 0 && p == nib {
                ((out[nib] + 16 * hi) as u8)
            } else if p < out.len() {
                out[p]
            } else {
                rest[p - out.len()]
            },
    )
}

/// The decoder state that corresponds to the encoder having emitted `out` with
/// `count` indicator bits accumulated: the decoder has read the indicator word
/// `w` and consumed `count` of its bits, unless the word is still the untouched
/// placeholder at the end of `out` (`count == 0`).
pub open spec fn enc_mid(
    out_len: int,
    foff: int,
    w: int,
    count: int,
    nib: int,
    dout: Seq<u8>,
) -> XpressState {
    if count == 0 {
        XpressState { i: foff, flags: 0, fcount: 0, nib, out: dout }
    } else {
        XpressState { i: out_len, flags: w, fcount: 32 - count, nib, out: dout }
    }
}

/// `w` is a 32-bit indicator word whose `count` most significant bits are the
/// bits accumulated by the encoder.
pub open spec fn enc_cond(w: int, count: int, bits: int) -> bool {
    &&& 0 <= w < 0x1_0000_0000
    &&& w / pow2i(32 - count) == bits
}

/// The compressor's loop invariant: however the reserved indicator word, the
/// pending nibble and the future of the stream are filled in, decoding the
/// whole stream from the start gives the same outcome as decoding it from the
/// state that corresponds to the bytes emitted so far having reproduced
/// exactly the consumed prefix of the input.
pub open spec fn enc_inv(
    inp: Seq<u8>,
    consumed: int,
    out: Seq<u8>,
    foff: int,
    bits: int,
    count: int,
    nib: int,
) -> bool {
    &&& 0 <= consumed <= inp.len()
    &&& 0 <= foff
    &&& foff + 4 <= out.len()
    &&& 0 <= count <= 32
    &&& 0 <= bits < pow2i(count)
    &&& (count == 0 ==> foff == out.len() - 4)
    &&& (nib == 0 || (4 <= nib < out.len() && !(foff <= nib < foff + 4) && out[nib] < 16))
    &&& forall|w: int, hi: int, rest: Seq<u8>|
        enc_cond(w, count, bits) && 0 <= hi < 16 ==> xpress_decode_from(
            #[trigger] completion(out, foff, w, nib, hi, rest),
            xpress_init(),
        ) == xpress_decode_from(
            completion(out, foff, w, nib, hi, rest),
            enc_mid(out.len() as int, foff, w, count, nib, inp.subrange(0, consumed)),
        )
}

/// The input repeats itself at distance `dist` for `mlen` bytes starting at
/// `consumed`: the fact established by the greedy match search.
pub open spec fn match_at(inp: Seq<u8>, consumed: int, dist: int, mlen: int) -> bool {
    &&& 1 <= dist <= consumed
    &&& dist <= 8192
    &&& 3 <= mlen <= 8192
    &&& consumed + mlen <= inp.len()
    &&& forall|q: int| consumed <= q < consumed + mlen ==> #[trigger] inp[q] == inp[q - dist]
}

pub proof fn lemma_pow2i_values()
    ensures
        pow2i(0) == 1,
        pow2i(1) == 2,
        pow2i(3) == 8,
        pow2i(4) == 16,
        pow2i(8) == 256,
        pow2i(12) == 4096,
        pow2i(15) == 0x8000,
        pow2i(16) == 0x1_0000,
        pow2i(24) == 0x100_0000,
        pow2i(31) == 0x8000_0000,
        pow2i(32) == 0x1_0000_0000,
{
    vstd::arithmetic::power2::lemma2_to64();
    vstd::arithmetic::power2::lemma2_to64_rest();
}

/// A 16-bit value is recovered from its two little-endian bytes.
pub proof fn lemma_le16_parts(t: int)
    requires
        0 <= t < 0x1_0000,
    ensures
        (t % 256) + 256 * (t / 256) == t,
        0 <= t % 256 < 256,
        0 <= t / 256 < 256,
{
    vstd::arithmetic::div_mod::lemma_fundamental_div_mod(t, 256);
}

/// A 32-bit value is recovered from its four little-endian bytes.
pub proof fn lemma_le32_parts(w: int)
    requires
        0 <= w < 0x1_0000_0000,
    ensures
        le_byte(w, 0) + 256 * le_byte(w, 1) + 65536 * le_byte(w, 2) + 16777216 * le_byte(w, 3)
            == w,
{
    lemma_pow2i_values();
    vstd::arithmetic::div_mod::lemma_fundamental_div_mod(w, 256);
    vstd::arithmetic::div_mod::lemma_fundamental_div_mod(w / 256, 256);
    vstd::arithmetic::div_mod::lemma_fundamental_div_mod(w / 65536, 256);
    assert(w / 256 / 256 == w / 65536) by {
        vstd::arithmetic::div_mod::lemma_div_denominator(w, 256, 256);
    }
    assert(w / 65536 / 256 == w / 16777216) by {
        vstd::arithmetic::div_mod::lemma_div_denominator(w, 65536, 256);
    }
    assert(w / 16777216 < 256) by {
        vstd::arithmetic::div_mod::lemma_div_is_ordered(w, 0xffffffff, 16777216);
    }
    assert(w / 16777216 % 256 == w / 16777216) by {
        vstd::arithmetic::div_mod::lemma_small_mod((w / 16777216) as nat, 256);
    }
}

/// The four little-endian bytes of `w`.
pub open spec fn lebytes4(w: int) -> Seq<u8> {
    seq![le_byte(w, 0), le_byte(w, 1), le_byte(w, 2), le_byte(w, 3)]
}

/// `out` with the 32-bit little-endian encoding of `w` written at `foff`.
pub open spec fn store32_at(out: Seq<u8>, foff: int, w: int) -> Seq<u8> {
    out.update(foff, le_byte(w, 0)).update(foff + 1, le_byte(w, 1)).update(
        foff + 2,
        le_byte(w, 2),
    ).update(foff + 3, le_byte(w, 3))
}

/// Writes the 32-bit little-endian encoding of `w` at `foff`.
fn store_le32(out: &mut Vec<u8>, foff: usize, w: u32)
    requires
        foff + 4 <= old(out)@.len(),
    ensures
        final(out)@ == store32_at(old(out)@, foff as int, w as int),
{
    proof {
        lemma_pow2i_values();
        vstd::arithmetic::div_mod::lemma_div_basics(w as int);
        vstd::arithmetic::div_mod::lemma_small_mod((w as int / 16777216) as nat, 256);
        vstd::arithmetic::div_mod::lemma_div_is_ordered(w as int, 0xffffffff, 16777216);
    }
    // binding the length keeps the write positions visibly within bounds
    let _n = out.len();
    out[foff] = (w % 256) as u8;
    out[foff + 1] = ((w / 256) % 256) as u8;
    out[foff + 2] = ((w / 65536) % 256) as u8;
    out[foff + 3] = (w / 16777216) as u8;
}

/// The reserved indicator word of a completion reads back as `w`.
pub proof fn lemma_completion_word(out: Seq<u8>, foff: int, w: int, nib: int, hi: int, rest: Seq<u8>)
    requires
        0 <= foff,
        foff + 4 <= out.len(),
        nib == 0 || !(foff <= nib < foff + 4),
        0 <= w < 0x1_0000_0000,
    ensures
        le32_at(completion(out, foff, w, nib, hi, rest), foff) == w,
{
    let b = completion(out, foff, w, nib, hi, rest);
    assert(b[foff] == le_byte(w, 0));
    assert(b[foff + 1] == le_byte(w, 1));
    assert(b[foff + 2] == le_byte(w, 2));
    assert(b[foff + 3] == le_byte(w, 3));
    lemma_le32_parts(w);
}

/// From the decoder state that `enc_mid` names, one decode round reduces to
/// decoding a single token at the end of the emitted bytes.
proof fn lemma_mid_to_token(
    b: Seq<u8>,
    out_len: int,
    foff: int,
    w: int,
    count: int,
    nib: int,
    dout: Seq<u8>,
)
    requires
        0 <= count <= 31,
        0 <= foff,
        foff + 4 <= out_len,
        count == 0 ==> foff == out_len - 4,
        out_len < b.len(),
        le32_at(b, foff) == w,
        0 <= w < 0x1_0000_0000,
    ensures
        xpress_decode_from(b, enc_mid(out_len, foff, w, count, nib, dout))
            == xpress_decode_token(b, out_len, w, 32 - count, nib, dout),
{
}

/// Appending bytes to the emitted output is the same as prepending them to the
/// future of the stream.
pub proof fn lemma_completion_append(
    out: Seq<u8>,
    foff: int,
    w: int,
    nib: int,
    hi: int,
    bytes: Seq<u8>,
    rest: Seq<u8>,
)
    requires
        foff + 4 <= out.len(),
        nib < out.len(),
    ensures
        completion(out + bytes, foff, w, nib, hi, rest) == completion(
            out,
            foff,
            w,
            nib,
            hi,
            bytes + rest,
        ),
{
    assert(completion(out + bytes, foff, w, nib, hi, rest) =~= completion(
        out,
        foff,
        w,
        nib,
        hi,
        bytes + rest,
    ));
}

/// A decode round that must refill the indicator word does not depend on the
/// stale word it replaces.
proof fn lemma_refill_flags_any(b: Seq<u8>, i: int, f1: int, f2: int, nib: int, dout: Seq<u8>)
    ensures
        xpress_decode_from(b, XpressState { i, flags: f1, fcount: 0, nib, out: dout })
            == xpress_decode_from(b, XpressState { i, flags: f2, fcount: 0, nib, out: dout }),
{
}

/// Emitting a literal byte preserves the compressor's invariant.
pub proof fn lemma_enc_literal(
    inp: Seq<u8>,
    consumed: int,
    out: Seq<u8>,
    foff: int,
    bits: int,
    count: int,
    nib: int,
)
    requires
        enc_inv(inp, consumed, out, foff, bits, count, nib),
        0 <= count <= 31,
        consumed < inp.len(),
    ensures
        enc_inv(inp, consumed + 1, out.push(inp[consumed]), foff, 2 * bits, count + 1, nib),
{
    let byte = inp[consumed];
    let out2 = out.push(byte);
    let dout = inp.subrange(0, consumed);
    vstd::arithmetic::power2::lemma_pow2_unfold((count + 1) as nat);
    assert forall|w: int, hi: int, rest: Seq<u8>|
        enc_cond(w, count + 1, 2 * bits) && 0 <= hi < 16 implies xpress_decode_from(
        #[trigger] completion(out2, foff, w, nib, hi, rest),
        xpress_init(),
    ) == xpress_decode_from(
        completion(out2, foff, w, nib, hi, rest),
        enc_mid(out2.len() as int, foff, w, count + 1, nib, inp.subrange(0, consumed + 1)),
    ) by {
        lemma_cond_step(w, count, bits, 0);
        let b = completion(out2, foff, w, nib, hi, rest);
        assert(out2 =~= out + seq![byte]);
        lemma_completion_append(out, foff, w, nib, hi, seq![byte], rest);
        assert(b == completion(out, foff, w, nib, hi, seq![byte] + rest));
        assert(xpress_decode_from(b, xpress_init()) == xpress_decode_from(
            b,
            enc_mid(out.len() as int, foff, w, count, nib, dout),
        ));
        lemma_completion_word(out, foff, w, nib, hi, seq![byte] + rest);
        lemma_mid_to_token(b, out.len() as int, foff, w, count, nib, dout);
        assert(b[out.len() as int] == byte);
        assert(w / pow2i(32 - count - 1) % 2 == 0);
        assert(xpress_decode_token(b, out.len() as int, w, 32 - count, nib, dout)
            == xpress_decode_from(
            b,
            XpressState {
                i: out.len() as int + 1,
                flags: w,
                fcount: 32 - count - 1,
                nib,
                out: dout.push(byte),
            },
        ));
        assert(dout.push(byte) =~= inp.subrange(0, consumed + 1));
        assert(XpressState {
            i: out.len() as int + 1,
            flags: w,
            fcount: 32 - count - 1,
            nib,
            out: dout.push(byte),
        } == enc_mid(out2.len() as int, foff, w, count + 1, nib, inp.subrange(0, consumed + 1)));
    }
}

/// Flushing a full indicator word into its reserved slot and reserving a new
/// placeholder preserves the compressor's invariant.
pub proof fn lemma_enc_flush(
    inp: Seq<u8>,
    consumed: int,
    out: Seq<u8>,
    foff: int,
    bits: int,
    nib: int,
)
    requires
        enc_inv(inp, consumed, out, foff, bits, 32, nib),
    ensures
        enc_inv(
            inp,
            consumed,
            store32_at(out, foff, bits) + seq![0u8, 0u8, 0u8, 0u8],
            out.len() as int,
            0,
            0,
            nib,
        ),
{
    let out3 = store32_at(out, foff, bits) + seq![0u8, 0u8, 0u8, 0u8];
    let foff2 = out.len() as int;
    let dout = inp.subrange(0, consumed);
    lemma_pow2i_values();
    vstd::arithmetic::div_mod::lemma_div_basics(bits);
    assert forall|w: int, hi: int, rest: Seq<u8>|
        enc_cond(w, 0, 0) && 0 <= hi < 16 implies xpress_decode_from(
        #[trigger] completion(out3, foff2, w, nib, hi, rest),
        xpress_init(),
    ) == xpress_decode_from(
        completion(out3, foff2, w, nib, hi, rest),
        enc_mid(out3.len() as int, foff2, w, 0, nib, dout),
    ) by {
        let b = completion(out3, foff2, w, nib, hi, rest);
        assert(b =~= completion(out, foff, bits, nib, hi, lebytes4(w) + rest));
        assert(enc_cond(bits, 32, bits));
        assert(xpress_decode_from(b, xpress_init()) == xpress_decode_from(
            b,
            enc_mid(out.len() as int, foff, bits, 32, nib, dout),
        ));
        lemma_refill_flags_any(b, out.len() as int, bits, 0, nib, dout);
    }
}

/// The two bytes of a match token with distance `dist` and 3-bit length field
/// `l3`.
pub open spec fn tok_bytes(dist: int, l3: int) -> Seq<u8> {
    seq![
        ((((dist - 1) * 8 + l3)) % 256) as u8,
        ((((dist - 1) * 8 + l3)) / 256) as u8,
    ]
}

/// The escape bytes emitted after the shared nibble for the remaining length
/// `rem1` (the match length minus 10): nothing, one extra byte, or the 255
/// marker followed by a 16-bit field holding the length minus 3.
pub open spec fn chain_bytes(rem1: int) -> Seq<u8> {
    if rem1 < 15 {
        Seq::empty()
    } else if rem1 - 15 < 255 {
        seq![(rem1 - 15) as u8]
    } else {
        seq![255u8, ((rem1 + 7) % 256) as u8, ((rem1 + 7) / 256) as u8]
    }
}

/// The nibble value for remaining length `rem1`: the value itself, or the
/// escape marker 15.
pub open spec fn nib_val(rem1: int) -> int {
    if rem1 < 15 {
        rem1
    } else {
        15
    }
}

/// The decoder recovers distance and 3-bit length field from a match token.
pub proof fn lemma_tok_split(dist: int, l3: int)
    requires
        1 <= dist <= 8192,
        0 <= l3 <= 7,
    ensures
        0 <= (dist - 1) * 8 + l3 < 0x1_0000,
        ((dist - 1) * 8 + l3) / 8 == dist - 1,
        ((dist - 1) * 8 + l3) % 8 == l3,
{
    assert(0 <= (dist - 1) * 8 <= 8191 * 8) by (nonlinear_arith)
        requires
            1 <= dist <= 8192,
    ;
    vstd::arithmetic::div_mod::lemma_fundamental_div_mod_converse((dist - 1) * 8 + l3, 8, dist - 1, l3);
}

/// Emitting a short match token (length below 10) preserves the compressor's
/// invariant.
pub proof fn lemma_enc_match_short(
    inp: Seq<u8>,
    consumed: int,
    out: Seq<u8>,
    foff: int,
    bits: int,
    count: int,
    nib: int,
    dist: int,
    mlen: int,
)
    requires
        enc_inv(inp, consumed, out, foff, bits, count, nib),
        0 <= count <= 31,
        match_at(inp, consumed, dist, mlen),
        mlen < 10,
    ensures
        enc_inv(
            inp,
            consumed + mlen,
            out + tok_bytes(dist, mlen - 3),
            foff,
            2 * bits + 1,
            count + 1,
            nib,
        ),
{
    let l3 = mlen - 3;
    let t = (dist - 1) * 8 + l3;
    let emitted = tok_bytes(dist, l3);
    let out2 = out + emitted;
    let dout = inp.subrange(0, consumed);
    lemma_tok_split(dist, l3);
    lemma_le16_parts(t);
    vstd::arithmetic::power2::lemma_pow2_unfold((count + 1) as nat);
    assert forall|w: int, hi: int, rest: Seq<u8>|
        enc_cond(w, count + 1, 2 * bits + 1) && 0 <= hi < 16 implies xpress_decode_from(
        #[trigger] completion(out2, foff, w, nib, hi, rest),
        xpress_init(),
    ) == xpress_decode_from(
        completion(out2, foff, w, nib, hi, rest),
        enc_mid(out2.len() as int, foff, w, count + 1, nib, inp.subrange(0, consumed + mlen)),
    ) by {
        lemma_cond_step(w, count, bits, 1);
        let b = completion(out2, foff, w, nib, hi, rest);
        lemma_completion_append(out, foff, w, nib, hi, emitted, rest);
        assert(b == completion(out, foff, w, nib, hi, emitted + rest));
        assert(xpress_decode_from(b, xpress_init()) == xpress_decode_from(
            b,
            enc_mid(out.len() as int, foff, w, count, nib, dout),
        ));
        lemma_completion_word(out, foff, w, nib, hi, emitted + rest);
        lemma_mid_to_token(b, out.len() as int, foff, w, count, nib, dout);
        let ti = out.len() as int;
        assert(b[ti] == emitted[0]);
        assert(b[ti + 1] == emitted[1]);
        assert(le16_at(b, ti) == t);
        assert(w / pow2i(32 - count - 1) % 2 == 1);
        assert(xpress_decode_token(b, ti, w, 32 - count, nib, dout) == xpress_copy_step(
            b,
            ti + 2,
            w,
            32 - count - 1,
            nib,
            dout,
            dist,
            mlen,
        ));
        lemma_lz_extend_replay(inp, consumed, dist, mlen);
        assert(xpress_copy_step(b, ti + 2, w, 32 - count - 1, nib, dout, dist, mlen)
            == xpress_decode_from(
            b,
            XpressState {
                i: ti + 2,
                flags: w,
                fcount: 32 - count - 1,
                nib,
                out: inp.subrange(0, consumed + mlen),
            },
        ));
        assert(XpressState {
            i: ti + 2,
            flags: w,
            fcount: 32 - count - 1,
            nib,
            out: inp.subrange(0, consumed + mlen),
        } == enc_mid(out2.len() as int, foff, w, count + 1, nib, inp.subrange(0, consumed + mlen)));
    }
}

/// What the decoder makes of the escape chain emitted for remaining length
/// `rem1`, entered at position `i` of `b` with the chain bytes laid out there.
proof fn lemma_chain_decode(
    b: Seq<u8>,
    i: int,
    w: int,
    fc: int,
    nib2: int,
    dout: Seq<u8>,
    dist: int,
    rem1: int,
)
    requires
        0 <= i,
        i + chain_bytes(rem1).len() <= b.len(),
        chain_bytes(rem1).len() >= 1 ==> b[i] == chain_bytes(rem1)[0],
        chain_bytes(rem1).len() >= 2 ==> b[i + 1] == chain_bytes(rem1)[1],
        chain_bytes(rem1).len() >= 3 ==> b[i + 2] == chain_bytes(rem1)[2],
        0 <= rem1,
        rem1 + 10 <= 8192,
    ensures
        xpress_ext_len(b, i, w, fc, nib2, dout, dist, nib_val(rem1)) == xpress_copy_step(
            b,
            i + chain_bytes(rem1).len(),
            w,
            fc,
            nib2,
            dout,
            dist,
            rem1 + 10,
        ),
{
    if rem1 < 15 {
    } else {
        let rem2 = rem1 - 15;
        assert(b[i] == chain_bytes(rem1)[0]);
        if rem2 < 255 {
            assert(b[i] == rem2 as u8);
        } else {
            let m16 = rem1 + 7;
            assert(b[i + 1] == ((m16 % 256) as u8));
            assert(b[i + 2] == ((m16 / 256) as u8));
            lemma_le16_parts(m16);
            assert(le16_at(b, i + 1) == m16);
        }
    }
}

/// Emitting a long match whose nibble starts a fresh shared byte preserves
/// the compressor's invariant; the new byte's position becomes the pending
/// nibble index.
#[verifier::rlimit(100)]
#[verifier::spinoff_prover]
pub proof fn lemma_enc_match_fresh(
    inp: Seq<u8>,
    consumed: int,
    out: Seq<u8>,
    foff: int,
    bits: int,
    count: int,
    dist: int,
    mlen: int,
)
    requires
        enc_inv(inp, consumed, out, foff, bits, count, 0),
        0 <= count <= 31,
        match_at(inp, consumed, dist, mlen),
        mlen >= 10,
    ensures
        enc_inv(
            inp,
            consumed + mlen,
            out + tok_bytes(dist, 7) + seq![(nib_val(mlen - 10) as u8)] + chain_bytes(mlen - 10),
            foff,
            2 * bits + 1,
            count + 1,
            out.len() as int + 2,
        ),
{
    let rem1 = mlen - 10;
    let t = (dist - 1) * 8 + 7;
    let v1 = nib_val(rem1);
    let chain = chain_bytes(rem1);
    let out2 = out + tok_bytes(dist, 7) + seq![(v1 as u8)] + chain;
    let nib2 = out.len() as int + 2;
    let dout = inp.subrange(0, consumed);
    let ti = out.len() as int;
    lemma_tok_split(dist, 7);
    lemma_le16_parts(t);
    vstd::arithmetic::power2::lemma_pow2_unfold((count + 1) as nat);
    assert(out2.len() == out.len() + 3 + chain.len());
    assert forall|w: int, hi: int, rest: Seq<u8>|
        enc_cond(w, count + 1, 2 * bits + 1) && 0 <= hi < 16 implies xpress_decode_from(
        #[trigger] completion(out2, foff, w, nib2, hi, rest),
        xpress_init(),
    ) == xpress_decode_from(
        completion(out2, foff, w, nib2, hi, rest),
        enc_mid(out2.len() as int, foff, w, count + 1, nib2, inp.subrange(0, consumed + mlen)),
    ) by {
        lemma_cond_step(w, count, bits, 1);
        let b = completion(out2, foff, w, nib2, hi, rest);
        let nibbed = ((v1 + 16 * hi) as u8);
        let emitted = tok_bytes(dist, 7) + seq![nibbed] + chain;
        assert(b =~= completion(out, foff, w, 0, 0, emitted + rest));
        assert(xpress_decode_from(b, xpress_init()) == xpress_decode_from(
            b,
            enc_mid(out.len() as int, foff, w, count, 0, dout),
        ));
        lemma_completion_word(out, foff, w, 0, 0, emitted + rest);
        lemma_mid_to_token(b, out.len() as int, foff, w, count, 0, dout);
        assert(b[ti] == emitted[0]);
        assert(b[ti + 1] == emitted[1]);
        assert(le16_at(b, ti) == t);
        assert(w / pow2i(32 - count - 1) % 2 == 1);
        assert(b[ti + 2] == nibbed);
        assert((nibbed as int) % 16 == v1) by {
            vstd::arithmetic::div_mod::lemma_fundamental_div_mod_converse(v1 + 16 * hi, 16, hi, v1);
        }
        assert(xpress_decode_token(b, ti, w, 32 - count, 0, dout) == xpress_ext_len(
            b,
            ti + 3,
            w,
            32 - count - 1,
            ti + 2,
            dout,
            dist,
            v1,
        ));
        if chain.len() >= 1 {
            assert(b[ti + 3] == emitted[3]);
        }
        if chain.len() >= 3 {
            assert(b[ti + 4] == emitted[4]);
            assert(b[ti + 5] == emitted[5]);
        }
        lemma_chain_decode(b, ti + 3, w, 32 - count - 1, ti + 2, dout, dist, rem1);
        lemma_lz_extend_replay(inp, consumed, dist, mlen);
        assert(xpress_copy_step(b, ti + 3 + chain.len(), w, 32 - count - 1, ti + 2, dout, dist, rem1
            + 10) == xpress_decode_from(
            b,
            XpressState {
                i: out2.len() as int,
                flags: w,
                fcount: 32 - count - 1,
                nib: ti + 2,
                out: inp.subrange(0, consumed + mlen),
            },
        ));
        assert(XpressState {
            i: out2.len() as int,
            flags: w,
            fcount: 32 - count - 1,
            nib: ti + 2,
            out: inp.subrange(0, consumed + mlen),
        } == enc_mid(out2.len() as int, foff, w, count + 1, nib2, inp.subrange(0, consumed + mlen)));
    }
}

/// Emitting a long match whose nibble fills the upper half of the pending
/// shared byte preserves the compressor's invariant; the pending nibble index
/// is cleared.
#[verifier::rlimit(100)]
#[verifier::spinoff_prover]
pub proof fn lemma_enc_match_patch(
    inp: Seq<u8>,
    consumed: int,
    out: Seq<u8>,
    foff: int,
    bits: int,
    count: int,
    nib: int,
    dist: int,
    mlen: int,
)
    requires
        enc_inv(inp, consumed, out, foff, bits, count, nib),
        0 <= count <= 31,
        match_at(inp, consumed, dist, mlen),
        mlen >= 10,
        nib != 0,
    ensures
        enc_inv(
            inp,
            consumed + mlen,
            out.update(nib, ((out[nib] + 16 * nib_val(mlen - 10)) as u8)) + tok_bytes(dist, 7)
                + chain_bytes(mlen - 10),
            foff,
            2 * bits + 1,
            count + 1,
            0,
        ),
{
    let rem1 = mlen - 10;
    let t = (dist - 1) * 8 + 7;
    let v1 = nib_val(rem1);
    let chain = chain_bytes(rem1);
    let patched = out.update(nib, ((out[nib] + 16 * v1) as u8));
    let out2 = patched + tok_bytes(dist, 7) + chain;
    let dout = inp.subrange(0, consumed);
    let ti = out.len() as int;
    lemma_tok_split(dist, 7);
    lemma_le16_parts(t);
    vstd::arithmetic::power2::lemma_pow2_unfold((count + 1) as nat);
    assert(out2.len() == out.len() + 2 + chain.len());
    assert forall|w: int, hi: int, rest: Seq<u8>|
        enc_cond(w, count + 1, 2 * bits + 1) && 0 <= hi < 16 implies xpress_decode_from(
        #[trigger] completion(out2, foff, w, 0, hi, rest),
        xpress_init(),
    ) == xpress_decode_from(
        completion(out2, foff, w, 0, hi, rest),
        enc_mid(out2.len() as int, foff, w, count + 1, 0, inp.subrange(0, consumed + mlen)),
    ) by {
        lemma_cond_step(w, count, bits, 1);
        let b = completion(out2, foff, w, 0, hi, rest);
        let emitted = tok_bytes(dist, 7) + chain;
        assert(b =~= completion(out, foff, w, nib, v1, emitted + rest));
        assert(xpress_decode_from(b, xpress_init()) == xpress_decode_from(
            b,
            enc_mid(out.len() as int, foff, w, count, nib, dout),
        ));
        lemma_completion_word(out, foff, w, nib, v1, emitted + rest);
        lemma_mid_to_token(b, out.len() as int, foff, w, count, nib, dout);
        assert(b[ti] == emitted[0]);
        assert(b[ti + 1] == emitted[1]);
        assert(le16_at(b, ti) == t);
        assert(w / pow2i(32 - count - 1) % 2 == 1);
        assert(b[nib] == ((out[nib] + 16 * v1) as u8));
        assert((b[nib] as int) / 16 == v1) by {
            vstd::arithmetic::div_mod::lemma_fundamental_div_mod_converse(
                out[nib] + 16 * v1,
                16,
                v1,
                out[nib] as int,
            );
        }
        assert(xpress_decode_token(b, ti, w, 32 - count, nib, dout) == xpress_ext_len(
            b,
            ti + 2,
            w,
            32 - count - 1,
            0,
            dout,
            dist,
            v1,
        ));
        if chain.len() >= 1 {
            assert(b[ti + 2] == emitted[2]);
        }
        if chain.len() >= 3 {
            assert(b[ti + 3] == emitted[3]);
            assert(b[ti + 4] == emitted[4]);
        }
        lemma_chain_decode(b, ti + 2, w, 32 - count - 1, 0, dout, dist, rem1);
        lemma_lz_extend_replay(inp, consumed, dist, mlen);
        assert(xpress_copy_step(b, ti + 2 + chain.len(), w, 32 - count - 1, 0, dout, dist, rem1
            + 10) == xpress_decode_from(
            b,
            XpressState {
                i: out2.len() as int,
                flags: w,
                fcount: 32 - count - 1,
                nib: 0,
                out: inp.subrange(0, consumed + mlen),
            },
        ));
        assert(XpressState {
            i: out2.len() as int,
            flags: w,
            fcount: 32 - count - 1,
            nib: 0,
            out: inp.subrange(0, consumed + mlen),
        } == enc_mid(out2.len() as int, foff, w, count + 1, 0, inp.subrange(0, consumed + mlen)));
    }
}

/// Extending the accumulated bits by `b` refines the constraint on the final
/// indicator word: the word still matches the old bits, and the decoder's next
/// bit test yields exactly `b`.
pub proof fn lemma_cond_step(w: int, count: int, bits: int, b: int)
    requires
        0 <= count <= 31,
        0 <= b <= 1,
        0 <= bits,
        enc_cond(w, count + 1, 2 * bits + b),
    ensures
        enc_cond(w, count, bits),
        w / pow2i(31 - count) % 2 == b,
{
    let p = pow2i(31 - count);
    vstd::arithmetic::power2::lemma_pow2_pos((31 - count) as nat);
    vstd::arithmetic::power2::lemma_pow2_unfold((32 - count) as nat);
    assert(pow2i(32 - count) == 2 * p);
    assert(w / p == 2 * bits + b);
    assert(w / (p * 2) == (w / p) / 2) by {
        vstd::arithmetic::div_mod::lemma_div_denominator(w, p, 2);
    }
    assert((2 * bits + b) / 2 == bits) by {
        vstd::arithmetic::div_mod::lemma_fundamental_div_mod_converse(2 * bits + b, 2, bits, b);
    }
    assert((2 * bits + b) % 2 == b) by {
        vstd::arithmetic::div_mod::lemma_fundamental_div_mod_converse(2 * bits + b, 2, bits, b);
    }
}

/// The number of bytes starting at `pos` that repeat the bytes `dist`
/// earlier, capped at `cap`.
#[verifier::opaque]
pub open spec fn match_len_at(inp: Seq<u8>, pos: int, dist: int, cap: int) -> int
    decreases cap,
{
    if cap <= 0 {
        0
    } else if inp[pos] == inp[pos - dist] {
        1 + match_len_at(inp, pos + 1, dist, cap - 1)
    } else {
        0
    }
}

/// A run of equal byte pairs followed by an unequal pair (or the cap) pins
/// the match length exactly.
proof fn lemma_match_len_eq(inp: Seq<u8>, pos: int, dist: int, cap: int, len: int)
    requires
        0 <= len <= cap,
        forall|q: int| pos <= q < pos + len ==> #[trigger] inp[q] == inp[q - dist],
        len < cap ==> inp[pos + len] != inp[pos + len - dist],
    ensures
        match_len_at(inp, pos, dist, cap) == len,
    decreases len,
{
    reveal(match_len_at);
    if len == 0 {
    } else {
        assert(inp[pos] == inp[pos - dist]);
        assert forall|q: int| pos + 1 <= q < pos + 1 + (len - 1) implies #[trigger] inp[q] == inp[q
            - dist] by {}
        lemma_match_len_eq(inp, pos + 1, dist, cap - 1, len - 1);
    }
}

/// The farthest offset the encoder searches before `pos`, capped at 8192.
pub open spec fn xpress_window(pos: int) -> int {
    if pos < 8192 {
        pos
    } else {
        8192
    }
}

/// The longest match the encoder can take at `pos`, capped at 8192.
pub open spec fn xpress_cap(inp: Seq<u8>, pos: int) -> int {
    if inp.len() - pos < 8192 {
        inp.len() - pos
    } else {
        8192
    }
}

/// The greedy scan over the offsets `d` to the window's edge, carrying the
/// best length and offset so far: a candidate replaces the best only when
/// strictly longer, so the nearest of equally long matches wins.
#[verifier::opaque]
pub open spec fn best_match_scan(
    inp: Seq<u8>,
    pos: int,
    d: int,
    best_len: int,
    best_off: int,
) -> (int, int)
    decreases crate::bytes::clip0(xpress_window(pos) - d + 1),
{
    if d > xpress_window(pos) {
        (best_len, best_off)
    } else {
        let l = match_len_at(inp, pos, d, xpress_cap(inp, pos));
        if l > best_len {
            best_match_scan(inp, pos, d + 1, l, d)
        } else {
            best_match_scan(inp, pos, d + 1, best_len, best_off)
        }
    }
}

/// The compressor's choice at `pos`: the length of the longest match in the
/// window and the nearest offset achieving it, or length 2 and offset 0 when
/// no offset matches three bytes.
pub open spec fn xpress_best_match(inp: Seq<u8>, pos: int) -> (int, int) {
    best_match_scan(inp, pos, 1, 2, 0)
}

/// Scans the window before `pos` for the longest match with the bytes at
/// `pos`, nearest offset first; a match is retained only when strictly longer
/// than the best so far, so the nearest of equally long matches wins.  Both
/// the window and the match length are capped at 8192.  The contract pins the
/// greedy choice: the returned length is the longest in the window, every
/// nearer offset matches strictly fewer bytes, and nothing is found only when
/// no offset matches three bytes.
fn find_best_match(in_buf: &[u8], pos: usize) -> (r: (bool, usize, usize))
    requires
        pos < in_buf@.len(),
    ensures
        ({
            let (found, mlen, dist) = r;
            let cap = if in_buf@.len() - pos < 8192 {
                in_buf@.len() - pos
            } else {
                8192
            };
            let window = if pos < 8192 {
                pos as int
            } else {
                8192
            };
            &&& found ==> match_at(in_buf@, pos as int, dist as int, mlen as int)
            &&& found ==> mlen == match_len_at(in_buf@, pos as int, dist as int, cap)
            &&& found ==> forall|d: int|
                1 <= d < dist ==> match_len_at(in_buf@, pos as int, d, cap) < mlen
            &&& found ==> forall|d: int|
                1 <= d <= window ==> match_len_at(in_buf@, pos as int, d, cap) <= mlen
            &&& !found ==> forall|d: int|
                1 <= d <= window ==> match_len_at(in_buf@, pos as int, d, cap) <= 2
            &&& xpress_best_match(in_buf@, pos as int) == (mlen as int, dist as int)
            &&& (found <==> dist != 0)
        }),
{
    let byte_left = in_buf.len() - pos;
    let max_off = if pos < 8192 {
        pos
    } else {
        8192
    };
    let max_len = if byte_left < 8192 {
        byte_left
    } else {
        8192
    };
    let mut found = false;
    let mut best_len: usize = 2;
    let mut match_off: usize = 0;
    let mut offset: usize = 1;
    while offset <= max_off
        invariant
            1 <= offset,
            max_off <= pos < in_buf@.len(),
            in_buf@.len() <= usize::MAX,
            max_off <= 8192,
            max_len <= 8192,
            pos + max_len <= in_buf@.len(),
            best_len >= 2,
            found ==> 1 <= match_off <= max_off && 3 <= best_len <= max_len && forall|q: int|
                pos <= q < pos + best_len ==> #[trigger] in_buf@[q] == in_buf@[q - match_off],
            found ==> best_len == match_len_at(
                in_buf@,
                pos as int,
                match_off as int,
                max_len as int,
            ),
            found ==> forall|d: int|
                1 <= d < match_off ==> match_len_at(in_buf@, pos as int, d, max_len as int)
                    < best_len,
            forall|d: int|
                1 <= d < offset ==> match_len_at(in_buf@, pos as int, d, max_len as int)
                    <= best_len,
            !found ==> best_len == 2,
            max_off as int == xpress_window(pos as int),
            max_len as int == xpress_cap(in_buf@, pos as int),
            best_match_scan(
                in_buf@,
                pos as int,
                offset as int,
                best_len as int,
                match_off as int,
            ) == xpress_best_match(in_buf@, pos as int),
            found <==> match_off != 0,
        decreases in_buf@.len() - offset,
    {
        let mut len: usize = 0;
        while len < max_len && in_buf[pos + len] == in_buf[pos - offset + len]
            invariant
                len <= max_len,
                1 <= offset <= pos,
                in_buf@.len() <= usize::MAX,
                pos + max_len <= in_buf@.len(),
                forall|q: int|
                    pos <= q < pos + len ==> #[trigger] in_buf@[q] == in_buf@[q - offset],
            decreases max_len - len,
        {
            len = len + 1;
        }
        proof {
            lemma_match_len_eq(in_buf@, pos as int, offset as int, max_len as int, len as int);
        }
        let ghost prev_best = best_len as int;
        let ghost prev_off = match_off as int;
        if len > best_len {
            found = true;
            best_len = len;
            match_off = offset;
        }
        proof {
            reveal(best_match_scan);
            assert(best_match_scan(in_buf@, pos as int, offset as int, prev_best, prev_off)
                == best_match_scan(
                in_buf@,
                pos as int,
                offset as int + 1,
                best_len as int,
                match_off as int,
            ));
        }
        offset = offset + 1;
    }
    proof {
        reveal(best_match_scan);
        assert(xpress_best_match(in_buf@, pos as int) == (best_len as int, match_off as int));
    }
    (found, best_len, match_off)
}

/// The output buffer after the bytes of one match are emitted: the 16-bit
/// little-endian token `(dist - 1) * 8 + min(mlen - 3, 7)`, and for a long
/// match the shared nibble (a fresh byte's low half, or the high half of the
/// byte pending at `nib`) followed by the escape bytes.
#[verifier::opaque]
pub open spec fn encode_match_out(out: Seq<u8>, nib: int, mlen: int, dist: int) -> Seq<u8> {
    if mlen - 3 < 7 {
        out + tok_bytes(dist, mlen - 3)
    } else {
        let rem1 = mlen - 10;
        if nib == 0 {
            out + tok_bytes(dist, 7) + seq![(nib_val(rem1) as u8)] + chain_bytes(rem1)
        } else {
            out.update(nib, ((out[nib] + 16 * nib_val(rem1)) as u8)) + tok_bytes(dist, 7)
                + chain_bytes(rem1)
        }
    }
}

/// The pending nibble position after one match is emitted.
#[verifier::opaque]
pub open spec fn encode_match_nib(out: Seq<u8>, nib: int, mlen: int) -> int {
    if mlen - 3 < 7 {
        nib
    } else if nib == 0 {
        out.len() as int + 2
    } else {
        0
    }
}

/// Rolls the indicator accumulator after a token: a full word is written into
/// its reserved slot and a fresh zeroed placeholder is appended at the end.
/// Returns the buffer, the placeholder offset, the bits and their count.
#[verifier::opaque]
pub open spec fn enc_roll(out: Seq<u8>, foff: int, bits: int, count: int) -> (
    Seq<u8>,
    int,
    int,
    int,
) {
    if count == 32 {
        (store32_at(out, foff, bits) + seq![0u8, 0u8, 0u8, 0u8], out.len() as int, 0, 0)
    } else {
        (out, foff, bits, count)
    }
}

/// The final indicator word: the accumulated bits in the high positions and
/// every unused low-order bit set to one; all ones when no bit was
/// accumulated into the reserved word.
#[verifier::opaque]
pub open spec fn seal_word(bits: int, count: int) -> int {
    if count == 0 {
        0xFFFF_FFFF
    } else {
        bits * pow2i(32 - count) + (pow2i(32 - count) - 1)
    }
}

/// The bytes the compressor emits from a mid-stream state on: at each
/// position the greedy choice decides between a match and a literal, the
/// indicator accumulator rolls after every token, and the final indicator
/// word is sealed once the input is consumed.
#[verifier::opaque]
pub open spec fn xpress_encode_step(
    inp: Seq<u8>,
    consumed: int,
    out: Seq<u8>,
    foff: int,
    bits: int,
    count: int,
    nib: int,
) -> Seq<u8>
    decreases in_left(inp, consumed),
{
    if consumed >= inp.len() {
        store32_at(out, foff, seal_word(bits, count))
    } else {
        let bm = xpress_best_match(inp, consumed);
        if bm.1 != 0 && bm.0 >= 3 {
            let r = enc_roll(encode_match_out(out, nib, bm.0, bm.1), foff, 2 * bits + 1, count + 1);
            xpress_encode_step(
                inp,
                consumed + bm.0,
                r.0,
                r.1,
                r.2,
                r.3,
                encode_match_nib(out, nib, bm.0),
            )
        } else {
            let r = enc_roll(out.push(inp[consumed]), foff, 2 * bits, count + 1);
            xpress_encode_step(inp, consumed + 1, r.0, r.1, r.2, r.3, nib)
        }
    }
}

/// Exactly the bytes `compress` emits for `inp`: a reserved 4-byte
/// little-endian indicator word, then for each token either one literal byte
/// or a match token with its escape bytes; a fresh reserved word follows
/// every 32nd token, each reserved word receives its 32 accumulated
/// indicator bits (bit 31 first) once they are complete, and the last one is
/// sealed with its unused low-order bits set to one.
pub open spec fn xpress_encode(inp: Seq<u8>) -> Seq<u8> {
    xpress_encode_step(inp, 0, seq![0u8, 0u8, 0u8, 0u8], 0, 0, 0, 0)
}

/// Appends the token and escape bytes of a match, threading the shared
/// nibble: a fresh byte's low half, or the high half of the pending one.
#[verifier::rlimit(100)]
#[verifier::spinoff_prover]
fn emit_match(
    out_buf: &mut Vec<u8>,
    nibble_index: &mut usize,
    best_len: usize,
    match_off: usize,
    Ghost(inp): Ghost<Seq<u8>>,
    Ghost(consumed): Ghost<int>,
    Ghost(foff): Ghost<int>,
    Ghost(bits): Ghost<int>,
    Ghost(count): Ghost<int>,
)
    requires
        enc_inv(inp, consumed, old(out_buf)@, foff, bits, count, *old(nibble_index) as int),
        0 <= count <= 31,
        match_at(inp, consumed, match_off as int, best_len as int),
    ensures
        enc_inv(
            inp,
            consumed + best_len,
            final(out_buf)@,
            foff,
            2 * bits + 1,
            count + 1,
            *final(nibble_index) as int,
        ),
        final(out_buf)@ == encode_match_out(
            old(out_buf)@,
            *old(nibble_index) as int,
            best_len as int,
            match_off as int,
        ),
        *final(nibble_index) as int == encode_match_nib(
            old(out_buf)@,
            *old(nibble_index) as int,
            best_len as int,
        ),
{
    proof {
        reveal(encode_match_out);
        reveal(encode_match_nib);
    }
    let ghost out0 = out_buf@;
    let m0 = best_len - 3;
    let l3 = if m0 < 7 {
        m0
    } else {
        7
    };
    let t = (match_off - 1) * 8 + l3;
    out_buf.push((t % 256) as u8);
    out_buf.push((t / 256) as u8);
    if m0 < 7 {
        proof {
            lemma_enc_match_short(
                inp,
                consumed,
                out0,
                foff,
                bits,
                count,
                *nibble_index as int,
                match_off as int,
                best_len as int,
            );
            assert(out_buf@ =~= out0 + tok_bytes(match_off as int, m0 as int));
        }
    } else {
        let rem1 = m0 - 7;
        let v1: u8 = if rem1 < 15 {
            rem1 as u8
        } else {
            15
        };
        let ghost fresh = (*nibble_index == 0);
        let ghost nib0 = *nibble_index as int;
        if *nibble_index == 0 {
            *nibble_index = out_buf.len();
            out_buf.push(v1);
        } else {
            proof {
                assert(out0[*nibble_index as int] < 16);
            }
            let idx = *nibble_index;
            let old_b = out_buf[idx];
            out_buf[idx] = old_b + 16 * v1;
            *nibble_index = 0;
        }
        if rem1 >= 15 {
            let rem2 = rem1 - 15;
            if rem2 < 255 {
                out_buf.push(rem2 as u8);
            } else {
                out_buf.push(255);
                out_buf.push((m0 % 256) as u8);
                out_buf.push((m0 / 256) as u8);
            }
        }
        proof {
            if fresh {
                lemma_enc_match_fresh(
                    inp,
                    consumed,
                    out0,
                    foff,
                    bits,
                    count,
                    match_off as int,
                    best_len as int,
                );
                assert(out_buf@ =~= out0 + tok_bytes(match_off as int, 7) + seq![
                    (nib_val(rem1 as int) as u8),
                ] + chain_bytes(rem1 as int));
                assert(*nibble_index as int == out0.len() + 2);
            } else {
                lemma_enc_match_patch(
                    inp,
                    consumed,
                    out0,
                    foff,
                    bits,
                    count,
                    nib0,
                    match_off as int,
                    best_len as int,
                );
                assert(out_buf@ =~= out0.update(
                    nib0,
                    ((out0[nib0] + 16 * nib_val(rem1 as int)) as u8),
                ) + tok_bytes(match_off as int, 7) + chain_bytes(rem1 as int));
            }
        }
    }
}

/// Writes a completed indicator word into its reserved slot and reserves a
/// fresh placeholder at the end of the output.
fn flush_word(
    out_buf: &mut Vec<u8>,
    flag_out_off: &mut usize,
    flags: u32,
    Ghost(inp): Ghost<Seq<u8>>,
    Ghost(consumed): Ghost<int>,
    Ghost(nib): Ghost<int>,
)
    requires
        enc_inv(inp, consumed, old(out_buf)@, *old(flag_out_off) as int, flags as int, 32, nib),
    ensures
        enc_inv(
            inp,
            consumed,
            final(out_buf)@,
            *final(flag_out_off) as int,
            0,
            0,
            nib,
        ),
        final(out_buf)@ == store32_at(old(out_buf)@, *old(flag_out_off) as int, flags as int)
            + seq![0u8, 0u8, 0u8, 0u8],
        *final(flag_out_off) as int == old(out_buf)@.len(),
{
    let ghost out0 = out_buf@;
    let ghost foff0 = *flag_out_off as int;
    proof {
        lemma_enc_flush(inp, consumed, out0, foff0, flags as int, nib);
    }
    let off = *flag_out_off;
    store_le32(out_buf, off, flags);
    *flag_out_off = out_buf.len();
    out_buf.push(0);
    out_buf.push(0);
    out_buf.push(0);
    out_buf.push(0);
    proof {
        assert(out_buf@ =~= store32_at(out0, foff0, flags as int) + seq![0u8, 0u8, 0u8, 0u8]);
    }
}

/// Patches the final indicator word once the whole input is consumed: its
/// unused low bits are set to one, so the decoder sees the end-of-stream
/// marker there.  After the patch the stream decodes to exactly the input.
#[verifier::rlimit(60)]
fn seal_stream(
    out_buf: &mut Vec<u8>,
    flag_out_off: usize,
    flags: u32,
    flag_count: u32,
    Ghost(inp): Ghost<Seq<u8>>,
    Ghost(nib): Ghost<int>,
)
    requires
        enc_inv(
            inp,
            inp.len() as int,
            old(out_buf)@,
            flag_out_off as int,
            flags as int,
            flag_count as int,
            nib,
        ),
        flag_count <= 31,
    ensures
        xpress_decode(final(out_buf)@) == Ok::<Seq<u8>, Error>(inp),
        final(out_buf)@ == store32_at(
            old(out_buf)@,
            flag_out_off as int,
            seal_word(flags as int, flag_count as int),
        ),
{
    proof {
        reveal(seal_word);
    }
    let ghost outp = out_buf@;
    let ghost dout = inp.subrange(0, inp.len() as int);
    let word: u32;
    if flag_count == 0 {
        word = 0xFFFF_FFFFu32;
        proof {
            lemma_pow2i_values();
            vstd::arithmetic::div_mod::lemma_basic_div(0xFFFF_FFFF, 0x1_0000_0000);
            assert(enc_cond(word as int, 0, 0));
        }
    } else {
        let p = pow2_u32(32 - flag_count);
        proof {
            lemma_pow2i_values();
            vstd::arithmetic::power2::lemma_pow2_adds(flag_count as nat, (32 - flag_count) as nat);
            assert(flags as int * p as int <= pow2i(32) - p as int) by (nonlinear_arith)
                requires
                    0 <= flags as int <= pow2i(flag_count as int) - 1,
                    p as int == pow2i(32 - flag_count as int),
                    pow2i(flag_count as int) * pow2i(32 - flag_count as int) == pow2i(32),
                    p >= 1,
            ;
        }
        word = flags * p + (p - 1);
        proof {
            vstd::arithmetic::div_mod::lemma_fundamental_div_mod_converse(
                word as int,
                p as int,
                flags as int,
                p as int - 1,
            );
            assert(enc_cond(word as int, flag_count as int, flags as int));
            assert(word as int == seal_word(flags as int, flag_count as int));
        }
    }
    store_le32(out_buf, flag_out_off, word);
    proof {
        lemma_pow2i_values();
        let b = completion(outp, flag_out_off as int, word as int, nib, 0, Seq::empty());
        assert(out_buf@ =~= b);
        assert(dout =~= inp);
        assert(xpress_decode_from(b, xpress_init()) == xpress_decode_from(
            b,
            enc_mid(
                outp.len() as int,
                flag_out_off as int,
                word as int,
                flag_count as int,
                nib,
                dout,
            ),
        ));
        if flag_count == 0 {
            lemma_completion_word(outp, flag_out_off as int, word as int, nib, 0, Seq::empty());
            assert(0xFFFF_FFFF as int / pow2i(31) == 1) by {
                vstd::arithmetic::div_mod::lemma_fundamental_div_mod_converse(
                    0xFFFF_FFFF,
                    0x8000_0000,
                    1,
                    0x7FFF_FFFF,
                );
            }
            assert(xpress_decode_from(
                b,
                enc_mid(outp.len() as int, flag_out_off as int, word as int, 0, nib, dout),
            ) == Ok::<Seq<u8>, Error>(dout));
        } else {
            assert(xpress_decode_from(
                b,
                enc_mid(
                    outp.len() as int,
                    flag_out_off as int,
                    word as int,
                    flag_count as int,
                    nib,
                    dout,
                ),
            ) == Ok::<Seq<u8>, Error>(dout));
        }
    }
}

/// Compresses `in_buf` into a flat LZXPRESS stream: a greedy single pass that
/// emits a literal or the longest nearest match at each position and
/// accumulates indicator bits into 32-bit words written back into reserved
/// placeholders; the unused bits of the last word are padded with ones.  It
/// always succeeds, and the contract pins the output byte for byte: the
/// result is exactly `xpress_encode(in_buf)`, whose definition lays out the
/// leading reserved word, one word per 32 tokens, the token and escape
/// encodings and the final padding -- and it decodes back to `in_buf`.
pub fn compress(in_buf: &[u8]) -> (r: Result<Vec<u8>, Error>)
    ensures
        match r {
            Ok(c) => xpress_decode(c@) == Ok::<Seq<u8>, Error>(in_buf@) && c@ == xpress_encode(
                in_buf@,
            ),
            Err(_) => false,
        },
{
    let mut out_buf: Vec<u8> = Vec::new();
    out_buf.push(0);
    out_buf.push(0);
    out_buf.push(0);
    out_buf.push(0);
    let mut in_idx: usize = 0;
    let mut flags: u32 = 0;
    let mut flag_count: u32 = 0;
    let mut flag_out_off: usize = 0;
    let mut nibble_index: usize = 0;

    proof {
        lemma_pow2i_values();
        assert(in_buf@.subrange(0, 0) =~= Seq::<u8>::empty());
        assert forall|w: int, hi: int, rest: Seq<u8>|
            enc_cond(w, 0, 0) && 0 <= hi < 16 implies xpress_decode_from(
            #[trigger] completion(out_buf@, 0, w, 0, hi, rest),
            xpress_init(),
        ) == xpress_decode_from(
            completion(out_buf@, 0, w, 0, hi, rest),
            enc_mid(out_buf@.len() as int, 0, w, 0, 0, in_buf@.subrange(0, 0)),
        ) by {
            assert(enc_mid(out_buf@.len() as int, 0, w, 0, 0, in_buf@.subrange(0, 0))
                == xpress_init());
        }
        assert(enc_inv(in_buf@, 0, out_buf@, 0, 0, 0, 0));
        assert(out_buf@ =~= seq![0u8, 0u8, 0u8, 0u8]);
    }

    while in_idx < in_buf.len()
        invariant
            in_idx <= in_buf@.len(),
            flag_count <= 31,
            enc_inv(
                in_buf@,
                in_idx as int,
                out_buf@,
                flag_out_off as int,
                flags as int,
                flag_count as int,
                nibble_index as int,
            ),
            xpress_encode_step(
                in_buf@,
                in_idx as int,
                out_buf@,
                flag_out_off as int,
                flags as int,
                flag_count as int,
                nibble_index as int,
            ) == xpress_encode(in_buf@),
        decreases in_buf@.len() - in_idx,
    {
        let ghost idx0 = in_idx as int;
        let ghost out0 = out_buf@;
        let ghost foff0 = flag_out_off as int;
        let ghost bits0 = flags as int;
        let ghost count0 = flag_count as int;
        let ghost nib0 = nibble_index as int;
        proof {
            lemma_pow2i_values();
            if flag_count < 31 {
                vstd::arithmetic::power2::lemma_pow2_strictly_increases(flag_count as nat, 31);
            }
            assert(flags < 0x8000_0000);
        }
        let (found, best_len, match_off) = find_best_match(in_buf, in_idx);
        if !found {
            let b = in_buf[in_idx];
            out_buf.push(b);
            proof {
                lemma_enc_literal(
                    in_buf@,
                    in_idx as int,
                    out0,
                    flag_out_off as int,
                    flags as int,
                    flag_count as int,
                    nibble_index as int,
                );
            }
            in_idx = in_idx + 1;
            flags = flags * 2;
            flag_count = flag_count + 1;
        } else {
            emit_match(
                &mut out_buf,
                &mut nibble_index,
                best_len,
                match_off,
                Ghost(in_buf@),
                Ghost(in_idx as int),
                Ghost(flag_out_off as int),
                Ghost(flags as int),
                Ghost(flag_count as int),
            );
            in_idx = in_idx + best_len;
            flags = flags * 2 + 1;
            flag_count = flag_count + 1;
        }
        let ghost out_tok = out_buf@;
        let ghost bits_tok = flags as int;
        let ghost count_tok = flag_count as int;
        let ghost nib_tok = nibble_index as int;
        if flag_count == 32 {
            flush_word(
                &mut out_buf,
                &mut flag_out_off,
                flags,
                Ghost(in_buf@),
                Ghost(in_idx as int),
                Ghost(nibble_index as int),
            );
            flags = 0;
            flag_count = 0;
        }
        proof {
            reveal(xpress_encode_step);
            reveal(enc_roll);
            let r = enc_roll(out_tok, foff0, bits_tok, count_tok);
            assert(out_buf@ == r.0 && flag_out_off as int == r.1 && flags as int == r.2
                && flag_count as int == r.3);
            if found {
                assert(out_tok == encode_match_out(out0, nib0, best_len as int, match_off as int));
                assert(nib_tok == encode_match_nib(out0, nib0, best_len as int));
            } else {
                assert(out_tok == out0.push(in_buf@[idx0]));
            }
            assert(xpress_encode_step(in_buf@, idx0, out0, foff0, bits0, count0, nib0)
                == xpress_encode_step(
                in_buf@,
                in_idx as int,
                out_buf@,
                flag_out_off as int,
                flags as int,
                flag_count as int,
                nibble_index as int,
            ));
        }
    }

    let ghost out_end = out_buf@;
    let ghost foff_end = flag_out_off as int;
    let ghost bits_end = flags as int;
    let ghost count_end = flag_count as int;
    seal_stream(
        &mut out_buf,
        flag_out_off,
        flags,
        flag_count,
        Ghost(in_buf@),
        Ghost(nibble_index as int),
    );
    proof {
        reveal(xpress_encode_step);
        assert(out_buf@ == store32_at(out_end, foff_end, seal_word(bits_end, count_end)));
        assert(out_buf@ == xpress_encode(in_buf@));
    }
    Ok(out_buf)
}

} // verus!
