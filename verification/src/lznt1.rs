//! The chunked LZNT1 decoder: 2-byte chunk headers, 8-bit flag bytes, and
//! copy tokens whose offset/length bit split depends on how many bytes the
//! current chunk has produced so far.

use vstd::prelude::*;

use crate::bytes::clip0;
use crate::bytes::le16_at;
use crate::bytes::lemma_lz_extend_len;
use crate::bytes::lz_copy;
use crate::bytes::lz_extend;
use crate::bytes::pow2_u32;
use crate::bytes::pow2i;
use crate::bytes::read_le16;

pub use crate::error::Error;

verus! {

/// How many bits the copy-token length mask has lost after `pos` bytes of
/// chunk output (`pos` already has 1 subtracted): one for each halving that
/// brings `pos` below 16.
pub open spec fn lznt1_split_steps(pos: int) -> int
    decreases pos,
{
    if pos < 16 {
        0
    } else {
        1 + lznt1_split_steps(pos / 2)
    }
}

proof fn lemma_split_steps_nonneg(pos: int)
    ensures
        lznt1_split_steps(pos) >= 0,
    decreases pos,
{
    if pos >= 16 {
        lemma_split_steps_nonneg(pos / 2);
    }
}

/// The same, capped at 12: the length mask never loses more than its 12 bits,
/// and the offset shift never goes below zero.
pub open spec fn lznt1_shift(pos: int) -> int {
    if lznt1_split_steps(pos) > 12 {
        12
    } else {
        lznt1_split_steps(pos)
    }
}

/// Decodes the tokens of one compressed chunk: `cend` is where the chunk's
/// payload ends, `flags` the current flag byte of which bit `fbit` selects the
/// next token, and `obase` the output length at the chunk's start.  Reaching
/// the payload end, before a token or before a fresh flag byte, ends the
/// chunk; a token may straddle `cend`, but never the end of the input.  The
/// offset/length bit split is recomputed at every copy token from the bytes
/// this chunk has produced; before the first byte it stays at the full
/// 12-bit length mask.
pub open spec fn lznt1_tokens(
    inp: Seq<u8>,
    cend: int,
    i: int,
    flags: int,
    fbit: int,
    out: Seq<u8>,
    obase: int,
) -> Result<Seq<u8>, Error>
    decreases clip0(cend - i),
{
    if i >= cend {
        Ok(out)
    } else {
        let step: Result<(int, Seq<u8>), Error> = if flags / pow2i(fbit) % 2 == 0 {
            Ok((i + 1, out.push(inp[i])))
        } else {
            if i + 2 > inp.len() {
                Err(Error::MemLimit)
            } else {
                let tok = le16_at(inp, i);
                let pos = if out.len() == obase {
                    0
                } else {
                    out.len() - obase - 1
                };
                let div = pow2i(12 - lznt1_shift(pos));
                let mlen = tok % div + 3;
                let dist = tok / div + 1;
                if dist > out.len() {
                    Err(Error::CorruptedData)
                } else {
                    Ok((i + 2, lz_extend(out, dist, mlen)))
                }
            }
        };
        match step {
            Err(e) => Err(e),
            Ok((i2, out2)) => {
                let fbit2 = (fbit + 1) % 8;
                if fbit2 == 0 {
                    if i2 >= cend {
                        Ok(out2)
                    } else {
                        lznt1_tokens(inp, cend, i2 + 1, inp[i2] as int, 0, out2, obase)
                    }
                } else {
                    lznt1_tokens(inp, cend, i2, flags, fbit2, out2, obase)
                }
            },
        }
    }
}

/// Decodes the chunks of an LZNT1 stream from position `i` onwards: a 2-byte
/// little-endian header per chunk, bit 15 the compressed flag and the low 12
/// bits the payload length minus one; after each chunk the cursor
/// resynchronizes to exactly the end of the payload.
pub open spec fn lznt1_chunks(inp: Seq<u8>, i: int, out: Seq<u8>) -> Result<Seq<u8>, Error>
    decreases clip0(inp.len() - i),
{
    if i >= inp.len() {
        Ok(out)
    } else if i + 2 > inp.len() {
        Err(Error::MemLimit)
    } else {
        let header = le16_at(inp, i);
        let clen = header % 4096 + 1;
        if clen > inp.len() - (i + 2) {
            Err(Error::MemLimit)
        } else {
            let step = if header / 32768 == 1 {
                lznt1_tokens(inp, i + 2 + clen, i + 3, inp[i + 2] as int, 0, out, out.len() as int)
            } else {
                Ok(out + inp.subrange(i + 2, i + 2 + clen))
            };
            match step {
                Err(e) => Err(e),
                Ok(out2) => lznt1_chunks(inp, i + 2 + clen, out2),
            }
        }
    }
}

/// What decoding one chunk leaves for the rest of the stream.
pub open spec fn lznt1_chunk_cont(
    inp: Seq<u8>,
    cend: int,
    step: Result<Seq<u8>, Error>,
) -> Result<Seq<u8>, Error> {
    match step {
        Err(e) => Err(e),
        Ok(out2) => lznt1_chunks(inp, cend, out2),
    }
}

/// The result of decoding `inp` as an LZNT1 stream.
pub open spec fn lznt1_decode(inp: Seq<u8>) -> Result<Seq<u8>, Error> {
    lznt1_chunks(inp, 0, Seq::empty())
}

/// Decodes an LZNT1 stream, appending to `out_buf`; back-references may reach
/// into bytes that were already in `out_buf`, and on every path -- success or
/// error -- the bytes that were in `out_buf` stay in place.  Returns exactly
/// what the format's decode relation assigns: `MemLimit` where a header,
/// payload or token would cross the end of the input, `CorruptedData` where a
/// back-reference reaches before the start of the output.
#[verifier::rlimit(60)]
pub fn decompress2_push(in_buf: &[u8], out_buf: &mut Vec<u8>) -> (r: Result<(), Error>)
    ensures
        match (r, lznt1_chunks(in_buf@, 0, old(out_buf)@)) {
            (Ok(()), Ok(s)) => final(out_buf)@ == s,
            (Err(e), Err(se)) => e == se,
            _ => false,
        },
        old(out_buf)@.len() <= final(out_buf)@.len(),
        final(out_buf)@.subrange(0, old(out_buf)@.len() as int) == old(out_buf)@,
{
    let ghost goal = lznt1_chunks(in_buf@, 0, old(out_buf)@);
    let in_len = in_buf.len();
    proof {
        assert(in_len == in_buf@.len());
    }
    let mut in_idx: usize = 0;
    while in_idx < in_buf.len()
        invariant
            in_idx <= in_buf@.len(),
            in_buf@.len() <= usize::MAX,
            goal == lznt1_chunks(in_buf@, 0, old(out_buf)@),
            old(out_buf)@.len() <= out_buf@.len(),
            out_buf@.subrange(0, old(out_buf)@.len() as int) == old(out_buf)@,
            lznt1_chunks(in_buf@, in_idx as int, out_buf@) == goal,
        decreases in_buf@.len() - in_idx,
    {
        if in_buf.len() - in_idx < 2 {
            assert(goal == Err::<Seq<u8>, Error>(Error::MemLimit));
            return Err(Error::MemLimit);
        }
        let header = read_le16(in_buf, in_idx) as usize;
        in_idx = in_idx + 2;
        let chunk_len = header % 4096 + 1;
        if chunk_len > in_buf.len() - in_idx {
            assert(goal == Err::<Seq<u8>, Error>(Error::MemLimit));
            return Err(Error::MemLimit);
        }
        let cend = in_idx + chunk_len;
        if header / 32768 == 1 {
            let out_base = out_buf.len();
            let mut flags = in_buf[in_idx];
            let mut flag_bit: u32 = 0;
            in_idx = in_idx + 1;
            while in_idx < cend
                invariant
                    in_buf@.len() <= usize::MAX,
                    cend <= in_buf@.len(),
                    in_idx <= cend + 1,
                    flag_bit < 8,
                    out_base <= out_buf@.len(),
                    goal == lznt1_chunks(in_buf@, 0, old(out_buf)@),
                    old(out_buf)@.len() <= out_buf@.len(),
                    out_buf@.subrange(0, old(out_buf)@.len() as int) == old(out_buf)@,
                    lznt1_chunk_cont(
                        in_buf@,
                        cend as int,
                        lznt1_tokens(
                            in_buf@,
                            cend as int,
                            in_idx as int,
                            flags as int,
                            flag_bit as int,
                            out_buf@,
                            out_base as int,
                        ),
                    ) == goal,
                decreases cend + 1 - in_idx,
            {
                let bit = ((flags as u32) / pow2_u32(flag_bit)) % 2;
                if bit == 0 {
                    let b = in_buf[in_idx];
                    out_buf.push(b);
                    in_idx = in_idx + 1;
                    proof {
                        assert(out_buf@.subrange(0, old(out_buf)@.len() as int) =~= old(
                            out_buf,
                        )@);
                    }
                } else {
                    if in_buf.len() - in_idx < 2 {
                        assert(goal == Err::<Seq<u8>, Error>(Error::MemLimit));
                        return Err(Error::MemLimit);
                    }
                    let tok = read_le16(in_buf, in_idx) as usize;
                    in_idx = in_idx + 2;
                    let produced = out_buf.len();
                    let ghost pos0 = if produced == out_base {
                        0int
                    } else {
                        produced as int - out_base as int - 1
                    };
                    let mut pos: usize = if produced == out_base {
                        0
                    } else {
                        produced - out_base - 1
                    };
                    let mut k: u32 = 0;
                    while pos >= 16 && k < 12
                        invariant
                            k <= 12,
                            pos >= 0,
                            lznt1_split_steps(pos0) == k + lznt1_split_steps(pos as int),
                        decreases pos,
                    {
                        pos = pos / 2;
                        k = k + 1;
                    }
                    proof {
                        if k < 12 {
                            assert(lznt1_split_steps(pos as int) == 0);
                        } else {
                            lemma_split_steps_nonneg(pos as int);
                        }
                        assert(lznt1_shift(pos0) == k as int);
                    }
                    let div = pow2_u32(12 - k);
                    proof {
                        if 12 - k < 12 {
                            vstd::arithmetic::power2::lemma_pow2_strictly_increases(
                                (12 - k) as nat,
                                12,
                            );
                        }
                        vstd::arithmetic::power2::lemma2_to64();
                        assert(div <= 4096);
                        vstd::arithmetic::div_mod::lemma_div_nonincreasing(tok as int, div as int);
                    }
                    let mlen = tok % (div as usize) + 3;
                    let dist = tok / (div as usize) + 1;
                    if dist > out_buf.len() {
                        assert(goal == Err::<Seq<u8>, Error>(Error::CorruptedData));
                        return Err(Error::CorruptedData);
                    }
                    let ghost out_pre = out_buf@;
                    lz_copy(out_buf, dist, mlen as u64);
                    proof {
                        crate::bytes::lemma_lz_extend_prefix(out_pre, dist as int, mlen as int);
                        assert(out_buf@.subrange(0, old(out_buf)@.len() as int) =~= old(
                            out_buf,
                        )@);
                    }
                }
                flag_bit = (flag_bit + 1) % 8;
                if flag_bit == 0 && in_idx < cend {
                    flags = in_buf[in_idx];
                    in_idx = in_idx + 1;
                }
            }
            assert(lznt1_chunks(in_buf@, cend as int, out_buf@) == goal);
            in_idx = cend;
        } else {
            let ghost pre = out_buf@;
            let mut k: usize = 0;
            while k < chunk_len
                invariant
                    k <= chunk_len,
                    in_buf@.len() <= usize::MAX,
                    in_idx + chunk_len <= in_buf@.len(),
                    out_buf@ == pre + in_buf@.subrange(in_idx as int, in_idx as int + k),
                decreases chunk_len - k,
            {
                let b = in_buf[in_idx + k];
                out_buf.push(b);
                k = k + 1;
                proof {
                    assert(out_buf@ =~= pre + in_buf@.subrange(in_idx as int, in_idx as int + k));
                }
            }
            assert(lznt1_chunks(in_buf@, cend as int, out_buf@) == goal);
            in_idx = cend;
        }
    }
    assert(goal == Ok::<Seq<u8>, Error>(out_buf@));
    Ok(())
}

/// The decoder state at a flag-byte boundary: the chunk is done when the
/// payload is exhausted, and otherwise the byte at `i` becomes the next flag
/// byte.
pub open spec fn lznt1_flag_boundary(
    inp: Seq<u8>,
    cend: int,
    i: int,
    out: Seq<u8>,
    obase: int,
) -> Result<Seq<u8>, Error> {
    if i >= cend {
        Ok(out)
    } else {
        lznt1_tokens(inp, cend, i + 1, inp[i] as int, 0, out, obase)
    }
}

/// The older shape of the growable LZNT1 decoder, which takes each flag byte
/// at the head of its group of eight tokens; it decodes exactly the same
/// relation as `decompress2_push`.
#[verifier::rlimit(60)]
pub fn decompress2_push_old(in_buf: &[u8], out_buf: &mut Vec<u8>) -> (r: Result<(), Error>)
    ensures
        match (r, lznt1_chunks(in_buf@, 0, old(out_buf)@)) {
            (Ok(()), Ok(s)) => final(out_buf)@ == s,
            (Err(e), Err(se)) => e == se,
            _ => false,
        },
        old(out_buf)@.len() <= final(out_buf)@.len(),
        final(out_buf)@.subrange(0, old(out_buf)@.len() as int) == old(out_buf)@,
{
    let ghost goal = lznt1_chunks(in_buf@, 0, old(out_buf)@);
    let in_len = in_buf.len();
    proof {
        assert(in_len == in_buf@.len());
    }
    let mut in_idx: usize = 0;
    while in_idx < in_buf.len()
        invariant
            in_idx <= in_buf@.len(),
            in_buf@.len() <= usize::MAX,
            goal == lznt1_chunks(in_buf@, 0, old(out_buf)@),
            old(out_buf)@.len() <= out_buf@.len(),
            out_buf@.subrange(0, old(out_buf)@.len() as int) == old(out_buf)@,
            lznt1_chunks(in_buf@, in_idx as int, out_buf@) == goal,
        decreases in_buf@.len() - in_idx,
    {
        if in_buf.len() - in_idx < 2 {
            assert(goal == Err::<Seq<u8>, Error>(Error::MemLimit));
            return Err(Error::MemLimit);
        }
        let header = read_le16(in_buf, in_idx) as usize;
        in_idx = in_idx + 2;
        let block_len = header % 4096 + 1;
        if block_len > in_buf.len() - in_idx {
            assert(goal == Err::<Seq<u8>, Error>(Error::MemLimit));
            return Err(Error::MemLimit);
        }
        let cend = in_idx + block_len;
        if header / 32768 == 1 {
            let out_base = out_buf.len();
            let mut flags: u8 = 0;
            let mut flag_bit: u32 = 0;
            while in_idx < cend || flag_bit != 0
                invariant
                    in_buf@.len() <= usize::MAX,
                    cend <= in_buf@.len(),
                    in_idx <= cend + 1,
                    flag_bit < 8,
                    out_base <= out_buf@.len(),
                    goal == lznt1_chunks(in_buf@, 0, old(out_buf)@),
                    old(out_buf)@.len() <= out_buf@.len(),
                    out_buf@.subrange(0, old(out_buf)@.len() as int) == old(out_buf)@,
                    flag_bit == 0 ==> lznt1_chunk_cont(
                        in_buf@,
                        cend as int,
                        lznt1_flag_boundary(
                            in_buf@,
                            cend as int,
                            in_idx as int,
                            out_buf@,
                            out_base as int,
                        ),
                    ) == goal,
                    flag_bit != 0 ==> in_idx <= cend + 1 && lznt1_chunk_cont(
                        in_buf@,
                        cend as int,
                        lznt1_tokens(
                            in_buf@,
                            cend as int,
                            in_idx as int,
                            flags as int,
                            flag_bit as int,
                            out_buf@,
                            out_base as int,
                        ),
                    ) == goal,
                ensures
                    lznt1_chunks(in_buf@, cend as int, out_buf@) == goal,
                decreases cend + 1 - in_idx, 8 - flag_bit,
            {
                if flag_bit == 0 {
                    if in_idx >= cend {
                        break;
                    }
                    flags = in_buf[in_idx];
                    in_idx = in_idx + 1;
                    if in_idx >= cend {
                        break;
                    }
                } else {
                    if in_idx >= cend {
                        break;
                    }
                }
                let bit = ((flags as u32) / pow2_u32(flag_bit)) % 2;
                if bit == 0 {
                    let b = in_buf[in_idx];
                    out_buf.push(b);
                    in_idx = in_idx + 1;
                    proof {
                        assert(out_buf@.subrange(0, old(out_buf)@.len() as int) =~= old(
                            out_buf,
                        )@);
                    }
                } else {
                    if in_buf.len() - in_idx < 2 {
                        assert(goal == Err::<Seq<u8>, Error>(Error::MemLimit));
                        return Err(Error::MemLimit);
                    }
                    let tok = read_le16(in_buf, in_idx) as usize;
                    in_idx = in_idx + 2;
                    let produced = out_buf.len();
                    let ghost pos0 = if produced == out_base {
                        0int
                    } else {
                        produced as int - out_base as int - 1
                    };
                    let mut pos: usize = if produced == out_base {
                        0
                    } else {
                        produced - out_base - 1
                    };
                    let mut k: u32 = 0;
                    while pos >= 16 && k < 12
                        invariant
                            k <= 12,
                            lznt1_split_steps(pos0) == k + lznt1_split_steps(pos as int),
                        decreases pos,
                    {
                        pos = pos / 2;
                        k = k + 1;
                    }
                    proof {
                        if k < 12 {
                            assert(lznt1_split_steps(pos as int) == 0);
                        } else {
                            lemma_split_steps_nonneg(pos as int);
                        }
                        assert(lznt1_shift(pos0) == k as int);
                    }
                    let div = pow2_u32(12 - k);
                    proof {
                        if 12 - k < 12 {
                            vstd::arithmetic::power2::lemma_pow2_strictly_increases(
                                (12 - k) as nat,
                                12,
                            );
                        }
                        vstd::arithmetic::power2::lemma2_to64();
                        assert(div <= 4096);
                        vstd::arithmetic::div_mod::lemma_div_nonincreasing(tok as int, div as int);
                    }
                    let length = tok % (div as usize) + 3;
                    let offset = tok / (div as usize) + 1;
                    if offset > out_buf.len() {
                        assert(goal == Err::<Seq<u8>, Error>(Error::CorruptedData));
                        return Err(Error::CorruptedData);
                    }
                    let ghost out_pre = out_buf@;
                    lz_copy(out_buf, offset, length as u64);
                    proof {
                        crate::bytes::lemma_lz_extend_prefix(out_pre, offset as int, length as int);
                        assert(out_buf@.subrange(0, old(out_buf)@.len() as int) =~= old(
                            out_buf,
                        )@);
                    }
                }
                flag_bit = (flag_bit + 1) % 8;
            }
            assert(lznt1_chunks(in_buf@, cend as int, out_buf@) == goal);
            in_idx = cend;
        } else {
            let ghost pre = out_buf@;
            let mut k: usize = 0;
            while k < block_len
                invariant
                    k <= block_len,
                    in_buf@.len() <= usize::MAX,
                    in_idx + block_len <= in_buf@.len(),
                    out_buf@ == pre + in_buf@.subrange(in_idx as int, in_idx as int + k),
                decreases block_len - k,
            {
                let b = in_buf[in_idx + k];
                out_buf.push(b);
                k = k + 1;
                proof {
                    assert(out_buf@ =~= pre + in_buf@.subrange(in_idx as int, in_idx as int + k));
                }
            }
            assert(lznt1_chunks(in_buf@, cend as int, out_buf@) == goal);
            in_idx = cend;
        }
    }
    assert(goal == Ok::<Seq<u8>, Error>(out_buf@));
    Ok(())
}

/// Decompresses an LZNT1 stream into a fresh growable buffer.
pub fn decompress(in_buf: &[u8]) -> (r: Result<Vec<u8>, Error>)
    ensures
        match (r, lznt1_decode(in_buf@)) {
            (Ok(v), Ok(s)) => v@ == s,
            (Err(e), Err(se)) => e == se,
            _ => false,
        },
{
    let mut out_buf: Vec<u8> = Vec::with_capacity(in_buf.len());
    proof {
        assert(out_buf@ =~= Seq::<u8>::empty());
    }
    match decompress2_push(in_buf, &mut out_buf) {
        Ok(()) => Ok(out_buf),
        Err(e) => Err(e),
    }
}

/// The fixed-capacity variant of the token decoder: a literal that would pass
/// `cap` is a hard error, while an over-long copy is silently clamped to the
/// remaining capacity.
pub open spec fn lznt1_fixed_tokens(
    inp: Seq<u8>,
    cend: int,
    i: int,
    flags: int,
    fbit: int,
    out: Seq<u8>,
    obase: int,
    cap: int,
) -> Result<Seq<u8>, Error>
    decreases clip0(cend - i),
{
    if i >= cend {
        Ok(out)
    } else {
        let step: Result<(int, Seq<u8>), Error> = if flags / pow2i(fbit) % 2 == 0 {
            if out.len() >= cap {
                Err(Error::MemLimit)
            } else {
                Ok((i + 1, out.push(inp[i])))
            }
        } else {
            if i + 2 > inp.len() {
                Err(Error::MemLimit)
            } else {
                let tok = le16_at(inp, i);
                let pos = if out.len() == obase {
                    0
                } else {
                    out.len() - obase - 1
                };
                let div = pow2i(12 - lznt1_shift(pos));
                let mlen = tok % div + 3;
                let dist = tok / div + 1;
                if dist > out.len() {
                    Err(Error::CorruptedData)
                } else {
                    let mlen2 = if out.len() + mlen >= cap {
                        cap - out.len()
                    } else {
                        mlen
                    };
                    Ok((i + 2, lz_extend(out, dist, mlen2)))
                }
            }
        };
        match step {
            Err(e) => Err(e),
            Ok((i2, out2)) => {
                let fbit2 = (fbit + 1) % 8;
                if fbit2 == 0 {
                    if i2 >= cend {
                        Ok(out2)
                    } else {
                        lznt1_fixed_tokens(inp, cend, i2 + 1, inp[i2] as int, 0, out2, obase, cap)
                    }
                } else {
                    lznt1_fixed_tokens(inp, cend, i2, flags, fbit2, out2, obase, cap)
                }
            },
        }
    }
}

/// The fixed-capacity variant of the chunk decoder.
pub open spec fn lznt1_fixed_chunks(inp: Seq<u8>, i: int, out: Seq<u8>, cap: int) -> Result<
    Seq<u8>,
    Error,
>
    decreases clip0(inp.len() - i),
{
    if i >= inp.len() {
        Ok(out)
    } else if i + 2 > inp.len() {
        Err(Error::MemLimit)
    } else {
        let header = le16_at(inp, i);
        let clen = header % 4096 + 1;
        if clen > inp.len() - (i + 2) {
            Err(Error::MemLimit)
        } else {
            let step = if header / 32768 == 1 {
                lznt1_fixed_tokens(
                    inp,
                    i + 2 + clen,
                    i + 3,
                    inp[i + 2] as int,
                    0,
                    out,
                    out.len() as int,
                    cap,
                )
            } else {
                if out.len() + clen > cap {
                    Err(Error::MemLimit)
                } else {
                    Ok(out + inp.subrange(i + 2, i + 2 + clen))
                }
            };
            match step {
                Err(e) => Err(e),
                Ok(out2) => lznt1_fixed_chunks(inp, i + 2 + clen, out2, cap),
            }
        }
    }
}

/// What decoding one chunk leaves for the rest of a fixed-capacity stream.
pub open spec fn lznt1_fixed_chunk_cont(
    inp: Seq<u8>,
    cend: int,
    step: Result<Seq<u8>, Error>,
    cap: int,
) -> Result<Seq<u8>, Error> {
    match step {
        Err(e) => Err(e),
        Ok(out2) => lznt1_fixed_chunks(inp, cend, out2, cap),
    }
}

/// The result of decoding `inp` into a preallocated buffer of `cap` bytes,
/// which must be at least as large as the input and not empty.
pub open spec fn lznt1_fixed_decode(inp: Seq<u8>, cap: int) -> Result<Seq<u8>, Error> {
    if cap == 0 || cap < inp.len() {
        Err(Error::MemLimit)
    } else {
        lznt1_fixed_chunks(inp, 0, Seq::empty(), cap)
    }
}

/// Decodes an LZNT1 stream into the caller-preallocated `out_buf`, whose
/// length is the capacity: it must be at least the input's length and not
/// zero.  A literal that would overflow the capacity is a hard `MemLimit`; an
/// over-long copy is silently clamped to the remaining capacity.  On success
/// the buffer is truncated to the bytes produced; on error its length is
/// unchanged, and when the up-front capacity check is what fails, so are its
/// contents.
#[verifier::rlimit(60)]
pub fn decompress2_no_push(in_buf: &[u8], out_buf: &mut Vec<u8>) -> (r: Result<(), Error>)
    ensures
        match (r, lznt1_fixed_decode(in_buf@, old(out_buf)@.len() as int)) {
            (Ok(()), Ok(s)) => final(out_buf)@ == s,
            (Err(e), Err(se)) => e == se && final(out_buf)@.len() == old(out_buf)@.len(),
            _ => false,
        },
        (old(out_buf)@.len() == 0 || old(out_buf)@.len() < in_buf@.len()) ==> final(out_buf)@
            == old(out_buf)@,
{
    let in_len = in_buf.len();
    let cap = out_buf.len();
    proof {
        assert(in_len == in_buf@.len());
    }
    if cap == 0 || cap < in_len {
        return Err(Error::MemLimit);
    }
    let ghost goal = lznt1_fixed_chunks(in_buf@, 0, Seq::empty(), cap as int);
    proof {
        assert(out_buf@.subrange(0, 0) =~= Seq::<u8>::empty());
    }
    let mut out_idx: usize = 0;
    let mut in_idx: usize = 0;
    while in_idx < in_buf.len()
        invariant
            in_idx <= in_buf@.len(),
            in_buf@.len() <= usize::MAX,
            out_idx <= cap,
            out_buf@.len() == cap,
            cap == old(out_buf)@.len(),
            0 < cap,
            in_buf@.len() <= cap,
            goal == lznt1_fixed_decode(in_buf@, old(out_buf)@.len() as int),
            lznt1_fixed_chunks(
                in_buf@,
                in_idx as int,
                out_buf@.subrange(0, out_idx as int),
                cap as int,
            ) == goal,
        decreases in_buf@.len() - in_idx,
    {
        if in_buf.len() - in_idx < 2 {
            assert(goal == Err::<Seq<u8>, Error>(Error::MemLimit));
            return Err(Error::MemLimit);
        }
        let header = read_le16(in_buf, in_idx) as usize;
        in_idx = in_idx + 2;
        let chunk_len = header % 4096 + 1;
        if chunk_len > in_buf.len() - in_idx {
            assert(goal == Err::<Seq<u8>, Error>(Error::MemLimit));
            return Err(Error::MemLimit);
        }
        let cend = in_idx + chunk_len;
        if header / 32768 == 1 {
            let out_base = out_idx;
            let mut flags = in_buf[in_idx];
            let mut flag_bit: u32 = 0;
            in_idx = in_idx + 1;
            while in_idx < cend
                invariant
                    in_buf@.len() <= usize::MAX,
                    cend <= in_buf@.len(),
                    in_idx <= cend + 1,
                    flag_bit < 8,
                    out_base <= out_idx <= cap,
                    out_buf@.len() == cap,
                    cap == old(out_buf)@.len(),
                    0 < cap,
                    in_buf@.len() <= cap,
                    goal == lznt1_fixed_decode(in_buf@, old(out_buf)@.len() as int),
                    lznt1_fixed_chunk_cont(
                        in_buf@,
                        cend as int,
                        lznt1_fixed_tokens(
                            in_buf@,
                            cend as int,
                            in_idx as int,
                            flags as int,
                            flag_bit as int,
                            out_buf@.subrange(0, out_idx as int),
                            out_base as int,
                            cap as int,
                        ),
                        cap as int,
                    ) == goal,
                decreases cend + 1 - in_idx,
            {
                let bit = ((flags as u32) / pow2_u32(flag_bit)) % 2;
                if bit == 0 {
                    if out_idx >= cap {
                        assert(goal == Err::<Seq<u8>, Error>(Error::MemLimit));
                        return Err(Error::MemLimit);
                    }
                    let b = in_buf[in_idx];
                    let ghost obuf0 = out_buf@;
                    out_buf[out_idx] = b;
                    out_idx = out_idx + 1;
                    in_idx = in_idx + 1;
                    proof {
                        assert(out_buf@ == obuf0.update(out_idx as int - 1, b));
                        assert(out_buf@.subrange(0, out_idx as int) =~= obuf0.subrange(
                            0,
                            out_idx as int - 1,
                        ).push(b));
                    }
                } else {
                    if in_buf.len() - in_idx < 2 {
                        assert(goal == Err::<Seq<u8>, Error>(Error::MemLimit));
                        return Err(Error::MemLimit);
                    }
                    let tok = read_le16(in_buf, in_idx) as usize;
                    in_idx = in_idx + 2;
                    let ghost pos0 = if out_idx == out_base {
                        0int
                    } else {
                        out_idx as int - out_base as int - 1
                    };
                    let mut pos: usize = if out_idx == out_base {
                        0
                    } else {
                        out_idx - out_base - 1
                    };
                    let mut k: u32 = 0;
                    while pos >= 16 && k < 12
                        invariant
                            k <= 12,
                            lznt1_split_steps(pos0) == k + lznt1_split_steps(pos as int),
                        decreases pos,
                    {
                        pos = pos / 2;
                        k = k + 1;
                    }
                    proof {
                        if k < 12 {
                            assert(lznt1_split_steps(pos as int) == 0);
                        } else {
                            lemma_split_steps_nonneg(pos as int);
                        }
                        assert(lznt1_shift(pos0) == k as int);
                    }
                    let div = pow2_u32(12 - k);
                    proof {
                        if 12 - k < 12 {
                            vstd::arithmetic::power2::lemma_pow2_strictly_increases(
                                (12 - k) as nat,
                                12,
                            );
                        }
                        vstd::arithmetic::power2::lemma2_to64();
                        assert(div <= 4096);
                        vstd::arithmetic::div_mod::lemma_div_nonincreasing(tok as int, div as int);
                    }
                    let mlen = tok % (div as usize) + 3;
                    let dist = tok / (div as usize) + 1;
                    if dist > out_idx {
                        assert(goal == Err::<Seq<u8>, Error>(Error::CorruptedData));
                        return Err(Error::CorruptedData);
                    }
                    let mlen2 = if mlen >= cap - out_idx {
                        cap - out_idx
                    } else {
                        mlen
                    };
                    out_idx = crate::bytes::lz_copy_at(out_buf, out_idx, dist, mlen2);
                }
                flag_bit = (flag_bit + 1) % 8;
                if flag_bit == 0 && in_idx < cend {
                    flags = in_buf[in_idx];
                    in_idx = in_idx + 1;
                }
            }
            assert(lznt1_fixed_chunks(
                in_buf@,
                cend as int,
                out_buf@.subrange(0, out_idx as int),
                cap as int,
            ) == goal);
            in_idx = cend;
        } else {
            let ghost pre = out_buf@.subrange(0, out_idx as int);
            let ghost raw_base = in_idx as int;
            proof {
                if pre.len() + chunk_len > cap {
                    assert(goal == Err::<Seq<u8>, Error>(Error::MemLimit));
                } else {
                    assert(lznt1_fixed_chunks(
                        in_buf@,
                        cend as int,
                        pre + in_buf@.subrange(raw_base, raw_base + chunk_len),
                        cap as int,
                    ) == goal);
                }
            }
            let mut k: usize = 0;
            while k < chunk_len
                invariant
                    k <= chunk_len,
                    in_buf@.len() <= usize::MAX,
                    in_idx + chunk_len <= in_buf@.len(),
                    raw_base == in_idx as int,
                    out_idx <= cap,
                    out_idx as int == pre.len() + k,
                    out_buf@.len() == cap,
                    cap == old(out_buf)@.len(),
                    0 < cap,
                    in_buf@.len() <= cap,
                    goal == lznt1_fixed_decode(in_buf@, old(out_buf)@.len() as int),
                    pre.len() + chunk_len > cap ==> goal == Err::<Seq<u8>, Error>(
                        Error::MemLimit,
                    ),
                    pre.len() + chunk_len <= cap ==> lznt1_fixed_chunks(
                        in_buf@,
                        cend as int,
                        pre + in_buf@.subrange(raw_base, raw_base + chunk_len),
                        cap as int,
                    ) == goal,
                    out_buf@.subrange(0, out_idx as int) == pre + in_buf@.subrange(
                        raw_base,
                        raw_base + k,
                    ),
                decreases chunk_len - k,
            {
                if out_idx >= cap {
                    assert(pre.len() + chunk_len > cap);
                    assert(goal == Err::<Seq<u8>, Error>(Error::MemLimit));
                    return Err(Error::MemLimit);
                }
                let b = in_buf[in_idx + k];
                let ghost obuf0 = out_buf@;
                out_buf[out_idx] = b;
                out_idx = out_idx + 1;
                k = k + 1;
                proof {
                    assert(out_buf@ == obuf0.update(out_idx as int - 1, b));
                    assert(out_buf@.subrange(0, out_idx as int) =~= obuf0.subrange(
                        0,
                        out_idx as int - 1,
                    ).push(b));
                    assert(out_buf@.subrange(0, out_idx as int) =~= pre + in_buf@.subrange(
                        raw_base,
                        raw_base + k,
                    ));
                }
            }
            proof {
                assert(out_buf@.subrange(0, out_idx as int) =~= pre + in_buf@.subrange(
                    raw_base,
                    raw_base + chunk_len,
                ));
            }
            assert(lznt1_fixed_chunks(
                in_buf@,
                cend as int,
                out_buf@.subrange(0, out_idx as int),
                cap as int,
            ) == goal);
            in_idx = cend;
        }
    }
    assert(goal == Ok::<Seq<u8>, Error>(out_buf@.subrange(0, out_idx as int)));
    out_buf.truncate(out_idx);
    Ok(())
}

/// Decoding a chunk's tokens only ever appends: the bytes already produced
/// stay in place.
pub proof fn lemma_tokens_extends(
    inp: Seq<u8>,
    cend: int,
    i: int,
    flags: int,
    fbit: int,
    out: Seq<u8>,
    obase: int,
    o2: Seq<u8>,
)
    requires
        lznt1_tokens(inp, cend, i, flags, fbit, out, obase) == Ok::<Seq<u8>, Error>(o2),
    ensures
        out.len() <= o2.len(),
        o2.subrange(0, out.len() as int) == out,
    decreases clip0(cend - i),
{
    if i >= cend {
        assert(o2.subrange(0, out.len() as int) =~= out);
    } else {
        let fbit2 = (fbit + 1) % 8;
        if flags / pow2i(fbit) % 2 == 0 {
            let out2 = out.push(inp[i]);
            let i2 = i + 1;
            if fbit2 == 0 {
                if i2 >= cend {
                } else {
                    lemma_tokens_extends(inp, cend, i2 + 1, inp[i2] as int, 0, out2, obase, o2);
                }
            } else {
                lemma_tokens_extends(inp, cend, i2, flags, fbit2, out2, obase, o2);
            }
            assert(o2.subrange(0, out.len() as int) =~= out);
        } else {
            let tok = le16_at(inp, i);
            let pos = if out.len() == obase {
                0
            } else {
                out.len() - obase - 1
            };
            let sh = lznt1_shift(pos);
            lemma_split_steps_nonneg(pos);
            let div = pow2i(12 - sh);
            vstd::arithmetic::power2::lemma_pow2_pos((12 - sh) as nat);
            let mlen = tok % div + 3;
            let dist = tok / div + 1;
            vstd::arithmetic::div_mod::lemma_mod_bound(tok, div);
            vstd::arithmetic::div_mod::lemma_div_pos_is_pos(tok, div);
            let out2 = lz_extend(out, dist, mlen);
            crate::bytes::lemma_lz_extend_index(out, dist, mlen);
            let i2 = i + 2;
            if fbit2 == 0 {
                if i2 >= cend {
                } else {
                    lemma_tokens_extends(inp, cend, i2 + 1, inp[i2] as int, 0, out2, obase, o2);
                }
            } else {
                lemma_tokens_extends(inp, cend, i2, flags, fbit2, out2, obase, o2);
            }
            assert(o2.subrange(0, out.len() as int) =~= out);
        }
    }
}

/// Decoding chunks only ever appends: the bytes already produced stay in
/// place.
pub proof fn lemma_chunks_extends(inp: Seq<u8>, i: int, out: Seq<u8>, v: Seq<u8>)
    requires
        0 <= i,
        lznt1_chunks(inp, i, out) == Ok::<Seq<u8>, Error>(v),
    ensures
        out.len() <= v.len(),
        v.subrange(0, out.len() as int) == out,
    decreases clip0(inp.len() - i),
{
    if i >= inp.len() {
        assert(v.subrange(0, out.len() as int) =~= out);
    } else {
        let header = le16_at(inp, i);
        let clen = header % 4096 + 1;
        let step = if header / 32768 == 1 {
            lznt1_tokens(inp, i + 2 + clen, i + 3, inp[i + 2] as int, 0, out, out.len() as int)
        } else {
            Ok(out + inp.subrange(i + 2, i + 2 + clen))
        };
        match step {
            Err(e) => {
            },
            Ok(o2) => {
                if header / 32768 == 1 {
                    lemma_tokens_extends(
                        inp,
                        i + 2 + clen,
                        i + 3,
                        inp[i + 2] as int,
                        0,
                        out,
                        out.len() as int,
                        o2,
                    );
                }
                lemma_chunks_extends(inp, i + 2 + clen, o2, v);
                assert(v.subrange(0, out.len() as int) =~= out);
            },
        }
    }
}

/// When every byte the growable token decoder will produce fits in `cap`, the
/// fixed-capacity token decoder never clamps and produces the same bytes.
proof fn lemma_fixed_tokens_agree(
    inp: Seq<u8>,
    cend: int,
    i: int,
    flags: int,
    fbit: int,
    out: Seq<u8>,
    obase: int,
    o2: Seq<u8>,
    cap: int,
)
    requires
        lznt1_tokens(inp, cend, i, flags, fbit, out, obase) == Ok::<Seq<u8>, Error>(o2),
        o2.len() <= cap,
    ensures
        lznt1_fixed_tokens(inp, cend, i, flags, fbit, out, obase, cap) == Ok::<Seq<u8>, Error>(o2),
    decreases clip0(cend - i),
{
    if i >= cend {
    } else {
        let fbit2 = (fbit + 1) % 8;
        if flags / pow2i(fbit) % 2 == 0 {
            let out2 = out.push(inp[i]);
            let i2 = i + 1;
            if fbit2 == 0 {
                if i2 >= cend {
                } else {
                    lemma_tokens_extends(inp, cend, i2 + 1, inp[i2] as int, 0, out2, obase, o2);
                    lemma_fixed_tokens_agree(
                        inp,
                        cend,
                        i2 + 1,
                        inp[i2] as int,
                        0,
                        out2,
                        obase,
                        o2,
                        cap,
                    );
                }
            } else {
                lemma_tokens_extends(inp, cend, i2, flags, fbit2, out2, obase, o2);
                lemma_fixed_tokens_agree(inp, cend, i2, flags, fbit2, out2, obase, o2, cap);
            }
            assert(out.len() < cap);
        } else {
            let tok = le16_at(inp, i);
            let pos = if out.len() == obase {
                0
            } else {
                out.len() - obase - 1
            };
            let sh = lznt1_shift(pos);
            lemma_split_steps_nonneg(pos);
            let div = pow2i(12 - sh);
            vstd::arithmetic::power2::lemma_pow2_pos((12 - sh) as nat);
            let mlen = tok % div + 3;
            let dist = tok / div + 1;
            vstd::arithmetic::div_mod::lemma_mod_bound(tok, div);
            vstd::arithmetic::div_mod::lemma_div_pos_is_pos(tok, div);
            let out2 = lz_extend(out, dist, mlen);
            crate::bytes::lemma_lz_extend_len(out, dist, mlen);
            let i2 = i + 2;
            if fbit2 == 0 {
                if i2 >= cend {
                } else {
                    lemma_tokens_extends(inp, cend, i2 + 1, inp[i2] as int, 0, out2, obase, o2);
                    lemma_fixed_tokens_agree(
                        inp,
                        cend,
                        i2 + 1,
                        inp[i2] as int,
                        0,
                        out2,
                        obase,
                        o2,
                        cap,
                    );
                }
            } else {
                lemma_tokens_extends(inp, cend, i2, flags, fbit2, out2, obase, o2);
                lemma_fixed_tokens_agree(inp, cend, i2, flags, fbit2, out2, obase, o2, cap);
            }
            assert(out.len() + mlen <= cap);
        }
    }
}

/// When the capacity is exactly the length of the growable decode's result,
/// the fixed-capacity chunk decoder produces the same bytes.
proof fn lemma_fixed_chunks_agree(inp: Seq<u8>, i: int, out: Seq<u8>, v: Seq<u8>, cap: int)
    requires
        0 <= i,
        lznt1_chunks(inp, i, out) == Ok::<Seq<u8>, Error>(v),
        cap == v.len(),
    ensures
        lznt1_fixed_chunks(inp, i, out, cap) == Ok::<Seq<u8>, Error>(v),
    decreases clip0(inp.len() - i),
{
    if i >= inp.len() {
    } else if i + 2 > inp.len() {
        assert(false);
    } else {
        let header = le16_at(inp, i);
        let clen = header % 4096 + 1;
        if clen > inp.len() - (i + 2) {
            assert(false);
        } else {
            if header / 32768 == 1 {
                let step = lznt1_tokens(
                    inp,
                    i + 2 + clen,
                    i + 3,
                    inp[i + 2] as int,
                    0,
                    out,
                    out.len() as int,
                );
                match step {
                    Err(e) => {
                        assert(false);
                    },
                    Ok(o2) => {
                        lemma_chunks_extends(inp, i + 2 + clen, o2, v);
                        lemma_fixed_tokens_agree(
                            inp,
                            i + 2 + clen,
                            i + 3,
                            inp[i + 2] as int,
                            0,
                            out,
                            out.len() as int,
                            o2,
                            cap,
                        );
                        lemma_fixed_chunks_agree(inp, i + 2 + clen, o2, v, cap);
                        assert(lznt1_fixed_tokens(
                            inp,
                            i + 2 + clen,
                            i + 3,
                            inp[i + 2] as int,
                            0,
                            out,
                            out.len() as int,
                            cap,
                        ) == Ok::<Seq<u8>, Error>(o2));
                        assert(lznt1_fixed_chunks(inp, i + 2 + clen, o2, cap) == Ok::<
                            Seq<u8>,
                            Error,
                        >(v));
                        assert(lznt1_fixed_chunks(inp, i, out, cap) == Ok::<Seq<u8>, Error>(v));
                    },
                }
            } else {
                let o2 = out + inp.subrange(i + 2, i + 2 + clen);
                lemma_chunks_extends(inp, i + 2 + clen, o2, v);
                lemma_fixed_chunks_agree(inp, i + 2 + clen, o2, v, cap);
                assert(out.len() + clen <= cap);
                assert(lznt1_fixed_chunks(inp, i + 2 + clen, o2, cap) == Ok::<Seq<u8>, Error>(v));
                assert(lznt1_fixed_chunks(inp, i, out, cap) == Ok::<Seq<u8>, Error>(v));
            }
        }
    }
}

/// A fixed-capacity decode into a buffer sized exactly to the growable
/// decode's output succeeds and matches it byte for byte.  The up-front
/// capacity check demands a buffer no smaller than the input and not empty,
/// so the expected output must be at least as long as the input.
pub proof fn lemma_fixed_decode_exact(inp: Seq<u8>, v: Seq<u8>)
    requires
        lznt1_decode(inp) == Ok::<Seq<u8>, Error>(v),
        inp.len() <= v.len(),
        v.len() > 0,
    ensures
        lznt1_fixed_decode(inp, v.len() as int) == Ok::<Seq<u8>, Error>(v),
{
    lemma_fixed_chunks_agree(inp, 0, Seq::empty(), v, v.len() as int);
}

} // verus!
