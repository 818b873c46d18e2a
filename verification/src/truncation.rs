//! Stated laws about truncated streams, for both formats: cutting a stream
//! that decodes successfully can only sever a field, for `MemLimit`, or end
//! the stream early on a prefix of its output; it never yields other bytes.

use vstd::prelude::*;

use crate::bytes::clip0;
use crate::bytes::le16_at;
use crate::bytes::le32_at;
use crate::bytes::lz_extend;
use crate::bytes::pow2i;
use crate::data::in_left;
use crate::data::xpress_copy_step;
use crate::data::xpress_decode;
use crate::data::xpress_decode_from;
use crate::data::xpress_decode_token;
use crate::data::xpress_ext_len;
use crate::data::xpress_init;
use crate::data::XpressState;
use crate::error::Error;
use crate::lznt1::lemma_chunks_extends;
use crate::lznt1::lznt1_chunks;
use crate::lznt1::lznt1_decode;
use crate::lznt1::lznt1_shift;
use crate::lznt1::lznt1_tokens;

verus! {

/// Decoding only ever appends: whatever state the decoder is in, the bytes
/// already produced are a prefix of a successful result.
proof fn lemma_xpress_extends(inp: Seq<u8>, st: XpressState, v: Seq<u8>)
    requires
        xpress_decode_from(inp, st) == Ok::<Seq<u8>, Error>(v),
    ensures
        st.out.len() <= v.len(),
        v.subrange(0, st.out.len() as int) == st.out,
    decreases 4 * in_left(inp, st.i) + 3,
{
    let out = st.out;
    if st.i >= inp.len() {
        assert(v.subrange(0, out.len() as int) =~= out);
    } else {
        let refill = st.fcount == 0;
        if refill && st.i + 4 > inp.len() {
        } else {
            let i0 = if refill {
                st.i + 4
            } else {
                st.i
            };
            let flags = if refill {
                le32_at(inp, st.i)
            } else {
                st.flags
            };
            let fc = (if refill {
                32
            } else {
                st.fcount
            }) - 1;
            if flags / pow2i(fc) % 2 == 0 {
                if i0 < inp.len() {
                    lemma_xpress_extends(
                        inp,
                        XpressState {
                            i: i0 + 1,
                            flags,
                            fcount: fc,
                            nib: st.nib,
                            out: out.push(inp[i0]),
                        },
                        v,
                    );
                    assert(v.subrange(0, out.len() as int) =~= out);
                }
            } else if i0 == inp.len() {
                assert(v.subrange(0, out.len() as int) =~= out);
            } else if i0 + 2 <= inp.len() {
                let token = le16_at(inp, i0);
                let dist = token / 8 + 1;
                if token % 8 < 7 {
                    lemma_xpress_extends_copy(
                        inp,
                        i0 + 2,
                        flags,
                        fc,
                        st.nib,
                        out,
                        dist,
                        token % 8 + 3,
                        v,
                    );
                } else if st.nib == 0 {
                    if i0 + 2 < inp.len() {
                        lemma_xpress_extends_ext(
                            inp,
                            i0 + 3,
                            flags,
                            fc,
                            i0 + 2,
                            out,
                            dist,
                            (inp[i0 + 2] as int) % 16,
                            v,
                        );
                    }
                } else {
                    lemma_xpress_extends_ext(
                        inp,
                        i0 + 2,
                        flags,
                        fc,
                        0,
                        out,
                        dist,
                        (inp[st.nib] as int) / 16,
                        v,
                    );
                }
            }
        }
    }
}

/// The escape-chain cases of `lemma_xpress_extends`.
proof fn lemma_xpress_extends_ext(
    inp: Seq<u8>,
    i: int,
    flags: int,
    fcount: int,
    nib: int,
    out: Seq<u8>,
    dist: int,
    n: int,
    v: Seq<u8>,
)
    requires
        xpress_ext_len(inp, i, flags, fcount, nib, out, dist, n) == Ok::<Seq<u8>, Error>(v),
    ensures
        out.len() <= v.len(),
        v.subrange(0, out.len() as int) == out,
    decreases 4 * in_left(inp, i) + 5,
{
    if n < 15 {
        lemma_xpress_extends_copy(inp, i, flags, fcount, nib, out, dist, n + 7 + 3, v);
    } else if i >= inp.len() {
    } else if inp[i] < 255 {
        lemma_xpress_extends_copy(inp, i + 1, flags, fcount, nib, out, dist, inp[i] + 15 + 7 + 3, v);
    } else if i + 3 <= inp.len() {
        let w = le16_at(inp, i + 1);
        if w != 0 {
            if w >= 15 + 7 {
                lemma_xpress_extends_copy(
                    inp,
                    i + 3,
                    flags,
                    fcount,
                    nib,
                    out,
                    dist,
                    w - 15 - 7 + 15 + 7 + 3,
                    v,
                );
            }
        } else if i + 7 <= inp.len() {
            let d = le32_at(inp, i + 3);
            if d >= 15 + 7 {
                lemma_xpress_extends_copy(
                    inp,
                    i + 7,
                    flags,
                    fcount,
                    nib,
                    out,
                    dist,
                    d - 15 - 7 + 15 + 7 + 3,
                    v,
                );
            }
        }
    }
}

/// The copy case of `lemma_xpress_extends`.
proof fn lemma_xpress_extends_copy(
    inp: Seq<u8>,
    i: int,
    flags: int,
    fcount: int,
    nib: int,
    out: Seq<u8>,
    dist: int,
    mlen: int,
    v: Seq<u8>,
)
    requires
        xpress_copy_step(inp, i, flags, fcount, nib, out, dist, mlen) == Ok::<Seq<u8>, Error>(v),
    ensures
        out.len() <= v.len(),
        v.subrange(0, out.len() as int) == out,
    decreases 4 * in_left(inp, i) + 4,
{
    if dist <= out.len() {
        let out2 = lz_extend(out, dist, mlen);
        if mlen >= 0 {
            crate::bytes::lemma_lz_extend_prefix(out, dist, mlen);
        }
        lemma_xpress_extends(inp, XpressState { i, flags, fcount, nib, out: out2 }, v);
        assert(v.subrange(0, out.len() as int) =~= out);
    }
}

/// What decoding a truncated stream may come to, when the full stream
/// decodes to `v`: the error for a severed field, or a clean end on some
/// prefix of `v`.  Never a panic, and never bytes the full stream does not
/// hold.
pub open spec fn truncation_outcome(r: Result<Seq<u8>, Error>, v: Seq<u8>) -> bool {
    ||| r == Err::<Seq<u8>, Error>(Error::MemLimit)
    ||| exists|k: int|
        0 <= k <= v.len() && r == Ok::<Seq<u8>, Error>(v.subrange(0, k))
}

/// Truncation, decoder state version: from any reachable state, the decoder
/// on the truncated input reports `MemLimit` or ends cleanly on a prefix.
proof fn lemma_xpress_trunc_from(inp: Seq<u8>, cut: int, st: XpressState, v: Seq<u8>)
    requires
        0 <= cut <= inp.len(),
        0 <= st.i,
        st.nib == 0 || 0 <= st.nib < st.i,
        xpress_decode_from(inp, st) == Ok::<Seq<u8>, Error>(v),
    ensures
        truncation_outcome(xpress_decode_from(inp.subrange(0, cut), st), v),
    decreases 4 * in_left(inp, st.i) + 3,
{
    let inp1 = inp.subrange(0, cut);
    let out = st.out;
    lemma_xpress_extends(inp, st, v);
    if st.i >= cut {
        assert(xpress_decode_from(inp1, st) == Ok::<Seq<u8>, Error>(out));
        assert(0 <= out.len() <= v.len() && xpress_decode_from(inp1, st) == Ok::<Seq<u8>, Error>(
            v.subrange(0, out.len() as int),
        ));
    } else {
        let refill = st.fcount == 0;
        if refill && st.i + 4 > cut {
            assert(xpress_decode_from(inp1, st) == Err::<Seq<u8>, Error>(Error::MemLimit));
        } else {
            let i0 = if refill {
                st.i + 4
            } else {
                st.i
            };
            let flags = if refill {
                le32_at(inp, st.i)
            } else {
                st.flags
            };
            let fcount1 = if refill {
                32int
            } else {
                st.fcount
            };
            let fc = fcount1 - 1;
            if refill {
                assert(le32_at(inp1, st.i) == le32_at(inp, st.i));
            }
            assert(xpress_decode_from(inp1, st) == xpress_decode_token(
                inp1,
                i0,
                flags,
                fcount1,
                st.nib,
                out,
            ));
            if flags / pow2i(fc) % 2 == 0 {
                if i0 >= cut {
                    assert(xpress_decode_token(inp1, i0, flags, fcount1, st.nib, out)
                        == Err::<Seq<u8>, Error>(Error::MemLimit));
                } else {
                    let st2 = XpressState {
                        i: i0 + 1,
                        flags,
                        fcount: fc,
                        nib: st.nib,
                        out: out.push(inp[i0]),
                    };
                    lemma_xpress_trunc_from(inp, cut, st2, v);
                }
            } else if i0 == cut {
                assert(xpress_decode_token(inp1, i0, flags, fcount1, st.nib, out) == Ok::<
                    Seq<u8>,
                    Error,
                >(out));
                assert(0 <= out.len() <= v.len() && xpress_decode_token(
                    inp1,
                    i0,
                    flags,
                    fcount1,
                    st.nib,
                    out,
                ) == Ok::<Seq<u8>, Error>(v.subrange(0, out.len() as int)));
            } else if i0 + 2 > cut {
                assert(xpress_decode_token(inp1, i0, flags, fcount1, st.nib, out) == Err::<
                    Seq<u8>,
                    Error,
                >(Error::MemLimit));
            } else {
                assert(le16_at(inp1, i0) == le16_at(inp, i0));
                let token = le16_at(inp, i0);
                let dist = token / 8 + 1;
                if token % 8 < 7 {
                    lemma_xpress_trunc_copy(
                        inp,
                        cut,
                        i0 + 2,
                        flags,
                        fc,
                        st.nib,
                        out,
                        dist,
                        token % 8 + 3,
                        v,
                    );
                } else if st.nib == 0 {
                    if i0 + 2 >= cut {
                        assert(xpress_decode_token(inp1, i0, flags, fcount1, 0, out) == Err::<
                            Seq<u8>,
                            Error,
                        >(Error::MemLimit));
                    } else {
                        lemma_xpress_trunc_ext(
                            inp,
                            cut,
                            i0 + 3,
                            flags,
                            fc,
                            i0 + 2,
                            out,
                            dist,
                            (inp[i0 + 2] as int) % 16,
                            v,
                        );
                    }
                } else {
                    lemma_xpress_trunc_ext(
                        inp,
                        cut,
                        i0 + 2,
                        flags,
                        fc,
                        0,
                        out,
                        dist,
                        (inp[st.nib] as int) / 16,
                        v,
                    );
                }
            }
        }
    }
}

/// Truncation, escape-chain version.
proof fn lemma_xpress_trunc_ext(
    inp: Seq<u8>,
    cut: int,
    i: int,
    flags: int,
    fcount: int,
    nib: int,
    out: Seq<u8>,
    dist: int,
    n: int,
    v: Seq<u8>,
)
    requires
        0 <= cut <= inp.len(),
        0 <= i,
        nib == 0 || 0 <= nib < i,
        xpress_ext_len(inp, i, flags, fcount, nib, out, dist, n) == Ok::<Seq<u8>, Error>(v),
    ensures
        truncation_outcome(
            xpress_ext_len(inp.subrange(0, cut), i, flags, fcount, nib, out, dist, n),
            v,
        ),
    decreases 4 * in_left(inp, i) + 5,
{
    let inp1 = inp.subrange(0, cut);
    if n < 15 {
        lemma_xpress_trunc_copy(inp, cut, i, flags, fcount, nib, out, dist, n + 7 + 3, v);
    } else if i >= cut {
        assert(xpress_ext_len(inp1, i, flags, fcount, nib, out, dist, n) == Err::<Seq<u8>, Error>(
            Error::MemLimit,
        ));
    } else if inp[i] < 255 {
        lemma_xpress_trunc_copy(
            inp,
            cut,
            i + 1,
            flags,
            fcount,
            nib,
            out,
            dist,
            inp[i] + 15 + 7 + 3,
            v,
        );
    } else if i + 3 > cut {
        assert(xpress_ext_len(inp1, i, flags, fcount, nib, out, dist, n) == Err::<Seq<u8>, Error>(
            Error::MemLimit,
        ));
    } else {
        assert(le16_at(inp1, i + 1) == le16_at(inp, i + 1));
        let w = le16_at(inp, i + 1);
        if w != 0 {
            lemma_xpress_trunc_copy(
                inp,
                cut,
                i + 3,
                flags,
                fcount,
                nib,
                out,
                dist,
                w - 15 - 7 + 15 + 7 + 3,
                v,
            );
        } else if i + 7 > cut {
            assert(xpress_ext_len(inp1, i, flags, fcount, nib, out, dist, n) == Err::<
                Seq<u8>,
                Error,
            >(Error::MemLimit));
        } else {
            assert(le32_at(inp1, i + 3) == le32_at(inp, i + 3));
            let d = le32_at(inp, i + 3);
            lemma_xpress_trunc_copy(
                inp,
                cut,
                i + 7,
                flags,
                fcount,
                nib,
                out,
                dist,
                d - 15 - 7 + 15 + 7 + 3,
                v,
            );
        }
    }
}

/// Truncation, copy version: the replay itself reads no input, so the two
/// streams agree on it.
proof fn lemma_xpress_trunc_copy(
    inp: Seq<u8>,
    cut: int,
    i: int,
    flags: int,
    fcount: int,
    nib: int,
    out: Seq<u8>,
    dist: int,
    mlen: int,
    v: Seq<u8>,
)
    requires
        0 <= cut <= inp.len(),
        0 <= i,
        nib == 0 || 0 <= nib < i,
        xpress_copy_step(inp, i, flags, fcount, nib, out, dist, mlen) == Ok::<Seq<u8>, Error>(v),
    ensures
        truncation_outcome(
            xpress_copy_step(inp.subrange(0, cut), i, flags, fcount, nib, out, dist, mlen),
            v,
        ),
    decreases 4 * in_left(inp, i) + 4,
{
    let st2 = XpressState { i, flags, fcount, nib, out: lz_extend(out, dist, mlen) };
    lemma_xpress_trunc_from(inp, cut, st2, v);
}

/// Truncating a stream that decodes successfully never yields new bytes: the
/// decoder on any prefix of the stream either reports `MemLimit` at the
/// severed field, or ends cleanly with a prefix of the full stream's output.
/// A truncation can end cleanly: a cut at a token boundary leaves a
/// well-formed shorter stream, and the empty buffer decodes to the empty
/// output.
pub proof fn lemma_xpress_decode_truncated(inp: Seq<u8>, cut: int, v: Seq<u8>)
    requires
        0 <= cut <= inp.len(),
        xpress_decode(inp) == Ok::<Seq<u8>, Error>(v),
    ensures
        truncation_outcome(xpress_decode(inp.subrange(0, cut)), v),
{
    lemma_xpress_trunc_from(inp, cut, xpress_init(), v);
}

/// Truncation, LZNT1 token version: a chunk that lies within the cut decodes
/// identically on the truncated stream, except that its last token may be
/// severed at the cut.
proof fn lemma_lznt1_trunc_tokens(
    inp: Seq<u8>,
    cut: int,
    cend: int,
    i: int,
    flags: int,
    fbit: int,
    out: Seq<u8>,
    obase: int,
)
    requires
        0 <= i,
        0 <= cut,
        cend <= cut <= inp.len(),
    ensures
        lznt1_tokens(inp.subrange(0, cut), cend, i, flags, fbit, out, obase) == lznt1_tokens(
            inp,
            cend,
            i,
            flags,
            fbit,
            out,
            obase,
        ) || lznt1_tokens(inp.subrange(0, cut), cend, i, flags, fbit, out, obase) == Err::<
            Seq<u8>,
            Error,
        >(Error::MemLimit),
    decreases clip0(cend - i),
{
    let inp1 = inp.subrange(0, cut);
    if i >= cend {
    } else {
        let fbit2 = (fbit + 1) % 8;
        if flags / pow2i(fbit) % 2 == 0 {
            let out2 = out.push(inp[i]);
            let i2 = i + 1;
            if fbit2 == 0 {
                if i2 < cend {
                    lemma_lznt1_trunc_tokens(
                        inp,
                        cut,
                        cend,
                        i2 + 1,
                        inp[i2] as int,
                        0,
                        out2,
                        obase,
                    );
                }
            } else {
                lemma_lznt1_trunc_tokens(inp, cut, cend, i2, flags, fbit2, out2, obase);
            }
        } else {
            if i + 2 > cut {
                assert(lznt1_tokens(inp1, cend, i, flags, fbit, out, obase) == Err::<
                    Seq<u8>,
                    Error,
                >(Error::MemLimit));
            } else {
                assert(le16_at(inp1, i) == le16_at(inp, i));
                let tok = le16_at(inp, i);
                let pos = if out.len() == obase {
                    0
                } else {
                    out.len() - obase - 1
                };
                let div = pow2i(12 - lznt1_shift(pos));
                let mlen = tok % div + 3;
                let dist = tok / div + 1;
                if dist > out.len() {
                } else {
                    let out2 = lz_extend(out, dist, mlen);
                    let i2 = i + 2;
                    if fbit2 == 0 {
                        if i2 < cend {
                            lemma_lznt1_trunc_tokens(
                                inp,
                                cut,
                                cend,
                                i2 + 1,
                                inp[i2] as int,
                                0,
                                out2,
                                obase,
                            );
                        }
                    } else {
                        lemma_lznt1_trunc_tokens(inp, cut, cend, i2, flags, fbit2, out2, obase);
                    }
                }
            }
        }
    }
}

/// Truncation, LZNT1 chunk version.
proof fn lemma_lznt1_trunc_chunks(inp: Seq<u8>, cut: int, i: int, out: Seq<u8>, v: Seq<u8>)
    requires
        0 <= i,
        0 <= cut <= inp.len(),
        lznt1_chunks(inp, i, out) == Ok::<Seq<u8>, Error>(v),
    ensures
        truncation_outcome(lznt1_chunks(inp.subrange(0, cut), i, out), v),
    decreases clip0(inp.len() - i),
{
    let inp1 = inp.subrange(0, cut);
    lemma_chunks_extends(inp, i, out, v);
    if i >= cut {
        assert(lznt1_chunks(inp1, i, out) == Ok::<Seq<u8>, Error>(out));
        assert(0 <= out.len() <= v.len() && lznt1_chunks(inp1, i, out) == Ok::<Seq<u8>, Error>(
            v.subrange(0, out.len() as int),
        ));
    } else if i + 2 > cut {
        assert(lznt1_chunks(inp1, i, out) == Err::<Seq<u8>, Error>(Error::MemLimit));
    } else {
        assert(le16_at(inp1, i) == le16_at(inp, i));
        let header = le16_at(inp, i);
        let clen = header % 4096 + 1;
        if clen > cut - (i + 2) {
            assert(lznt1_chunks(inp1, i, out) == Err::<Seq<u8>, Error>(Error::MemLimit));
        } else {
            let cend = i + 2 + clen;
            if header / 32768 == 1 {
                let step = lznt1_tokens(inp, cend, i + 3, inp[i + 2] as int, 0, out, out.len() as int);
                match step {
                    Err(e) => {
                        assert(false);
                    },
                    Ok(o2) => {
                        lemma_lznt1_trunc_tokens(
                            inp,
                            cut,
                            cend,
                            i + 3,
                            inp[i + 2] as int,
                            0,
                            out,
                            out.len() as int,
                        );
                        let step1 = lznt1_tokens(
                            inp1,
                            cend,
                            i + 3,
                            inp1[i + 2] as int,
                            0,
                            out,
                            out.len() as int,
                        );
                        assert(inp1[i + 2] == inp[i + 2]);
                        if step1 == Err::<Seq<u8>, Error>(Error::MemLimit) {
                            assert(lznt1_chunks(inp1, i, out) == Err::<Seq<u8>, Error>(
                                Error::MemLimit,
                            ));
                        } else {
                            assert(step1 == step);
                            lemma_lznt1_trunc_chunks(inp, cut, cend, o2, v);
                        }
                    },
                }
            } else {
                let sub = inp.subrange(i + 2, cend);
                assert(inp1.subrange(i + 2, cend) =~= sub);
                lemma_lznt1_trunc_chunks(inp, cut, cend, out + sub, v);
            }
        }
    }
}

/// The truncation law for the chunked format: decoding any prefix of a
/// stream that decodes successfully either reports `MemLimit` at the severed
/// chunk or token, or ends cleanly with a prefix of the full stream's
/// output.  A cut at a chunk boundary leaves a well-formed shorter stream.
pub proof fn lemma_lznt1_decode_truncated(inp: Seq<u8>, cut: int, v: Seq<u8>)
    requires
        0 <= cut <= inp.len(),
        lznt1_decode(inp) == Ok::<Seq<u8>, Error>(v),
    ensures
        truncation_outcome(lznt1_decode(inp.subrange(0, cut)), v),
{
    lemma_lznt1_trunc_chunks(inp, cut, 0, Seq::empty(), v);
}

} // verus!
