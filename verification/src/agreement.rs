//! Both flat-format decoders agree with the compressor: the stream
//! `xpress_encode(inp)` -- the exact bytes `data::compress` emits -- decodes
//! back to `inp` under the current decode relation, and also under the older
//! one at the crate root, which ends truncated streams silently, skips a
//! copy whose distance exceeds the output, and lacks the 32-bit length
//! escape; an encoded stream exercises none of those differences.

use vstd::prelude::*;

use crate::bytes::clip0;
use crate::bytes::le16_at;
use crate::bytes::lemma_lz_extend_replay;
use crate::bytes::lz_extend;
use crate::bytes::pow2i;
use crate::data::best_match_scan;
use crate::data::chain_bytes;
use crate::data::completion;
use crate::data::enc_cond;
use crate::data::enc_mid;
use crate::data::enc_roll;
use crate::data::encode_match_nib;
use crate::data::encode_match_out;
use crate::data::in_left;
use crate::data::lebytes4;
use crate::data::lemma_completion_append;
use crate::data::lemma_completion_word;
use crate::data::lemma_cond_step;
use crate::data::lemma_le16_parts;
use crate::data::lemma_pow2i_values;
use crate::data::lemma_tok_split;
use crate::data::match_at;
use crate::data::match_len_at;
use crate::data::nib_val;
use crate::data::seal_word;
use crate::data::store32_at;
use crate::data::tok_bytes;
use crate::data::xpress_best_match;
use crate::data::xpress_cap;
use crate::data::xpress_encode;
use crate::data::xpress_encode_step;
use crate::data::xpress_init;
use crate::data::xpress_window;
use crate::data::XpressState;
use crate::error::Error;
use crate::legacy_decode;
use crate::legacy_decode_from;
use crate::legacy_decode_token;
use crate::legacy_ext_len;
use crate::legacy_copy_step;

verus! {

/// A positive match length counts bytes that really are equal.
proof fn lemma_match_len_sound(inp: Seq<u8>, pos: int, dist: int, cap: int)
    ensures
        0 <= match_len_at(inp, pos, dist, cap),
        cap >= 0 ==> match_len_at(inp, pos, dist, cap) <= cap,
        cap < 0 ==> match_len_at(inp, pos, dist, cap) == 0,
        forall|q: int|
            pos <= q < pos + match_len_at(inp, pos, dist, cap) ==> #[trigger] inp[q] == inp[q
                - dist],
    decreases clip0(cap),
{
    reveal(match_len_at);
    if cap <= 0 {
    } else if inp[pos] == inp[pos - dist] {
        lemma_match_len_sound(inp, pos + 1, dist, cap - 1);
        assert forall|q: int|
            pos <= q < pos + match_len_at(inp, pos, dist, cap) implies #[trigger] inp[q] == inp[q
            - dist] by {
            if q > pos {
                assert(pos + 1 <= q < pos + 1 + match_len_at(inp, pos + 1, dist, cap - 1));
            }
        }
    }
}

/// The greedy scan's result is sound: a reported offset lies in the window,
/// and the reported length is its match length, at least three and at most
/// the cap.
proof fn lemma_scan_sound(inp: Seq<u8>, pos: int, d: int, bl: int, bo: int)
    requires
        1 <= d,
        bo == 0 ==> bl == 2,
        bo != 0 ==> 1 <= bo < d && bo <= xpress_window(pos) && 3 <= bl && bl == match_len_at(
            inp,
            pos,
            bo,
            xpress_cap(inp, pos),
        ) && bl <= xpress_cap(inp, pos),
    ensures
        ({
            let (rl, ro) = best_match_scan(inp, pos, d, bl, bo);
            ro != 0 ==> 1 <= ro <= xpress_window(pos) && 3 <= rl && rl <= xpress_cap(inp, pos)
                && rl == match_len_at(inp, pos, ro, xpress_cap(inp, pos))
        }),
    decreases clip0(xpress_window(pos) - d + 1),
{
    reveal(best_match_scan);
    if d > xpress_window(pos) {
    } else {
        let l = match_len_at(inp, pos, d, xpress_cap(inp, pos));
        lemma_match_len_sound(inp, pos, d, xpress_cap(inp, pos));
        if l > bl {
            lemma_scan_sound(inp, pos, d + 1, l, d);
        } else {
            lemma_scan_sound(inp, pos, d + 1, bl, bo);
        }
    }
}

/// When the greedy choice reports a match, the input really repeats there.
proof fn lemma_best_match_at(inp: Seq<u8>, pos: int)
    requires
        0 <= pos <= inp.len(),
    ensures
        ({
            let bm = xpress_best_match(inp, pos);
            bm.1 != 0 ==> match_at(inp, pos, bm.1, bm.0) && bm.0 >= 3
        }),
{
    lemma_scan_sound(inp, pos, 1, 2, 0);
    let bm = xpress_best_match(inp, pos);
    if bm.1 != 0 {
        lemma_match_len_sound(inp, pos, bm.1, xpress_cap(inp, pos));
    }
}

/// The compressor's invariant, restated for the older decoder: however the
/// reserved indicator word, the pending nibble and the future of the stream
/// are filled in, the older decoder's run from the start equals its run from
/// the state that corresponds to the bytes emitted so far.
pub open spec fn legacy_enc_inv(
    inp: Seq<u8>,
    consumed: int,
    out: Seq<u8>,
    foff: int,
    bits: int,
    count: int,
    nib: int,
) -> bool {
    &&& 0 <= consumed <= inp.len()
    &&& 0 <= foff
    &&& foff + 4 <= out.len()
    &&& 0 <= count <= 32
    &&& 0 <= bits < pow2i(count)
    &&& (count == 0 ==> foff == out.len() - 4)
    &&& (nib == 0 || (4 <= nib < out.len() && !(foff <= nib < foff + 4) && out[nib] < 16))
    &&& forall|w: int, hi: int, rest: Seq<u8>|
        enc_cond(w, count, bits) && 0 <= hi < 16 ==> legacy_decode_from(
            #[trigger] completion(out, foff, w, nib, hi, rest),
            xpress_init(),
        ) == legacy_decode_from(
            completion(out, foff, w, nib, hi, rest),
            enc_mid(out.len() as int, foff, w, count, nib, inp.subrange(0, consumed)),
        )
}

/// From the state that `enc_mid` names, one round of the older decoder
/// reduces to one token at the end of the emitted bytes.
proof fn lemma_legacy_mid_to_token(
    b: Seq<u8>,
    out_len: int,
    foff: int,
    w: int,
    count: int,
    nib: int,
    dout: Seq<u8>,
)
    requires
        0 <= count <= 31,
        0 <= foff,
        foff + 4 <= out_len,
        count == 0 ==> foff == out_len - 4,
        out_len < b.len(),
        crate::bytes::le32_at(b, foff) == w,
        0 <= w < 0x1_0000_0000,
    ensures
        legacy_decode_from(b, enc_mid(out_len, foff, w, count, nib, dout))
            == legacy_decode_token(b, out_len, w, 32 - count, nib, dout),
{
}

/// A round of the older decoder that must refill the indicator word does not
/// depend on the stale word it replaces.
proof fn lemma_legacy_refill_flags_any(b: Seq<u8>, i: int, f1: int, f2: int, nib: int, dout: Seq<u8>)
    ensures
        legacy_decode_from(b, XpressState { i, flags: f1, fcount: 0, nib, out: dout })
            == legacy_decode_from(b, XpressState { i, flags: f2, fcount: 0, nib, out: dout }),
{
}

/// Emitting a literal byte preserves the older decoder's invariant.
proof fn lemma_legacy_literal(
    inp: Seq<u8>,
    consumed: int,
    out: Seq<u8>,
    foff: int,
    bits: int,
    count: int,
    nib: int,
)
    requires
        legacy_enc_inv(inp, consumed, out, foff, bits, count, nib),
        0 <= count <= 31,
        consumed < inp.len(),
    ensures
        legacy_enc_inv(inp, consumed + 1, out.push(inp[consumed]), foff, 2 * bits, count + 1, nib),
{
    let byte = inp[consumed];
    let out2 = out.push(byte);
    let dout = inp.subrange(0, consumed);
    vstd::arithmetic::power2::lemma_pow2_unfold((count + 1) as nat);
    assert forall|w: int, hi: int, rest: Seq<u8>|
        enc_cond(w, count + 1, 2 * bits) && 0 <= hi < 16 implies legacy_decode_from(
        #[trigger] completion(out2, foff, w, nib, hi, rest),
        xpress_init(),
    ) == legacy_decode_from(
        completion(out2, foff, w, nib, hi, rest),
        enc_mid(out2.len() as int, foff, w, count + 1, nib, inp.subrange(0, consumed + 1)),
    ) by {
        lemma_cond_step(w, count, bits, 0);
        let b = completion(out2, foff, w, nib, hi, rest);
        assert(out2 =~= out + seq![byte]);
        lemma_completion_append(out, foff, w, nib, hi, seq![byte], rest);
        assert(b == completion(out, foff, w, nib, hi, seq![byte] + rest));
        assert(legacy_decode_from(b, xpress_init()) == legacy_decode_from(
            b,
            enc_mid(out.len() as int, foff, w, count, nib, dout),
        ));
        lemma_completion_word(out, foff, w, nib, hi, seq![byte] + rest);
        lemma_legacy_mid_to_token(b, out.len() as int, foff, w, count, nib, dout);
        assert(b[out.len() as int] == byte);
        assert(w / pow2i(32 - count - 1) % 2 == 0);
        assert(legacy_decode_token(b, out.len() as int, w, 32 - count, nib, dout)
            == legacy_decode_from(
            b,
            XpressState {
                i: out.len() as int + 1,
                flags: w,
                fcount: 32 - count - 1,
                nib,
                out: dout.push(byte),
            },
        ));
        assert(dout.push(byte) =~= inp.subrange(0, consumed + 1));
        assert(XpressState {
            i: out.len() as int + 1,
            flags: w,
            fcount: 32 - count - 1,
            nib,
            out: dout.push(byte),
        } == enc_mid(out2.len() as int, foff, w, count + 1, nib, inp.subrange(0, consumed + 1)));
    }
}

/// Flushing a full indicator word and reserving a new placeholder preserves
/// the older decoder's invariant.
proof fn lemma_legacy_flush(
    inp: Seq<u8>,
    consumed: int,
    out: Seq<u8>,
    foff: int,
    bits: int,
    nib: int,
)
    requires
        legacy_enc_inv(inp, consumed, out, foff, bits, 32, nib),
    ensures
        legacy_enc_inv(
            inp,
            consumed,
            store32_at(out, foff, bits) + seq![0u8, 0u8, 0u8, 0u8],
            out.len() as int,
            0,
            0,
            nib,
        ),
{
    let out3 = store32_at(out, foff, bits) + seq![0u8, 0u8, 0u8, 0u8];
    let foff2 = out.len() as int;
    let dout = inp.subrange(0, consumed);
    lemma_pow2i_values();
    vstd::arithmetic::div_mod::lemma_div_basics(bits);
    assert forall|w: int, hi: int, rest: Seq<u8>|
        enc_cond(w, 0, 0) && 0 <= hi < 16 implies legacy_decode_from(
        #[trigger] completion(out3, foff2, w, nib, hi, rest),
        xpress_init(),
    ) == legacy_decode_from(
        completion(out3, foff2, w, nib, hi, rest),
        enc_mid(out3.len() as int, foff2, w, 0, nib, dout),
    ) by {
        let b = completion(out3, foff2, w, nib, hi, rest);
        assert(b =~= completion(out, foff, bits, nib, hi, lebytes4(w) + rest));
        assert(enc_cond(bits, 32, bits));
        assert(legacy_decode_from(b, xpress_init()) == legacy_decode_from(
            b,
            enc_mid(out.len() as int, foff, bits, 32, nib, dout),
        ));
        lemma_legacy_refill_flags_any(b, out.len() as int, bits, 0, nib, dout);
    }
}

/// What the older decoder makes of the escape chain laid out at position `i`
/// of `b`: it never reaches the 32-bit escape, because the chain's 16-bit
/// field is the match length minus 3, at least 277.
proof fn lemma_legacy_chain_decode(
    b: Seq<u8>,
    i: int,
    w: int,
    fc: int,
    nib2: int,
    dout: Seq<u8>,
    off: int,
    rem1: int,
)
    requires
        0 <= i,
        i + chain_bytes(rem1).len() <= b.len(),
        chain_bytes(rem1).len() >= 1 ==> b[i] == chain_bytes(rem1)[0],
        chain_bytes(rem1).len() >= 2 ==> b[i + 1] == chain_bytes(rem1)[1],
        chain_bytes(rem1).len() >= 3 ==> b[i + 2] == chain_bytes(rem1)[2],
        0 <= rem1,
        rem1 + 10 <= 8192,
    ensures
        legacy_ext_len(b, i, w, fc, nib2, dout, off, nib_val(rem1)) == legacy_copy_step(
            b,
            i + chain_bytes(rem1).len(),
            w,
            fc,
            nib2,
            dout,
            off,
            rem1 + 10,
        ),
{
    if rem1 < 15 {
    } else {
        let rem2 = rem1 - 15;
        assert(b[i] == chain_bytes(rem1)[0]);
        if rem2 < 255 {
            assert(b[i] == rem2 as u8);
        } else {
            let m16 = rem1 + 7;
            assert(b[i + 1] == ((m16 % 256) as u8));
            assert(b[i + 2] == ((m16 / 256) as u8));
            lemma_le16_parts(m16);
            assert(le16_at(b, i + 1) == m16);
        }
    }
}

/// Emitting a short match token preserves the older decoder's invariant.
proof fn lemma_legacy_match_short(
    inp: Seq<u8>,
    consumed: int,
    out: Seq<u8>,
    foff: int,
    bits: int,
    count: int,
    nib: int,
    dist: int,
    mlen: int,
)
    requires
        legacy_enc_inv(inp, consumed, out, foff, bits, count, nib),
        0 <= count <= 31,
        match_at(inp, consumed, dist, mlen),
        mlen < 10,
    ensures
        legacy_enc_inv(
            inp,
            consumed + mlen,
            out + tok_bytes(dist, mlen - 3),
            foff,
            2 * bits + 1,
            count + 1,
            nib,
        ),
{
    let l3 = mlen - 3;
    let t = (dist - 1) * 8 + l3;
    let emitted = tok_bytes(dist, l3);
    let out2 = out + emitted;
    let dout = inp.subrange(0, consumed);
    lemma_tok_split(dist, l3);
    lemma_le16_parts(t);
    vstd::arithmetic::power2::lemma_pow2_unfold((count + 1) as nat);
    assert forall|w: int, hi: int, rest: Seq<u8>|
        enc_cond(w, count + 1, 2 * bits + 1) && 0 <= hi < 16 implies legacy_decode_from(
        #[trigger] completion(out2, foff, w, nib, hi, rest),
        xpress_init(),
    ) == legacy_decode_from(
        completion(out2, foff, w, nib, hi, rest),
        enc_mid(out2.len() as int, foff, w, count + 1, nib, inp.subrange(0, consumed + mlen)),
    ) by {
        lemma_cond_step(w, count, bits, 1);
        let b = completion(out2, foff, w, nib, hi, rest);
        lemma_completion_append(out, foff, w, nib, hi, emitted, rest);
        assert(b == completion(out, foff, w, nib, hi, emitted + rest));
        assert(legacy_decode_from(b, xpress_init()) == legacy_decode_from(
            b,
            enc_mid(out.len() as int, foff, w, count, nib, dout),
        ));
        lemma_completion_word(out, foff, w, nib, hi, emitted + rest);
        lemma_legacy_mid_to_token(b, out.len() as int, foff, w, count, nib, dout);
        let ti = out.len() as int;
        assert(b[ti] == emitted[0]);
        assert(b[ti + 1] == emitted[1]);
        assert(le16_at(b, ti) == t);
        assert(w / pow2i(32 - count - 1) % 2 == 1);
        assert(legacy_decode_token(b, ti, w, 32 - count, nib, dout) == legacy_copy_step(
            b,
            ti + 2,
            w,
            32 - count - 1,
            nib,
            dout,
            dist - 1,
            mlen,
        ));
        lemma_lz_extend_replay(inp, consumed, dist, mlen);
        assert(legacy_copy_step(b, ti + 2, w, 32 - count - 1, nib, dout, dist - 1, mlen)
            == legacy_decode_from(
            b,
            XpressState {
                i: ti + 2,
                flags: w,
                fcount: 32 - count - 1,
                nib,
                out: inp.subrange(0, consumed + mlen),
            },
        ));
        assert(XpressState {
            i: ti + 2,
            flags: w,
            fcount: 32 - count - 1,
            nib,
            out: inp.subrange(0, consumed + mlen),
        } == enc_mid(out2.len() as int, foff, w, count + 1, nib, inp.subrange(0, consumed + mlen)));
    }
}

/// Emitting a long match whose nibble starts a fresh shared byte preserves
/// the older decoder's invariant.
#[verifier::rlimit(100)]
#[verifier::spinoff_prover]
proof fn lemma_legacy_match_fresh(
    inp: Seq<u8>,
    consumed: int,
    out: Seq<u8>,
    foff: int,
    bits: int,
    count: int,
    dist: int,
    mlen: int,
)
    requires
        legacy_enc_inv(inp, consumed, out, foff, bits, count, 0),
        0 <= count <= 31,
        match_at(inp, consumed, dist, mlen),
        mlen >= 10,
    ensures
        legacy_enc_inv(
            inp,
            consumed + mlen,
            out + tok_bytes(dist, 7) + seq![(nib_val(mlen - 10) as u8)] + chain_bytes(mlen - 10),
            foff,
            2 * bits + 1,
            count + 1,
            out.len() as int + 2,
        ),
{
    let rem1 = mlen - 10;
    let t = (dist - 1) * 8 + 7;
    let v1 = nib_val(rem1);
    let chain = chain_bytes(rem1);
    let out2 = out + tok_bytes(dist, 7) + seq![(v1 as u8)] + chain;
    let nib2 = out.len() as int + 2;
    let dout = inp.subrange(0, consumed);
    let ti = out.len() as int;
    lemma_tok_split(dist, 7);
    lemma_le16_parts(t);
    vstd::arithmetic::power2::lemma_pow2_unfold((count + 1) as nat);
    assert(out2.len() == out.len() + 3 + chain.len());
    assert forall|w: int, hi: int, rest: Seq<u8>|
        enc_cond(w, count + 1, 2 * bits + 1) && 0 <= hi < 16 implies legacy_decode_from(
        #[trigger] completion(out2, foff, w, nib2, hi, rest),
        xpress_init(),
    ) == legacy_decode_from(
        completion(out2, foff, w, nib2, hi, rest),
        enc_mid(out2.len() as int, foff, w, count + 1, nib2, inp.subrange(0, consumed + mlen)),
    ) by {
        lemma_cond_step(w, count, bits, 1);
        let b = completion(out2, foff, w, nib2, hi, rest);
        let nibbed = ((v1 + 16 * hi) as u8);
        let emitted = tok_bytes(dist, 7) + seq![nibbed] + chain;
        assert(b =~= completion(out, foff, w, 0, 0, emitted + rest));
        assert(legacy_decode_from(b, xpress_init()) == legacy_decode_from(
            b,
            enc_mid(out.len() as int, foff, w, count, 0, dout),
        ));
        lemma_completion_word(out, foff, w, 0, 0, emitted + rest);
        lemma_legacy_mid_to_token(b, out.len() as int, foff, w, count, 0, dout);
        assert(b[ti] == emitted[0]);
        assert(b[ti + 1] == emitted[1]);
        assert(le16_at(b, ti) == t);
        assert(w / pow2i(32 - count - 1) % 2 == 1);
        assert(b[ti + 2] == nibbed);
        assert((nibbed as int) % 16 == v1) by {
            vstd::arithmetic::div_mod::lemma_fundamental_div_mod_converse(v1 + 16 * hi, 16, hi, v1);
        }
        assert(legacy_decode_token(b, ti, w, 32 - count, 0, dout) == legacy_ext_len(
            b,
            ti + 3,
            w,
            32 - count - 1,
            ti + 2,
            dout,
            dist - 1,
            v1,
        ));
        if chain.len() >= 1 {
            assert(b[ti + 3] == emitted[3]);
        }
        if chain.len() >= 3 {
            assert(b[ti + 4] == emitted[4]);
            assert(b[ti + 5] == emitted[5]);
        }
        lemma_legacy_chain_decode(b, ti + 3, w, 32 - count - 1, ti + 2, dout, dist - 1, rem1);
        lemma_lz_extend_replay(inp, consumed, dist, mlen);
        assert(legacy_copy_step(b, ti + 3 + chain.len(), w, 32 - count - 1, ti + 2, dout, dist - 1,
            rem1 + 10) == legacy_decode_from(
            b,
            XpressState {
                i: out2.len() as int,
                flags: w,
                fcount: 32 - count - 1,
                nib: ti + 2,
                out: inp.subrange(0, consumed + mlen),
            },
        ));
        assert(XpressState {
            i: out2.len() as int,
            flags: w,
            fcount: 32 - count - 1,
            nib: ti + 2,
            out: inp.subrange(0, consumed + mlen),
        } == enc_mid(out2.len() as int, foff, w, count + 1, nib2, inp.subrange(0, consumed + mlen)));
    }
}

/// Emitting a long match whose nibble fills the pending shared byte's upper
/// half preserves the older decoder's invariant.
#[verifier::rlimit(100)]
#[verifier::spinoff_prover]
proof fn lemma_legacy_match_patch(
    inp: Seq<u8>,
    consumed: int,
    out: Seq<u8>,
    foff: int,
    bits: int,
    count: int,
    nib: int,
    dist: int,
    mlen: int,
)
    requires
        legacy_enc_inv(inp, consumed, out, foff, bits, count, nib),
        0 <= count <= 31,
        match_at(inp, consumed, dist, mlen),
        mlen >= 10,
        nib != 0,
    ensures
        legacy_enc_inv(
            inp,
            consumed + mlen,
            out.update(nib, ((out[nib] + 16 * nib_val(mlen - 10)) as u8)) + tok_bytes(dist, 7)
                + chain_bytes(mlen - 10),
            foff,
            2 * bits + 1,
            count + 1,
            0,
        ),
{
    let rem1 = mlen - 10;
    let t = (dist - 1) * 8 + 7;
    let v1 = nib_val(rem1);
    let chain = chain_bytes(rem1);
    let patched = out.update(nib, ((out[nib] + 16 * v1) as u8));
    let out2 = patched + tok_bytes(dist, 7) + chain;
    let dout = inp.subrange(0, consumed);
    let ti = out.len() as int;
    lemma_tok_split(dist, 7);
    lemma_le16_parts(t);
    vstd::arithmetic::power2::lemma_pow2_unfold((count + 1) as nat);
    assert(out2.len() == out.len() + 2 + chain.len());
    assert forall|w: int, hi: int, rest: Seq<u8>|
        enc_cond(w, count + 1, 2 * bits + 1) && 0 <= hi < 16 implies legacy_decode_from(
        #[trigger] completion(out2, foff, w, 0, hi, rest),
        xpress_init(),
    ) == legacy_decode_from(
        completion(out2, foff, w, 0, hi, rest),
        enc_mid(out2.len() as int, foff, w, count + 1, 0, inp.subrange(0, consumed + mlen)),
    ) by {
        lemma_cond_step(w, count, bits, 1);
        let b = completion(out2, foff, w, 0, hi, rest);
        let emitted = tok_bytes(dist, 7) + chain;
        assert(b =~= completion(out, foff, w, nib, v1, emitted + rest));
        assert(legacy_decode_from(b, xpress_init()) == legacy_decode_from(
            b,
            enc_mid(out.len() as int, foff, w, count, nib, dout),
        ));
        lemma_completion_word(out, foff, w, nib, v1, emitted + rest);
        lemma_legacy_mid_to_token(b, out.len() as int, foff, w, count, nib, dout);
        assert(b[ti] == emitted[0]);
        assert(b[ti + 1] == emitted[1]);
        assert(le16_at(b, ti) == t);
        assert(w / pow2i(32 - count - 1) % 2 == 1);
        assert(b[nib] == ((out[nib] + 16 * v1) as u8));
        assert((b[nib] as int) / 16 == v1) by {
            vstd::arithmetic::div_mod::lemma_fundamental_div_mod_converse(
                out[nib] + 16 * v1,
                16,
                v1,
                out[nib] as int,
            );
        }
        assert(legacy_decode_token(b, ti, w, 32 - count, nib, dout) == legacy_ext_len(
            b,
            ti + 2,
            w,
            32 - count - 1,
            0,
            dout,
            dist - 1,
            v1,
        ));
        if chain.len() >= 1 {
            assert(b[ti + 2] == emitted[2]);
        }
        if chain.len() >= 3 {
            assert(b[ti + 3] == emitted[3]);
            assert(b[ti + 4] == emitted[4]);
        }
        lemma_legacy_chain_decode(b, ti + 2, w, 32 - count - 1, 0, dout, dist - 1, rem1);
        lemma_lz_extend_replay(inp, consumed, dist, mlen);
        assert(legacy_copy_step(b, ti + 2 + chain.len(), w, 32 - count - 1, 0, dout, dist - 1, rem1
            + 10) == legacy_decode_from(
            b,
            XpressState {
                i: out2.len() as int,
                flags: w,
                fcount: 32 - count - 1,
                nib: 0,
                out: inp.subrange(0, consumed + mlen),
            },
        ));
        assert(XpressState {
            i: out2.len() as int,
            flags: w,
            fcount: 32 - count - 1,
            nib: 0,
            out: inp.subrange(0, consumed + mlen),
        } == enc_mid(out2.len() as int, foff, w, count + 1, 0, inp.subrange(0, consumed + mlen)));
    }
}

/// Sealing the final indicator word leaves a stream the older decoder turns
/// into exactly the consumed input.
proof fn lemma_legacy_seal(
    inp: Seq<u8>,
    out: Seq<u8>,
    foff: int,
    bits: int,
    count: int,
    nib: int,
)
    requires
        legacy_enc_inv(inp, inp.len() as int, out, foff, bits, count, nib),
        count <= 31,
    ensures
        legacy_decode(store32_at(out, foff, seal_word(bits, count))) == Ok::<Seq<u8>, Error>(inp),
{
    reveal(seal_word);
    let word = seal_word(bits, count);
    let dout = inp.subrange(0, inp.len() as int);
    lemma_pow2i_values();
    if count == 0 {
        vstd::arithmetic::div_mod::lemma_basic_div(0xFFFF_FFFF, 0x1_0000_0000);
        assert(enc_cond(word, 0, bits));
    } else {
        let p = pow2i(32 - count);
        vstd::arithmetic::power2::lemma_pow2_adds(count as nat, (32 - count) as nat);
        vstd::arithmetic::power2::lemma_pow2_pos((32 - count) as nat);
        assert(bits * p <= pow2i(32) - p) by (nonlinear_arith)
            requires
                0 <= bits <= pow2i(count) - 1,
                p == pow2i(32 - count),
                pow2i(count) * pow2i(32 - count) == pow2i(32),
                p >= 1,
        ;
        vstd::arithmetic::div_mod::lemma_fundamental_div_mod_converse(word, p, bits, p - 1);
        assert(enc_cond(word, count, bits));
    }
    let b = completion(out, foff, word, nib, 0, Seq::empty());
    assert(store32_at(out, foff, word) =~= b);
    assert(dout =~= inp);
    assert(legacy_decode_from(b, xpress_init()) == legacy_decode_from(
        b,
        enc_mid(out.len() as int, foff, word, count, nib, dout),
    ));
    if count == 0 {
        lemma_completion_word(out, foff, word, nib, 0, Seq::empty());
        assert(0xFFFF_FFFF as int / pow2i(31) == 1) by {
            vstd::arithmetic::div_mod::lemma_fundamental_div_mod_converse(
                0xFFFF_FFFF,
                0x8000_0000,
                1,
                0x7FFF_FFFF,
            );
        }
        assert(legacy_decode_from(b, enc_mid(out.len() as int, foff, word, 0, nib, dout)) == Ok::<
            Seq<u8>,
            Error,
        >(dout));
    } else {
        assert(legacy_decode_from(b, enc_mid(out.len() as int, foff, word, count, nib, dout))
            == Ok::<Seq<u8>, Error>(dout));
    }
}

/// The induction along the compressor's emissions: from any state in which
/// the older decoder's invariant holds, the finished stream decodes, with
/// the older relation, to the whole input.
proof fn lemma_legacy_encode_from(
    inp: Seq<u8>,
    consumed: int,
    out: Seq<u8>,
    foff: int,
    bits: int,
    count: int,
    nib: int,
)
    requires
        legacy_enc_inv(inp, consumed, out, foff, bits, count, nib),
        count <= 31,
    ensures
        legacy_decode(xpress_encode_step(inp, consumed, out, foff, bits, count, nib)) == Ok::<
            Seq<u8>,
            Error,
        >(inp),
    decreases in_left(inp, consumed),
{
    reveal(xpress_encode_step);
    reveal(enc_roll);
    reveal(crate::data::encode_match_out);
    reveal(crate::data::encode_match_nib);
    if consumed >= inp.len() {
        lemma_legacy_seal(inp, out, foff, bits, count, nib);
    } else {
        let bm = xpress_best_match(inp, consumed);
        lemma_best_match_at(inp, consumed);
        if bm.1 != 0 && bm.0 >= 3 {
            let mlen = bm.0;
            let dist = bm.1;
            let out2 = encode_match_out(out, nib, mlen, dist);
            let nib2 = encode_match_nib(out, nib, mlen);
            if mlen < 10 {
                lemma_legacy_match_short(inp, consumed, out, foff, bits, count, nib, dist, mlen);
            } else if nib == 0 {
                lemma_legacy_match_fresh(inp, consumed, out, foff, bits, count, dist, mlen);
            } else {
                lemma_legacy_match_patch(inp, consumed, out, foff, bits, count, nib, dist, mlen);
            }
            assert(legacy_enc_inv(inp, consumed + mlen, out2, foff, 2 * bits + 1, count + 1, nib2));
            let r = enc_roll(out2, foff, 2 * bits + 1, count + 1);
            if count + 1 == 32 {
                lemma_legacy_flush(inp, consumed + mlen, out2, foff, 2 * bits + 1, nib2);
            }
            lemma_legacy_encode_from(inp, consumed + mlen, r.0, r.1, r.2, r.3, nib2);
        } else {
            lemma_legacy_literal(inp, consumed, out, foff, bits, count, nib);
            let out2 = out.push(inp[consumed]);
            let r = enc_roll(out2, foff, 2 * bits, count + 1);
            if count + 1 == 32 {
                lemma_legacy_flush(inp, consumed + 1, out2, foff, 2 * bits, nib);
            }
            lemma_legacy_encode_from(inp, consumed + 1, r.0, r.1, r.2, r.3, nib);
        }
    }
}

/// The older decoder at the crate root also inverts the compressor: decoding
/// `xpress_encode(inp)` -- the exact byte sequence `data::compress` emits --
/// with the older decode relation yields the input again, for every input.
pub proof fn lemma_legacy_decodes_encoded(inp: Seq<u8>)
    ensures
        legacy_decode(xpress_encode(inp)) == Ok::<Seq<u8>, Error>(inp),
{
    let out0: Seq<u8> = seq![0u8, 0u8, 0u8, 0u8];
    assert(inp.subrange(0, 0) =~= Seq::<u8>::empty());
    lemma_pow2i_values();
    assert forall|w: int, hi: int, rest: Seq<u8>|
        enc_cond(w, 0, 0) && 0 <= hi < 16 implies legacy_decode_from(
        #[trigger] completion(out0, 0, w, 0, hi, rest),
        xpress_init(),
    ) == legacy_decode_from(
        completion(out0, 0, w, 0, hi, rest),
        enc_mid(out0.len() as int, 0, w, 0, 0, inp.subrange(0, 0)),
    ) by {
        assert(enc_mid(out0.len() as int, 0, w, 0, 0, inp.subrange(0, 0)) == xpress_init());
    }
    assert(legacy_enc_inv(inp, 0, out0, 0, 0, 0, 0));
    lemma_legacy_encode_from(inp, 0, out0, 0, 0, 0, 0);
}

/// Sealing the final indicator word leaves a stream the current decoder
/// turns into exactly the consumed input.
proof fn lemma_xpress_seal(
    inp: Seq<u8>,
    out: Seq<u8>,
    foff: int,
    bits: int,
    count: int,
    nib: int,
)
    requires
        crate::data::enc_inv(inp, inp.len() as int, out, foff, bits, count, nib),
        count <= 31,
    ensures
        crate::data::xpress_decode(store32_at(out, foff, seal_word(bits, count))) == Ok::<
            Seq<u8>,
            Error,
        >(inp),
{
    reveal(seal_word);
    let word = seal_word(bits, count);
    let dout = inp.subrange(0, inp.len() as int);
    lemma_pow2i_values();
    if count == 0 {
        vstd::arithmetic::div_mod::lemma_basic_div(0xFFFF_FFFF, 0x1_0000_0000);
        assert(enc_cond(word, 0, bits));
    } else {
        let p = pow2i(32 - count);
        vstd::arithmetic::power2::lemma_pow2_adds(count as nat, (32 - count) as nat);
        vstd::arithmetic::power2::lemma_pow2_pos((32 - count) as nat);
        assert(bits * p <= pow2i(32) - p) by (nonlinear_arith)
            requires
                0 <= bits <= pow2i(count) - 1,
                p == pow2i(32 - count),
                pow2i(count) * pow2i(32 - count) == pow2i(32),
                p >= 1,
        ;
        vstd::arithmetic::div_mod::lemma_fundamental_div_mod_converse(word, p, bits, p - 1);
        assert(enc_cond(word, count, bits));
    }
    let b = completion(out, foff, word, nib, 0, Seq::empty());
    assert(store32_at(out, foff, word) =~= b);
    assert(dout =~= inp);
    assert(crate::data::xpress_decode_from(b, xpress_init()) == crate::data::xpress_decode_from(
        b,
        enc_mid(out.len() as int, foff, word, count, nib, dout),
    ));
    if count == 0 {
        lemma_completion_word(out, foff, word, nib, 0, Seq::empty());
        assert(0xFFFF_FFFF as int / pow2i(31) == 1) by {
            vstd::arithmetic::div_mod::lemma_fundamental_div_mod_converse(
                0xFFFF_FFFF,
                0x8000_0000,
                1,
                0x7FFF_FFFF,
            );
        }
        assert(crate::data::xpress_decode_from(
            b,
            enc_mid(out.len() as int, foff, word, 0, nib, dout),
        ) == Ok::<Seq<u8>, Error>(dout));
    } else {
        assert(crate::data::xpress_decode_from(
            b,
            enc_mid(out.len() as int, foff, word, count, nib, dout),
        ) == Ok::<Seq<u8>, Error>(dout));
    }
}

/// The induction along the compressor's emissions for the current decoder.
proof fn lemma_xpress_encode_from(
    inp: Seq<u8>,
    consumed: int,
    out: Seq<u8>,
    foff: int,
    bits: int,
    count: int,
    nib: int,
)
    requires
        crate::data::enc_inv(inp, consumed, out, foff, bits, count, nib),
        count <= 31,
    ensures
        crate::data::xpress_decode(xpress_encode_step(inp, consumed, out, foff, bits, count, nib))
            == Ok::<Seq<u8>, Error>(inp),
    decreases in_left(inp, consumed),
{
    reveal(xpress_encode_step);
    reveal(enc_roll);
    reveal(crate::data::encode_match_out);
    reveal(crate::data::encode_match_nib);
    if consumed >= inp.len() {
        lemma_xpress_seal(inp, out, foff, bits, count, nib);
    } else {
        let bm = xpress_best_match(inp, consumed);
        lemma_best_match_at(inp, consumed);
        if bm.1 != 0 && bm.0 >= 3 {
            let mlen = bm.0;
            let dist = bm.1;
            let out2 = encode_match_out(out, nib, mlen, dist);
            let nib2 = encode_match_nib(out, nib, mlen);
            if mlen < 10 {
                crate::data::lemma_enc_match_short(
                    inp,
                    consumed,
                    out,
                    foff,
                    bits,
                    count,
                    nib,
                    dist,
                    mlen,
                );
            } else if nib == 0 {
                crate::data::lemma_enc_match_fresh(
                    inp,
                    consumed,
                    out,
                    foff,
                    bits,
                    count,
                    dist,
                    mlen,
                );
            } else {
                crate::data::lemma_enc_match_patch(
                    inp,
                    consumed,
                    out,
                    foff,
                    bits,
                    count,
                    nib,
                    dist,
                    mlen,
                );
            }
            assert(crate::data::enc_inv(inp, consumed + mlen, out2, foff, 2 * bits + 1, count + 1, nib2));
            let r = enc_roll(out2, foff, 2 * bits + 1, count + 1);
            if count + 1 == 32 {
                crate::data::lemma_enc_flush(inp, consumed + mlen, out2, foff, 2 * bits + 1, nib2);
            }
            lemma_xpress_encode_from(inp, consumed + mlen, r.0, r.1, r.2, r.3, nib2);
        } else {
            crate::data::lemma_enc_literal(inp, consumed, out, foff, bits, count, nib);
            let out2 = out.push(inp[consumed]);
            let r = enc_roll(out2, foff, 2 * bits, count + 1);
            if count + 1 == 32 {
                crate::data::lemma_enc_flush(inp, consumed + 1, out2, foff, 2 * bits, nib);
            }
            lemma_xpress_encode_from(inp, consumed + 1, r.0, r.1, r.2, r.3, nib);
        }
    }
}

/// The round trip as one spec-level theorem: for every byte sequence, the
/// exact stream the compressor emits decodes back to that sequence.
pub proof fn lemma_encode_round_trip(inp: Seq<u8>)
    ensures
        crate::data::xpress_decode(xpress_encode(inp)) == Ok::<Seq<u8>, Error>(inp),
{
    let out0: Seq<u8> = seq![0u8, 0u8, 0u8, 0u8];
    assert(inp.subrange(0, 0) =~= Seq::<u8>::empty());
    lemma_pow2i_values();
    assert forall|w: int, hi: int, rest: Seq<u8>|
        enc_cond(w, 0, 0) && 0 <= hi < 16 implies crate::data::xpress_decode_from(
        #[trigger] completion(out0, 0, w, 0, hi, rest),
        xpress_init(),
    ) == crate::data::xpress_decode_from(
        completion(out0, 0, w, 0, hi, rest),
        enc_mid(out0.len() as int, 0, w, 0, 0, inp.subrange(0, 0)),
    ) by {
        assert(enc_mid(out0.len() as int, 0, w, 0, 0, inp.subrange(0, 0)) == xpress_init());
    }
    assert(crate::data::enc_inv(inp, 0, out0, 0, 0, 0, 0));
    lemma_xpress_encode_from(inp, 0, out0, 0, 0, 0, 0);
}

} // verus!
