//! Little-endian field access over byte buffers and the back-reference copy
//! primitive shared by the codecs.

use vstd::prelude::*;

verus! {

/// The 16-bit little-endian value stored at positions `i` and `i + 1` of `s`.
pub open spec fn le16_at(s: Seq<u8>, i: int) -> int {
    s[i] + 256 * s[i + 1]
}

/// The 32-bit little-endian value stored at positions `i` .. `i + 4` of `s`.
pub open spec fn le32_at(s: Seq<u8>, i: int) -> int {
    s[i] + 256 * s[i + 1] + 65536 * s[i + 2] + 16777216 * s[i + 3]
}

/// `x` clamped to zero from below; keeps recursion measures non-negative.
pub open spec fn clip0(x: int) -> int {
    if x >= 0 {
        x
    } else {
        0
    }
}

/// `pow2` over `int`, for stating bit positions without bitwise operators.
pub open spec fn pow2i(k: int) -> int {
    vstd::arithmetic::power2::pow2(k as nat) as int
}

/// Computes a small power of two.
pub fn pow2_u32(k: u32) -> (r: u32)
    requires
        k < 32,
    ensures
        r == pow2i(k as int),
        r >= 1,
{
    proof {
        vstd::arithmetic::power2::lemma2_to64();
    }
    let mut r: u32 = 1;
    let mut j: u32 = 0;
    while j < k
        invariant
            j <= k < 32,
            r == pow2i(j as int),
        decreases k - j,
    {
        proof {
            vstd::arithmetic::power2::lemma_pow2_unfold((j + 1) as nat);
            vstd::arithmetic::power2::lemma_pow2_strictly_increases(j as nat, 31);
            vstd::arithmetic::power2::lemma2_to64();
        }
        r = r * 2;
        j = j + 1;
    }
    r
}

/// `out` extended by `len` bytes, each copied from `dist` positions before the
/// write position.  A byte appended earlier in the same extension serves as the
/// source of a later one, so `dist < len` yields a repeating pattern.
pub open spec fn lz_extend(out: Seq<u8>, dist: int, len: int) -> Seq<u8>
    decreases len,
{
    if len <= 0 {
        out
    } else {
        lz_extend(out.push(out[out.len() - dist]), dist, len - 1)
    }
}

pub proof fn lemma_lz_extend_len(out: Seq<u8>, dist: int, len: int)
    requires
        0 <= len,
    ensures
        lz_extend(out, dist, len).len() == out.len() + len,
    decreases len,
{
    if len > 0 {
        lemma_lz_extend_len(out.push(out[out.len() - dist]), dist, len - 1);
    }
}

/// Extending appends and never rewrites: the existing bytes stay in place,
/// whatever the distance.
pub proof fn lemma_lz_extend_prefix(out: Seq<u8>, dist: int, len: int)
    requires
        0 <= len,
    ensures
        lz_extend(out, dist, len).len() == out.len() + len,
        forall|p: int| 0 <= p < out.len() ==> #[trigger] lz_extend(out, dist, len)[p] == out[p],
    decreases len,
{
    lemma_lz_extend_len(out, dist, len);
    if len > 0 {
        lemma_lz_extend_prefix(out.push(out[out.len() - dist]), dist, len - 1);
    }
}

/// Extending leaves the existing bytes in place, and the `j`th appended byte
/// repeats the tail of `out` with period `dist`.
pub proof fn lemma_lz_extend_index(out: Seq<u8>, dist: int, len: int)
    requires
        1 <= dist <= out.len(),
        0 <= len,
    ensures
        lz_extend(out, dist, len).len() == out.len() + len,
        forall|p: int| 0 <= p < out.len() ==> #[trigger] lz_extend(out, dist, len)[p] == out[p],
        forall|p: int|
            out.len() <= p < out.len() + len ==> #[trigger] lz_extend(out, dist, len)[p] == out[
            out.len() - dist + ((p - out.len()) % dist)],
    decreases len,
{
    lemma_lz_extend_len(out, dist, len);
    if len > 0 {
        let out1 = out.push(out[out.len() - dist]);
        lemma_lz_extend_index(out1, dist, len - 1);
        let r = lz_extend(out, dist, len);
        assert forall|p: int| out.len() <= p < out.len() + len implies r[p] == out[out.len() - dist
            + ((p - out.len()) % dist)] by {
            let j = p - out.len();
            if j == 0 {
                vstd::arithmetic::div_mod::lemma_small_mod(0, dist as nat);
                assert(r[out1.len() - 1] == out1[out1.len() - 1]);
            } else {
                let r1 = (j - 1) % dist;
                vstd::arithmetic::div_mod::lemma_fundamental_div_mod(j - 1, dist);
                let q = (j - 1) / dist;
                if r1 + 1 < dist {
                    vstd::arithmetic::div_mod::lemma_fundamental_div_mod_converse(
                        j,
                        dist,
                        q,
                        r1 + 1,
                    );
                    assert(j % dist == r1 + 1);
                    assert(r[out1.len() + (j - 1)] == out1[out1.len() - dist + r1]);
                    assert(out1.len() - dist + r1 < out.len());
                } else {
                    assert((q + 1) * dist == q * dist + dist) by (nonlinear_arith);
                    vstd::arithmetic::div_mod::lemma_fundamental_div_mod_converse(j, dist, q + 1, 0);
                    assert(j % dist == 0);
                    assert(r[out1.len() + (j - 1)] == out1[out1.len() - dist + r1]);
                    assert(out1.len() - dist + r1 == out.len());
                }
            }
        }
    }
}

/// Replaying a match that was verified by direct byte comparison reproduces
/// exactly the matched bytes: this is what ties a copy token back to the input
/// it stands for.
pub proof fn lemma_lz_extend_replay(s: Seq<u8>, p: int, dist: int, len: int)
    requires
        1 <= dist <= p,
        0 <= len,
        p + len <= s.len(),
        forall|q: int| p <= q < p + len ==> #[trigger] s[q] == s[q - dist],
    ensures
        lz_extend(s.subrange(0, p), dist, len) == s.subrange(0, p + len),
    decreases len,
{
    if len > 0 {
        let out = s.subrange(0, p);
        assert(s[p] == s[p - dist]);
        assert(out.push(out[out.len() - dist]) =~= s.subrange(0, p + 1));
        lemma_lz_extend_replay(s, p + 1, dist, len - 1);
    }
}

/// Extending by one more byte appends the byte `dist` positions before the
/// end of the extension.
pub proof fn lemma_lz_extend_snoc(out: Seq<u8>, dist: int, len: int)
    requires
        1 <= dist <= out.len(),
        0 <= len,
    ensures
        lz_extend(out, dist, len + 1) == lz_extend(out, dist, len).push(
            lz_extend(out, dist, len)[out.len() + len - dist],
        ),
    decreases len,
{
    lemma_lz_extend_len(out, dist, len);
    if len == 0 {
        assert(lz_extend(out, dist, 1) == lz_extend(out.push(out[out.len() - dist]), dist, 0));
    } else {
        let out1 = out.push(out[out.len() - dist]);
        lemma_lz_extend_snoc(out1, dist, len - 1);
        assert(lz_extend(out, dist, len + 1) == lz_extend(out1, dist, len));
        assert(lz_extend(out, dist, len) == lz_extend(out1, dist, len - 1));
    }
}

/// Reads the 16-bit little-endian field at `i`.
pub fn read_le16(buf: &[u8], i: usize) -> (r: u16)
    requires
        i + 2 <= buf@.len(),
    ensures
        r as int == le16_at(buf@, i as int),
{
    (buf[i] as u16) + 256 * (buf[i + 1] as u16)
}

/// Reads the 32-bit little-endian field at `i`.
pub fn read_le32(buf: &[u8], i: usize) -> (r: u32)
    requires
        i + 4 <= buf@.len(),
    ensures
        r as int == le32_at(buf@, i as int),
{
    (buf[i] as u32) + 256 * (buf[i + 1] as u32) + 65536 * (buf[i + 2] as u32) + 16777216 * (buf[i
        + 3] as u32)
}

/// Appends `len` bytes to `out`, each copied from `dist` positions back.
/// Copies one byte at a time, so the source and destination ranges may
/// overlap: a byte written by this call is a valid source for a later byte of
/// the same call.
pub fn lz_copy(out: &mut Vec<u8>, dist: usize, len: u64)
    requires
        1 <= dist <= old(out)@.len(),
    ensures
        final(out)@ == lz_extend(old(out)@, dist as int, len as int),
{
    let ghost orig = out@;
    let mut k: u64 = 0;
    while k < len
        invariant
            1 <= dist <= orig.len(),
            k <= len,
            out@.len() == orig.len() + k,
            lz_extend(orig, dist as int, len as int) == lz_extend(
                out@,
                dist as int,
                (len - k) as int,
            ),
        decreases len - k,
    {
        let b = out[out.len() - dist];
        out.push(b);
        k = k + 1;
    }
}

/// The fixed-capacity counterpart of `lz_copy`: writes the back-reference
/// copy into `out` at position `at`, one byte at a time, so the source range
/// may overlap the destination.  Bytes past the copied range are untouched,
/// and the buffer's length never changes.
pub fn lz_copy_at(out: &mut Vec<u8>, at: usize, dist: usize, len: usize) -> (r: usize)
    requires
        1 <= dist <= at,
        at + len <= old(out)@.len(),
    ensures
        final(out)@.len() == old(out)@.len(),
        final(out)@.subrange(0, at + len) == lz_extend(
            old(out)@.subrange(0, at as int),
            dist as int,
            len as int,
        ),
        forall|p: int| at + len <= p < old(out)@.len() ==> final(out)@[p] == old(out)@[p],
        r == at + len,
{
    // binding the length keeps the write positions visibly within bounds
    let total = out.len();
    let ghost orig = out@;
    let ghost pre = out@.subrange(0, at as int);
    let mut j: usize = 0;
    proof {
        assert(out@.subrange(0, at as int) =~= lz_extend(pre, dist as int, 0));
    }
    while j < len
        invariant
            1 <= dist <= at,
            j <= len,
            at + len <= orig.len(),
            orig.len() == total,
            out@.len() == orig.len(),
            pre == orig.subrange(0, at as int),
            out@.subrange(0, at + j) == lz_extend(pre, dist as int, j as int),
            forall|p: int| at + j <= p < orig.len() ==> out@[p] == orig[p],
        decreases len - j,
    {
        proof {
            lemma_lz_extend_len(pre, dist as int, j as int);
        }
        let b = out[at + j - dist];
        out[at + j] = b;
        j = j + 1;
        proof {
            lemma_lz_extend_snoc(pre, dist as int, j as int - 1);
            assert(out@.subrange(0, at + j) =~= lz_extend(pre, dist as int, j as int));
        }
    }
    at + len
}

} // verus!
