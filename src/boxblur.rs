use vstd::prelude::*;
use crate::reshape::pixels_view;

verus! {

/// Position `j` of a line of `n` samples, clamped to the line's two ends.
pub open spec fn clamp_pos(j: int, n: int) -> int {
    if j < 0 {
        0
    } else if j >= n {
        n - 1
    } else {
        j
    }
}

/// Buffer index of the `k`th sample of the line that starts at `base`
/// and advances by `step`.
pub open spec fn line_index(base: int, step: int, k: int) -> int {
    base + k * step
}

/// Channel `c` of the line's sample at position `j`, clamped to the edge.
pub open spec fn line_sample(
    img: Seq<Seq<u8>>,
    base: int,
    step: int,
    n: int,
    c: int,
    j: int,
) -> int {
    img[line_index(base, step, clamp_pos(j, n))][c] as int
}

/// Sum of channel `c` over the clamped line positions `lo .. hi`.
pub open spec fn window_sum(
    img: Seq<Seq<u8>>,
    base: int,
    step: int,
    n: int,
    c: int,
    lo: int,
    hi: int,
) -> int
    decreases hi - lo,
{
    if hi <= lo {
        0
    } else {
        window_sum(img, base, step, n, c, lo, hi - 1) + line_sample(img, base, step, n, c, hi - 1)
    }
}

/// `s / d` rounded to the nearest integer (for `s >= 0`, `d > 0`).
pub open spec fn round_div(s: int, d: int) -> int {
    (2 * s + d) / (2 * d)
}

/// The rounded mean of channel `c` over the window of radius `r` around
/// position `k` of a line, with clamp-to-edge extension.
pub open spec fn box_average(
    img: Seq<Seq<u8>>,
    base: int,
    step: int,
    n: int,
    c: int,
    k: int,
    r: int,
) -> int {
    round_div(window_sum(img, base, step, n, c, k - r, k + r + 1), 2 * r + 1)
}

/// Whether buffer index `i` is a pixel of the `width` x `height` image whose
/// rows start `stride` apart.
pub open spec fn in_image(i: int, width: int, height: int, stride: int) -> bool {
    stride > 0 && 0 <= i && i / stride < height && i % stride < width
}

/// The pixel that a horizontal pass of radius `r` writes at index `i`.
pub open spec fn horz_pixel(
    src: Seq<Seq<u8>>,
    width: int,
    stride: int,
    r: int,
    i: int,
) -> Seq<u8> {
    Seq::new(
        src[i].len(),
        |c: int| box_average(src, (i / stride) * stride, 1, width, c, i % stride, r) as u8,
    )
}

/// The pixel that a vertical pass of radius `r` writes at index `i`.
pub open spec fn vert_pixel(
    src: Seq<Seq<u8>>,
    height: int,
    stride: int,
    r: int,
    i: int,
) -> Seq<u8> {
    Seq::new(
        src[i].len(),
        |c: int| box_average(src, i % stride, stride, height, c, i / stride, r) as u8,
    )
}

/// One horizontal box pass of radius `r` from `src`, written over `dst`:
/// with `r == 0` a copy of `src`; otherwise every image pixel is the window
/// mean along its row, and every other index keeps `dst`'s value.
pub open spec fn horz_blurred(
    src: Seq<Seq<u8>>,
    dst: Seq<Seq<u8>>,
    width: int,
    height: int,
    stride: int,
    r: int,
) -> Seq<Seq<u8>> {
    if r == 0 {
        src
    } else {
        Seq::new(
            dst.len(),
            |i: int|
                if in_image(i, width, height, stride) {
                    horz_pixel(src, width, stride, r, i)
                } else {
                    dst[i]
                },
        )
    }
}

/// One vertical box pass of radius `r`, like [`horz_blurred`] along columns.
pub open spec fn vert_blurred(
    src: Seq<Seq<u8>>,
    dst: Seq<Seq<u8>>,
    width: int,
    height: int,
    stride: int,
    r: int,
) -> Seq<Seq<u8>> {
    if r == 0 {
        src
    } else {
        Seq::new(
            dst.len(),
            |i: int|
                if in_image(i, width, height, stride) {
                    vert_pixel(src, height, stride, r, i)
                } else {
                    dst[i]
                },
        )
    }
}

/// Whether index `i` is one of the `n` samples of a line.
pub open spec fn on_line(i: int, base: int, step: int, n: int) -> bool {
    base <= i && (i - base) % step == 0 && (i - base) / step < n
}

/// The image fits the buffer: every row start plus `width` stays inside it.
pub open spec fn fits(len: int, width: int, height: int, stride: int) -> bool {
    width <= stride && (width == 0 || height == 0 || (height - 1) * stride + width <= len)
}

/// A window sum splits at any point between its ends.
pub proof fn lemma_window_split(
    img: Seq<Seq<u8>>,
    base: int,
    step: int,
    n: int,
    c: int,
    lo: int,
    mid: int,
    hi: int,
)
    requires
        lo <= mid <= hi,
    ensures
        window_sum(img, base, step, n, c, lo, hi) == window_sum(img, base, step, n, c, lo, mid)
            + window_sum(img, base, step, n, c, mid, hi),
    decreases hi - mid,
{
    if hi > mid {
        lemma_window_split(img, base, step, n, c, lo, mid, hi - 1);
    }
}

/// A window over equal samples sums to their count times the value.
pub proof fn lemma_window_const(
    img: Seq<Seq<u8>>,
    base: int,
    step: int,
    n: int,
    c: int,
    lo: int,
    hi: int,
    v: int,
)
    requires
        lo <= hi,
        forall|j: int| lo <= j < hi ==> line_sample(img, base, step, n, c, j) == v,
    ensures
        window_sum(img, base, step, n, c, lo, hi) == (hi - lo) * v,
    decreases hi - lo,
{
    if hi > lo {
        lemma_window_const(img, base, step, n, c, lo, hi - 1, v);
        assert((hi - 1 - lo) * v + v == (hi - lo) * v) by (nonlinear_arith);
    } else {
        assert((hi - lo) * v == 0) by (nonlinear_arith)
            requires hi == lo;
    }
}

/// A window sum lies between 0 and 255 times the window's length.
pub proof fn lemma_window_bounds(
    img: Seq<Seq<u8>>,
    base: int,
    step: int,
    n: int,
    c: int,
    lo: int,
    hi: int,
)
    requires
        lo <= hi,
    ensures
        0 <= window_sum(img, base, step, n, c, lo, hi) <= 255 * (hi - lo),
    decreases hi - lo,
{
    if hi > lo {
        lemma_window_bounds(img, base, step, n, c, lo, hi - 1);
        let x = img[line_index(base, step, clamp_pos(hi - 1, n))][c];
        assert(0 <= x <= 255);
    }
}

/// A rounded mean of values within `0 ..= 255` stays within `0 ..= 255`.
pub proof fn lemma_round_div_range(s: int, d: int)
    requires
        d > 0,
        0 <= s <= 255 * d,
    ensures
        0 <= round_div(s, d) <= 255,
{
    let q = (2 * s + d) / (2 * d);
    vstd::arithmetic::div_mod::lemma_fundamental_div_mod(2 * s + d, 2 * d);
    vstd::arithmetic::div_mod::lemma_mod_pos_bound(2 * s + d, 2 * d);
    vstd::arithmetic::div_mod::lemma_div_pos_is_pos(2 * s + d, 2 * d);
    assert(q <= 255) by (nonlinear_arith)
        requires
            2 * d * q <= 2 * s + d,
            2 * s + d <= 511 * d,
            d > 0,
    {
    }
}

/// The rounded mean of `d` equal values is that value.
pub proof fn lemma_round_div_exact(v: int, d: int)
    requires
        d > 0,
    ensures
        round_div(d * v, d) == v,
{
    assert(2 * (d * v) + d == v * (2 * d) + d) by (nonlinear_arith);
    vstd::arithmetic::div_mod::lemma_fundamental_div_mod_converse(2 * (d * v) + d, 2 * d, v, d);
}

/// Every box average is a valid channel value: blurring never leaves `0 ..= 255`.
pub proof fn lemma_box_average_in_range(
    img: Seq<Seq<u8>>,
    base: int,
    step: int,
    n: int,
    c: int,
    k: int,
    r: int,
)
    requires
        r >= 0,
    ensures
        0 <= box_average(img, base, step, n, c, k, r) <= 255,
{
    lemma_window_bounds(img, base, step, n, c, k - r, k + r + 1);
    lemma_round_div_range(window_sum(img, base, step, n, c, k - r, k + r + 1), 2 * r + 1);
}

proof fn lemma_line_index_bound(base: int, step: int, n: int, k: int)
    requires
        0 <= k < n,
        step > 0,
        base >= 0,
    ensures
        base <= line_index(base, step, k) <= line_index(base, step, n - 1),
{
    vstd::arithmetic::mul::lemma_mul_inequality(k, n - 1, step);
    assert(k * step >= 0) by (nonlinear_arith)
        requires k >= 0, step > 0;
}

proof fn lemma_on_line_index(base: int, step: int, n: int, k: int)
    requires
        0 <= k < n,
        step > 0,
    ensures
        on_line(line_index(base, step, k), base, step, n),
{
    vstd::arithmetic::div_mod::lemma_fundamental_div_mod_converse(k * step, step, k, 0);
    assert(k * step >= 0) by (nonlinear_arith)
        requires k >= 0, step > 0;
}

proof fn lemma_line_index_distinct(base: int, step: int, k1: int, k2: int)
    requires
        step > 0,
        k1 != k2,
    ensures
        line_index(base, step, k1) != line_index(base, step, k2),
{
    if k1 < k2 {
        vstd::arithmetic::mul::lemma_mul_strict_inequality(k1, k2, step);
    } else {
        vstd::arithmetic::mul::lemma_mul_strict_inequality(k2, k1, step);
    }
}

#[verifier::opaque]
spec fn channels_done<const C: usize>(
    dst: Seq<[u8; C]>,
    img: Seq<Seq<u8>>,
    b: int,
    s: int,
    n: int,
    r: int,
    c_end: int,
) -> bool {
    forall|q: int, e: int|
        0 <= q < n && 0 <= e < c_end ==> (#[trigger] dst[line_index(b, s, q)][e]) as int
            == box_average(img, b, s, n, e, q, r)
}

#[verifier::opaque]
spec fn positions_done<const C: usize>(
    dst: Seq<[u8; C]>,
    img: Seq<Seq<u8>>,
    b: int,
    s: int,
    n: int,
    r: int,
    c: int,
    k_end: int,
) -> bool {
    forall|q: int|
        0 <= q < k_end ==> (#[trigger] dst[line_index(b, s, q)][c]) as int == box_average(
            img,
            b,
            s,
            n,
            c,
            q,
            r,
        )
}

#[verifier::opaque]
spec fn off_line_kept<const C: usize>(
    dst: Seq<[u8; C]>,
    orig: Seq<[u8; C]>,
    b: int,
    s: int,
    n: int,
) -> bool {
    forall|i: int| 0 <= i < orig.len() && !on_line(i, b, s, n) ==> #[trigger] dst[i] == orig[i]
}

proof fn lemma_write_step<const C: usize>(
    before: Seq<[u8; C]>,
    after: Seq<[u8; C]>,
    orig: Seq<[u8; C]>,
    img: Seq<Seq<u8>>,
    b: int,
    s: int,
    n: int,
    r: int,
    c: int,
    k: int,
    v: u8,
)
    requires
        channels_done(before, img, b, s, n, r, c),
        positions_done(before, img, b, s, n, r, c, k),
        off_line_kept(before, orig, b, s, n),
        0 <= k < n,
        0 <= c < C,
        s > 0,
        before.len() == orig.len(),
        0 <= line_index(b, s, k) < before.len(),
        b >= 0,
        line_index(b, s, n - 1) < before.len(),
        after == before.update(line_index(b, s, k), after[line_index(b, s, k)]),
        after[line_index(b, s, k)]@ == before[line_index(b, s, k)]@.update(c, v),
        v as int == box_average(img, b, s, n, c, k, r),
    ensures
        channels_done(after, img, b, s, n, r, c),
        positions_done(after, img, b, s, n, r, c, k + 1),
        off_line_kept(after, orig, b, s, n),
{
    reveal(channels_done);
    reveal(positions_done);
    reveal(off_line_kept);
    let idx = line_index(b, s, k);
    lemma_on_line_index(b, s, n, k);
    assert forall|q: int, e: int| 0 <= q < n && 0 <= e < c implies (#[trigger] after[line_index(
        b,
        s,
        q,
    )][e]) as int == box_average(img, b, s, n, e, q, r) by {
        lemma_line_index_bound(b, s, n, q);
        if q != k {
            lemma_line_index_distinct(b, s, q, k);
        } else {
            assert(after[idx]@[e] == before[idx]@[e]);
        }
    }
    assert forall|q: int| 0 <= q < k + 1 implies (#[trigger] after[line_index(b, s, q)][c]) as int
        == box_average(img, b, s, n, c, q, r) by {
        lemma_line_index_bound(b, s, n, q);
        if q != k {
            lemma_line_index_distinct(b, s, q, k);
        } else {
            assert(after[idx]@[c] == v);
        }
    }
}

proof fn lemma_next_channel<const C: usize>(
    dst: Seq<[u8; C]>,
    img: Seq<Seq<u8>>,
    b: int,
    s: int,
    n: int,
    r: int,
    c: int,
)
    requires
        channels_done(dst, img, b, s, n, r, c),
        positions_done(dst, img, b, s, n, r, c, n),
    ensures
        channels_done(dst, img, b, s, n, r, c + 1),
{
    reveal(channels_done);
    reveal(positions_done);
}

/// Sets channel `c` of pixel `idx` to `v`, leaving everything else as it was.
fn set_channel<const C: usize>(dst: &mut [[u8; C]], idx: usize, c: usize, v: u8)
    requires
        idx < old(dst)@.len(),
        c < C,
    ensures
        final(dst)@ == old(dst)@.update(idx as int, final(dst)@[idx as int]),
        final(dst)@[idx as int]@ == old(dst)@[idx as int]@.update(c as int, v),
{
    let mut px = dst[idx];
    px[c] = v;
    dst[idx] = px;
}

/// Blurs one line of `src` into `dst`: the `n` samples starting at `base`
/// and `step` apart each become the rounded mean of the window of radius
/// `r` around them, edges clamped. A running sum makes this linear in `n`.
fn blur_line<const C: usize>(
    src: &[[u8; C]],
    dst: &mut [[u8; C]],
    base: usize,
    step: usize,
    n: usize,
    r: usize,
)
    requires
        src@.len() == old(dst)@.len(),
        n > 0,
        step > 0,
        base + (n - 1) * step < src@.len(),
    ensures
        final(dst)@.len() == old(dst)@.len(),
        forall|k: int, c: int|
            0 <= k < n && 0 <= c < C ==> (#[trigger] final(dst)@[line_index(
                base as int,
                step as int,
                k,
            )][c]) as int == box_average(
                pixels_view(src@),
                base as int,
                step as int,
                n as int,
                c,
                k,
                r as int,
            ),
        forall|i: int|
            0 <= i < old(dst)@.len() && !on_line(i, base as int, step as int, n as int)
                ==> #[trigger] final(dst)@[i] == old(dst)@[i],
{
    let ghost img = pixels_view(src@);
    let ghost b = base as int;
    let ghost s = step as int;
    let ghost nn = n as int;
    let ghost ri = r as int;
    let len = src.len();
    assert(base + (n - 1) * step < len);
    let last_index = base + (n - 1) * step;
    proof {
        assert(0 * s == 0);
        assert(line_index(b, s, 0) == b);
    }
    proof {
        reveal(channels_done);
        reveal(off_line_kept);
    }
    let mut c: usize = 0;
    while c < C
        invariant
            c <= C,
            img == pixels_view(src@),
            b == base,
            s == step,
            nn == n,
            ri == r,
            n > 0,
            step > 0,
            last_index == base + (n - 1) * step,
            last_index < src@.len(),
            len == src@.len(),
            src@.len() == dst@.len(),
            dst@.len() == old(dst)@.len(),
            line_index(b, s, 0) == b,
            channels_done(dst@, img, b, s, nn, ri, c as int),
            off_line_kept(dst@, old(dst)@, b, s, nn),
        decreases C - c,
    {
        let first_px = src[base];
        let last_px = src[last_index];
        let first = first_px[c];
        let last = last_px[c];
        proof {
            assert((r as u128 + 1) * (first as u128) <= (usize::MAX as u128 + 1) * 255)
                by (nonlinear_arith)
                requires r <= usize::MAX, first <= 255;
        }
        let mut acc: u128 = (r as u128 + 1) * (first as u128);
        proof {
            assert forall|j: int| -ri - 1 <= j < 0 implies line_sample(img, b, s, nn, c as int, j)
                == first by {}
            lemma_window_const(img, b, s, nn, c as int, -ri - 1, 0, first as int);
        }
        let seed = if r < n { r } else { n };
        let mut j: usize = 0;
        while j < seed
            invariant
                j <= seed,
                seed <= n,
                seed <= r,
                c < C,
                img == pixels_view(src@),
                b == base,
                s == step,
                nn == n,
                ri == r,
                step > 0,
                base + (n - 1) * step < src@.len(),
                len == src@.len(),
                acc == window_sum(img, b, s, nn, c as int, -ri - 1, j as int),
            decreases seed - j,
        {
            proof {
                lemma_line_index_bound(b, s, nn, j as int);
                lemma_window_bounds(img, b, s, nn, c as int, -ri - 1, j as int);
            }
            let p = src[base + j * step];
            acc = acc + p[c] as u128;
            j += 1;
        }
        if r > n {
            proof {
                assert forall|q: int| nn <= q < ri implies line_sample(img, b, s, nn, c as int, q)
                    == last by {}
                lemma_window_const(img, b, s, nn, c as int, nn, ri, last as int);
                lemma_window_split(img, b, s, nn, c as int, -ri - 1, nn, ri);
                lemma_window_bounds(img, b, s, nn, c as int, -ri - 1, nn);
                assert((ri - nn) * (last as int) <= (ri - nn) * 255) by (nonlinear_arith)
                    requires ri > nn, last <= 255;
            }
            acc = acc + ((r - n) as u128) * (last as u128);
        }
        let d: u128 = 2 * (r as u128) + 1;
        proof {
            reveal(positions_done);
        }
        let mut k: usize = 0;
        while k < n
            invariant
                k <= n,
                c < C,
                img == pixels_view(src@),
                b == base,
                s == step,
                nn == n,
                ri == r,
                n > 0,
                step > 0,
                d == 2 * r + 1,
                base + (n - 1) * step < src@.len(),
                len == src@.len(),
                src@.len() == dst@.len(),
                dst@.len() == old(dst)@.len(),
                acc == window_sum(img, b, s, nn, c as int, k - ri - 1, k + ri),
                channels_done(dst@, img, b, s, nn, ri, c as int),
                positions_done(dst@, img, b, s, nn, ri, c as int, k as int),
                off_line_kept(dst@, old(dst)@, b, s, nn),
            decreases n - k,
        {
            let jr = if r < n - 1 - k {
                k + r
            } else {
                n - 1
            };
            let jl = if k <= r {
                0
            } else {
                k - r - 1
            };
            proof {
                lemma_line_index_bound(b, s, nn, jr as int);
                lemma_line_index_bound(b, s, nn, jl as int);
                lemma_line_index_bound(b, s, nn, k as int);
            }
            let pin = src[base + jr * step];
            let pout = src[base + jl * step];
            proof {
                let lo = k - ri - 1;
                let hi = k + ri;
                lemma_window_split(img, b, s, nn, c as int, lo, lo + 1, hi + 1);
                lemma_window_split(img, b, s, nn, c as int, lo, lo + 1, hi);
                lemma_window_bounds(img, b, s, nn, c as int, lo, hi);
                lemma_window_bounds(img, b, s, nn, c as int, lo + 1, hi + 1);
                assert(window_sum(img, b, s, nn, c as int, lo, lo) == 0);
                assert(window_sum(img, b, s, nn, c as int, lo, lo + 1) == line_sample(
                    img,
                    b,
                    s,
                    nn,
                    c as int,
                    lo,
                ));
            }
            assert(pin[c as int] as int == line_sample(img, b, s, nn, c as int, k + ri));
            assert(pout[c as int] as int == line_sample(img, b, s, nn, c as int, k - ri - 1));
            acc = acc + pin[c] as u128 - pout[c] as u128;
            let ghost before = dst@;
            let idx = base + k * step;
            proof {
                lemma_round_div_range(acc as int, d as int);
                assert(acc == window_sum(img, b, s, nn, c as int, k - ri, k + ri + 1));
            }
            let v = ((2 * acc + d) / (2 * d)) as u8;
            set_channel(dst, idx, c, v);
            proof {
                lemma_write_step(before, dst@, old(dst)@, img, b, s, nn, ri, c as int, k as int, v);
            }
            k += 1;
        }
        proof {
            lemma_next_channel(dst@, img, b, s, nn, ri, c as int);
        }
        c += 1;
    }
    proof {
        reveal(channels_done);
        reveal(off_line_kept);
    }
}

proof fn lemma_row_col(i: int, s: int)
    requires
        s > 0,
        i >= 0,
    ensures
        i == (i / s) * s + i % s,
        0 <= i % s < s,
        0 <= i / s,
{
    vstd::arithmetic::div_mod::lemma_fundamental_div_mod(i, s);
    vstd::arithmetic::div_mod::lemma_mod_pos_bound(i, s);
    vstd::arithmetic::div_mod::lemma_div_pos_is_pos(i, s);
    assert(s * (i / s) == (i / s) * s) by (nonlinear_arith);
}

proof fn lemma_row_of(i: int, s: int, y: int, x: int)
    requires
        s > 0,
        0 <= x < s,
        i == y * s + x,
    ensures
        i / s == y,
        i % s == x,
{
    vstd::arithmetic::div_mod::lemma_fundamental_div_mod_converse(i, s, y, x);
}

/// Copies every pixel of `src` into `dst`.
fn copy_pixels<const C: usize>(src: &[[u8; C]], dst: &mut [[u8; C]])
    requires
        src@.len() == old(dst)@.len(),
    ensures
        final(dst)@ == src@,
{
    let n = src.len();
    let mut i: usize = 0;
    while i < n
        invariant
            i <= n,
            n == src@.len(),
            dst@.len() == n,
            forall|j: int| 0 <= j < i ==> #[trigger] dst@[j] == src@[j],
        decreases n - i,
    {
        dst[i] = src[i];
        i += 1;
    }
    assert(dst@ =~= src@);
}

proof fn lemma_pixel_from_channels<const C: usize>(p: [u8; C], q: Seq<u8>, f: spec_fn(int) -> int)
    requires
        q.len() == C,
        forall|c: int| 0 <= c < C ==> #[trigger] q[c] == f(c) as u8,
        forall|c: int| 0 <= c < C ==> 0 <= #[trigger] f(c) <= 255,
        forall|c: int| 0 <= c < C ==> (#[trigger] p[c]) as int == f(c),
    ensures
        p@ == q,
{
    assert(p@ =~= q);
}

/// One horizontal box pass of radius `blur_radius` from `backbuf` into
/// `frontbuf`; see [`horz_blurred`].
pub fn box_blur_horz<const C: usize>(
    backbuf: &[[u8; C]],
    frontbuf: &mut [[u8; C]],
    width: usize,
    height: usize,
    blur_radius: usize,
    stride: usize,
)
    requires
        backbuf@.len() == old(frontbuf)@.len(),
        fits(backbuf@.len() as int, width as int, height as int, stride as int),
    ensures
        final(frontbuf)@.len() == old(frontbuf)@.len(),
        pixels_view(final(frontbuf)@) == horz_blurred(
            pixels_view(backbuf@),
            pixels_view(old(frontbuf)@),
            width as int,
            height as int,
            stride as int,
            blur_radius as int,
        ),
{
    if blur_radius == 0 {
        copy_pixels(backbuf, frontbuf);
        return;
    }
    let ghost img = pixels_view(backbuf@);
    let ghost orig = old(frontbuf)@;
    let ghost w = width as int;
    let ghost h = height as int;
    let ghost s = stride as int;
    let ghost r = blur_radius as int;
    if width == 0 || height == 0 {
        assert(pixels_view(frontbuf@) =~= horz_blurred(img, pixels_view(orig), w, h, s, r));
        return;
    }
    let len = backbuf.len();
    let mut y: usize = 0;
    while y < height
        invariant
            y <= height,
            width > 0,
            stride >= width,
            img == pixels_view(backbuf@),
            w == width,
            h == height,
            s == stride,
            r == blur_radius,
            r > 0,
            (h - 1) * s + w <= backbuf@.len(),
            len == backbuf@.len(),
            frontbuf@.len() == backbuf@.len(),
            orig.len() == backbuf@.len(),
            forall|i: int|
                0 <= i < orig.len() ==> (#[trigger] frontbuf@[i])@ == if in_image(i, w, h, s) && i
                    / s < y {
                    horz_pixel(img, w, s, r, i)
                } else {
                    orig[i]@
                },
        decreases height - y,
    {
        let ghost before = frontbuf@;
        proof {
            assert(y * s <= (h - 1) * s) by (nonlinear_arith)
                requires y < h, s > 0;
        }
        let row = y * stride;
        blur_line(backbuf, frontbuf, row, 1, width, blur_radius);
        proof {
            assert forall|i: int| 0 <= i < orig.len() implies (#[trigger] frontbuf@[i])@
                == if in_image(i, w, h, s) && i / s < y + 1 {
                horz_pixel(img, w, s, r, i)
            } else {
                orig[i]@
            } by {
                lemma_row_col(i, s);
                if i / s == y && i % s < w {
                    let k = i % s;
                    assert(line_index(row as int, 1, k) == i);
                    assert(img[i].len() == C);
                    assert forall|c: int| 0 <= c < C implies 0 <= #[trigger] box_average(
                        img,
                        row as int,
                        1,
                        w,
                        c,
                        k,
                        r,
                    ) <= 255 by {
                        lemma_box_average_in_range(img, row as int, 1, w, c, k, r);
                    }
                    assert forall|c: int| 0 <= c < C implies (#[trigger] frontbuf@[i][c]) as int
                        == box_average(img, row as int, 1, w, c, k, r) by {
                        assert(frontbuf@[line_index(row as int, 1, k)][c] as int == box_average(
                            img,
                            row as int,
                            1,
                            w,
                            c,
                            k,
                            r,
                        ));
                    }
                    lemma_pixel_from_channels(
                        frontbuf@[i],
                        horz_pixel(img, w, s, r, i),
                        |c: int| box_average(img, row as int, 1, w, c, k, r),
                    );
                } else {
                    if on_line(i, row as int, 1, w) {
                        lemma_row_of(i, s, y as int, i - row);
                    }
                }
            }
        }
        y += 1;
    }
    proof {
        assert forall|i: int| 0 <= i < orig.len() implies #[trigger] pixels_view(frontbuf@)[i]
            == horz_blurred(img, pixels_view(orig), w, h, s, r)[i] by {
            lemma_row_col(i, s);
        }
        assert(pixels_view(frontbuf@) =~= horz_blurred(img, pixels_view(orig), w, h, s, r));
    }
}

/// One vertical box pass of radius `blur_radius` from `backbuf` into
/// `frontbuf`; see [`vert_blurred`].
pub fn box_blur_vert<const C: usize>(
    backbuf: &[[u8; C]],
    frontbuf: &mut [[u8; C]],
    width: usize,
    height: usize,
    blur_radius: usize,
    stride: usize,
)
    requires
        backbuf@.len() == old(frontbuf)@.len(),
        fits(backbuf@.len() as int, width as int, height as int, stride as int),
    ensures
        final(frontbuf)@.len() == old(frontbuf)@.len(),
        pixels_view(final(frontbuf)@) == vert_blurred(
            pixels_view(backbuf@),
            pixels_view(old(frontbuf)@),
            width as int,
            height as int,
            stride as int,
            blur_radius as int,
        ),
{
    if blur_radius == 0 {
        copy_pixels(backbuf, frontbuf);
        return;
    }
    let ghost img = pixels_view(backbuf@);
    let ghost orig = old(frontbuf)@;
    let ghost w = width as int;
    let ghost h = height as int;
    let ghost s = stride as int;
    let ghost r = blur_radius as int;
    if width == 0 || height == 0 {
        assert(pixels_view(frontbuf@) =~= vert_blurred(img, pixels_view(orig), w, h, s, r));
        return;
    }
    let mut x: usize = 0;
    while x < width
        invariant
            x <= width,
            width > 0,
            height > 0,
            stride >= width,
            img == pixels_view(backbuf@),
            w == width,
            h == height,
            s == stride,
            r == blur_radius,
            r > 0,
            (h - 1) * s + w <= backbuf@.len(),
            frontbuf@.len() == backbuf@.len(),
            orig.len() == backbuf@.len(),
            forall|i: int|
                0 <= i < orig.len() ==> (#[trigger] frontbuf@[i])@ == if in_image(i, w, h, s) && i
                    % s < x {
                    vert_pixel(img, h, s, r, i)
                } else {
                    orig[i]@
                },
        decreases width - x,
    {
        blur_line(backbuf, frontbuf, x, stride, height, blur_radius);
        proof {
            assert forall|i: int| 0 <= i < orig.len() implies (#[trigger] frontbuf@[i])@
                == if in_image(i, w, h, s) && i % s < x + 1 {
                vert_pixel(img, h, s, r, i)
            } else {
                orig[i]@
            } by {
                lemma_row_col(i, s);
                if i % s == x && i / s < h {
                    let k = i / s;
                    assert(line_index(x as int, s, k) == i);
                    assert(img[i].len() == C);
                    assert forall|c: int| 0 <= c < C implies 0 <= #[trigger] box_average(
                        img,
                        x as int,
                        s,
                        h,
                        c,
                        k,
                        r,
                    ) <= 255 by {
                        lemma_box_average_in_range(img, x as int, s, h, c, k, r);
                    }
                    assert forall|c: int| 0 <= c < C implies (#[trigger] frontbuf@[i][c]) as int
                        == box_average(img, x as int, s, h, c, k, r) by {
                        assert(frontbuf@[line_index(x as int, s, k)][c] as int == box_average(
                            img,
                            x as int,
                            s,
                            h,
                            c,
                            k,
                            r,
                        ));
                    }
                    lemma_pixel_from_channels(
                        frontbuf@[i],
                        vert_pixel(img, h, s, r, i),
                        |c: int| box_average(img, x as int, s, h, c, k, r),
                    );
                } else {
                    if on_line(i, x as int, s, h) {
                        let q = (i - x) / s;
                        lemma_row_col(i - x, s);
                        lemma_row_of(i, s, q, x as int);
                        lemma_row_of(i, s, (i / s), i % s);
                    }
                }
            }
        }
        x += 1;
    }
    proof {
        assert forall|i: int| 0 <= i < orig.len() implies #[trigger] pixels_view(frontbuf@)[i]
            == vert_blurred(img, pixels_view(orig), w, h, s, r)[i] by {
            lemma_row_col(i, s);
        }
        assert(pixels_view(frontbuf@) =~= vert_blurred(img, pixels_view(orig), w, h, s, r));
    }
}

/// One box-blur pass: horizontal from `backbuf` into `frontbuf`, then
/// vertical from `frontbuf` back into `backbuf`, which ends up holding the
/// result.
pub fn box_blur<const C: usize>(
    backbuf: &mut [[u8; C]],
    frontbuf: &mut [[u8; C]],
    width: usize,
    height: usize,
    blur_radius_horz: usize,
    blur_radius_vert: usize,
    stride: usize,
)
    requires
        old(backbuf)@.len() == old(frontbuf)@.len(),
        fits(old(backbuf)@.len() as int, width as int, height as int, stride as int),
    ensures
        final(frontbuf)@.len() == old(frontbuf)@.len(),
        final(backbuf)@.len() == old(backbuf)@.len(),
        pixels_view(final(frontbuf)@) == horz_blurred(
            pixels_view(old(backbuf)@),
            pixels_view(old(frontbuf)@),
            width as int,
            height as int,
            stride as int,
            blur_radius_horz as int,
        ),
        pixels_view(final(backbuf)@) == vert_blurred(
            pixels_view(final(frontbuf)@),
            pixels_view(old(backbuf)@),
            width as int,
            height as int,
            stride as int,
            blur_radius_vert as int,
        ),
{
    box_blur_horz(&*backbuf, frontbuf, width, height, blur_radius_horz, stride);
    box_blur_vert(&*frontbuf, backbuf, width, height, blur_radius_vert, stride);
}

/// Where every sample in the window equals `v`, the box average is `v`.
pub proof fn lemma_constant_window_average(
    img: Seq<Seq<u8>>,
    base: int,
    step: int,
    n: int,
    c: int,
    k: int,
    r: int,
    v: int,
)
    requires
        r >= 0,
        forall|j: int| k - r <= j < k + r + 1 ==> #[trigger] line_sample(img, base, step, n, c, j) == v,
    ensures
        box_average(img, base, step, n, c, k, r) == v,
{
    lemma_window_const(img, base, step, n, c, k - r, k + r + 1, v);
    lemma_round_div_exact(v, 2 * r + 1);
}

/// On an image one pixel wide, the horizontal pass leaves every image pixel
/// as it was: the blur reduces to the vertical one, clamped at both ends.
pub proof fn lemma_single_column_horz(
    img: Seq<Seq<u8>>,
    dst: Seq<Seq<u8>>,
    height: int,
    stride: int,
    r: int,
)
    requires
        r >= 0,
        dst.len() == img.len(),
    ensures
        forall|i: int|
            0 <= i < img.len() && in_image(i, 1, height, stride) ==> #[trigger] horz_blurred(
                img,
                dst,
                1,
                height,
                stride,
                r,
            )[i] == img[i],
{
    assert forall|i: int|
        0 <= i < img.len() && in_image(i, 1, height, stride) implies #[trigger] horz_blurred(
            img,
            dst,
            1,
            height,
            stride,
            r,
        )[i] == img[i] by {
        if r != 0 {
            lemma_row_col(i, stride);
            let base = (i / stride) * stride;
            assert(line_index(base, 1, 0) == i);
            assert forall|c: int| 0 <= c < img[i].len() implies #[trigger] horz_pixel(
                img,
                1,
                stride,
                r,
                i,
            )[c] == img[i][c] by {
                lemma_constant_window_average(img, base, 1, 1, c, 0, r, img[i][c] as int);
            }
            assert(horz_pixel(img, 1, stride, r, i) =~= img[i]);
        }
    }
}

/// On an image one pixel high, the vertical pass leaves every image pixel
/// as it was: the blur reduces to the horizontal one, clamped at both ends.
pub proof fn lemma_single_row_vert(
    img: Seq<Seq<u8>>,
    dst: Seq<Seq<u8>>,
    width: int,
    stride: int,
    r: int,
)
    requires
        r >= 0,
        dst.len() == img.len(),
    ensures
        forall|i: int|
            0 <= i < img.len() && in_image(i, width, 1, stride) ==> #[trigger] vert_blurred(
                img,
                dst,
                width,
                1,
                stride,
                r,
            )[i] == img[i],
{
    assert forall|i: int|
        0 <= i < img.len() && in_image(i, width, 1, stride) implies #[trigger] vert_blurred(
            img,
            dst,
            width,
            1,
            stride,
            r,
        )[i] == img[i] by {
        if r != 0 {
            lemma_row_col(i, stride);
            let base = i % stride;
            assert(line_index(base, stride, 0) == i);
            assert forall|c: int| 0 <= c < img[i].len() implies #[trigger] vert_pixel(
                img,
                1,
                stride,
                r,
                i,
            )[c] == img[i][c] by {
                lemma_constant_window_average(img, base, stride, 1, c, 0, r, img[i][c] as int);
            }
            assert(vert_pixel(img, 1, stride, r, i) =~= img[i]);
        }
    }
}

/// Both passes leave an image whose pixels are all equal unchanged
/// (indices outside the image may hold anything).
pub proof fn lemma_uniform_passes(
    img: Seq<Seq<u8>>,
    width: int,
    height: int,
    stride: int,
    r: int,
    p: Seq<u8>,
)
    requires
        r >= 0,
        fits(img.len() as int, width, height, stride),
        forall|i: int|
            0 <= i < img.len() && in_image(i, width, height, stride) ==> #[trigger] img[i] == p,
    ensures
        horz_blurred(img, img, width, height, stride, r) == img,
        vert_blurred(img, img, width, height, stride, r) == img,
{
    if r != 0 {
        assert forall|i: int|
            0 <= i < img.len() && in_image(i, width, height, stride) implies #[trigger] horz_pixel(
            img,
            width,
            stride,
            r,
            i,
        ) == img[i] && vert_pixel(img, height, stride, r, i) == img[i] by {
            lemma_row_col(i, stride);
            let y = i / stride;
            let x = i % stride;
            vstd::arithmetic::mul::lemma_mul_inequality(y, height - 1, stride);
            assert forall|c: int| 0 <= c < p.len() implies #[trigger] horz_pixel(
                img,
                width,
                stride,
                r,
                i,
            )[c] == p[c] && vert_pixel(img, height, stride, r, i)[c] == p[c] by {
                assert forall|j: int| x - r <= j < x + r + 1 implies #[trigger] line_sample(
                    img,
                    y * stride,
                    1,
                    width,
                    c,
                    j,
                ) == p[c] as int by {
                    let q = clamp_pos(j, width);
                    let at = line_index(y * stride, 1, q);
                    lemma_row_of(at, stride, y, q);
                    assert(0 <= at < img.len());
                    assert(in_image(at, width, height, stride));
                }
                lemma_constant_window_average(img, y * stride, 1, width, c, x, r, p[c] as int);
                assert forall|j: int| y - r <= j < y + r + 1 implies #[trigger] line_sample(
                    img,
                    x,
                    stride,
                    height,
                    c,
                    j,
                ) == p[c] as int by {
                    let q = clamp_pos(j, height);
                    let at = line_index(x, stride, q);
                    vstd::arithmetic::mul::lemma_mul_inequality(q, height - 1, stride);
                    assert(q * stride >= 0) by (nonlinear_arith)
                        requires q >= 0, stride > 0;
                    lemma_row_of(at, stride, q, x);
                    assert(0 <= at < img.len());
                    assert(in_image(at, width, height, stride));
                }
                lemma_constant_window_average(img, x, stride, height, c, y, r, p[c] as int);
            }
            assert(horz_pixel(img, width, stride, r, i) =~= img[i]);
            assert(vert_pixel(img, height, stride, r, i) =~= img[i]);
        }
        assert(horz_blurred(img, img, width, height, stride, r) =~= img);
        assert(vert_blurred(img, img, width, height, stride, r) =~= img);
    }
}

/// The pixel has channel `c`, and it lies within `lo ..= hi`.
pub open spec fn pixel_within(p: Seq<u8>, c: int, lo: int, hi: int) -> bool {
    0 <= c < p.len() && lo <= p[c] as int <= hi
}

/// Every image pixel has channel `c`, and it lies within `lo ..= hi`.
pub open spec fn channel_within(
    img: Seq<Seq<u8>>,
    width: int,
    height: int,
    stride: int,
    c: int,
    lo: int,
    hi: int,
) -> bool {
    forall|i: int|
        0 <= i < img.len() && in_image(i, width, height, stride) ==> pixel_within(
            #[trigger] img[i],
            c,
            lo,
            hi,
        )
}

/// A window over samples within `lo ..= hi` sums to between `lo` and `hi`
/// times its length.
pub proof fn lemma_window_within(
    img: Seq<Seq<u8>>,
    base: int,
    step: int,
    n: int,
    c: int,
    a: int,
    b: int,
    lo: int,
    hi: int,
)
    requires
        a <= b,
        forall|j: int| a <= j < b ==> lo <= #[trigger] line_sample(img, base, step, n, c, j) <= hi,
    ensures
        (b - a) * lo <= window_sum(img, base, step, n, c, a, b) <= (b - a) * hi,
    decreases b - a,
{
    if b > a {
        lemma_window_within(img, base, step, n, c, a, b - 1, lo, hi);
        assert((b - 1 - a) * lo + lo == (b - a) * lo) by (nonlinear_arith);
        assert((b - 1 - a) * hi + hi == (b - a) * hi) by (nonlinear_arith);
        assert(line_sample(img, base, step, n, c, b - 1) == line_sample(img, base, step, n, c, b - 1));
    } else {
        assert((b - a) * lo == 0) by (nonlinear_arith)
            requires b == a;
        assert((b - a) * hi == 0) by (nonlinear_arith)
            requires b == a;
    }
}

/// The rounded mean of a sum between `d * lo` and `d * hi` lies in `lo ..= hi`.
pub proof fn lemma_round_div_within(s: int, d: int, lo: int, hi: int)
    requires
        d > 0,
        d * lo <= s <= d * hi,
    ensures
        lo <= round_div(s, d) <= hi,
{
    vstd::arithmetic::div_mod::lemma_div_is_ordered(2 * (d * lo) + d, 2 * s + d, 2 * d);
    vstd::arithmetic::div_mod::lemma_div_is_ordered(2 * s + d, 2 * (d * hi) + d, 2 * d);
    assert(2 * (d * lo) + d == lo * (2 * d) + d) by (nonlinear_arith);
    assert(2 * (d * hi) + d == hi * (2 * d) + d) by (nonlinear_arith);
    vstd::arithmetic::div_mod::lemma_fundamental_div_mod_converse(2 * (d * lo) + d, 2 * d, lo, d);
    vstd::arithmetic::div_mod::lemma_fundamental_div_mod_converse(2 * (d * hi) + d, 2 * d, hi, d);
}

/// Both passes keep every image pixel's channel `c` within bounds that the
/// input's image pixels respect: a blurred value never leaves the range of
/// the values it averages.
pub proof fn lemma_passes_within(
    img: Seq<Seq<u8>>,
    dst: Seq<Seq<u8>>,
    width: int,
    height: int,
    stride: int,
    r: int,
    c: int,
    lo: int,
    hi: int,
)
    requires
        r >= 0,
        0 <= lo <= hi <= 255,
        dst.len() == img.len(),
        fits(img.len() as int, width, height, stride),
        channel_within(img, width, height, stride, c, lo, hi),
    ensures
        channel_within(horz_blurred(img, dst, width, height, stride, r), width, height, stride, c, lo, hi),
        channel_within(vert_blurred(img, dst, width, height, stride, r), width, height, stride, c, lo, hi),
{
    if r != 0 {
        assert forall|i: int|
            0 <= i < img.len() && in_image(i, width, height, stride) implies lo <= (
            #[trigger] horz_pixel(img, width, stride, r, i))[c] <= hi && lo <= vert_pixel(
            img,
            height,
            stride,
            r,
            i,
        )[c] <= hi by {
            lemma_row_col(i, stride);
            let y = i / stride;
            let x = i % stride;
            vstd::arithmetic::mul::lemma_mul_inequality(y, height - 1, stride);
            assert forall|j: int| x - r <= j < x + r + 1 implies lo <= #[trigger] line_sample(
                img,
                y * stride,
                1,
                width,
                c,
                j,
            ) <= hi by {
                let q = clamp_pos(j, width);
                let at = line_index(y * stride, 1, q);
                lemma_row_of(at, stride, y, q);
                assert(0 <= at < img.len());
                assert(in_image(at, width, height, stride));
            }
            lemma_window_within(img, y * stride, 1, width, c, x - r, x + r + 1, lo, hi);
            lemma_round_div_within(
                window_sum(img, y * stride, 1, width, c, x - r, x + r + 1),
                2 * r + 1,
                lo,
                hi,
            );
            assert forall|j: int| y - r <= j < y + r + 1 implies lo <= #[trigger] line_sample(
                img,
                x,
                stride,
                height,
                c,
                j,
            ) <= hi by {
                let q = clamp_pos(j, height);
                let at = line_index(x, stride, q);
                vstd::arithmetic::mul::lemma_mul_inequality(q, height - 1, stride);
                assert(q * stride >= 0) by (nonlinear_arith)
                    requires q >= 0, stride > 0;
                lemma_row_of(at, stride, q, x);
                assert(0 <= at < img.len());
                assert(in_image(at, width, height, stride));
            }
            lemma_window_within(img, x, stride, height, c, y - r, y + r + 1, lo, hi);
            lemma_round_div_within(
                window_sum(img, x, stride, height, c, y - r, y + r + 1),
                2 * r + 1,
                lo,
                hi,
            );
        }
        let hb = horz_blurred(img, dst, width, height, stride, r);
        let vb = vert_blurred(img, dst, width, height, stride, r);
        assert(channel_within(hb, width, height, stride, c, lo, hi)) by {
            assert forall|i: int|
                0 <= i < hb.len() && in_image(i, width, height, stride) implies pixel_within(
                #[trigger] hb[i],
                c,
                lo,
                hi,
            ) by {
                assert(hb[i] == horz_pixel(img, width, stride, r, i));
                assert(lo <= horz_pixel(img, width, stride, r, i)[c] <= hi);
            }
        }
        assert(channel_within(vb, width, height, stride, c, lo, hi)) by {
            assert forall|i: int|
                0 <= i < vb.len() && in_image(i, width, height, stride) implies pixel_within(
                #[trigger] vb[i],
                c,
                lo,
                hi,
            ) by {
                assert(vb[i] == vert_pixel(img, height, stride, r, i));
                assert(lo <= horz_pixel(img, width, stride, r, i)[c] <= hi);
                assert(lo <= vert_pixel(img, height, stride, r, i)[c] <= hi);
            }
        }
    } else {
        assert(horz_blurred(img, dst, width, height, stride, r) == img);
        assert(vert_blurred(img, dst, width, height, stride, r) == img);
    }
}

} // verus!
