use vstd::prelude::*;
use crate::boxblur::{
    box_blur, channel_within, fits, horz_blurred, in_image, lemma_passes_within,
    lemma_single_column_horz, lemma_single_row_vert, lemma_uniform_passes, vert_blurred,
};
use crate::reshape::{flatten_pixels, from_byte_slice, pixel_chunks, pixels_to_bytes, pixels_view, SliceSizeError};

verus! {

/// The radius of a box of the given diameter.
pub open spec fn radius_of(d: int) -> int {
    if d <= 0 {
        0
    } else {
        (d - 1) / 2
    }
}

/// A horizontal then a vertical pass of radius `r` over `img`.
pub open spec fn box_pass(img: Seq<Seq<u8>>, width: int, height: int, stride: int, r: int) -> Seq<
    Seq<u8>,
> {
    vert_blurred(horz_blurred(img, img, width, height, stride, r), img, width, height, stride, r)
}

/// `img` after one box pass per diameter, in order.
pub open spec fn blur_passes(
    img: Seq<Seq<u8>>,
    width: int,
    height: int,
    stride: int,
    diameters: Seq<usize>,
) -> Seq<Seq<u8>>
    decreases diameters.len(),
{
    if diameters.len() == 0 {
        img
    } else {
        box_pass(
            blur_passes(img, width, height, stride, diameters.drop_last()),
            width,
            height,
            stride,
            radius_of(diameters.last() as int),
        )
    }
}

/// The smaller of the two box widths: `w_floor` made odd by stepping down,
/// and never below 1.
pub fn lower_box_width(w_floor: usize) -> (wl: usize)
    ensures
        wl == if w_floor % 2 == 1 {
            w_floor as int
        } else if w_floor >= 2 {
            w_floor - 1
        } else {
            1
        },
        wl % 2 == 1,
        wl >= 1,
{
    if w_floor % 2 == 1 {
        w_floor
    } else if w_floor >= 2 {
        w_floor - 1
    } else {
        1
    }
}

/// The pass diameters: the first `m` passes use `wl`, the rest `wl + 2`.
pub fn box_diameters<const C: usize>(wl: usize, m: usize) -> (d: [usize; C])
    requires
        wl <= usize::MAX - 2,
    ensures
        forall|i: int| 0 <= i < C ==> #[trigger] d[i] == if i < m { wl as int } else { wl + 2 },
{
    let mut d: [usize; C] = [wl; C];
    let mut i: usize = 0;
    while i < C
        invariant
            i <= C,
            wl <= usize::MAX - 2,
            forall|j: int| 0 <= j < i ==> #[trigger] d[j] == if j < m { wl as int } else { wl + 2 },
        decreases C - i,
    {
        if i < m {
            d[i] = wl;
        } else {
            d[i] = wl + 2;
        }
        i += 1;
    }
    d
}

/// Blurs `data`, a `width` x `height` image stored row after row, in place
/// with one box pass per entry of `diameters`.
///
/// One scratch buffer is allocated; the passes alternate between it and
/// `data` so that every result lands back in `data`.
pub fn gaussian_blur_boxes<const C: usize>(
    data: &mut [[u8; C]],
    width: usize,
    height: usize,
    diameters: [usize; C],
)
    requires
        old(data)@.len() >= width * height,
    ensures
        final(data)@.len() == old(data)@.len(),
        pixels_view(final(data)@) == blur_passes(
            pixels_view(old(data)@),
            width as int,
            height as int,
            width as int,
            diameters@,
        ),
{
    let ghost w = width as int;
    let ghost h = height as int;
    let ghost img0 = pixels_view(old(data)@);
    proof {
        if w > 0 && h > 0 {
            assert((h - 1) * w + w == h * w) by (nonlinear_arith);
            assert(h * w == w * h) by (nonlinear_arith);
        }
    }
    let mut backbuf = vstd::slice::slice_to_vec(&*data);
    let mut p: usize = 0;
    while p < C
        invariant
            p <= C,
            w == width,
            h == height,
            fits(data@.len() as int, w, h, w),
            data@.len() == old(data)@.len(),
            backbuf@.len() == data@.len(),
            pixels_view(data@) == blur_passes(img0, w, h, w, diameters@.subrange(0, p as int)),
            forall|i: int|
                0 <= i < data@.len() && !in_image(i, w, h, w) ==> #[trigger] pixels_view(
                    backbuf@,
                )[i] == pixels_view(data@)[i],
        decreases C - p,
    {
        let dm = diameters[p];
        let r = if dm == 0 {
            0
        } else {
            (dm - 1) / 2
        };
        let ghost d0 = pixels_view(data@);
        let ghost b0 = pixels_view(backbuf@);
        let back = backbuf.as_mut_slice();
        box_blur(data, back, width, height, r, r, width);
        proof {
            assert(horz_blurred(d0, b0, w, h, w, r as int) =~= horz_blurred(
                d0,
                d0,
                w,
                h,
                w,
                r as int,
            ));
            assert(diameters@.subrange(0, p + 1).drop_last() =~= diameters@.subrange(0, p as int));
        }
        p += 1;
    }
    assert(diameters@.subrange(0, C as int) =~= diameters@);
}

/// Blurs a packed byte buffer of `CHANNELS`-byte pixels in place; see
/// [`gaussian_blur_boxes`].
///
/// Fails, leaving `data` untouched, when its length is not a multiple of
/// `CHANNELS`.
pub fn gaussian_blur_bytes_boxes<const CHANNELS: usize>(
    data: &mut [u8],
    width: usize,
    height: usize,
    diameters: [usize; CHANNELS],
) -> (r: Result<(), SliceSizeError>)
    requires
        CHANNELS > 0,
        (old(data)@.len() as int) % (CHANNELS as int) != 0 || (old(data)@.len() as int) / (CHANNELS as int)
            >= width * height,
    ensures
        match r {
            Ok(()) => (old(data)@.len() as int) % (CHANNELS as int) == 0 && final(data)@
                == flatten_pixels(
                blur_passes(
                    pixel_chunks(old(data)@, CHANNELS as nat),
                    width as int,
                    height as int,
                    width as int,
                    diameters@,
                ),
                CHANNELS as nat,
            ),
            Err(e) => (old(data)@.len() as int) % (CHANNELS as int) != 0 && final(data)@ == old(
                data,
            )@ && e == (SliceSizeError {
                expected: ((old(data)@.len() as int) / (CHANNELS as int) * (CHANNELS as int)) as usize,
                actual: old(data)@.len() as usize,
                channels: CHANNELS,
            }),
        },
{
    let mut pixels = match from_byte_slice::<CHANNELS>(&*data) {
        Ok(p) => p,
        Err(e) => {
            return Err(e);
        },
    };
    proof {
        vstd::arithmetic::div_mod::lemma_fundamental_div_mod(
            data@.len() as int,
            CHANNELS as int,
        );
        assert(CHANNELS * ((data@.len() as int) / (CHANNELS as int)) == ((data@.len() as int) / (CHANNELS as int))
            * CHANNELS) by (nonlinear_arith);
    }
    let ghost chunks = pixel_chunks(data@, CHANNELS as nat);
    assert(pixels_view(pixels@).len() == chunks.len());
    assert(pixels@.len() * CHANNELS == data@.len());
    gaussian_blur_boxes(pixels.as_mut_slice(), width, height, diameters);
    let n = data.len();
    let bytes = pixels_to_bytes(pixels.as_slice());
    let mut i: usize = 0;
    while i < n
        invariant
            i <= n,
            n == data@.len(),
            bytes@.len() == n,
            forall|j: int| 0 <= j < i ==> #[trigger] data@[j] == bytes@[j],
        decreases n - i,
    {
        data[i] = bytes[i];
        i += 1;
    }
    assert(data@ =~= bytes@);
    Ok(())
}

/// Passes whose boxes all have radius 0 (diameter 1, as planned for a
/// non-positive sigma) leave the image exactly as it was.
pub proof fn lemma_unit_boxes_identity(
    img: Seq<Seq<u8>>,
    width: int,
    height: int,
    stride: int,
    diameters: Seq<usize>,
)
    requires
        forall|i: int| 0 <= i < diameters.len() ==> radius_of(#[trigger] diameters[i] as int) == 0,
    ensures
        blur_passes(img, width, height, stride, diameters) == img,
    decreases diameters.len(),
{
    if diameters.len() > 0 {
        let rest = diameters.drop_last();
        assert forall|i: int| 0 <= i < rest.len() implies radius_of(#[trigger] rest[i] as int)
            == 0 by {
            assert(rest[i] == diameters[i]);
        }
        lemma_unit_boxes_identity(img, width, height, stride, rest);
        assert(radius_of(diameters[diameters.len() - 1] as int) == 0);
    }
}

/// An image whose pixels are all equal is a fixed point of the blur, for
/// any sequence of box diameters; what lies outside the image is kept too.
pub proof fn lemma_uniform_fixed_point(
    img: Seq<Seq<u8>>,
    width: int,
    height: int,
    stride: int,
    diameters: Seq<usize>,
    p: Seq<u8>,
)
    requires
        fits(img.len() as int, width, height, stride),
        forall|i: int|
            0 <= i < img.len() && in_image(i, width, height, stride) ==> #[trigger] img[i] == p,
    ensures
        blur_passes(img, width, height, stride, diameters) == img,
    decreases diameters.len(),
{
    if diameters.len() > 0 {
        lemma_uniform_fixed_point(img, width, height, stride, diameters.drop_last(), p);
        let r = radius_of(diameters.last() as int);
        assert(r >= 0) by {
            if diameters.last() > 0 {
                vstd::arithmetic::div_mod::lemma_div_pos_is_pos(diameters.last() - 1, 2);
            }
        }
        lemma_uniform_passes(img, width, height, stride, r, p);
    }
}

/// On an image one pixel wide a box pass is the vertical pass alone, and
/// on one one pixel high it is the horizontal pass alone: the blur runs
/// along the long dimension, clamped at both of its ends.
pub proof fn lemma_thin_image_pass(
    img: Seq<Seq<u8>>,
    width: int,
    height: int,
    stride: int,
    r: int,
)
    requires
        r >= 0,
    ensures
        width == 1 ==> box_pass(img, width, height, stride, r) == vert_blurred(
            img,
            img,
            width,
            height,
            stride,
            r,
        ),
        height == 1 ==> box_pass(img, width, height, stride, r) == horz_blurred(
            img,
            img,
            width,
            height,
            stride,
            r,
        ),
{
    if width == 1 {
        lemma_single_column_horz(img, img, height, stride, r);
        assert(horz_blurred(img, img, width, height, stride, r) =~= img);
    }
    if height == 1 {
        let hb = horz_blurred(img, img, width, height, stride, r);
        lemma_single_row_vert(hb, img, width, stride, r);
        assert(vert_blurred(hb, img, width, height, stride, r) =~= hb);
    }
}

/// Blurring never takes a channel outside the range its image pixels
/// started in: if every image pixel's channel `c` lies within `lo ..= hi`,
/// so does it after any sequence of passes (and the buffer keeps its length).
pub proof fn lemma_blur_within_input_range(
    img: Seq<Seq<u8>>,
    width: int,
    height: int,
    stride: int,
    diameters: Seq<usize>,
    c: int,
    lo: int,
    hi: int,
)
    requires
        0 <= lo <= hi <= 255,
        fits(img.len() as int, width, height, stride),
        channel_within(img, width, height, stride, c, lo, hi),
    ensures
        blur_passes(img, width, height, stride, diameters).len() == img.len(),
        channel_within(blur_passes(img, width, height, stride, diameters), width, height, stride, c, lo, hi),
    decreases diameters.len(),
{
    if diameters.len() > 0 {
        let rest = diameters.drop_last();
        lemma_blur_within_input_range(img, width, height, stride, rest, c, lo, hi);
        let prev = blur_passes(img, width, height, stride, rest);
        let r = radius_of(diameters.last() as int);
        assert(r >= 0) by {
            if diameters.last() > 0 {
                vstd::arithmetic::div_mod::lemma_div_pos_is_pos(diameters.last() - 1, 2);
            }
        }
        lemma_passes_within(prev, prev, width, height, stride, r, c, lo, hi);
        let hb = horz_blurred(prev, prev, width, height, stride, r);
        lemma_passes_within(hb, prev, width, height, stride, r, c, lo, hi);
    }
}

} // verus!
