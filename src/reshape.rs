use vstd::prelude::*;

verus! {

/// The channels of each pixel, as plain sequences.
pub open spec fn pixels_view<const C: usize>(p: Seq<[u8; C]>) -> Seq<Seq<u8>> {
    p.map_values(|a: [u8; C]| a@)
}

/// A byte sequence cut into consecutive records of `channels` bytes
/// (a trailing partial record is dropped).
pub open spec fn pixel_chunks(bytes: Seq<u8>, channels: nat) -> Seq<Seq<u8>> {
    Seq::new(
        bytes.len() / channels,
        |i: int| bytes.subrange(i * channels, i * channels + channels),
    )
}

/// The records of `p`, each of `channels` bytes, laid end to end.
pub open spec fn flatten_pixels(p: Seq<Seq<u8>>, channels: nat) -> Seq<u8> {
    Seq::new(p.len() * channels, |j: int| p[j / channels as int][j % channels as int])
}

/// Indicates that a byte slice's length is not a multiple of the channel count.
#[derive(Debug, PartialEq, Eq, Structural)]
pub struct SliceSizeError {
    pub expected: usize,
    pub actual: usize,
    pub channels: usize,
}

impl SliceSizeError {
    /// A human-readable description of the mismatch, naming the two
    /// lengths that would have fitted.
    pub fn message(&self) -> String {
        let above: u128 = self.expected as u128 + self.channels as u128;
        describe_size_error(self.actual, self.channels, self.expected, above)
    }
}

/// Relies on std's `format!` to render the four lengths as decimal text.
#[verifier::external_body]
fn describe_size_error(actual: usize, channels: usize, expected: usize, above: u128) -> String {
    format!(
        "incorrect u8 slice length {} for {} channel image, expected {} or {}",
        actual, channels, expected, above
    )
}

proof fn lemma_record_in_bounds(i: int, c: int, n: int, k: int)
    requires
        k > 0,
        0 <= i < n / k,
        0 <= c < k,
        n >= 0,
    ensures
        0 <= i * k + c < i * k + k <= (n / k) * k <= n,
{
    vstd::arithmetic::div_mod::lemma_fundamental_div_mod(n, k);
    vstd::arithmetic::mul::lemma_mul_inequality(i + 1, n / k, k);
    assert((i + 1) * k == i * k + k) by (nonlinear_arith);
    assert(i * k >= 0) by (nonlinear_arith)
        requires i >= 0, k > 0;
    assert(k * (n / k) == (n / k) * k) by (nonlinear_arith);
    vstd::arithmetic::div_mod::lemma_mod_pos_bound(n, k);
}

/// Splits a byte slice into pixels of `CHANNELS` bytes each.
///
/// Fails with [`SliceSizeError`] when the length is not a multiple of
/// `CHANNELS`; `expected` is then the largest multiple below the length.
pub fn from_byte_slice<const CHANNELS: usize>(slice: &[u8]) -> (r: Result<
    Vec<[u8; CHANNELS]>,
    SliceSizeError,
>)
    requires
        CHANNELS > 0,
    ensures
        match r {
            Ok(v) => (slice@.len() as int) % (CHANNELS as int) == 0 && pixels_view(v@) == pixel_chunks(
                slice@,
                CHANNELS as nat,
            ),
            Err(e) => (slice@.len() as int) % (CHANNELS as int) != 0 && e == (SliceSizeError {
                expected: ((slice@.len() as int) / (CHANNELS as int) * (CHANNELS as int)) as usize,
                actual: slice@.len() as usize,
                channels: CHANNELS,
            }),
        },
{
    let len = slice.len();
    let pixel_count = len / CHANNELS;
    proof {
        vstd::arithmetic::div_mod::lemma_fundamental_div_mod(len as int, CHANNELS as int);
        vstd::arithmetic::div_mod::lemma_mod_pos_bound(len as int, CHANNELS as int);
        assert(CHANNELS * pixel_count == pixel_count * CHANNELS) by (nonlinear_arith);
    }
    let expected = pixel_count * CHANNELS;
    if len != expected {
        return Err(SliceSizeError { expected, actual: len, channels: CHANNELS });
    }
    let mut out: Vec<[u8; CHANNELS]> = Vec::new();
    let mut i: usize = 0;
    while i < pixel_count
        invariant
            i <= pixel_count,
            pixel_count == len / CHANNELS,
            len == slice@.len(),
            CHANNELS > 0,
            out@.len() == i,
            forall|k: int|
                0 <= k < i ==> #[trigger] out@[k]@ == slice@.subrange(
                    k * CHANNELS,
                    k * CHANNELS + CHANNELS,
                ),
        decreases pixel_count - i,
    {
        let mut px: [u8; CHANNELS] = [0u8; CHANNELS];
        let mut c: usize = 0;
        proof {
            lemma_record_in_bounds(i as int, 0, len as int, CHANNELS as int);
        }
        let start = i * CHANNELS;
        while c < CHANNELS
            invariant
                c <= CHANNELS,
                start == i * CHANNELS,
                start + CHANNELS <= len,
                len == slice@.len(),
                forall|d: int| 0 <= d < c ==> #[trigger] px@[d] == slice@[start + d],
            decreases CHANNELS - c,
        {
            px[c] = slice[start + c];
            c += 1;
        }
        assert(px@ =~= slice@.subrange(start as int, start + CHANNELS));
        out.push(px);
        i += 1;
    }
    assert(pixels_view(out@) =~= pixel_chunks(slice@, CHANNELS as nat));
    Ok(out)
}

/// Lays pixels end to end as bytes: the inverse of [`from_byte_slice`].
pub fn pixels_to_bytes<const CHANNELS: usize>(pixels: &[[u8; CHANNELS]]) -> (r: Vec<u8>)
    requires
        pixels@.len() * CHANNELS <= usize::MAX,
    ensures
        r@ == flatten_pixels(pixels_view(pixels@), CHANNELS as nat),
{
    let mut out: Vec<u8> = Vec::new();
    let n = pixels.len();
    let mut i: usize = 0;
    while i < n
        invariant
            i <= n,
            n == pixels@.len(),
            n * CHANNELS <= usize::MAX,
            out@.len() == i * CHANNELS,
            forall|j: int|
                0 <= j < i * CHANNELS ==> #[trigger] out@[j] == pixels@[j / (CHANNELS as int)]@[j
                    % (CHANNELS as int)],
        decreases n - i,
    {
        let px = pixels[i];
        let mut c: usize = 0;
        proof {
            assert((i + 1) * CHANNELS <= n * CHANNELS) by (nonlinear_arith)
                requires i < n;
            assert((i + 1) * CHANNELS == i * CHANNELS + CHANNELS) by (nonlinear_arith);
        }
        while c < CHANNELS
            invariant
                c <= CHANNELS,
                i < n,
                n == pixels@.len(),
                px == pixels@[i as int],
                out@.len() == i * CHANNELS + c,
                forall|j: int|
                    0 <= j < i * CHANNELS + c ==> #[trigger] out@[j] == pixels@[j / (
                    CHANNELS as int)]@[j % (CHANNELS as int)],
            decreases CHANNELS - c,
        {
            proof {
                let j = i * CHANNELS + c;
                vstd::arithmetic::div_mod::lemma_fundamental_div_mod_converse(
                    j,
                    CHANNELS as int,
                    i as int,
                    c as int,
                );
            }
            out.push(px[c]);
            c += 1;
        }
        i += 1;
    }
    proof {
        let v = pixels_view(pixels@);
        if CHANNELS > 0 {
            assert forall|j: int| 0 <= j < n * CHANNELS implies #[trigger] out@[j] == flatten_pixels(
                v,
                CHANNELS as nat,
            )[j] by {
                vstd::arithmetic::div_mod::lemma_fundamental_div_mod(j, CHANNELS as int);
                vstd::arithmetic::div_mod::lemma_mod_pos_bound(j, CHANNELS as int);
                assert(j / (CHANNELS as int) < n) by {
                    if j / (CHANNELS as int) >= n {
                        vstd::arithmetic::mul::lemma_mul_inequality(
                            n as int,
                            j / (CHANNELS as int),
                            CHANNELS as int,
                        );
                        assert(CHANNELS * (j / (CHANNELS as int)) == (j / (CHANNELS as int))
                            * CHANNELS) by (nonlinear_arith);
                    }
                }
                vstd::arithmetic::div_mod::lemma_div_pos_is_pos(j, CHANNELS as int);
            }
        }
        assert(out@ =~= flatten_pixels(v, CHANNELS as nat));
    }
    out
}

/// Cutting bytes into records and laying them end to end again gives back
/// the bytes, whenever the length is a multiple of the record size.
pub proof fn lemma_reshape_round_trip(bytes: Seq<u8>, channels: nat)
    requires
        channels > 0,
        (bytes.len() as int) % (channels as int) == 0,
    ensures
        flatten_pixels(pixel_chunks(bytes, channels), channels) == bytes,
{
    let k = channels as int;
    let n = bytes.len() as int;
    let p = pixel_chunks(bytes, channels);
    vstd::arithmetic::div_mod::lemma_fundamental_div_mod(n, k);
    assert(k * (n / k) == (n / k) * k) by (nonlinear_arith);
    assert forall|j: int| 0 <= j < n implies #[trigger] flatten_pixels(p, channels)[j]
        == bytes[j] by {
        vstd::arithmetic::div_mod::lemma_fundamental_div_mod(j, k);
        vstd::arithmetic::div_mod::lemma_mod_pos_bound(j, k);
        vstd::arithmetic::div_mod::lemma_div_pos_is_pos(j, k);
        let q = j / k;
        assert(q < n / k) by {
            if q >= n / k {
                vstd::arithmetic::mul::lemma_mul_inequality(n / k, q, k);
                assert(k * q == q * k) by (nonlinear_arith);
            }
        }
        lemma_record_in_bounds(q, j % k, n, k);
        assert(k * q == q * k) by (nonlinear_arith);
    }
    assert(flatten_pixels(p, channels) =~= bytes);
}

} // verus!
