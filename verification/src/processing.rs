//! Transition-frame generation.
//!
//! The cross-fade between two equal-resolution images is a per-sample linear
//! interpolation: frame `i` of `n` weighs the first image by `(n-1-i)/(n-1)`
//! and the second by `i/(n-1)`, rounding to the nearest sample value. The
//! computation is deterministic, so re-running it on the same inputs
//! reproduces the same bytes, and frame `0` and frame `n-1` equal the two
//! sources exactly.
use vstd::arithmetic::div_mod::{lemma_div_is_ordered, lemma_div_multiples_vanish_fancy};
use vstd::prelude::*;

verus! {

/// One interpolated sample: the rounded weighted mean of `a` and `b`, where
/// frame `i` of `n` gives `b` the weight `i / (n - 1)`. A single-frame
/// sequence holds the first image unchanged.
pub open spec fn blend_sample(a: u8, b: u8, i: int, n: int) -> u8
    recommends
        0 <= i < n,
{
    if n <= 1 {
        a
    } else {
        (((a as int) * (n - 1 - i) + (b as int) * i + (n - 1) / 2) / (n - 1)) as u8
    }
}

/// The mathematical value of the interpolated sample, before the cast back
/// to a sample width.
pub open spec fn blend_value(a: u8, b: u8, i: int, n: int) -> int {
    ((a as int) * (n - 1 - i) + (b as int) * i + (n - 1) / 2) / (n - 1)
}

/// The interpolated value always fits the sample width, so the cast in
/// `blend_sample` never truncates.
pub proof fn lemma_blend_value_bounds(a: u8, b: u8, i: int, n: int)
    requires
        0 <= i < n,
        n >= 2,
    ensures
        0 <= blend_value(a, b, i, n) <= 255,
        blend_sample(a, b, i, n) == blend_value(a, b, i, n),
{
    let d = n - 1;
    let h = d / 2;
    let v = (a as int) * (d - i) + (b as int) * i + h;
    assert(0 <= h < d);
    assert((a as int) * (d - i) >= 0 && (b as int) * i >= 0) by (nonlinear_arith)
        requires
            0 <= i <= d,
            a >= 0,
            b >= 0,
    ;
    assert(v / d >= 0) by {
        lemma_div_is_ordered(0, v, d);
    }
    assert((a as int) * (d - i) + (b as int) * i <= 255 * d) by (nonlinear_arith)
        requires
            0 <= i <= d,
            0 <= a <= 255,
            0 <= b <= 255,
    ;
    assert(v / d <= (255 * d + h) / d) by {
        lemma_div_is_ordered(v, 255 * d + h, d);
    }
    assert((d * 255 + h) / d == 255) by {
        lemma_div_multiples_vanish_fancy(255, h, d);
    }
    assert(255 * d == d * 255) by (nonlinear_arith);
}

/// Computes one interpolated sample.
pub fn blend(a: u8, b: u8, i: u16, n: u16) -> (r: u8)
    requires
        i < n,
    ensures
        r == blend_sample(a, b, i as int, n as int),
{
    if n <= 1 {
        return a;
    }
    let d: u32 = (n - 1) as u32;
    let h: u32 = d / 2;
    let fi: u32 = i as u32;
    proof {
        assert((a as int) * ((d - fi) as int) <= 255 * 65534 && (b as int) * (fi as int) <= 255
            * 65534) by (nonlinear_arith)
            requires
                0 <= a <= 255,
                0 <= b <= 255,
                0 <= fi as int <= 65534,
                0 <= (d - fi) as int <= 65534,
        ;
        lemma_blend_value_bounds(a, b, i as int, n as int);
    }
    let v: u32 = (a as u32) * (d - fi) + (b as u32) * fi + h;
    let r: u32 = v / d;
    r as u8
}

/// A frame of `len` samples cut out of a flat buffer of consecutive frames.
pub open spec fn frame_at(buf: Seq<u8>, len: int, f: int) -> Seq<u8> {
    buf.subrange(f * len, (f + 1) * len)
}

/// The flat cross-fade buffer: `iterations` frames of `first.len()` samples
/// each, frame `f` holding the interpolation of the two sources at weight
/// `f / (iterations - 1)`, sample by sample.
pub open spec fn is_cross_fade(buf: Seq<u8>, first: Seq<u8>, second: Seq<u8>, n: int) -> bool {
    &&& buf.len() == n * first.len()
    &&& forall|f: int, j: int|
        0 <= f < n && 0 <= j < first.len() ==> buf[f * first.len() + j] == blend_sample(
            first[j],
            second[j],
            f,
            n,
        )
}

/// Computes the cross-fade frame sequence between two equal-length sample
/// buffers as one flat buffer of `iterations` consecutive frames.
pub fn cross_fade(first: &Vec<u8>, second: &Vec<u8>, iterations: u16) -> (r: Vec<u8>)
    requires
        first@.len() == second@.len(),
        iterations as int * first@.len() <= usize::MAX as int,
    ensures
        is_cross_fade(r@, first@, second@, iterations as int),
{
    let len: usize = first.len();
    let mut out: Vec<u8> = Vec::new();
    let mut f: u16 = 0;
    while f < iterations
        invariant
            first@.len() == len,
            second@.len() == len,
            f <= iterations,
            iterations as int * len as int <= usize::MAX as int,
            out@.len() == f as int * len as int,
            forall|g: int, k: int|
                0 <= g < f as int && 0 <= k < len as int ==> out@[g * len as int + k]
                    == blend_sample(first@[k], second@[k], g, iterations as int),
        decreases iterations as int - f as int,
    {
        let ghost row_start = out@.len() as int;
        proof {
            assert(f as int * len as int + len as int == (f as int + 1) * len as int)
                by (nonlinear_arith);
            assert((f as int + 1) * len as int <= iterations as int * len as int)
                by (nonlinear_arith)
                requires
                    f as int + 1 <= iterations as int,
                    len as int >= 0,
            ;
        }
        let mut j: usize = 0;
        while j < len
            invariant
                first@.len() == len,
                second@.len() == len,
                f < iterations,
                j <= len,
                row_start == f as int * len as int,
                row_start + len as int <= usize::MAX as int,
                out@.len() == row_start + j as int,
                forall|g: int, k: int|
                    0 <= g < f as int && 0 <= k < len as int ==> out@[g * len as int + k]
                        == blend_sample(first@[k], second@[k], g, iterations as int),
                forall|k: int|
                    0 <= k < j as int ==> out@[row_start + k] == blend_sample(
                        first@[k],
                        second@[k],
                        f as int,
                        iterations as int,
                    ),
            decreases len - j,
        {
            let ghost before = out@;
            out.push(blend(first[j], second[j], f, iterations));
            proof {
                assert forall|g: int, k: int|
                    0 <= g < f as int && 0 <= k < len as int implies out@[g * len as int + k]
                    == blend_sample(first@[k], second@[k], g, iterations as int) by {
                    assert(g * len as int + k < row_start) by (nonlinear_arith)
                        requires
                            0 <= g < f as int,
                            0 <= k < len as int,
                            row_start == f as int * len as int,
                    ;
                    assert(out@[g * len as int + k] == before[g * len as int + k]);
                }
            }
            j = j + 1;
        }
        f = f + 1;
    }
    proof {
        assert(out@.len() == iterations as int * first@.len());
    }
    out
}

/// A decoded image normalized to one sample layout: three channels of one
/// byte per pixel, rows in order.
pub struct DecodedImage {
    /// The flat sample buffer, three bytes per pixel.
    pub pixels: Vec<u8>,
    /// The width in pixels.
    pub width: u32,
    /// The height in pixels.
    pub height: u32,
}

impl DecodedImage {
    /// The buffer holds exactly the samples its dimensions call for.
    pub open spec fn wf(&self) -> bool {
        self.pixels@.len() == self.width as int * self.height as int * 3
    }
}

/// Why generating the transition frames for one pair failed. A failed pair is
/// skipped and retried on a later pass; it never halts the batch.
#[derive(Debug, PartialEq, Eq, Structural)]
pub enum TransitionError {
    /// The first image's resolution differs from the target resolution.
    FirstResolutionMismatch,
    /// The second image's resolution differs from the target resolution.
    SecondResolutionMismatch,
}

/// Generates the cross-fade frames between two decoded images, after checking
/// that both match the target resolution exactly; a mismatch fails this pair
/// alone. Returns the flat frame buffer and the length of one frame.
pub fn generate_intermediate_wallpapers(
    first: &DecodedImage,
    second: &DecodedImage,
    iterations: u16,
    resolution: (u32, u32),
) -> (r: Result<(Vec<u8>, usize), TransitionError>)
    requires
        first.wf(),
        second.wf(),
        iterations as int * (resolution.0 as int * resolution.1 as int * 3) <= usize::MAX as int,
    ensures
        r is Ok <==> (first.width, first.height) == resolution && (second.width, second.height)
            == resolution,
        r == Err::<(Vec<u8>, usize), TransitionError>(TransitionError::FirstResolutionMismatch)
            <==> (first.width, first.height) != resolution,
        r == Err::<(Vec<u8>, usize), TransitionError>(TransitionError::SecondResolutionMismatch)
            <==> (first.width, first.height) == resolution && (second.width, second.height)
            != resolution,
        r matches Ok((buf, img_len)) ==> img_len == first.pixels@.len() && is_cross_fade(
            buf@,
            first.pixels@,
            second.pixels@,
            iterations as int,
        ),
{
    if first.width != resolution.0 || first.height != resolution.1 {
        return Err(TransitionError::FirstResolutionMismatch);
    }
    if second.width != resolution.0 || second.height != resolution.1 {
        return Err(TransitionError::SecondResolutionMismatch);
    }
    let img_len: usize = first.pixels.len();
    let buf = cross_fade(&first.pixels, &second.pixels, iterations);
    Ok((buf, img_len))
}

/// Cross-fading two identical sources is a no-op: every frame of the output
/// equals the source buffer exactly.
pub proof fn lemma_crossfade_identical(buf: Seq<u8>, src: Seq<u8>, n: int)
    requires
        is_cross_fade(buf, src, src, n),
        0 < n,
    ensures
        forall|f: int| 0 <= f < n ==> frame_at(buf, src.len() as int, f) =~= src,
{
    let len = src.len() as int;
    assert forall|f: int| 0 <= f < n implies frame_at(buf, len, f) =~= src by {
        lemma_frame_at_bounds(buf, src.len() as int, n, f);
        assert forall|j: int| 0 <= j < len implies frame_at(buf, len, f)[j] == src[j] by {
            assert(buf[f * len + j] == blend_sample(src[j], src[j], f, n));
            lemma_blend_identical(src[j], f, n);
        }
    }
}

/// Interpolating a sample with itself gives the sample back.
pub proof fn lemma_blend_identical(a: u8, i: int, n: int)
    requires
        0 <= i < n,
    ensures
        blend_sample(a, a, i, n) == a,
{
    if n >= 2 {
        let d = n - 1;
        let h = d / 2;
        assert((a as int) * (d - i) + (a as int) * i == d * (a as int)) by (nonlinear_arith);
        assert((d * (a as int) + h) / d == a as int) by {
            lemma_div_multiples_vanish_fancy(a as int, h, d);
        }
    }
}

/// The first and last frames are exact: frame `0` equals the first source and
/// frame `n - 1` equals the second, so a two-frame sequence holds the two
/// sources unchanged.
pub proof fn lemma_crossfade_endpoints(buf: Seq<u8>, first: Seq<u8>, second: Seq<u8>, n: int)
    requires
        is_cross_fade(buf, first, second, n),
        first.len() == second.len(),
        n >= 2,
    ensures
        frame_at(buf, first.len() as int, 0) =~= first,
        frame_at(buf, first.len() as int, n - 1) =~= second,
{
    let len = first.len() as int;
    lemma_frame_at_bounds(buf, len, n, 0);
    lemma_frame_at_bounds(buf, len, n, n - 1);
    assert forall|j: int| 0 <= j < len implies frame_at(buf, len, 0)[j] == first[j] by {
        assert(buf[0 * len + j] == blend_sample(first[j], second[j], 0, n));
        lemma_blend_endpoints(first[j], second[j], n);
    }
    assert forall|j: int| 0 <= j < len implies frame_at(buf, len, n - 1)[j] == second[j] by {
        assert(buf[(n - 1) * len + j] == blend_sample(first[j], second[j], n - 1, n));
        lemma_blend_endpoints(first[j], second[j], n);
    }
}

/// At the endpoints the interpolation is exact: weight `0` gives the first
/// sample and weight `1` the second.
pub proof fn lemma_blend_endpoints(a: u8, b: u8, n: int)
    requires
        n >= 2,
    ensures
        blend_sample(a, b, 0, n) == a,
        blend_sample(a, b, n - 1, n) == b,
{
    let d = n - 1;
    let h = d / 2;
    assert((a as int) * (d - 0) + (b as int) * 0 == d * (a as int)) by (nonlinear_arith);
    assert((d * (a as int) + h) / d == a as int) by {
        lemma_div_multiples_vanish_fancy(a as int, h, d);
    }
    assert(d - (n - 1) == 0);
    assert((a as int) * 0 == 0) by (nonlinear_arith);
    assert((b as int) * (n - 1) == d * (b as int)) by (nonlinear_arith)
        requires
            d == n - 1,
    ;
    assert((d * (b as int) + h) / d == b as int) by {
        lemma_div_multiples_vanish_fancy(b as int, h, d);
    }
}

/// A frame index inside the buffer cuts a full frame.
proof fn lemma_frame_at_bounds(buf: Seq<u8>, len: int, n: int, f: int)
    requires
        buf.len() == n * len,
        0 <= f < n,
        0 <= len,
    ensures
        0 <= f * len,
        f * len + len == (f + 1) * len,
        (f + 1) * len <= buf.len(),
        frame_at(buf, len, f).len() == len,
{
    assert(0 <= f * len && (f + 1) * len <= n * len && f * len + len == (f + 1) * len)
        by (nonlinear_arith)
        requires
            0 <= f < n,
            0 <= len,
    ;
}

/// The names whose normalized copy is still missing, in order.
pub open spec fn pending_resizes(
    images: Seq<Seq<char>>,
    existing: Seq<Seq<char>>,
) -> Seq<Seq<char>>
    decreases images.len(),
{
    if images.len() == 0 {
        Seq::empty()
    } else {
        let rest = pending_resizes(images.drop_last(), existing);
        if !existing.contains(images.last()) {
            rest.push(images.last())
        } else {
            rest
        }
    }
}

/// Whether a list of names holds one.
fn name_listed(list: &Vec<String>, name: &String) -> (r: bool)
    ensures
        r == list@.map_values(|s: String| s@).contains(name@),
{
    let ghost named = list@.map_values(|s: String| s@);
    let mut i: usize = 0;
    while i < list.len()
        invariant
            i <= list.len(),
            named == list@.map_values(|s: String| s@),
            forall|k: int| 0 <= k < i ==> named[k] != name@,
        decreases list.len() - i,
    {
        if list[i] == *name {
            proof {
                assert(named[i as int] == name@);
            }
            return true;
        }
        i = i + 1;
    }
    proof {
        if named.contains(name@) {
            let k = choose|k: int| 0 <= k < named.len() && named[k] == name@;
        }
    }
    false
}

/// The work list of one resize pass: the images without a normalized copy
/// yet, in order. An image already resized is skipped, so a pass over an
/// unchanged directory does nothing.
pub fn plan_resizes(images: &Vec<String>, existing: &Vec<String>) -> (r: Vec<String>)
    ensures
        r@.map_values(|s: String| s@) =~= pending_resizes(
            images@.map_values(|s: String| s@),
            existing@.map_values(|s: String| s@),
        ),
{
    let ghost named = images@.map_values(|s: String| s@);
    let ghost present = existing@.map_values(|s: String| s@);
    let mut out: Vec<String> = Vec::new();
    let mut i: usize = 0;
    while i < images.len()
        invariant
            i <= images.len(),
            named == images@.map_values(|s: String| s@),
            present == existing@.map_values(|s: String| s@),
            named.len() == images@.len(),
            forall|k: int| 0 <= k < images@.len() ==> named[k] == (#[trigger] images@[k])@,
            out@.map_values(|s: String| s@) =~= pending_resizes(named.take(i as int), present),
        decreases images.len() - i,
    {
        proof {
            assert(named.take(i + 1).drop_last() =~= named.take(i as int));
            assert(named.take(i + 1).last() == named[i as int]);
        }
        if !name_listed(existing, &images[i]) {
            out.push(images[i].clone());
        }
        i = i + 1;
    }
    proof {
        assert(named.take(named.len() as int) =~= named);
    }
    out
}

/// Splits a flat buffer of consecutive equal-length frames into one vector
/// per frame, in order.
pub fn split_frames(buffer: &Vec<u8>, frame_len: usize) -> (r: Vec<Vec<u8>>)
    requires
        frame_len > 0,
        buffer@.len() as int % frame_len as int == 0,
    ensures
        r@.len() == buffer@.len() as int / frame_len as int,
        forall|f: int|
            0 <= f < r@.len() ==> (#[trigger] r@[f])@ =~= frame_at(
                buffer@,
                frame_len as int,
                f,
            ),
{
    let total: usize = buffer.len() / frame_len;
    proof {
        vstd::arithmetic::div_mod::lemma_fundamental_div_mod(
            buffer@.len() as int,
            frame_len as int,
        );
        assert(buffer@.len() as int == frame_len as int * (buffer@.len() as int
            / frame_len as int));
        assert(frame_len as int * total as int == total as int * frame_len as int)
            by (nonlinear_arith);
        assert(total as int * frame_len as int == buffer@.len());
    }
    let mut out: Vec<Vec<u8>> = Vec::new();
    let mut f: usize = 0;
    while f < total
        invariant
            buffer@.len() == total as int * frame_len as int,
            buffer@.len() <= usize::MAX as int,
            frame_len > 0,
            f <= total,
            out@.len() == f as int,
            forall|g: int|
                0 <= g < f as int ==> (#[trigger] out@[g])@ =~= frame_at(
                    buffer@,
                    frame_len as int,
                    g,
                ),
        decreases total - f,
    {
        proof {
            lemma_frame_at_bounds(buffer@, frame_len as int, total as int, f as int);
        }
        let start: usize = f * frame_len;
        let mut frame: Vec<u8> = Vec::new();
        let mut j: usize = 0;
        while j < frame_len
            invariant
                buffer@.len() == total as int * frame_len as int,
                buffer@.len() <= usize::MAX as int,
                f < total,
                j <= frame_len,
                start as int == f as int * frame_len as int,
                start as int + frame_len as int <= buffer@.len(),
                frame@.len() == j as int,
                forall|k: int| 0 <= k < j as int ==> frame@[k] == buffer@[start as int + k],
            decreases frame_len - j,
        {
            frame.push(buffer[start + j]);
            j = j + 1;
        }
        proof {
            assert(frame@ =~= frame_at(buffer@, frame_len as int, f as int));
        }
        out.push(frame);
        f = f + 1;
    }
    out
}

} // verus!
