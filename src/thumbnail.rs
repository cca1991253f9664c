//! Aspect-preserving thumbnail sizes, and resampling an RGBA8 buffer to one.

use vstd::prelude::*;
use vstd::arithmetic::div_mod::lemma_fundamental_div_mod_converse;

verus! {

/// `source_height * target_width / source_width`, rounded half up.
pub open spec fn scaled_height(source_width: int, source_height: int, target_width: int) -> int {
    (2 * source_height * target_width + source_width) / (2 * source_width)
}

proof fn lemma_round_div(n: int, d: int, q: int, rem: int)
    requires
        d > 0,
        0 <= rem < d,
        n == q * d + rem,
    ensures
        (2 * n + d) / (2 * d) == if 2 * rem >= d { q + 1 } else { q },
{
    let t = if 2 * rem >= d { q + 1 } else { q };
    let s = 2 * n + d - t * (2 * d);
    assert(0 <= s < 2 * d) by (nonlinear_arith)
        requires
            n == q * d + rem,
            t == (if 2 * rem >= d { q + 1 } else { q }),
            s == 2 * n + d - t * (2 * d),
            0 <= rem < d,
    ;
    lemma_fundamental_div_mod_converse(2 * n + d, 2 * d, t, s);
}

/// Scaling to the source's own width keeps its height.
proof fn lemma_same_width_height(w: int, h: int)
    requires
        w > 0,
        h >= 0,
    ensures
        scaled_height(w, h, w) == h,
{
    assert(2 * h * w + w == h * (2 * w) + w) by (nonlinear_arith);
    lemma_fundamental_div_mod_converse(2 * h * w + w, 2 * w, h, w);
}

/// The height that keeps a `source_width` x `source_height` image's aspect
/// ratio at `target_width`, rounded to the nearest integer (halves up).
/// `None` when the source has no width or the height does not fit in `u32`.
pub fn target_height(source_width: u32, source_height: u32, target_width: u32) -> (r: Option<
    u32,
>)
    ensures
        r is Some <==> source_width > 0 && scaled_height(
            source_width as int,
            source_height as int,
            target_width as int,
        ) <= u32::MAX,
        r is Some ==> r->0 == scaled_height(
            source_width as int,
            source_height as int,
            target_width as int,
        ),
{
    if source_width == 0 {
        return None;
    }
    assert(source_height as int * target_width as int <= u32::MAX as int * u32::MAX as int)
        by (nonlinear_arith);
    let n: u64 = source_height as u64 * target_width as u64;
    let d: u64 = source_width as u64;
    let q: u64 = n / d;
    let rem: u64 = n % d;
    proof {
        assert(n == q * d + rem) by (nonlinear_arith)
            requires
                d > 0,
                q == n / d,
                rem == n % d,
        ;
        assert(q <= n) by (nonlinear_arith)
            requires
                d > 0,
                q == n / d,
        ;
        lemma_round_div(n as int, d as int, q as int, rem as int);
        assert(2 * n == 2 * (source_height as int) * (target_width as int)) by (nonlinear_arith)
            requires
                n == source_height as int * target_width as int,
        ;
    }
    let h: u64 = if 2 * rem >= d { q + 1 } else { q };
    if h > u32::MAX as u64 {
        None
    } else {
        Some(h as u32)
    }
}

/// Relies on image::imageops::resize with FilterType::Lanczos3 on an
/// RgbaImage built by ImageBuffer::from_raw: the result holds four bytes per
/// target pixel, and where the target size is the source size the pixels
/// are copied unchanged.
#[verifier::external_body]
fn resize_rgba8(pixels: Vec<u8>, width: u32, height: u32, target_width: u32, target_height: u32) -> (r:
    Vec<u8>)
    requires
        pixels.len() == 4 * width * height,
        target_width > 0,
        target_height > 0,
        4 * target_width * target_height <= usize::MAX,
        4 * width * target_height <= usize::MAX,
    ensures
        r.len() == 4 * target_width * target_height,
        target_width == width && target_height == height ==> r@ == pixels@,
{
    let source = image::RgbaImage::from_raw(width, height, pixels).unwrap();
    let filter = image::imageops::FilterType::Lanczos3;
    image::imageops::resize(&source, target_width, target_height, filter).into_raw()
}

proof fn lemma_product_bound(a: u32, b: u32)
    ensures
        4 * (a as int) * (b as int) <= 4 * (u32::MAX as int) * (u32::MAX as int),
        4 * (a as int) * (b as int) >= 0,
{
    assert(4 * (a as int) * (b as int) <= 4 * (u32::MAX as int) * (u32::MAX as int))
        by (nonlinear_arith);
    assert(4 * (a as int) * (b as int) >= 0) by (nonlinear_arith);
}

/// An RGBA8 image: four bytes per pixel, rows top to bottom.
pub struct Thumbnail {
    pub pixels: Vec<u8>,
    pub width: u32,
    pub height: u32,
}

/// The size fits a buffer of four bytes per pixel, including the
/// intermediate one of `source_width` x `height` pixels that resampling
/// builds.
pub open spec fn resample_fits(source_width: int, width: int, height: int) -> bool {
    &&& width > 0
    &&& height > 0
    &&& 4 * width * height <= usize::MAX
    &&& 4 * source_width * height <= usize::MAX
}

/// Resamples an RGBA8 image to `target_width`, keeping its aspect ratio.
/// `None` when the buffer does not hold `width * height` pixels, or the
/// target size is empty or too large to allocate.
pub fn make_thumbnail(pixels: Vec<u8>, width: u32, height: u32, target_width: u32) -> (r: Option<
    Thumbnail,
>)
    ensures
        r is Some <==> {
            &&& pixels.len() == 4 * width * height
            &&& width > 0
            &&& scaled_height(width as int, height as int, target_width as int) <= u32::MAX
            &&& resample_fits(
                width as int,
                target_width as int,
                scaled_height(width as int, height as int, target_width as int),
            )
        },
        r is Some ==> {
            let th = scaled_height(width as int, height as int, target_width as int);
            &&& r->0.width == target_width
            &&& r->0.height == th
            &&& r->0.pixels.len() == 4 * target_width * th
        },
        r is Some && target_width == width ==> r->0.pixels@ == pixels@,
{
    let len = pixels.len();
    proof {
        lemma_product_bound(width, height);
        lemma_product_bound(target_width, target_width);
    }
    let expected: u128 = 4 * (width as u128) * (height as u128);
    if len as u128 != expected {
        return None;
    }
    let th = match target_height(width, height, target_width) {
        Some(h) => h,
        None => {
            return None;
        },
    };
    if target_width == 0 || th == 0 {
        return None;
    }
    proof {
        lemma_product_bound(target_width, th);
        lemma_product_bound(width, th);
    }
    let out_len: u128 = 4 * (target_width as u128) * (th as u128);
    let mid_len: u128 = 4 * (width as u128) * (th as u128);
    if out_len > usize::MAX as u128 || mid_len > usize::MAX as u128 {
        return None;
    }
    proof {
        if target_width == width {
            lemma_same_width_height(width as int, height as int);
        }
    }
    let resized = resize_rgba8(pixels, width, height, target_width, th);
    Some(Thumbnail { pixels: resized, width: target_width, height: th })
}

} // verus!
