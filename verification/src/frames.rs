//! Pixel buffers of captured frames (BGRA, four bytes per pixel, rows top to
//! bottom).

use vstd::prelude::*;
use vstd::arithmetic::div_mod::{lemma_fundamental_div_mod, lemma_fundamental_div_mod_converse};

verus! {

/// Rows and the position in a row of a flat index.
proof fn lemma_split_index(i: int, row_len: int, row: int, k: int)
    requires
        row_len > 0,
        0 <= k < row_len,
        i == row * row_len + k,
    ensures
        i / row_len == row,
        i % row_len == k,
{
    assert(i == row * row_len + k);
    lemma_fundamental_div_mod_converse(i, row_len, row, k);
}

// ---------------------------------------------------------------------------
// Bottom-up rows for the encoder
// ---------------------------------------------------------------------------

/// The frame with its rows in reverse order, as the encoder takes them.
pub open spec fn rows_flipped(buf: Seq<u8>, width: int, height: int) -> Seq<u8> {
    let rb = width * 4;
    Seq::new((height * rb) as nat, |i: int| buf[(height - 1 - i / rb) * rb + i % rb])
}

/// The frame as the encoder takes it: rows bottom to top. A buffer too short
/// for the given size, or a frame without pixels, is passed on unchanged.
pub fn normalize_frame_for_encoder(buffer: &Vec<u8>, width: usize, height: usize) -> (r: Vec<u8>)
    ensures
        (width * height == 0 || buffer@.len() < width * height * 4) ==> r@ == buffer@,
        !(width * height == 0 || buffer@.len() < width * height * 4) ==> r@ == rows_flipped(buffer@, width as int, height as int),
{
    assert(width * height <= (u64::MAX as int) * (u64::MAX as int)) by (nonlinear_arith)
        requires width <= u64::MAX, height <= u64::MAX, width >= 0, height >= 0;
    let pixels: u128 = width as u128 * height as u128;
    let quarter: u128 = buffer.len() as u128 / 4;
    assert((quarter < pixels) == (buffer@.len() < width * height * 4)) by (nonlinear_arith)
        requires quarter == buffer@.len() / 4, pixels == width * height, buffer@.len() >= 0;
    if pixels == 0 || quarter < pixels {
        return buffer.clone();
    }
    assert(buffer@.len() == buffer.len());
    assert(width * 4 <= width * height * 4) by (nonlinear_arith)
        requires height >= 1, width >= 0;
    let rb = width * 4;
    let ghost spec = rows_flipped(buffer@, width as int, height as int);
    let mut out: Vec<u8> = Vec::new();
    let mut row: usize = 0;
    while row < height
        invariant
            width > 0 && height > 0,
            rb == width * 4,
            width * height * 4 <= buffer@.len(),
            buffer@.len() <= usize::MAX,
            spec == rows_flipped(buffer@, width as int, height as int),
            row <= height,
            out@ == spec.subrange(0, row * rb),
        decreases height - row,
    {
        let src_row = height - 1 - row;
        assert(src_row * rb + rb <= buffer@.len()) by (nonlinear_arith)
            requires
                src_row < height,
                rb == width * 4,
                width * height * 4 <= buffer@.len(),
        ;
        assert(row * rb + rb <= height * rb) by (nonlinear_arith)
            requires row < height, rb >= 0;
        let src_start = src_row * rb;
        let mut k: usize = 0;
        while k < rb
            invariant
                width > 0,
                rb == width * 4,
                row < height,
                src_row == height - 1 - row,
                src_start == src_row * rb,
                src_start + rb <= buffer@.len(),
                buffer@.len() <= usize::MAX,
                row * rb + rb <= height * rb,
                spec == rows_flipped(buffer@, width as int, height as int),
                k <= rb,
                out@ == spec.subrange(0, row * rb + k),
            decreases rb - k,
        {
            proof {
                lemma_split_index(row * rb + k, rb as int, row as int, k as int);
                assert(spec[row * rb + k] == buffer@[src_start + k]);
            }
            out.push(buffer[src_start + k]);
            k += 1;
            assert(out@ =~= spec.subrange(0, row * rb + k));
        }
        row += 1;
        assert(out@ =~= spec.subrange(0, row * rb)) by {
            assert((row - 1) * rb + rb == row * rb) by (nonlinear_arith)
                requires row >= 1;
        }
    }
    assert(out@ =~= spec);
    out
}

/// Flipping the rows of a whole frame twice gives the frame back.
pub proof fn law_flipping_rows_twice_restores_frame(buf: Seq<u8>, width: int, height: int)
    requires
        width > 0,
        height > 0,
        buf.len() == width * height * 4,
    ensures
        rows_flipped(rows_flipped(buf, width, height), width, height) == buf,
{
    let rb = width * 4;
    let once = rows_flipped(buf, width, height);
    let twice = rows_flipped(once, width, height);
    assert(height * rb == buf.len()) by (nonlinear_arith)
        requires rb == width * 4, buf.len() == width * height * 4;
    assert forall|i: int| 0 <= i < buf.len() implies #[trigger] twice[i] == buf[i] by {
        let row = i / rb;
        let k = i % rb;
        lemma_fundamental_div_mod(i, rb);
        assert(0 <= k < rb);
        assert(0 <= row < height) by (nonlinear_arith)
            requires i == rb * row + k, 0 <= k < rb, 0 <= i < height * rb, rb > 0;
        let j = (height - 1 - row) * rb + k;
        lemma_split_index(j, rb, height - 1 - row, k);
        assert(0 <= j < height * rb) by (nonlinear_arith)
            requires j == (height - 1 - row) * rb + k, 0 <= row < height, 0 <= k < rb, rb > 0;
        assert(twice[i] == once[j]);
        assert(once[j] == buf[(height - 1 - (height - 1 - row)) * rb + k]);
        assert(height - 1 - (height - 1 - row) == row);
        assert(row * rb + k == i) by (nonlinear_arith)
            requires i == rb * row + k;
    }
    assert(twice =~= buf);
}

// ---------------------------------------------------------------------------
// Preview downscaling
// ---------------------------------------------------------------------------

/// Height of a preview scaled to `max_width`, keeping the aspect ratio (at
/// least one row).
pub open spec fn scaled_height(width: u32, height: u32, max_width: u32) -> int {
    let h = height * max_width / (width as int);
    if h < 1 { 1 } else if h > u32::MAX { u32::MAX as int } else { h }
}

/// Index of the source pixel shown by pixel `p` of the scaled image
/// (nearest neighbour, rounding down).
pub open spec fn source_pixel(width: int, height: int, out_w: int, out_h: int, p: int) -> int {
    let y = p / out_w;
    let x = p % out_w;
    (y * height / out_h) * width + x * width / out_w
}

/// The image scaled to `out_w` x `out_h` by nearest neighbour.
pub open spec fn downscaled(src: Seq<u8>, width: int, height: int, out_w: int, out_h: int) -> Seq<u8> {
    Seq::new((out_w * out_h * 4) as nat, |i: int| src[source_pixel(width, height, out_w, out_h, i / 4) * 4 + i % 4])
}

/// A scaled frame and its size.
pub struct ScaledFrame {
    pub pixels: Vec<u8>,
    pub width: u32,
    pub height: u32,
}

/// A frame scaled down to at most `max_width` pixels wide for the preview,
/// with its new size; `None` when it is to be shown as it is (it has no
/// pixels, is narrow enough, or the buffer is too short for its size).
pub fn downscale_bgra_for_preview(source: &Vec<u8>, width: u32, height: u32, max_width: u32) -> (r: Option<ScaledFrame>)
    ensures
        (width == 0 || height == 0 || max_width == 0 || width <= max_width || source@.len() < width * height * 4)
            ==> r is None,
        !(width == 0 || height == 0 || max_width == 0 || width <= max_width || source@.len() < width * height * 4)
            ==> r is Some && r->0.width == max_width && r->0.height == scaled_height(width, height, max_width)
                && r->0.pixels@ == downscaled(source@, width as int, height as int, max_width as int, r->0.height as int),
{
    if width == 0 || height == 0 || max_width == 0 || width <= max_width {
        return None;
    }
    proof {
        assert(width * height * 4 <= (u32::MAX as int) * (u32::MAX as int) * 4) by (nonlinear_arith)
            requires width <= u32::MAX, height <= u32::MAX;
    }
    let expected: u128 = width as u128 * height as u128 * 4;
    if (source.len() as u128) < expected {
        return None;
    }
    let ow: u32 = max_width;
    assert(height as u64 * max_width as u64 <= 0xffff_ffffu64 * 0xffff_ffffu64) by (nonlinear_arith)
        requires height <= 0xffff_ffffu64, max_width <= 0xffff_ffffu64;
    let raw_h: u64 = (height as u64 * max_width as u64) / width as u64;
    proof {
        assert(height * max_width / (width as int) <= height) by (nonlinear_arith)
            requires max_width < width, width > 0, height >= 0, max_width >= 0;
    }
    let oh: u32 = if raw_h < 1 { 1 } else { raw_h as u32 };
    assert(oh == scaled_height(width, height, max_width));
    assert(1 <= oh <= height);
    let w = width as usize;
    let h = height as usize;
    let ow_u = ow as usize;
    let oh_u = oh as usize;
    let ghost spec = downscaled(source@, width as int, height as int, ow as int, oh as int);
    assert(source@.len() == source.len());
    assert((ow as int) * (oh as int) * 4 <= width * height * 4) by (nonlinear_arith)
        requires ow < width, oh <= height, ow >= 0, oh >= 0;
    let mut out: Vec<u8> = Vec::new();
    let mut y: usize = 0;
    while y < oh_u
        invariant
            w == width && h == height && ow_u == ow && oh_u == oh,
            0 < ow < width,
            1 <= oh <= height,
            width * height * 4 <= source@.len(),
            (ow as int) * (oh as int) * 4 <= width * height * 4,
            source@.len() <= usize::MAX,
            spec == downscaled(source@, width as int, height as int, ow as int, oh as int),
            y <= oh_u,
            out@ == spec.subrange(0, y * ow_u * 4),
        decreases oh_u - y,
    {
        assert(y as u64 * h as u64 <= 0xffff_ffffu64 * 0xffff_ffffu64) by (nonlinear_arith)
            requires y < oh_u, oh_u <= 0xffff_ffffu64, h <= 0xffff_ffffu64;
        let sy: u64 = (y as u64 * h as u64) / oh_u as u64;
        assert(sy < h) by (nonlinear_arith)
            requires sy == y * h / (oh_u as int), y < oh_u, oh_u <= h, oh_u > 0;
        let src_y = sy as usize;
        let mut x: usize = 0;
        while x < ow_u
            invariant
                w == width && h == height && ow_u == ow && oh_u == oh,
                0 < ow < width,
                1 <= oh <= height,
                width * height * 4 <= source@.len(),
                spec == downscaled(source@, width as int, height as int, ow as int, oh as int),
                y < oh_u,
                (ow as int) * (oh as int) * 4 <= width * height * 4,
                source@.len() <= usize::MAX,
                src_y == y * h / (oh_u as int),
                src_y < h,
                x <= ow_u,
                out@ == spec.subrange(0, (y * ow_u + x) * 4),
            decreases ow_u - x,
        {
            assert(x as u64 * w as u64 <= 0xffff_ffffu64 * 0xffff_ffffu64) by (nonlinear_arith)
                requires x < ow_u, ow_u <= 0xffff_ffffu64, w <= 0xffff_ffffu64;
            let sx: u64 = (x as u64 * w as u64) / ow_u as u64;
            assert(sx < w) by (nonlinear_arith)
                requires sx == x * w / (ow_u as int), x < ow_u, ow_u <= w, ow_u > 0;
            let src_x = sx as usize;
            assert((src_y * w + src_x) * 4 + 4 <= w * h * 4) by (nonlinear_arith)
                requires src_y < h, src_x < w;
            assert(source@.len() == source.len());
            let src_idx = (src_y * w + src_x) * 4;
            assert(y * ow_u + x < ow_u * oh_u) by (nonlinear_arith)
                requires y < oh_u, x < ow_u;
            assert(ow_u * oh_u <= width * height * 4) by (nonlinear_arith)
                requires ow_u * oh_u * 4 <= width * height * 4;
            let p = y * ow_u + x;
            let mut c: usize = 0;
            while c < 4
                invariant
                    w == width && h == height && ow_u == ow && oh_u == oh,
                    0 < ow,
                    spec == downscaled(source@, width as int, height as int, ow as int, oh as int),
                    y < oh_u,
                    x < ow_u,
                    p == y * ow_u + x,
                    p < ow_u * oh_u,
                    src_y == y * h / (oh_u as int),
                    src_x == x * w / (ow_u as int),
                    src_idx == (src_y * w + src_x) * 4,
                    src_idx + 4 <= source@.len(),
                    c <= 4,
                    out@ == spec.subrange(0, p * 4 + c),
                decreases 4 - c,
            {
                proof {
                    lemma_split_index(p * 4 + c, 4, p as int, c as int);
                    lemma_split_index(p as int, ow_u as int, y as int, x as int);
                    assert(p * 4 + c < ow_u * oh_u * 4) by (nonlinear_arith)
                        requires p < ow_u * oh_u, c < 4;
                    assert(spec[p * 4 + c] == source@[src_idx + c]);
                }
                out.push(source[src_idx + c]);
                c += 1;
                assert(out@ =~= spec.subrange(0, p * 4 + c));
            }
            x += 1;
            assert((y * ow_u + x) * 4 == p * 4 + 4);
        }
        y += 1;
        assert((y - 1) * ow_u + ow_u == y * ow_u) by (nonlinear_arith)
            requires y >= 1;
    }
    assert(out@ =~= spec) by {
        assert(oh_u * ow_u * 4 == ow_u * oh_u * 4) by (nonlinear_arith);
    }
    Some(ScaledFrame { pixels: out, width: ow, height: oh })
}

} // verus!
