use vstd::prelude::*;

use crate::img::types::{get_min_dim, MixRule};

verus! {

/// An RGBA image as plain bytes: rows top to bottom, four bytes per pixel.
pub struct RgbaBuffer {
    pub width: u32,
    pub height: u32,
    pub data: Vec<u8>,
}

impl RgbaBuffer {
    pub open spec fn wf(&self) -> bool {
        self.data@.len() == 4 * self.width * self.height
    }

    /// Channel `ch` of the pixel at column `x`, row `y`.
    pub open spec fn channel(&self, x: int, y: int, ch: int) -> u8 {
        self.data@[4 * (y * self.width + x) + ch]
    }
}

pub open spec fn min_u32(a: u32, b: u32) -> int {
    if a < b {
        a as int
    } else {
        b as int
    }
}

proof fn lemma_index_in_bounds(x: int, y: int, ch: int, w: int, h: int, bw: int, bh: int)
    requires
        0 <= x < w <= bw,
        0 <= y < h <= bh,
        0 <= ch < 4,
    ensures
        0 <= y * bw,
        y * bw + x < bw * bh,
        0 <= 4 * (y * bw + x) + ch < 4 * bw * bh,
{
    assert(0 <= y * bw && y * bw + x < bw * bh) by (nonlinear_arith)
        requires
            0 <= x < w <= bw,
            0 <= y < h <= bh,
    ;
    assert(0 <= 4 * (y * bw + x) + ch < 4 * bw * bh) by (nonlinear_arith)
        requires
            0 <= x < w <= bw,
            0 <= y < h <= bh,
            0 <= ch < 4,
    ;
}

proof fn lemma_split_index(i: int, channels: int, w: int, h: int)
    requires
        0 <= i < channels * w * h,
        1 <= channels,
        1 <= w,
    ensures
        0 <= (i / channels) % w < w,
        0 <= (i / channels) / w < h,
        0 <= i % channels < channels,
{
    let p = i / channels;
    vstd::arithmetic::div_mod::lemma_div_pos_is_pos(i, channels);
    vstd::arithmetic::div_mod::lemma_mod_bound(i, channels);
    vstd::arithmetic::div_mod::lemma_mod_bound(p, w);
    vstd::arithmetic::div_mod::lemma_div_pos_is_pos(p, w);
    assert(i < channels * (w * h)) by (nonlinear_arith)
        requires
            i < channels * w * h,
    ;
    vstd::arithmetic::div_mod::lemma_multiply_divide_lt(i, channels, w * h);
    assert(p < w * h);
    vstd::arithmetic::div_mod::lemma_multiply_divide_lt(p, w, h);
}

/// Blends the region that both images cover, channel by channel, with
/// `mix_rule(base, cover)`. The result holds the first `channels` channels of
/// each pixel, row by row over the common width and height.
pub fn blend_channels<R: MixRule + ?Sized>(
    base: &RgbaBuffer,
    cover: &RgbaBuffer,
    mix_rule: &R,
    channels: usize,
) -> (r: Vec<u8>)
    requires
        base.wf(),
        cover.wf(),
        1 <= channels <= 4,
    ensures
        ({
            let w = min_u32(base.width, cover.width);
            let h = min_u32(base.height, cover.height);
            &&& r@.len() == channels * w * h
            &&& forall|i: int|
                0 <= i < r@.len() ==> #[trigger] r@[i] == mix_rule.spec_mix(
                    base.channel((i / channels as int) % w, (i / channels as int) / w, i % channels as int),
                    cover.channel((i / channels as int) % w, (i / channels as int) / w, i % channels as int),
                )
        }),
{
    let (w, h) = get_min_dim((base.width, base.height), (cover.width, cover.height));
    let ghost gw = w as int;
    let ghost gh = h as int;
    let blen: usize = base.data.len();
    let clen: usize = cover.data.len();
    assert(w * h <= base.width * base.height && channels * (w * h) <= 4 * (base.width
        * base.height) && channels * (w * h) == channels * w * h && 4 * (base.width * base.height)
        == 4 * base.width * base.height) by (nonlinear_arith)
        requires
            1 <= channels <= 4,
            w <= base.width,
            h <= base.height,
    ;
    let area: usize = (w as usize) * (h as usize);
    let size: usize = channels * area;
    let mut out: Vec<u8> = Vec::new();
    let mut i: usize = 0;
    while i < size
        invariant
            base.wf(),
            cover.wf(),
            blen == base.data@.len(),
            clen == cover.data@.len(),
            1 <= channels <= 4,
            w as int == min_u32(base.width, cover.width),
            h as int == min_u32(base.height, cover.height),
            size == channels * w * h,
            i <= size,
            out@.len() == i,
            forall|k: int|
                0 <= k < i ==> #[trigger] out@[k] == mix_rule.spec_mix(
                    base.channel((k / channels as int) % (w as int), (k / channels as int) / (w as int), k % channels as int),
                    cover.channel((k / channels as int) % (w as int), (k / channels as int) / (w as int), k % channels as int),
                ),
        decreases size - i,
    {
        assert(w >= 1) by (nonlinear_arith)
            requires
                i < size,
                size == channels * w * h,
        ;
        proof {
            lemma_split_index(i as int, channels as int, w as int, h as int);
        }
        let p: usize = i / channels;
        let x: usize = p % (w as usize);
        let y: usize = p / (w as usize);
        let ch: usize = i % channels;
        proof {
            lemma_index_in_bounds(x as int, y as int, ch as int, w as int, h as int, base.width as int, base.height as int);
            lemma_index_in_bounds(x as int, y as int, ch as int, w as int, h as int, cover.width as int, cover.height as int);
        }
        let bi: usize = 4 * (y * (base.width as usize) + x) + ch;
        let ci: usize = 4 * (y * (cover.width as usize) + x) + ch;
        let v = mix_rule.mix(base.data[bi], cover.data[ci]);
        out.push(v);
        i += 1;
    }
    out
}

} // verus!
