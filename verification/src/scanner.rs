//! The scanner: adaptive thresholding of a raster image and detection of
//! candidate marker centers.
//!
//! The scanner owns a packed binary buffer with one 32-bit word per pixel.
//! After a threshold pass the high byte of each word holds the binary pixel
//! (0 = black, 1 = white) and the low 24 bits hold the Wellner running sum
//! that was used to threshold that pixel.

use crate::candidate::Candidate;
use crate::topcode::TopCode;
use vstd::arithmetic::div_mod::{lemma_fundamental_div_mod, lemma_fundamental_div_mod_converse};
use vstd::arithmetic::mul::lemma_mul_inequality;
use vstd::prelude::*;

verus! {

/// Default maximum width of one marker ring in pixels, equivalent to a
/// marker diameter of 640 pixels.
pub const DEFAULT_MAX_UNIT: usize = 80;

/// Ring-detection states while sweeping one row: inside white, inside the
/// first black run, inside the enclosed white run, inside the second black
/// run.
#[derive(Clone, Copy)]
pub enum UnitLevel {
    WhiteRegion,
    BlackRegion,
    WhiteRegionSecond,
    BlackRegionSecond,
}

/// Scans images for TopCodes. The algorithm sweeps the image one horizontal
/// line at a time looking for bullseye cross-sections: a black run, a white
/// run and a black run whose widths satisfy ring-ratio constraints. Each
/// match is kept as a candidate center and decoded afterwards.
#[derive(Clone)]
pub struct Scanner {
    /// Expected image width.
    width: usize,
    /// Expected image height.
    height: usize,
    /// Packed binary pixel data, one word per pixel in row-major order.
    data: Vec<u32>,
    /// Maximum width of one marker ring in pixels.
    max_unit: usize,
}

/// Reads the red, green and blue bytes of one pixel from a tightly packed
/// 8-bit RGBA buffer; the alpha byte is ignored.
fn rgba_decoder(buf: &Vec<u8>, index: usize) -> (v: (u32, u32, u32))
    requires
        4 * index + 3 < buf@.len(),
        buf@.len() <= usize::MAX,
    ensures
        v.0 == buf@[4 * index as int],
        v.1 == buf@[4 * index as int + 1],
        v.2 == buf@[4 * index as int + 2],
        v.0 <= 255,
        v.1 <= 255,
        v.2 <= 255,
{
    (buf[4 * index] as u32, buf[4 * index + 1] as u32, buf[4 * index + 2] as u32)
}

/// Every answer the pixel decoder can give for the first `n` pixels of
/// this image is bright: the summed channels reach at least 747, so the
/// mean intensity is at least 249. An all-white image satisfies this.
pub open spec fn all_bright<T, F: Fn(&T, usize) -> (u32, u32, u32)>(
    decode_rgb: F,
    image_buffer: &T,
    n: int,
) -> bool {
    forall|k: usize, v: (u32, u32, u32)|
        k < n && call_ensures(decode_rgb, (image_buffer, k), v) ==> v.0 + v.1 + v.2 >= 747
}


/// The whole state of the threshold sweep after some number of visited
/// pixels: the Wellner running sum, the ring state machine of the current
/// row, the buffer contents, and the candidates recorded so far.
#[verifier::ext_equal]
pub struct SweepState {
    /// Wellner running sum, carried across rows.
    pub sum: int,
    /// Ring state machine of the current row.
    pub level: UnitLevel,
    /// Length of the leading black run.
    pub b1: int,
    /// Length of the enclosed white run.
    pub w1: int,
    /// Length of the trailing black run.
    pub b2: int,
    /// Packed buffer contents.
    pub data: Seq<u32>,
    /// Candidates recorded so far, in sweep order.
    pub cands: Seq<Candidate>,
}

/// The flat buffer index of the ii-th pixel visited in row j: rows are
/// swept boustrophedon, left to right on even rows and right to left on
/// odd ones.
pub open spec fn sweep_pos(w: int, j: int, ii: int) -> int {
    if j % 2 == 0 {
        j * w + ii
    } else {
        j * w + w - 1 - ii
    }
}

/// Mean intensity of one decoded pixel.
pub open spec fn sweep_intensity(v: (u32, u32, u32)) -> int {
    (v.0 + v.1 + v.2) / 3
}

/// The threshold a pixel at flat index k is compared against: the average
/// of the current running sum and the stored sum of the pixel directly
/// above, over the window of 32 pixels; the first row uses the current sum
/// alone.
pub open spec fn sweep_threshold(sum: int, data: Seq<u32>, w: int, k: int) -> int {
    if k >= w {
        (sum + (data[k - w] & 0xffffff)) / 64
    } else {
        sum / 32
    }
}

/// Binarization: black (0) iff the intensity falls below 39/40 of the
/// threshold.
pub open spec fn sweep_bin(a: int, t: int) -> int {
    if 40 * a < 39 * t {
        0
    } else {
        1
    }
}

/// The packed word for a binary bit and a running sum.
pub open spec fn sweep_pack(bit: int, sum: int) -> u32 {
    (bit * 0x1000000 + sum % 0x1000000) as u32
}

/// One pixel of the sweep: update the running sum, binarize against the
/// threshold, store the packed word, and advance the ring state machine,
/// recording a candidate when a black-white-black section satisfies the
/// ring-ratio constraints.
#[verifier::opaque]
pub open spec fn sweep_step(
    st: SweepState,
    v: (u32, u32, u32),
    w: int,
    max_u: int,
    j: int,
    ii: int,
) -> SweepState {
    let k = sweep_pos(w, j, ii);
    let a0 = sweep_intensity(v);
    let sum2 = st.sum + a0 - st.sum / 32;
    let bit = sweep_bin(a0, sweep_threshold(sum2, st.data, w, k));
    let data2 = st.data.update(k, sweep_pack(bit, sum2));
    match st.level {
        UnitLevel::WhiteRegion => {
            if bit == 0 {
                SweepState {
                    level: UnitLevel::BlackRegion,
                    b1: 1,
                    w1: 0,
                    b2: 0,
                    sum: sum2,
                    data: data2,
                    cands: st.cands,
                }
            } else {
                SweepState { sum: sum2, data: data2, ..st }
            }
        },
        UnitLevel::BlackRegion => {
            if bit == 0 {
                SweepState { b1: st.b1 + 1, sum: sum2, data: data2, ..st }
            } else {
                SweepState {
                    level: UnitLevel::WhiteRegionSecond,
                    w1: 1,
                    sum: sum2,
                    data: data2,
                    ..st
                }
            }
        },
        UnitLevel::WhiteRegionSecond => {
            if bit == 0 {
                SweepState {
                    level: UnitLevel::BlackRegionSecond,
                    b2: 1,
                    sum: sum2,
                    data: data2,
                    ..st
                }
            } else {
                SweepState { w1: st.w1 + 1, sum: sum2, data: data2, ..st }
            }
        },
        UnitLevel::BlackRegionSecond => {
            if bit == 0 {
                SweepState { b2: st.b2 + 1, sum: sum2, data: data2, ..st }
            } else {
                let hit = st.b1 >= 2 && st.b2 >= 2 && st.b1 <= max_u && st.b2 <= max_u && st.w1
                    <= max_u + max_u && abs0(st.b1 + st.b2 - st.w1) <= st.b1 + st.b2 && abs0(
                    st.b1 + st.b2 - st.w1,
                ) <= st.w1 && abs0(st.b1 - st.b2) <= st.b1 && abs0(st.b1 - st.b2) <= st.b2;
                let dk = 1 + st.b2 + st.w1 / 2;
                let ck = if j % 2 == 0 {
                    k - dk
                } else {
                    k + dk
                };
                let cands2 = if hit {
                    st.cands.push(Candidate { x: (ck % w) as usize, y: j as usize })
                } else {
                    st.cands
                };
                SweepState {
                    level: UnitLevel::WhiteRegionSecond,
                    b1: st.b2,
                    w1: 1,
                    b2: 0,
                    sum: sum2,
                    data: data2,
                    cands: cands2,
                }
            }
        },
    }
}

/// The sweep over a trace of decoded pixels in visit order: pixel number
/// vv of the trace is the one visited at row vv / w, in-row position
/// vv % w. The running sum starts at 128 once for the whole pass; the ring
/// state machine restarts at every row.
#[verifier::opaque]
pub open spec fn sweep_run(tr: Seq<(u32, u32, u32)>, data0: Seq<u32>, w: int, max_u: int) -> SweepState
    decreases tr.len(),
{
    if tr.len() == 0 {
        SweepState {
            sum: 128,
            level: UnitLevel::WhiteRegion,
            b1: 0,
            w1: 0,
            b2: 0,
            data: data0,
            cands: Seq::empty(),
        }
    } else {
        let prev = sweep_run(tr.drop_last(), data0, w, max_u);
        let j = (tr.len() - 1) / w;
        let ii = (tr.len() - 1) % w;
        let prev2 = if ii == 0 {
            SweepState { level: UnitLevel::WhiteRegion, b1: 0, w1: 0, b2: 0, ..prev }
        } else {
            prev
        };
        sweep_step(prev2, tr.last(), w, max_u, j, ii)
    }
}

/// Absolute value.
pub open spec fn abs0(v: int) -> int {
    if v < 0 {
        -v
    } else {
        v
    }
}

/// The trace covers the whole image, and each entry is a value the pixel
/// decoder can answer for the pixel visited at that point of the sweep.
pub open spec fn sweep_trace_ok<T, F: Fn(&T, usize) -> (u32, u32, u32)>(
    decode_rgb: F,
    image_buffer: &T,
    tr: Seq<(u32, u32, u32)>,
    w: int,
    h: int,
) -> bool {
    &&& tr.len() == w * h
    &&& forall|vv: int|
        0 <= vv < tr.len() ==> call_ensures(
            decode_rgb,
            (image_buffer, sweep_pos(w, vv / w, vv % w) as usize),
            #[trigger] tr[vv],
        )
}

/// A pure pixel decoder answers each index with a single value, so the
/// trace a sweep reads from it is unique: re-running the pass over the same
/// image yields the identical trace, and with it the identical buffer and
/// candidate list.
pub proof fn lemma_sweep_trace_unique<T, F: Fn(&T, usize) -> (u32, u32, u32)>(
    decode_rgb: F,
    image_buffer: &T,
    tr1: Seq<(u32, u32, u32)>,
    tr2: Seq<(u32, u32, u32)>,
    w: int,
    h: int,
)
    requires
        sweep_trace_ok(decode_rgb, image_buffer, tr1, w, h),
        sweep_trace_ok(decode_rgb, image_buffer, tr2, w, h),
        forall|k: usize, v1: (u32, u32, u32), v2: (u32, u32, u32)|
            call_ensures(decode_rgb, (image_buffer, k), v1) && call_ensures(
                decode_rgb,
                (image_buffer, k),
                v2,
            ) ==> v1 == v2,
    ensures
        tr1 == tr2,
{
    assert forall|vv: int| 0 <= vv < tr1.len() implies tr1[vv] == tr2[vv] by {
        let p = sweep_pos(w, vv / w, vv % w) as usize;
        assert(call_ensures(decode_rgb, (image_buffer, p), tr1[vv]));
        assert(call_ensures(decode_rgb, (image_buffer, p), tr2[vv]));
    }
    assert(tr1 =~= tr2);
}

/// A packed buffer word as the threshold pass leaves it: the high byte is a
/// binary 0 or 1, and the low 24 bits carry the running sum, which the pass
/// keeps below 8192.
pub open spec fn word_ok(w: u32) -> bool {
    (w >> 24) <= 1 && (w & 0xffffff) < 8192
}

/// Lower clamp at zero, used as a termination measure.
pub open spec fn clamp0(v: int) -> int {
    if v < 0 {
        0
    } else {
        v
    }
}

/// Row-major index arithmetic stays inside the buffer.
proof fn lemma_row_col(w: int, h: int, i: int, j: int)
    requires
        0 <= i < w,
        0 <= j < h,
    ensures
        0 <= j * w + i < w * h,
{
    assert(j * w + i < w * h) by (nonlinear_arith)
        requires
            0 <= i < w,
            0 <= j < h,
    ;
    assert(j * w >= 0) by (nonlinear_arith)
        requires
            0 <= j,
            0 <= w,
    ;
}

/// Packing a binary bit above a 24-bit sum is lossless.
proof fn lemma_pack(a: u32, s: u32, w: u32)
    requires
        a <= 1,
        s < 8192,
        w == (a << 24) + s,
    ensures
        w >> 24 == a,
        w & 0xffffff == s,
{
    assert(w >> 24 == a && w & 0xffffff == s) by (bit_vector)
        requires
            a <= 1,
            s < 8192,
            w == vstd::prelude::add(a << 24, s),
    ;
}

impl Scanner {
    /// The scanner's structural invariant: the buffer covers the image, and
    /// the pixel count respects the allocation limit of one 32-bit word per
    /// pixel.
    pub closed spec fn wf(self) -> bool {
        &&& self.data@.len() == self.width * self.height
        &&& self.width as int * self.height as int <= usize::MAX as int / 4
        &&& self.max_unit as int <= usize::MAX as int / 8 + 1
    }

    pub closed spec fn spec_width(self) -> usize {
        self.width
    }

    pub closed spec fn spec_height(self) -> usize {
        self.height
    }

    pub closed spec fn spec_max_unit(self) -> usize {
        self.max_unit
    }

    pub closed spec fn buffer(self) -> Seq<u32> {
        self.data@
    }

    /// The binary value stored for pixel (x, y): the high bit of its word.
    pub closed spec fn bit_val(self, x: int, y: int) -> u32
        recommends
            0 <= x < self.spec_width(),
            0 <= y < self.spec_height(),
    {
        (self.data@[y * self.width + x] >> 24) & 1
    }

    /// Sum of the nine binary pixels in the 3x3 window centered at (x, y).
    pub closed spec fn bits9(self, x: int, y: int) -> int {
        self.bit_val(x - 1, y - 1) + self.bit_val(x, y - 1) + self.bit_val(x + 1, y - 1)
            + self.bit_val(x - 1, y) + self.bit_val(x, y) + self.bit_val(x + 1, y)
            + self.bit_val(x - 1, y + 1) + self.bit_val(x, y + 1) + self.bit_val(x + 1, y + 1)
    }

    /// (x, y) is too close to an image edge for a full 3x3 window.
    pub closed spec fn on_border(self, x: int, y: int) -> bool {
        self.width < 2 || self.height < 2 || x < 1 || x >= self.width - 1 || y < 1 || y
            >= self.height - 1
    }

    /// Majority binary value of the 3x3 window at (x, y); 0 on the border.
    pub closed spec fn spec_bw_3x3(self, x: int, y: int) -> u32 {
        if self.on_border(x, y) {
            0
        } else if self.bits9(x, y) >= 5 {
            1
        } else {
            0
        }
    }

    /// Average of the 3x3 window at (x, y), scaled to 0..=255; 0 on the
    /// border.
    pub closed spec fn spec_sample_3x3(self, x: int, y: int) -> int {
        if self.on_border(x, y) {
            0
        } else {
            (0xff * self.bits9(x, y)) / 9
        }
    }

    /// Step `m` of a ray from (sx, sy) along (dx, dy) is still walkable and
    /// shows the same binary value as the ray's start.
    pub open spec fn walk_ok(self, sx: int, sy: int, dx: int, dy: int, start: u32, m: int) -> bool {
        self.in_walk(sx + m * dx, sy + m * dy) && self.spec_bw_3x3(sx + m * dx, sy + m * dy)
            == start
    }

    /// Step `n` of a ray from (sx, sy) along (dx, dy) is walkable and shows
    /// the opposite binary value to the ray's start: the color flip `dist`
    /// reports.
    pub open spec fn ray_hits(self, sx: int, sy: int, dx: int, dy: int, start: u32, n: int) -> bool {
        self.in_walk(sx + n * dx, sy + n * dy) && self.spec_bw_3x3(sx + n * dx, sy + n * dy)
            != start
    }

    /// Step `n` of a ray from (sx, sy) along (dx, dy) has left the walkable
    /// region.
    pub open spec fn ray_exits(self, sx: int, sy: int, dx: int, dy: int, n: int) -> bool {
        !self.in_walk(sx + n * dx, sy + n * dy)
    }

    /// The walk of `dist` continues while (i, j) is inside these bounds.
    /// The vertical upper bound is deliberately one pixel looser than the
    /// horizontal one: a ray may probe the bottom border row, where the
    /// majority read answers 0.
    pub closed spec fn in_walk(self, i: int, j: int) -> bool {
        2 <= i && i <= self.width - 2 && 2 <= j && j <= self.height - 1
    }

    pub fn new(width: usize, height: usize) -> (r: Self)
        requires
            width as int * height as int <= usize::MAX as int / 4,
        ensures
            r.wf(),
            r.spec_width() == width,
            r.spec_height() == height,
            r.spec_max_unit() == DEFAULT_MAX_UNIT,
            r.buffer().len() == width * height,
            forall|k: int| 0 <= k < r.buffer().len() ==> r.buffer()[k] == 0,
    {
        let n = width * height;
        let mut data: Vec<u32> = Vec::new();
        let mut i: usize = 0;
        while i < n
            invariant
                data@.len() == i,
                i <= n,
                forall|k: int| 0 <= k < i ==> data@[k] == 0,
            decreases n - i,
        {
            data.push(0);
            i = i + 1;
        }
        Scanner { width, height, data, max_unit: DEFAULT_MAX_UNIT }
    }

    pub fn image_width(&self) -> (r: usize)
        ensures
            r == self.spec_width(),
    {
        self.width
    }

    pub fn image_height(&self) -> (r: usize)
        ensures
            r == self.spec_height(),
    {
        self.height
    }

    /// Sets the maximum allowable diameter (in pixels) for a TopCode
    /// identified by the scanner; a non-positive diameter is rejected as a
    /// caller error. A marker spans eight ring widths, so the ring bound
    /// becomes the diameter divided by eight, rounded up. Lowering it
    /// reduces false positives and decode work; set too low it prevents
    /// valid codes from being recognized.
    pub fn set_max_code_diameter(&mut self, diameter: usize)
        requires
            old(self).wf(),
            diameter >= 1,
        ensures
            final(self).wf(),
            final(self).spec_max_unit() == ((diameter + 7) as int) / 8,
            final(self).spec_width() == old(self).spec_width(),
            final(self).spec_height() == old(self).spec_height(),
            final(self).buffer() == old(self).buffer(),
    {
        let q = diameter / 8;
        if diameter % 8 == 0 {
            self.max_unit = q;
        } else {
            self.max_unit = q + 1;
        }
    }

    /// Reads the stored binary value of one pixel.
    fn sample_bit(&self, x: usize, y: usize) -> (r: u32)
        requires
            self.wf(),
            x < self.spec_width(),
            y < self.spec_height(),
        ensures
            r == self.bit_val(x as int, y as int),
            r <= 1,
    {
        proof {
            lemma_row_col(self.width as int, self.height as int, x as int, y as int);
        }
        let p = self.data[y * self.width + x];
        proof {
            assert((p >> 24) & 1 <= 1) by (bit_vector);
        }
        (p >> 24) & 1
    }

    /// Average of thresholded pixels in a 3x3 region around (x, y).
    /// Returned value is between 0 (black) and 255 (white).
    pub(crate) fn get_sample_3x3(&self, x: usize, y: usize) -> (r: usize)
        requires
            self.wf(),
        ensures
            r == self.spec_sample_3x3(x as int, y as int),
            r <= 255,
    {
        if self.width < 2 || self.height < 2 || x < 1 || x >= self.width - 1 || y < 1 || y
            >= self.height - 1 {
            return 0;
        }
        let sum: u32 = 0xff * self.sample_bit(x - 1, y - 1) + 0xff * self.sample_bit(x, y - 1)
            + 0xff * self.sample_bit(x + 1, y - 1) + 0xff * self.sample_bit(x - 1, y) + 0xff
            * self.sample_bit(x, y) + 0xff * self.sample_bit(x + 1, y) + 0xff * self.sample_bit(
            x - 1,
            y + 1,
        ) + 0xff * self.sample_bit(x, y + 1) + 0xff * self.sample_bit(x + 1, y + 1);
        (sum / 9) as usize
    }

    /// Majority of thresholded pixels in a 3x3 region around (x, y).
    /// Returned value is either 0 (black) or 1 (white).
    pub(crate) fn get_bw_3x3(&self, x: usize, y: usize) -> (r: u32)
        requires
            self.wf(),
        ensures
            r == self.spec_bw_3x3(x as int, y as int),
            r <= 1,
    {
        if self.width < 2 || self.height < 2 || x < 1 || x >= self.width - 1 || y < 1 || y
            >= self.height - 1 {
            return 0;
        }
        let sum: u32 = self.sample_bit(x - 1, y - 1) + self.sample_bit(x, y - 1) + self.sample_bit(
            x + 1,
            y - 1,
        ) + self.sample_bit(x - 1, y) + self.sample_bit(x, y) + self.sample_bit(x + 1, y)
            + self.sample_bit(x - 1, y + 1) + self.sample_bit(x, y + 1) + self.sample_bit(
            x + 1,
            y + 1,
        );
        if sum >= 5 {
            1
        } else {
            0
        }
    }


    /// Which buffer cells the sweep has already rewritten: every cell of a
    /// finished row, and the swept prefix (even rows) or suffix (odd rows)
    /// of row `j`.
    pub open spec fn row_written(w: int, j: int, even: bool, ii: int, kk: int) -> bool {
        if even {
            kk < j * w + ii
        } else {
            kk < j * w || (j * w + w - ii <= kk && kk < j * w + w)
        }
    }


    /// One pixel of the threshold sweep, exactly the `sweep_step` of the
    /// model: updates the running sum, binarizes, stores the packed word at
    /// flat index k, and advances the ring state machine, recording a
    /// candidate when a section passes the ring-ratio constraints. Returns
    /// the new (sum, level, b1, w1, b2).
    #[verifier::rlimit(100)]
    #[allow(clippy::too_many_arguments)]
    fn sweep_pixel(
        data: &mut Vec<u32>,
        w: usize,
        h: usize,
        max_unit: usize,
        j: usize,
        ii: usize,
        k: usize,
        even: bool,
        sum: isize,
        level: UnitLevel,
        b1: isize,
        w1: isize,
        b2: isize,
        rgbv: (u32, u32, u32),
        candidates: &mut Vec<Candidate>,
    ) -> (r: (isize, UnitLevel, isize, isize, isize))
        requires
            old(data)@.len() == w * h,
            w as int * h as int <= usize::MAX as int / 4,
            max_unit as int <= usize::MAX as int / 8 + 1,
            j < h,
            ii < w,
            even == (j % 2 == 0),
            k == sweep_pos(w as int, j as int, ii as int),
            0 <= sum <= 8191,
            rgbv.0 <= 255 && rgbv.1 <= 255 && rgbv.2 <= 255,
            b1 >= 0 && w1 >= 0 && b2 >= 0,
            level is BlackRegion ==> b1 >= 1 && b1 <= ii,
            level is WhiteRegionSecond ==> b1 >= 1 && w1 >= 1 && b1 + w1 <= ii,
            level is BlackRegionSecond ==> b1 >= 1 && w1 >= 1 && b2 >= 1 && b1 + w1 + b2 <= ii,
            k >= w ==> word_ok(old(data)@[k as int - w as int]),
        ensures
            ({
                let st0 = SweepState {
                    sum: sum as int,
                    level: level,
                    b1: b1 as int,
                    w1: w1 as int,
                    b2: b2 as int,
                    data: old(data)@,
                    cands: old(candidates)@,
                };
                let m = sweep_step(st0, rgbv, w as int, max_unit as int, j as int, ii as int);
                &&& m.sum == r.0 as int
                &&& m.level == r.1
                &&& m.b1 == r.2 as int
                &&& m.w1 == r.3 as int
                &&& m.b2 == r.4 as int
                &&& m.data == final(data)@
                &&& m.cands == final(candidates)@
            }),
            0 <= r.0 <= 8191,
            r.2 >= 0 && r.3 >= 0 && r.4 >= 0,
            r.1 is BlackRegion ==> r.2 >= 1 && r.2 <= ii + 1,
            r.1 is WhiteRegionSecond ==> r.2 >= 1 && r.3 >= 1 && r.2 + r.3 <= ii + 1,
            r.1 is BlackRegionSecond ==> r.2 >= 1 && r.3 >= 1 && r.4 >= 1 && r.2 + r.3 + r.4 <= ii
                + 1,
            final(data)@.len() == old(data)@.len(),
            forall|idx: int|
                0 <= idx < old(data)@.len() && idx != k ==> final(data)@[idx] == old(data)@[idx],
            word_ok(final(data)@[k as int]),
            rgbv.0 + rgbv.1 + rgbv.2 >= 747 ==> final(data)@[k as int] >> 24 == 1,
            final(candidates)@ == old(candidates)@ || (max_unit >= 2 && final(candidates)@.len()
                == old(candidates)@.len() + 1 && (forall|ci: int|
                0 <= ci < old(candidates)@.len() ==> final(candidates)@[ci] == old(
                    candidates,
                )@[ci]) && final(candidates)@.last().x < w && final(candidates)@.last().y == j),
            (rgbv.0 + rgbv.1 + rgbv.2 >= 747 && level is WhiteRegion) ==> r.1 is WhiteRegion
                && final(candidates)@ == old(candidates)@,
    {
        let ghost st0 = SweepState {
            sum: sum as int,
            level: level,
            b1: b1 as int,
            w1: w1 as int,
            b2: b2 as int,
            data: data@,
            cands: candidates@,
        };
        proof {
            lemma_mul_inequality(j as int + 1, h as int, w as int);
            assert((j as int + 1) * (w as int) == j as int * w as int + w as int)
                by (nonlinear_arith);
            assert(h as int * (w as int) == (w as int) * (h as int)) by (nonlinear_arith);
            assert(k < data@.len());
        }
        let mut sum2 = sum;
        let mut level2 = level;
        let mut b1n = b1;
        let mut w1n = w1;
        let mut b2n = b2;

        // Pixel intensity, 0 (black) to 255 (white).
        let (rr, gg, bb) = (rgbv.0, rgbv.1, rgbv.2);
        let a0: isize = ((rr + gg + bb) / 3) as isize;
        proof {
            if rr + gg + bb >= 747 {
                vstd::arithmetic::div_mod::lemma_div_is_ordered(
                    747,
                    rr as int + gg as int + bb as int,
                    3,
                );
                assert(a0 >= 249);
            }
        }

        // Running sum, an exponential approximation of the last 32 pixels;
        // it stays within 0..=8191.
        proof {
            lemma_fundamental_div_mod(sum2 as int, 32);
        }
        sum2 = sum2 + a0 - sum2 / 32;

        // Factor in the stored sum from the row above, if any. The word
        // above was written this pass, so its low 24 bits are a running sum
        // below 8192, and the threshold never exceeds 255.
        let threshold: isize = if k >= w {
            let prev: u32 = data[k - w] % 0x1000000;
            proof {
                let wprev: u32 = data@[k as int - w as int];
                assert(wprev % 0x1000000 == wprev & 0xffffff) by (bit_vector);
                assert(prev < 8192);
                vstd::arithmetic::div_mod::lemma_div_is_ordered(
                    sum2 as int + prev as int,
                    16382,
                    64,
                );
            }
            (sum2 + prev as isize) / 64
        } else {
            proof {
                vstd::arithmetic::div_mod::lemma_div_is_ordered(sum2 as int, 8191, 32);
            }
            sum2 / 32
        };
        proof {
            assert(0 <= threshold <= 255);
        }

        // Binarize: black iff intensity < threshold * 39 / 40.
        let a: isize = if 40 * a0 < 39 * threshold {
            0
        } else {
            1
        };

        // Repack: binary bit in the high byte, running sum below.
        let au: u32 = a as u32;
        proof {
            assert(au << 24 == (if au == 1 {
                0x1000000u32
            } else {
                0u32
            })) by (bit_vector)
                requires
                    au <= 1,
            ;
        }
        let word: u32 = (au << 24) + (sum2 as u32);
        proof {
            lemma_pack(au, sum2 as u32, word);
        }
        data.set(k, word);

        match level2 {
            UnitLevel::WhiteRegion => {
                if a == 0 {
                    // First black pixel of a possible ring section.
                    level2 = UnitLevel::BlackRegion;
                    b1n = 1;
                    w1n = 0;
                    b2n = 0;
                }
            },
            UnitLevel::BlackRegion => {
                if a == 0 {
                    b1n = b1n + 1;
                } else {
                    level2 = UnitLevel::WhiteRegionSecond;
                    w1n = 1;
                }
            },
            UnitLevel::WhiteRegionSecond => {
                if a == 0 {
                    level2 = UnitLevel::BlackRegionSecond;
                    b2n = 1;
                } else {
                    w1n = w1n + 1;
                }
            },
            UnitLevel::BlackRegionSecond => {
                if a == 0 {
                    b2n = b2n + 1;
                } else {
                    let max_u = max_unit as isize;
                    let d1 = b1n + b2n - w1n;
                    let d1a = if d1 < 0 {
                        -d1
                    } else {
                        d1
                    };
                    let d2 = b1n - b2n;
                    let d2a = if d2 < 0 {
                        -d2
                    } else {
                        d2
                    };
                    if b1n >= 2 && b2n >= 2 && b1n <= max_u && b2n <= max_u && w1n <= max_u + max_u
                        && d1a <= b1n + b2n && d1a <= w1n && d2a <= b1n && d2a <= b2n {
                        // Step back to the middle of the enclosed white run:
                        // the candidate center.
                        let dk: usize = 1 + (b2n as usize) + (w1n as usize) / 2;
                        let ck: usize = if even {
                            k - dk
                        } else {
                            k + dk
                        };
                        candidates.push(Candidate::new(ck % w, j));
                    }
                    // Carry the trailing black run as the new leading one.
                    b1n = b2n;
                    w1n = 1;
                    b2n = 0;
                    level2 = UnitLevel::WhiteRegionSecond;
                }
            },
        }
        proof {
            reveal(sweep_step);
            let m = sweep_step(st0, rgbv, w as int, max_unit as int, j as int, ii as int);
            assert(sweep_intensity(rgbv) == a0 as int);
            assert(sum2 as int % 0x1000000 == sum2 as int);
            assert(sweep_pack(a as int, sum2 as int) == word);
            assert(m.data =~= data@);
            assert(m.cands =~= candidates@);
        }
        (sum2, level2, b1n, w1n, b2n)
    }

    /// Performs one-pass Wellner adaptive thresholding ("Adaptive
    /// Thresholding for the DigitalDesk", EuroPARC technical report
    /// EPC-93-110) to produce binary pixel data, and marks candidate marker
    /// centers along the way.
    ///
    /// Rows are swept boustrophedon, left to right on even rows and right to
    /// left on odd ones, so the running sum stays spatially coherent across
    /// row joins. A pixel is black when its intensity falls below 39/40 of
    /// the windowed mean: the exact integer form of the classic 0.975
    /// threshold factor.
    #[verifier::loop_isolation(false)]
    #[verifier::rlimit(100)]
    fn threshold<T, F: Fn(&T, usize) -> (u32, u32, u32)>(
        &mut self,
        image_buffer: &T,
        decode_rgb: F,
    ) -> (r: Vec<Candidate>)
        requires
            old(self).wf(),
            forall|k: usize|
                k < old(self).spec_width() * old(self).spec_height() ==> call_requires(
                    decode_rgb,
                    (image_buffer, k),
                ),
            forall|k: usize, v: (u32, u32, u32)|
                call_ensures(decode_rgb, (image_buffer, k), v) ==> v.0 <= 255 && v.1 <= 255 && v.2
                    <= 255,
        ensures
            final(self).wf(),
            final(self).spec_width() == old(self).spec_width(),
            final(self).spec_height() == old(self).spec_height(),
            final(self).spec_max_unit() == old(self).spec_max_unit(),
            final(self).buffer().len() == old(self).buffer().len(),
            forall|kk: int|
                0 <= kk < final(self).buffer().len() ==> word_ok(#[trigger] final(self).buffer()[kk]),
            forall|ci: int|
                0 <= ci < r@.len() ==> (#[trigger] r@[ci]).x < final(self).spec_width() && r@[ci].y
                    < final(self).spec_height(),
            forall|c1: int, c2: int|
                0 <= c1 <= c2 < r@.len() ==> (#[trigger] r@[c1]).y <= (#[trigger] r@[c2]).y,
            old(self).spec_max_unit() < 2 ==> r@.len() == 0,
            all_bright(
                decode_rgb,
                image_buffer,
                old(self).spec_width() * old(self).spec_height(),
            ) ==> r@.len() == 0 && (forall|kk: int|
                0 <= kk < final(self).buffer().len() ==> (#[trigger] final(self).buffer()[kk] >> 24)
                    == 1),
            exists|tr: Seq<(u32, u32, u32)>|
                {
                    &&& #[trigger] sweep_trace_ok(
                        decode_rgb,
                        image_buffer,
                        tr,
                        old(self).spec_width() as int,
                        old(self).spec_height() as int,
                    )
                    &&& final(self).buffer() == sweep_run(
                        tr,
                        old(self).buffer(),
                        old(self).spec_width() as int,
                        old(self).spec_max_unit() as int,
                    ).data
                    &&& r@ == sweep_run(
                        tr,
                        old(self).buffer(),
                        old(self).spec_width() as int,
                        old(self).spec_max_unit() as int,
                    ).cands
                },
    {
        let mut candidates: Vec<Candidate> = Vec::new();
        if self.width == 0 || self.height == 0 {
            proof {
                reveal(sweep_run);
                let tr = Seq::<(u32, u32, u32)>::empty();
                assert(sweep_trace_ok(
                    decode_rgb,
                    image_buffer,
                    tr,
                    self.spec_width() as int,
                    self.spec_height() as int,
                ));
                assert(candidates@ =~= sweep_run(
                    tr,
                    old(self).buffer(),
                    self.spec_width() as int,
                    self.spec_max_unit() as int,
                ).cands);
            }
            return candidates;
        }
        let ghost mut tr: Seq<(u32, u32, u32)> = Seq::empty();
        let mut sum: isize = 128;
        let mut j: usize = 0;
        proof {
            reveal(sweep_run);
            let m = sweep_run(
                tr,
                old(self).buffer(),
                self.spec_width() as int,
                self.spec_max_unit() as int,
            );
            assert(m.sum == 128 && m.data == old(self).buffer());
            assert(m.cands =~= candidates@);
        }
        while j < self.height
            invariant
                self.wf(),
                self.spec_width() == old(self).spec_width(),
                self.spec_height() == old(self).spec_height(),
                self.spec_max_unit() == old(self).spec_max_unit(),
                self.buffer().len() == old(self).buffer().len(),
                self.spec_width() >= 1,
                j <= self.spec_height(),
                0 <= sum <= 8191,
                forall|kk: int|
                    0 <= kk < j * self.spec_width() ==> word_ok(#[trigger] self.buffer()[kk]),
                forall|ci: int|
                    0 <= ci < candidates@.len() ==> (#[trigger] candidates@[ci]).x
                        < self.spec_width() && candidates@[ci].y < self.spec_height(),
                forall|ci: int| 0 <= ci < candidates@.len() ==> (#[trigger] candidates@[ci]).y < j,
                forall|c1: int, c2: int|
                    0 <= c1 <= c2 < candidates@.len() ==> (#[trigger] candidates@[c1]).y <= (
                    #[trigger] candidates@[c2]).y,
                self.spec_max_unit() < 2 ==> candidates@.len() == 0,
                all_bright(decode_rgb, image_buffer, self.spec_width() * self.spec_height())
                    ==> candidates@.len() == 0 && (forall|kk: int|
                    0 <= kk < j * self.spec_width() ==> (#[trigger] self.buffer()[kk] >> 24) == 1),
                tr.len() == j * self.spec_width(),
                forall|vv: int|
                    0 <= vv < tr.len() ==> call_ensures(
                        decode_rgb,
                        (
                            image_buffer,
                            sweep_pos(
                                self.spec_width() as int,
                                vv / self.spec_width() as int,
                                vv % self.spec_width() as int,
                            ) as usize,
                        ),
                        #[trigger] tr[vv],
                    ),
                ({
                    let m = sweep_run(
                        tr,
                        old(self).buffer(),
                        self.spec_width() as int,
                        self.spec_max_unit() as int,
                    );
                    m.sum == sum as int && m.data == self.buffer() && m.cands == candidates@
                }),
            decreases self.spec_height() - j,
        {
            let width = self.width;
            let even = j % 2 == 0;
            let mut level = UnitLevel::WhiteRegion;
            let mut b1: isize = 0;
            let mut b2: isize = 0;
            let mut w1: isize = 0;
            proof {
                assert(j as int + 1 <= self.spec_height() as int);
                lemma_mul_inequality(j as int + 1, self.spec_height() as int, width as int);
                assert((j as int + 1) * (width as int) <= self.spec_height() as int * (
                width as int));
                assert((j as int + 1) * (width as int) == j as int * width as int + width as int)
                    by (nonlinear_arith);
                assert(self.spec_height() as int * (width as int) == (width as int) * (
                self.spec_height() as int)) by (nonlinear_arith);
                assert((width as int) * (self.spec_height() as int) == self.buffer().len());
                assert(j as int * width as int + width as int <= self.buffer().len());
            }
            let mut k: usize = if even {
                j * width
            } else {
                j * width + width - 1
            };
            let mut ii: usize = 0;
            while ii < width
                invariant
                    self.wf(),
                    self.spec_width() == old(self).spec_width(),
                    self.spec_height() == old(self).spec_height(),
                    self.spec_max_unit() == old(self).spec_max_unit(),
                    self.buffer().len() == old(self).buffer().len(),
                    width == self.spec_width(),
                    width >= 1,
                    j < self.spec_height(),
                    even == (j % 2 == 0),
                    ii <= width,
                    (j + 1) * width <= self.buffer().len(),
                    even ==> k == j * width + ii,
                    !even ==> k as int == j * width + width - 1 - ii,
                    0 <= sum <= 8191,
                    b1 >= 0,
                    w1 >= 0,
                    b2 >= 0,
                    level is BlackRegion ==> b1 >= 1 && b1 <= ii,
                    level is WhiteRegionSecond ==> b1 >= 1 && w1 >= 1 && b1 + w1 <= ii,
                    level is BlackRegionSecond ==> b1 >= 1 && w1 >= 1 && b2 >= 1 && b1 + w1 + b2
                        <= ii,
                    forall|kk: int|
                        0 <= kk < self.buffer().len() && Self::row_written(
                            width as int,
                            j as int,
                            even,
                            ii as int,
                            kk,
                        ) ==> word_ok(#[trigger] self.buffer()[kk]),
                    forall|ci: int|
                        0 <= ci < candidates@.len() ==> (#[trigger] candidates@[ci]).x
                            < self.spec_width() && candidates@[ci].y < self.spec_height(),
                    forall|ci: int|
                        0 <= ci < candidates@.len() ==> (#[trigger] candidates@[ci]).y <= j,
                    forall|c1: int, c2: int|
                        0 <= c1 <= c2 < candidates@.len() ==> (#[trigger] candidates@[c1]).y <= (
                        #[trigger] candidates@[c2]).y,
                    self.spec_max_unit() < 2 ==> candidates@.len() == 0,
                    all_bright(decode_rgb, image_buffer, self.spec_width() * self.spec_height())
                        ==> candidates@.len() == 0 && level is WhiteRegion && (forall|kk: int|
                        0 <= kk < self.buffer().len() && Self::row_written(
                            width as int,
                            j as int,
                            even,
                            ii as int,
                            kk,
                        ) ==> (#[trigger] self.buffer()[kk] >> 24) == 1),
                    tr.len() == j * width + ii,
                    forall|vv: int|
                        0 <= vv < tr.len() ==> call_ensures(
                            decode_rgb,
                            (
                                image_buffer,
                                sweep_pos(width as int, vv / width as int, vv % width as int) as usize,
                            ),
                            #[trigger] tr[vv],
                        ),
                    ii == 0 ==> level is WhiteRegion && b1 == 0 && w1 == 0 && b2 == 0,
                    ({
                        let m = sweep_run(
                            tr,
                            old(self).buffer(),
                            width as int,
                            self.spec_max_unit() as int,
                        );
                        &&& m.sum == sum as int
                        &&& m.data == self.buffer()
                        &&& m.cands == candidates@
                        &&& ii > 0 ==> m.level == level && m.b1 == b1 as int && m.w1 == w1 as int
                            && m.b2 == b2 as int
                    }),
                    forall|kq: usize|
                        kq < self.spec_width() * self.spec_height() ==> call_requires(
                            decode_rgb,
                            (image_buffer, kq),
                        ),
                    forall|kq: usize, v: (u32, u32, u32)|
                        call_ensures(decode_rgb, (image_buffer, kq), v) ==> v.0 <= 255 && v.1
                            <= 255 && v.2 <= 255,
                decreases width - ii,
            {
                proof {
                    lemma_mul_inequality(j as int + 1, self.spec_height() as int, width as int);
                    assert((j as int + 1) * (width as int) == j as int * width as int
                        + width as int) by (nonlinear_arith);
                    assert(self.spec_width() * self.spec_height() == width as int
                        * self.spec_height() as int) by (nonlinear_arith)
                        requires
                            width == self.spec_width(),
                    ;
                    assert(k < self.spec_width() * self.spec_height());
                }
                let ghost st0 = SweepState {
                    sum: sum as int,
                    level: level,
                    b1: b1 as int,
                    w1: w1 as int,
                    b2: b2 as int,
                    data: self.buffer(),
                    cands: candidates@,
                };
                let ghost tr0 = tr;

                // Pixel intensity, 0 (black) to 255 (white).
                let (rr, gg, bb) = decode_rgb(image_buffer, k);
                proof {
                    tr = tr.push((rr, gg, bb));
                    if all_bright(decode_rgb, image_buffer, self.spec_width()
                        * self.spec_height()) {
                        assert(rr + gg + bb >= 747);
                    }
                    if k >= width {
                        assert(Self::row_written(
                            width as int,
                            j as int,
                            even,
                            ii as int,
                            k - width,
                        ));
                        assert(word_ok(self.buffer()[k as int - width as int]));
                    }
                }
                let height = self.height;
                let mu = self.max_unit;
                let res = Self::sweep_pixel(
                    &mut self.data,
                    width,
                    height,
                    mu,
                    j,
                    ii,
                    k,
                    even,
                    sum,
                    level,
                    b1,
                    w1,
                    b2,
                    (rr, gg, bb),
                    &mut candidates,
                );
                sum = res.0;
                level = res.1;
                b1 = res.2;
                w1 = res.3;
                b2 = res.4;
                proof {
                    reveal(sweep_run);
                    let w_ = width as int;
                    let mu_ = self.spec_max_unit() as int;
                    let d0 = old(self).buffer();
                    assert(tr.len() == j * w_ + ii + 1);
                    assert(tr.drop_last() =~= tr0);
                    assert(tr.last() == (rr, gg, bb));
                    lemma_fundamental_div_mod_converse(j * w_ + ii, w_, j as int, ii as int);
                    let m_prev = sweep_run(tr0, d0, w_, mu_);
                    let prev2 = if ii == 0 {
                        SweepState {
                            level: UnitLevel::WhiteRegion,
                            b1: 0,
                            w1: 0,
                            b2: 0,
                            ..m_prev
                        }
                    } else {
                        m_prev
                    };
                    assert(prev2 =~= st0);
                    let m_new = sweep_run(tr, d0, w_, mu_);
                    assert(m_new == sweep_step(st0, (rr, gg, bb), w_, mu_, j as int, ii as int));
                    assert(m_new.data == self.buffer());
                    assert(m_new.cands == candidates@);
                    assert(m_new.sum == sum as int);
                    assert(m_new.level == level && m_new.b1 == b1 as int && m_new.w1 == w1 as int
                        && m_new.b2 == b2 as int);
                }
                if even {
                    k = k + 1;
                } else {
                    proof {
                        lemma_mul_inequality(1, j as int, width as int);
                    }
                    k = k - 1;
                }
                ii = ii + 1;
            }
            j = j + 1;
            proof {
                assert((j as int) * (width as int) == (j as int - 1) * width as int
                    + width as int) by (nonlinear_arith);
                assert forall|kk: int| 0 <= kk < j * self.spec_width() implies word_ok(
                    #[trigger] self.buffer()[kk],
                ) by {
                    assert(Self::row_written(
                        width as int,
                        j as int - 1,
                        even,
                        width as int,
                        kk,
                    ));
                }
            }
        }
        proof {
            assert(j == self.spec_height());
            assert(self.spec_height() as int * self.spec_width() as int == self.spec_width() as int
                * self.spec_height() as int) by (nonlinear_arith);
            assert forall|kk: int| 0 <= kk < self.buffer().len() implies word_ok(
                #[trigger] self.buffer()[kk],
            ) by {
                assert(kk < j * self.spec_width());
            }
            assert(sweep_trace_ok(
                decode_rgb,
                image_buffer,
                tr,
                self.spec_width() as int,
                self.spec_height() as int,
            ));
        }
        candidates
    }


    /// True iff (x, y) lies inside the bullseye of a marker already found.
    fn overlaps(&self, spots: &Vec<TopCode>, x: usize, y: usize) -> (r: bool)
        requires
            self.wf(),
            forall|i: int|
                0 <= i < spots@.len() ==> (#[trigger] spots@[i]).valid_marker(
                    self.spec_width() as int,
                    self.spec_height() as int,
                ),
        ensures
            r == exists|i: int|
                0 <= i < spots@.len() && (#[trigger] spots@[i]).spec_in_bullseye(
                    x as int,
                    y as int,
                ),
    {
        let mut idx: usize = 0;
        while idx < spots.len()
            invariant
                idx <= spots@.len(),
                self.wf(),
                forall|i: int|
                    0 <= i < spots@.len() ==> (#[trigger] spots@[i]).valid_marker(
                        self.spec_width() as int,
                        self.spec_height() as int,
                    ),
                forall|i: int|
                    0 <= i < idx ==> !(#[trigger] spots@[i]).spec_in_bullseye(x as int, y as int),
            decreases spots@.len() - idx,
        {
            if spots[idx].in_bullseye(x, y) {
                return true;
            }
            idx = idx + 1;
        }
        false
    }

    /// Tests the candidate centers in discovery order and keeps every
    /// marker that decodes, skipping candidates that fall inside the
    /// bullseye of a marker already accepted. Everything returned is a
    /// valid marker of this image, each candidate yields at most one
    /// marker, and every accepted marker's originating candidate lies
    /// outside the bullseyes of all markers accepted before it.
    fn find_codes(&self, candidates: &Vec<Candidate>) -> (r: Vec<TopCode>)
        requires
            self.wf(),
            forall|ci: int|
                0 <= ci < candidates@.len() ==> (#[trigger] candidates@[ci]).x < self.spec_width()
                    && candidates@[ci].y < self.spec_height(),
        ensures
            forall|i: int|
                0 <= i < r@.len() ==> (#[trigger] r@[i]).valid_marker(
                    self.spec_width() as int,
                    self.spec_height() as int,
                ),
            forall|i: int, j: int|
                0 <= i < j < r@.len() ==> !(#[trigger] r@[i]).spec_in_bullseye(
                    (#[trigger] r@[j]).origin@.0,
                    r@[j].origin@.1,
                ),
            r@.len() <= candidates@.len(),
    {
        let mut spots: Vec<TopCode> = Vec::new();
        let mut ci: usize = 0;
        while ci < candidates.len()
            invariant
                self.wf(),
                ci <= candidates@.len(),
                forall|cj: int|
                    0 <= cj < candidates@.len() ==> (#[trigger] candidates@[cj]).x
                        < self.spec_width() && candidates@[cj].y < self.spec_height(),
                forall|i: int|
                    0 <= i < spots@.len() ==> (#[trigger] spots@[i]).valid_marker(
                        self.spec_width() as int,
                        self.spec_height() as int,
                    ),
                forall|i: int, j: int|
                    0 <= i < j < spots@.len() ==> !(#[trigger] spots@[i]).spec_in_bullseye(
                        (#[trigger] spots@[j]).origin@.0,
                        spots@[j].origin@.1,
                    ),
                spots@.len() <= ci,
            decreases candidates@.len() - ci,
        {
            let c = candidates[ci];
            if !self.overlaps(&spots, c.x, c.y) {
                let mut spot = TopCode::new();
                spot.decode(self, c.x, c.y);
                if spot.is_valid() {
                    spots.push(spot);
                }
            }
            ci = ci + 1;
        }
        spots
    }

    /// Scans the image and returns every TopCode found in it, in discovery
    /// order. The pixel source is read through `decode_rgb`, which maps a
    /// flat row-major index to the pixel's (R, G, B) channels, each within
    /// 0..=255. Afterwards the internal buffer holds the binarized image
    /// (every word carries a 0-or-1 high byte), and every returned marker
    /// is valid: decoded code, positive unit, orientation within range, and
    /// center strictly inside the image. A uniformly bright image yields an
    /// all-white buffer and no markers, and with the ring bound below two
    /// pixels no candidate ever forms, so nothing is returned.
    pub fn scan<T, F: Fn(&T, usize) -> (u32, u32, u32)>(
        &mut self,
        image_buffer: &T,
        decode_rgb: F,
    ) -> (r: Vec<TopCode>)
        requires
            old(self).wf(),
            forall|k: usize|
                k < old(self).spec_width() * old(self).spec_height() ==> call_requires(
                    decode_rgb,
                    (image_buffer, k),
                ),
            forall|k: usize, v: (u32, u32, u32)|
                call_ensures(decode_rgb, (image_buffer, k), v) ==> v.0 <= 255 && v.1 <= 255 && v.2
                    <= 255,
        ensures
            final(self).wf(),
            final(self).spec_width() == old(self).spec_width(),
            final(self).spec_height() == old(self).spec_height(),
            final(self).spec_max_unit() == old(self).spec_max_unit(),
            forall|kk: int|
                0 <= kk < final(self).buffer().len() ==> word_ok(
                    #[trigger] final(self).buffer()[kk],
                ),
            forall|i: int|
                0 <= i < r@.len() ==> (#[trigger] r@[i]).valid_marker(
                    final(self).spec_width() as int,
                    final(self).spec_height() as int,
                ),
            forall|i: int, j: int|
                0 <= i < j < r@.len() ==> !(#[trigger] r@[i]).spec_in_bullseye(
                    (#[trigger] r@[j]).origin@.0,
                    r@[j].origin@.1,
                ),
            old(self).spec_max_unit() < 2 ==> r@.len() == 0,
            all_bright(
                decode_rgb,
                image_buffer,
                old(self).spec_width() * old(self).spec_height(),
            ) ==> r@.len() == 0 && (forall|kk: int|
                0 <= kk < final(self).buffer().len() ==> (#[trigger] final(self).buffer()[kk] >> 24)
                    == 1),
            exists|tr: Seq<(u32, u32, u32)>|
                #[trigger] sweep_trace_ok(
                    decode_rgb,
                    image_buffer,
                    tr,
                    old(self).spec_width() as int,
                    old(self).spec_height() as int,
                ) && final(self).buffer() == sweep_run(
                    tr,
                    old(self).buffer(),
                    old(self).spec_width() as int,
                    old(self).spec_max_unit() as int,
                ).data,
    {
        let candidates = self.threshold(image_buffer, decode_rgb);
        self.find_codes(&candidates)
    }


    /// Scans a tightly packed 8-bit RGBA buffer (four bytes per pixel, in
    /// row-major order; the alpha byte is ignored). The guarantees of
    /// `scan` carry over, including the pairwise candidate separation and
    /// the all-white and narrow-ring cases.
    pub fn scan_rgba_u8(&mut self, buffer: &Vec<u8>) -> (r: Vec<TopCode>)
        requires
            old(self).wf(),
            buffer@.len() == 4 * old(self).spec_width() * old(self).spec_height(),
        ensures
            final(self).wf(),
            final(self).spec_width() == old(self).spec_width(),
            final(self).spec_height() == old(self).spec_height(),
            final(self).spec_max_unit() == old(self).spec_max_unit(),
            forall|kk: int|
                0 <= kk < final(self).buffer().len() ==> word_ok(
                    #[trigger] final(self).buffer()[kk],
                ),
            forall|i: int|
                0 <= i < r@.len() ==> (#[trigger] r@[i]).valid_marker(
                    final(self).spec_width() as int,
                    final(self).spec_height() as int,
                ),
            forall|i: int, j: int|
                0 <= i < j < r@.len() ==> !(#[trigger] r@[i]).spec_in_bullseye(
                    (#[trigger] r@[j]).origin@.0,
                    r@[j].origin@.1,
                ),
            old(self).spec_max_unit() < 2 ==> r@.len() == 0,
            (forall|i: int| 0 <= i < buffer@.len() ==> buffer@[i] >= 249) ==> r@.len() == 0 && (
            forall|kk: int|
                0 <= kk < final(self).buffer().len() ==> (#[trigger] final(self).buffer()[kk] >> 24)
                    == 1),
    {
        proof {
            assert(4 * self.spec_width() as int * self.spec_height() as int == 4 * (
            self.spec_width() as int * self.spec_height() as int)) by (nonlinear_arith);
            assert forall|k: usize|
                k < self.spec_width() * self.spec_height() implies call_requires(
                rgba_decoder,
                (buffer, k),
            ) by {
                assert(4 * k + 3 < buffer@.len());
            }
            if forall|i: int| 0 <= i < buffer@.len() ==> buffer@[i] >= 249 {
                let n = self.spec_width() * self.spec_height();
                assert forall|k: usize, v: (u32, u32, u32)|
                    k < n && call_ensures(rgba_decoder, (buffer, k), v) implies v.0 + v.1 + v.2
                    >= 747 by {
                    assert(4 * k + 3 < buffer@.len());
                    assert(buffer@[4 * k as int] >= 249);
                    assert(buffer@[4 * k as int + 1] >= 249);
                    assert(buffer@[4 * k as int + 2] >= 249);
                }
                assert(all_bright(rgba_decoder, buffer, n));
            }
        }
        self.scan(buffer, rgba_decoder)
    }

    /// The binarized buffer as one grayscale byte per pixel, 0 for black
    /// and 255 for white, in row-major order: the image that a threshold
    /// visualization writes out.
    pub fn thresholding_image_bytes(&self) -> (r: Vec<u8>)
        requires
            self.wf(),
            forall|kk: int| 0 <= kk < self.buffer().len() ==> word_ok(#[trigger] self.buffer()[kk]),
        ensures
            r@.len() == self.buffer().len(),
            forall|kk: int|
                0 <= kk < r@.len() ==> (#[trigger] r@[kk]) as int == 0xff * ((self.buffer()[kk]
                    >> 24) as int),
    {
        let mut out: Vec<u8> = Vec::new();
        let n = self.data.len();
        let mut k: usize = 0;
        while k < n
            invariant
                self.wf(),
                forall|kk: int|
                    0 <= kk < self.buffer().len() ==> word_ok(#[trigger] self.buffer()[kk]),
                n == self.buffer().len(),
                k <= n,
                out@.len() == k,
                forall|kk: int|
                    0 <= kk < k ==> (#[trigger] out@[kk]) as int == 0xff * ((self.buffer()[kk]
                        >> 24) as int),
            decreases n - k,
        {
            let p = self.data[k];
            let bit: u32 = p >> 24;
            out.push((bit * 0xff) as u8);
            k = k + 1;
        }
        out
    }

    /// Counts the steps from (x, y) along direction (dx, dy) until the
    /// perceived color changes, and returns the Manhattan distance covered;
    /// returns -1 if the ray leaves the walkable region first.
    pub(crate) fn dist(&self, x: usize, y: usize, dx: isize, dy: isize) -> (r: isize)
        requires
            self.wf(),
            x < self.spec_width(),
            y < self.spec_height(),
            dx != 0 || dy != 0,
        ensures
            ({
                let sx = x as int;
                let sy = y as int;
                let start = self.spec_bw_3x3(sx, sy);
                &&& (r >= 0 ==> exists|n: int|
                    {
                        &&& 1 <= n
                        &&& #[trigger] self.ray_hits(sx, sy, dx as int, dy as int, start, n)
                        &&& (forall|m: int| 1 <= m < n ==> self.walk_ok(sx, sy, dx as int, dy as int, start, m))
                        &&& r == n * (if dx >= 0 {
                            dx as int
                        } else {
                            -(dx as int)
                        } + if dy >= 0 {
                            dy as int
                        } else {
                            -(dy as int)
                        })
                        &&& r >= 1
                    })
                &&& (r < 0 ==> r == -1 && exists|n: int|
                    {
                        &&& 1 <= n
                        &&& #[trigger] self.ray_exits(sx, sy, dx as int, dy as int, n)
                        &&& (forall|m: int| 1 <= m < n ==> self.walk_ok(sx, sy, dx as int, dy as int, start, m))
                    })
            }),
    {
        proof {
            assert(self.spec_width() as int <= usize::MAX as int / 4 && self.spec_height() as int
                <= usize::MAX as int / 4) by (nonlinear_arith)
                requires
                    self.spec_width() as int * self.spec_height() as int <= usize::MAX as int / 4,
                    x < self.spec_width(),
                    y < self.spec_height(),
            ;
        }
        let start = self.get_bw_3x3(x, y);
        let mut i: i128 = x as i128 + dx as i128;
        let mut j: i128 = y as i128 + dy as i128;
        let ghost mut n: int = 1;
        loop
            invariant
                self.wf(),
                x < self.spec_width(),
                y < self.spec_height(),
                self.spec_width() as int <= usize::MAX as int / 4,
                self.spec_height() as int <= usize::MAX as int / 4,
                dx != 0 || dy != 0,
                n >= 1,
                i == x + n * dx,
                j == y + n * dy,
                -0x1_0000_0000_0000_0000 < i < 0x1_0000_0000_0000_0000,
                -0x1_0000_0000_0000_0000 < j < 0x1_0000_0000_0000_0000,
                start == self.spec_bw_3x3(x as int, y as int),
                start <= 1,
                forall|m: int| 1 <= m < n ==> self.walk_ok(x as int, y as int, dx as int, dy as int, start, m),
            decreases clamp0(
                if dx > 0 {
                    self.spec_width() as int - i as int
                } else if dx < 0 {
                    i as int
                } else if dy > 0 {
                    self.spec_height() as int - j as int
                } else {
                    j as int
                },
            ),
        {
            if i <= 1 || i >= self.width as i128 - 1 || j <= 1 || j >= self.height as i128 {
                proof {
                    assert(self.ray_exits(x as int, y as int, dx as int, dy as int, n));
                }
                return -1;
            }
            let sample = self.get_bw_3x3(i as usize, j as usize);
            if start + sample == 1 {
                let xd: i128 = if i >= x as i128 {
                    i - x as i128
                } else {
                    x as i128 - i
                };
                let yd: i128 = if j >= y as i128 {
                    j - y as i128
                } else {
                    y as i128 - j
                };
                proof {
                    let adx: int = if dx >= 0 { dx as int } else { -(dx as int) };
                    let ady: int = if dy >= 0 { dy as int } else { -(dy as int) };
                    assert(xd == n * adx && yd == n * ady) by (nonlinear_arith)
                        requires
                            n >= 1,
                            i == x + n * dx,
                            j == y + n * dy,
                            adx == (if dx >= 0 { dx as int } else { -(dx as int) }),
                            ady == (if dy >= 0 { dy as int } else { -(dy as int) }),
                            xd == (if i >= x as i128 { i - x } else { x - i }),
                            yd == (if j >= y as i128 { j - y } else { y - j }),
                    ;
                    assert(xd + yd == n * (adx + ady)) by (nonlinear_arith)
                        requires
                            xd == n * adx,
                            yd == n * ady,
                    ;
                    assert(xd + yd >= 1) by (nonlinear_arith)
                        requires
                            n >= 1,
                            adx + ady >= 1,
                            xd + yd == n * (adx + ady),
                    ;
                    assert(self.ray_hits(x as int, y as int, dx as int, dy as int, start, n));
                    assert(xd < self.spec_width() && yd < self.spec_height());
                    assert(xd + yd < 0x8000_0000_0000_0000);
                }
                return (xd + yd) as isize;
            }
            i = i + dx as i128;
            j = j + dy as i128;
            proof {
                assert((n + 1) * dx == n * dx + dx && (n + 1) * dy == n * dy + dy)
                    by (nonlinear_arith);
                n = n + 1;
            }
        }
    }
}

} // verus!
