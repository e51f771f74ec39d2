//! A decoded TopCode marker and the candidate decoder.
//!
//! Geometry is carried in exact fixed-point form so that every step of the
//! decoder is plain integer arithmetic:
//! - `x_q`, `y_q`: the refined center, in sixths of a pixel;
//! - `unit_q`: the ring width, in 160ths of a pixel;
//! - `orientation_q`: the orientation, in steps of 2*pi/260 radians,
//!   normalized into (-130, 130] (so the value in radians lies in
//!   (-pi, pi]).
//!
//! A marker spans eight units across: a white center disk (one unit of
//! radius), a black ring to two units, a white ring to three units, and the
//! sectored data ring to four units. Sector samples are taken along a
//! diameter at distances (i - 3.5) units, i = 0..8, from the center; sector
//! directions come from a fixed-point table of the 130 angles used by the
//! orientation search (13 sectors times 10 sub-steps).

use crate::code::{checksum, is_valid_code, lemma_rotn_popcount, popcount, rotate_lowest};
use crate::scanner::Scanner;
use vstd::arithmetic::div_mod::{lemma_fundamental_div_mod, lemma_fundamental_div_mod_converse};
use vstd::arithmetic::power2::{lemma2_to64, lemma_pow2_unfold, pow2};
use vstd::prelude::*;

verus! {

/// Largest ring width, in eighths of a pixel, that the decoder accepts.
/// Wider rings would come from images beyond any practical size and are
/// rejected so that all fixed-point products stay in range.
pub const MAX_UNIT8: i128 = 0x4000_0000;

/// Floor division for a positive divisor: rounds toward negative infinity,
/// as spec-level integer division does.
fn floor_div(n: i128, d: i128) -> (r: i128)
    requires
        0 < d < 0x1000_0000_0000_0000_0000_0000_0000i128,
        -0x1000_0000_0000_0000_0000_0000_0000i128 < n
            < 0x1000_0000_0000_0000_0000_0000_0000i128,
    ensures
        r == n as int / d as int,
        d * r <= n,
{
    let r = if n >= 0 {
        n / d
    } else {
        let m = -n;
        let q = m / d;
        let rm = m % d;
        proof {
            lemma_fundamental_div_mod(m as int, d as int);
            if rm == 0 {
                assert(n as int == (-(q as int)) * (d as int) + 0) by (nonlinear_arith)
                    requires
                        m as int == d as int * q as int + rm as int,
                        rm == 0,
                        n == -m,
                ;
                lemma_fundamental_div_mod_converse(n as int, d as int, -(q as int), 0);
            } else {
                assert(n as int == (-(q as int) - 1) * d + (d - rm)) by (nonlinear_arith)
                    requires
                        m as int == d as int * q as int + rm as int,
                        n == -m,
                ;
                lemma_fundamental_div_mod_converse(
                    n as int,
                    d as int,
                    -(q as int) - 1,
                    d as int - rm as int,
                );
            }
        }
        if rm == 0 {
            -q
        } else {
            -q - 1
        }
    };
    proof {
        lemma_fundamental_div_mod(n as int, d as int);
        assert(d as int * (n as int / d as int) <= n as int);
    }
    r
}

/// Rounds the rational n / d to the nearest integer, halves away from the
/// floor, for a positive divisor.
fn round_div(n: i128, d: i128) -> (r: i128)
    requires
        0 < d < 0x1000_0000_0000_0000_0000i128,
        -0x1000_0000_0000_0000_0000i128 < n < 0x1000_0000_0000_0000_0000i128,
    ensures
        r == (2 * n + d) as int / (2 * d) as int,
{
    floor_div(2 * n + d, 2 * d)
}

/// Fixed-point cosine table: cos of 2*pi*k/130, scaled by 2^20, for the
/// 130 sampling directions of the orientation search.
fn arc_cos_q20() -> (t: [i32; 130]) {
    [
        1048576, 1047352, 1043681, 1037573, 1029041, 1018106, 1004794, 989134,
        971165, 950927, 928468, 903841, 877103, 848316, 817548, 784870,
        750360, 714097, 676166, 636656, 595659, 553271, 509591, 464720,
        418764, 371830, 324028, 275469, 226266, 176535, 126392, 75953,
        25338, -25338, -75953, -126392, -176535, -226266, -275469, -324028,
        -371830, -418764, -464720, -509591, -553271, -595659, -636656, -676166,
        -714097, -750360, -784870, -817548, -848316, -877103, -903841, -928468,
        -950927, -971165, -989134, -1004794, -1018106, -1029041, -1037573, -1043681,
        -1047352, -1048576, -1047352, -1043681, -1037573, -1029041, -1018106, -1004794,
        -989134, -971165, -950927, -928468, -903841, -877103, -848316, -817548,
        -784870, -750360, -714097, -676166, -636656, -595659, -553271, -509591,
        -464720, -418764, -371830, -324028, -275469, -226266, -176535, -126392,
        -75953, -25338, 25338, 75953, 126392, 176535, 226266, 275469,
        324028, 371830, 418764, 464720, 509591, 553271, 595659, 636656,
        676166, 714097, 750360, 784870, 817548, 848316, 877103, 903841,
        928468, 950927, 971165, 989134, 1004794, 1018106, 1029041, 1037573,
        1043681, 1047352,
    ]
}

/// Fixed-point sine table: sin of 2*pi*k/130, scaled by 2^20.
fn arc_sin_q20() -> (t: [i32; 130]) {
    [
        0, 50660, 101202, 151508, 201459, 250941, 299836, 348031,
        395413, 441871, 487298, 531586, 574633, 616338, 656603, 695335,
        732442, 767839, 801443, 833175, 862961, 890732, 916422, 939972,
        961326, 980436, 997255, 1011745, 1023873, 1033609, 1040931, 1045822,
        1048270, 1048270, 1045822, 1040931, 1033609, 1023873, 1011745, 997255,
        980436, 961326, 939972, 916422, 890732, 862961, 833175, 801443,
        767839, 732442, 695335, 656603, 616338, 574633, 531586, 487298,
        441871, 395413, 348031, 299836, 250941, 201459, 151508, 101202,
        50660, 0, -50660, -101202, -151508, -201459, -250941, -299836,
        -348031, -395413, -441871, -487298, -531586, -574633, -616338, -656603,
        -695335, -732442, -767839, -801443, -833175, -862961, -890732, -916422,
        -939972, -961326, -980436, -997255, -1011745, -1023873, -1033609, -1040931,
        -1045822, -1048270, -1048270, -1045822, -1040931, -1033609, -1023873, -1011745,
        -997255, -980436, -961326, -939972, -916422, -890732, -862961, -833175,
        -801443, -767839, -732442, -695335, -656603, -616338, -574633, -531586,
        -487298, -441871, -395413, -348031, -299836, -250941, -201459, -151508,
        -101202, -50660,
    ]
}


/// Estimates the ring width around (sx, sy). Walks outward along the four
/// cardinal directions; in each direction the first white sample after a
/// black run marks the outer edge of the black ring, two ring widths from
/// the center, so the four distances together measure eight ring widths.
/// Returns the summed distance (the unit in eighths of a pixel), or -1 when
/// a ray leaves the image, the horizontal and vertical spans disagree by
/// more than one unit, or the unit is out of range.
///
/// Relies on the scanner's 3x3 majority reads. A non-negative result also
/// certifies that (sx, sy) sits at least two pixels inside the image.
#[verifier::loop_isolation(false)]
fn read_unit(scanner: &Scanner, sx: i128, sy: i128) -> (r: i128)
    requires
        scanner.wf(),
        0 <= sx < scanner.spec_width(),
        0 <= sy < scanner.spec_height(),
    ensures
        r == -1 || (4 <= r <= MAX_UNIT8 && 2 <= sx <= scanner.spec_width() - 2 && 2 <= sy
            <= scanner.spec_height() - 2),
{
    let width = scanner.image_width();
    let height = scanner.image_height();
    let mut white_l = true;
    let mut white_r = true;
    let mut white_u = true;
    let mut white_d = true;
    let mut dist_l: i128 = 0;
    let mut dist_r: i128 = 0;
    let mut dist_u: i128 = 0;
    let mut dist_d: i128 = 0;
    let mut i: i128 = 1;
    loop
        invariant
            1 <= i <= width as i128 + height as i128,
            0 <= dist_l <= i,
            0 <= dist_r <= i,
            0 <= dist_u <= i,
            0 <= dist_d <= i,
        decreases crate::scanner::clamp0(width as int + height as int - i as int),
    {
        if sx - i < 1 || sx + i > width as i128 - 1 || sy - i < 1 || sy + i > height as i128 - 1 {
            return -1;
        }
        if dist_l == 0 {
            let s = scanner.get_bw_3x3((sx - i) as usize, sy as usize);
            if white_l {
                if s == 0 {
                    white_l = false;
                }
            } else {
                if s == 1 {
                    dist_l = i;
                }
            }
        }
        if dist_r == 0 {
            let s = scanner.get_bw_3x3((sx + i) as usize, sy as usize);
            if white_r {
                if s == 0 {
                    white_r = false;
                }
            } else {
                if s == 1 {
                    dist_r = i;
                }
            }
        }
        if dist_u == 0 {
            let s = scanner.get_bw_3x3(sx as usize, (sy - i) as usize);
            if white_u {
                if s == 0 {
                    white_u = false;
                }
            } else {
                if s == 1 {
                    dist_u = i;
                }
            }
        }
        if dist_d == 0 {
            let s = scanner.get_bw_3x3(sx as usize, (sy + i) as usize);
            if white_d {
                if s == 0 {
                    white_d = false;
                }
            } else {
                if s == 1 {
                    dist_d = i;
                }
            }
        }
        if dist_l > 0 && dist_r > 0 && dist_u > 0 && dist_d > 0 {
            let sum = dist_r + dist_l + dist_u + dist_d;
            let dh = dist_r + dist_l;
            let dv = dist_u + dist_d;
            let diff = if dh >= dv {
                dh - dv
            } else {
                dv - dh
            };
            // The horizontal and vertical diameters of the black ring must
            // agree to within one unit (one eighth of the summed radius).
            if 8 * diff > sum || sum > MAX_UNIT8 {
                return -1;
            }
            return sum;
        }
        i = i + 1;
    }
}

/// Reads one 3x3-averaged sample at signed distance m/2 ring widths from
/// the marker center along the direction (cosv, sinv) / 2^20. Points
/// outside the image read as 0, as border samples do.
fn sample_at(
    scanner: &Scanner,
    cosv: i32,
    sinv: i32,
    x_q: i128,
    y_q: i128,
    unit_q: i128,
    m: i128,
) -> (s: usize)
    requires
        scanner.wf(),
        -0x200_0000_0000i128 <= x_q <= 0x200_0000_0000i128,
        -0x200_0000_0000i128 <= y_q <= 0x200_0000_0000i128,
        1 <= unit_q <= 0x10_0000_0000i128,
        -7 <= m <= 7,
    ensures
        s <= 255,
{
    // Center plus direction times m/2 units; one unit is unit_q/160 pixels,
    // so the common denominator is 6 * 320 * 2^20 = 2013265920.
    let cx6: i128 = 6 * (cosv as i128);
    let cy6: i128 = 6 * (sinv as i128);
    proof {
        assert(-0x15_0000_0000i128 <= (cx6 as int) * (m as int) <= 0x15_0000_0000i128)
            by (nonlinear_arith)
            requires
                -0x3_0000_0000i128 <= cx6 <= 0x3_0000_0000i128,
                -7 <= m <= 7,
        ;
        assert(-0x15_0000_0000i128 <= (cy6 as int) * (m as int) <= 0x15_0000_0000i128)
            by (nonlinear_arith)
            requires
                -0x3_0000_0000i128 <= cy6 <= 0x3_0000_0000i128,
                -7 <= m <= 7,
        ;
    }
    let cxm: i128 = cx6 * m;
    let cym: i128 = cy6 * m;
    proof {
        assert(-0x15_0000_0000i128 * 0x10_0000_0000i128 <= (cxm as int) * (unit_q as int)
            <= 0x15_0000_0000i128 * 0x10_0000_0000i128) by (nonlinear_arith)
            requires
                -0x15_0000_0000i128 <= cxm <= 0x15_0000_0000i128,
                1 <= unit_q <= 0x10_0000_0000i128,
        ;
        assert(-0x15_0000_0000i128 * 0x10_0000_0000i128 <= (cym as int) * (unit_q as int)
            <= 0x15_0000_0000i128 * 0x10_0000_0000i128) by (nonlinear_arith)
            requires
                -0x15_0000_0000i128 <= cym <= 0x15_0000_0000i128,
                1 <= unit_q <= 0x10_0000_0000i128,
        ;
    }
    let off_x: i128 = cxm * unit_q;
    let off_y: i128 = cym * unit_q;
    let num_x: i128 = x_q * 335544320 + off_x;
    let num_y: i128 = y_q * 335544320 + off_y;
    let sxp = round_div(num_x, 2013265920);
    let syp = round_div(num_y, 2013265920);
    if sxp < 0 || syp < 0 || sxp >= scanner.image_width() as i128 || syp
        >= scanner.image_height() as i128 {
        return 0;
    }
    scanner.get_sample_3x3(sxp as usize, syp as usize)
}

/// Reads the 13 data sectors at a trial unit and arc offset, sampling each
/// sector's diameter at eight points. Returns (confidence, raw bits,
/// diameter samples): a positive confidence means every sector showed the
/// expected white and black rings, and the raw word then carries exactly
/// five one-bits.
#[verifier::loop_isolation(false)]
fn read_code(
    scanner: &Scanner,
    cost: &[i32; 130],
    sint: &[i32; 130],
    x_q: i128,
    y_q: i128,
    unit_q: i128,
    arc: usize,
) -> (r: (u64, u16, [u8; 8]))
    requires
        scanner.wf(),
        arc < 10,
        -0x200_0000_0000i128 <= x_q <= 0x200_0000_0000i128,
        -0x200_0000_0000i128 <= y_q <= 0x200_0000_0000i128,
        1 <= unit_q <= 0x10_0000_0000i128,
    ensures
        r.1 < 8192,
        r.0 > 0 ==> popcount(r.1 as nat) == 5,
{
    let mut c: u64 = 0;
    let mut bits: u32 = 0;
    let mut core: [u8; 8] = [0u8; 8];
    let mut sector: usize = 13;
    proof {
        lemma2_to64();
    }
    while sector > 0
        invariant
            sector <= 13,
            (bits as nat) < pow2((13 - sector) as nat),
            c <= (13 - sector) as u64 * 2300,
        decreases sector,
    {
        proof {
            lemma2_to64();
            lemma_pow2_unfold((13 - sector + 1) as nat);
        }
        sector = sector - 1;
        let ang: usize = sector * 10 + arc;
        let dxv = cost[ang];
        let dyv = sint[ang];
        // Eight samples across the marker diameter at this orientation:
        // data sector, white ring, black ring, white center, white center,
        // black ring, white ring, data sector.
        let s0 = sample_at(scanner, dxv, dyv, x_q, y_q, unit_q, -7);
        let s1 = sample_at(scanner, dxv, dyv, x_q, y_q, unit_q, -5);
        let s2 = sample_at(scanner, dxv, dyv, x_q, y_q, unit_q, -3);
        let s3 = sample_at(scanner, dxv, dyv, x_q, y_q, unit_q, -1);
        let s4 = sample_at(scanner, dxv, dyv, x_q, y_q, unit_q, 1);
        let s5 = sample_at(scanner, dxv, dyv, x_q, y_q, unit_q, 3);
        let s6 = sample_at(scanner, dxv, dyv, x_q, y_q, unit_q, 5);
        let s7 = sample_at(scanner, dxv, dyv, x_q, y_q, unit_q, 7);
        core = [s0 as u8, s1 as u8, s2 as u8, s3 as u8, s4 as u8, s5 as u8, s6 as u8, s7 as u8];
        // The white center and the white ring on both sides must read white.
        if s1 <= 128 || s3 <= 128 || s4 <= 128 || s6 <= 128 {
            return (0, 0, core);
        }
        // The black ring on both sides must read black.
        if s2 > 128 || s5 > 128 {
            return (0, 0, core);
        }
        // Confidence: white rings bright, black rings dark, and the two
        // data samples decisive.
        let d7 = if 2 * s7 >= 255 {
            2 * s7 - 255
        } else {
            255 - 2 * s7
        };
        let d0 = if 2 * s0 >= 255 {
            2 * s0 - 255
        } else {
            255 - 2 * s0
        };
        c = c + (s1 + s3 + s4 + s6) as u64 + ((255 - s2) + (255 - s5)) as u64 + d7 as u64 + (255
            - d0) as u64;
        let bit: u32 = if s7 > 128 {
            1
        } else {
            0
        };
        bits = 2 * bits + bit;
    }
    proof {
        lemma2_to64();
    }
    let bits16: u16 = bits as u16;
    if checksum(bits16) {
        return (c, bits16, core);
    }
    (0, bits16, core)
}

/// A decoded marker. `code` is present exactly when decoding succeeded.
#[derive(Clone, Copy)]
pub struct TopCode {
    /// The canonical 13-bit identifier, absent until a decode succeeds.
    pub code: Option<u16>,
    /// Ring width in 160ths of a pixel.
    pub unit_q: i64,
    /// Orientation in steps of 2*pi/260 radians, within (-130, 130].
    pub orientation_q: i32,
    /// Horizontal center in sixths of a pixel.
    pub x_q: i64,
    /// Vertical center in sixths of a pixel.
    pub y_q: i64,
    /// Eight samples taken across the marker diameter on the winning
    /// orientation, each 0 (black) to 255 (white).
    pub core: [u8; 8],
    /// The candidate pixel this marker was decoded from; carried as proof
    /// data only, so that the scanner can state how accepted markers relate
    /// to the candidates of later ones.
    pub origin: Ghost<(int, int)>,
}

impl PartialEq for TopCode {
    /// Two markers are equal iff every decoded field matches exactly.
    fn eq(&self, other: &Self) -> (r: bool) {
        let code_eq = match (self.code, other.code) {
            (None, None) => true,
            (Some(a), Some(b)) => a == b,
            _ => false,
        };
        let core_eq = self.core[0] == other.core[0] && self.core[1] == other.core[1]
            && self.core[2] == other.core[2] && self.core[3] == other.core[3] && self.core[4]
            == other.core[4] && self.core[5] == other.core[5] && self.core[6] == other.core[6]
            && self.core[7] == other.core[7];
        let r = code_eq && core_eq && self.unit_q == other.unit_q && self.orientation_q
            == other.orientation_q && self.x_q == other.x_q && self.y_q == other.y_q;
        proof {
            if r {
                assert forall|i: int| 0 <= i < 8 implies self.core@[i] == other.core@[i] by {
                    assert(i == 0 || i == 1 || i == 2 || i == 3 || i == 4 || i == 5 || i == 6 || i
                        == 7);
                }
                assert(self.core@ =~= other.core@);
            }
        }
        r
    }
}

impl vstd::std_specs::cmp::PartialEqSpecImpl for TopCode {
    open spec fn obeys_eq_spec() -> bool {
        true
    }

    open spec fn eq_spec(&self, other: &TopCode) -> bool {
        &&& self.code == other.code
        &&& self.core@ == other.core@
        &&& self.unit_q == other.unit_q
        &&& self.orientation_q == other.orientation_q
        &&& self.x_q == other.x_q
        &&& self.y_q == other.y_q
    }
}

impl TopCode {
    /// Everything a successful decode against a width-w, height-h scanner
    /// guarantees: a canonical five-bit-of-thirteen code, a positive
    /// bounded unit, an orientation within (-pi, pi], and a center strictly
    /// inside the image.
    pub open spec fn valid_marker(self, w: int, h: int) -> bool {
        &&& self.code is Some
        &&& is_valid_code(self.code->0)
        &&& 0 < self.unit_q <= 0x8_0000_0000i64
        &&& -130 < self.orientation_q <= 130
        &&& 0 < self.x_q < 6 * w
        &&& 0 < self.y_q < 6 * h
        &&& self.x_q <= 0x200_0000_0000i64
        &&& self.y_q <= 0x200_0000_0000i64
    }

    /// The point (6*px, 6*py) (in sixths of a pixel) lies within three ring
    /// widths of the marker center: inside the bullseye.
    pub open spec fn spec_in_bullseye(self, px: int, py: int) -> bool {
        6400 * ((self.x_q - 6 * px) * (self.x_q - 6 * px) + (self.y_q - 6 * py) * (self.y_q - 6
            * py)) <= 81 * self.unit_q * self.unit_q
    }

    /// An empty, not yet decoded marker: every numeric field is zero and
    /// every core sample is zero.
    pub fn new() -> (r: Self)
        ensures
            r.code is None,
            r.unit_q == 0,
            r.orientation_q == 0,
            r.x_q == 0,
            r.y_q == 0,
            forall|i: int| 0 <= i < 8 ==> r.core@[i] == 0,
            r.origin@ == (0int, 0int),
    {
        TopCode {
            code: None,
            unit_q: 0,
            orientation_q: 0,
            x_q: 0,
            y_q: 0,
            core: [0u8; 8],
            origin: Ghost((0int, 0int)),
        }
    }

    /// True iff this marker has been decoded.
    pub fn is_valid(&self) -> (r: bool)
        ensures
            r == (self.code is Some),
    {
        self.code.is_some()
    }

    /// True iff pixel (px, py) lies within the outer bullseye radius
    /// (three ring widths) of this marker's center.
    pub fn in_bullseye(&self, px: usize, py: usize) -> (r: bool)
        requires
            0 <= self.unit_q <= 0x8_0000_0000i64,
            -0x200_0000_0000i64 <= self.x_q <= 0x200_0000_0000i64,
            -0x200_0000_0000i64 <= self.y_q <= 0x200_0000_0000i64,
        ensures
            r == self.spec_in_bullseye(px as int, py as int),
    {
        let dx: i128 = self.x_q as i128 - 6 * px as i128;
        let dy: i128 = self.y_q as i128 - 6 * py as i128;
        let bound: i128 = 0x4_0000_0000_0000;
        if dx > bound || dx < -bound || dy > bound || dy < -bound {
            proof {
                assert(dx * dx + dy * dy > 0x4_0000_0000_0000i128 * 0x4_0000_0000_0000i128)
                    by (nonlinear_arith)
                    requires
                        dx > 0x4_0000_0000_0000i128 || dx < -0x4_0000_0000_0000i128 || dy
                            > 0x4_0000_0000_0000i128 || dy < -0x4_0000_0000_0000i128,
                ;
                assert(81 * (self.unit_q as int) * (self.unit_q as int) < 6400 * (
                0x4_0000_0000_0000i128 * 0x4_0000_0000_0000i128)) by (nonlinear_arith)
                    requires
                        0 <= self.unit_q <= 0x8_0000_0000i64,
                ;
                assert(6400 * (dx * dx + dy * dy) > 6400 * (0x4_0000_0000_0000i128
                    * 0x4_0000_0000_0000i128)) by (nonlinear_arith)
                    requires
                        dx * dx + dy * dy > 0x4_0000_0000_0000i128 * 0x4_0000_0000_0000i128,
                ;
            }
            return false;
        }
        proof {
            assert(dx * dx <= 0x4_0000_0000_0000i128 * 0x4_0000_0000_0000i128 && dx * dx >= 0)
                by (nonlinear_arith)
                requires
                    -0x4_0000_0000_0000i128 <= dx <= 0x4_0000_0000_0000i128,
            ;
            assert(dy * dy <= 0x4_0000_0000_0000i128 * 0x4_0000_0000_0000i128 && dy * dy >= 0)
                by (nonlinear_arith)
                requires
                    -0x4_0000_0000_0000i128 <= dy <= 0x4_0000_0000_0000i128,
            ;
            assert(0x8_0000_0000i64 as i128 * 0x8_0000_0000i64 as i128
                == 0x40_0000_0000_0000_0000i128) by (nonlinear_arith);
            assert(self.unit_q as i128 * self.unit_q as i128 <= 0x40_0000_0000_0000_0000i128
                && self.unit_q as i128 * self.unit_q as i128 >= 0) by (nonlinear_arith)
                requires
                    0 <= self.unit_q <= 0x8_0000_0000i64,
            ;
        }
        let lhs: i128 = 6400 * (dx * dx + dy * dy);
        let uq: i128 = self.unit_q as i128;
        let sq: i128 = uq * uq;
        let rhs: i128 = 81 * sq;
        proof {
            assert(81 * ((self.unit_q as int) * (self.unit_q as int)) == 81 * (self.unit_q as int)
                * (self.unit_q as int)) by (nonlinear_arith);
        }
        lhs <= rhs
    }

    /// Attempts to decode a marker whose candidate center is the pixel
    /// (cx, cy). On success every field is populated and the result is a
    /// `valid_marker`; on any failure the TopCode is left untouched.
    ///
    /// The steps: refine the center to sub-pixel precision from twelve ray
    /// distances, estimate the ring width from the four cardinal rays, then
    /// search five unit adjustments times ten arc offsets for the sector
    /// reading with the highest contrast confidence, and canonicalize the
    /// winning 13-bit word under rotation.
    #[verifier::loop_isolation(false)]
    pub fn decode(&mut self, scanner: &Scanner, cx: usize, cy: usize)
        requires
            scanner.wf(),
            cx < scanner.spec_width(),
            cy < scanner.spec_height(),
        ensures
            *final(self) == *old(self) || (final(self).code is Some && final(self).valid_marker(
                scanner.spec_width() as int,
                scanner.spec_height() as int,
            ) && final(self).origin@ == (cx as int, cy as int)),
    {
        let width = scanner.image_width();
        let height = scanner.image_height();
        if cx < 1 || cy < 1 || cx + 1 >= width || cy + 1 >= height {
            return ;
        }
        // Sub-pixel center refinement: three vertical rays up and down,
        // three horizontal rays left and right; the center moves by a sixth
        // of the summed imbalance.
        let u1 = scanner.dist(cx, cy, 0, -1);
        let u2 = scanner.dist(cx - 1, cy, 0, -1);
        let u3 = scanner.dist(cx + 1, cy, 0, -1);
        let d1 = scanner.dist(cx, cy, 0, 1);
        let d2 = scanner.dist(cx - 1, cy, 0, 1);
        let d3 = scanner.dist(cx + 1, cy, 0, 1);
        let l1 = scanner.dist(cx, cy, -1, 0);
        let l2 = scanner.dist(cx, cy - 1, -1, 0);
        let l3 = scanner.dist(cx, cy + 1, -1, 0);
        let r1 = scanner.dist(cx, cy, 1, 0);
        let r2 = scanner.dist(cx, cy - 1, 1, 0);
        let r3 = scanner.dist(cx, cy + 1, 1, 0);
        if u1 < 0 || u2 < 0 || u3 < 0 || d1 < 0 || d2 < 0 || d3 < 0 || l1 < 0 || l2 < 0 || l3 < 0
            || r1 < 0 || r2 < 0 || r3 < 0 {
            return ;
        }
        let up: i128 = u1 as i128 + u2 as i128 + u3 as i128;
        let down: i128 = d1 as i128 + d2 as i128 + d3 as i128;
        let left: i128 = l1 as i128 + l2 as i128 + l3 as i128;
        let right: i128 = r1 as i128 + r2 as i128 + r3 as i128;
        let x_q: i128 = 6 * cx as i128 + (right - left);
        let y_q: i128 = 6 * cy as i128 + (down - up);
        if x_q <= 0 || x_q > 0x200_0000_0000i128 || x_q >= 6 * width as i128 {
            return ;
        }
        if y_q <= 0 || y_q > 0x200_0000_0000i128 || y_q >= 6 * height as i128 {
            return ;
        }
        // The ring width is measured from the nearest whole pixel.
        let sx = round_div(x_q, 6);
        let sy = round_div(y_q, 6);
        if sx < 0 || sx >= width as i128 || sy < 0 || sy >= height as i128 {
            return ;
        }
        let unit8 = read_unit(scanner, sx, sy);
        if unit8 < 0 {
            return ;
        }
        // Orientation search: five unit adjustments (90% to 110% of the
        // estimate) times ten arc offsets (tenths of a sector); keep the
        // reading with the highest confidence.
        let cost = arc_cos_q20();
        let sint = arc_sin_q20();
        let mut maxc: u64 = 0;
        let mut best_bits: u16 = 0;
        let mut best_unit: i128 = 1;
        let mut best_arc: usize = 0;
        let mut best_core: [u8; 8] = [0u8; 8];
        let mut u: usize = 0;
        while u < 5
            invariant
                maxc > 0 ==> best_bits < 8192 && popcount(best_bits as nat) == 5 && 1 <= best_unit
                    <= 22 * MAX_UNIT8 && best_arc < 10,
            decreases 5 - u,
        {
            proof {
                assert(18 <= (unit8 as int) * (18 + u as int) <= 22 * 0x4000_0000i128)
                    by (nonlinear_arith)
                    requires
                        4 <= unit8 <= 0x4000_0000i128,
                        0 <= u < 5,
                ;
            }
            let trial: i128 = unit8 * (18 + u as i128);
            let mut aa: usize = 0;
            while aa < 10
                invariant
                    maxc > 0 ==> best_bits < 8192 && popcount(best_bits as nat) == 5 && 1
                        <= best_unit <= 22 * MAX_UNIT8 && best_arc < 10,
                    18 <= trial <= 22 * MAX_UNIT8,
                decreases 10 - aa,
            {
                let (c, bits, corev) = read_code(scanner, &cost, &sint, x_q, y_q, trial, aa);
                if c > maxc {
                    maxc = c;
                    best_bits = bits;
                    best_unit = trial;
                    best_arc = aa;
                    best_core = corev;
                }
                aa = aa + 1;
            }
            u = u + 1;
        }
        if maxc > 0 {
            let (codev, rot) = rotate_lowest(best_bits);
            proof {
                lemma_rotn_popcount(best_bits, rot as nat);
            }
            // Orientation in steps of 2*pi/260: two steps per arc tenth,
            // twenty per sector rotation, normalized into (-130, 130].
            let mut ori: i32 = 2 * (best_arc as i32) - 13 - 20 * (rot as i32);
            if ori <= -130 {
                ori = ori + 260;
            }
            self.code = Some(codev);
            self.unit_q = best_unit as i64;
            self.orientation_q = ori;
            self.x_q = x_q as i64;
            self.y_q = y_q as i64;
            self.core = best_core;
            self.origin = Ghost((cx as int, cy as int));
        }
    }
}

} // verus!
