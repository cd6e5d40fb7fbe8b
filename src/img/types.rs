use vstd::prelude::*;

verus! {

/// A rule that blends two channel values into one.
pub trait MixRule {
    spec fn spec_mix(&self, c1: u8, c2: u8) -> u8;

    fn mix(&self, c1: u8, c2: u8) -> (r: u8)
        ensures
            r == self.spec_mix(c1, c2),
    ;

    spec fn spec_name(&self) -> Seq<char>;

    fn name(&self) -> (r: &'static str)
        ensures
            r@ == self.spec_name(),
    ;
}

/// Integer division rounded toward zero.
pub open spec fn trunc_div(a: int, b: int) -> int {
    let q = (if a < 0 { -a } else { a }) / (if b < 0 { -b } else { b });
    if (a < 0) != (b < 0) {
        -q
    } else {
        q
    }
}

/// Rescales `val` from `[in_min, in_max]` to `[out_min, out_max]`, dividing
/// with rounding toward zero.
fn map(val: i32, in_min: i32, in_max: i32, out_min: i32, out_max: i32) -> (r: i32)
    requires
        in_max != in_min,
        i32::MIN <= val - in_min <= i32::MAX,
        i32::MIN <= out_max - out_min <= i32::MAX,
        i32::MIN <= in_max - in_min <= i32::MAX,
        i32::MIN <= (val - in_min) * (out_max - out_min) <= i32::MAX,
        i32::MIN <= trunc_div((val - in_min) * (out_max - out_min), in_max - in_min) + out_min
            <= i32::MAX,
    ensures
        r == trunc_div((val - in_min) * (out_max - out_min), in_max - in_min) + out_min,
{
    let a: i64 = (val as i64 - in_min as i64) * (out_max as i64 - out_min as i64);
    let b: i64 = in_max as i64 - in_min as i64;
    let ma: i64 = if a < 0 {
        -a
    } else {
        a
    };
    let mb: i64 = if b < 0 {
        -b
    } else {
        b
    };
    let q: i64 = ma / mb;
    let t: i64 = if (a < 0) != (b < 0) {
        -q
    } else {
        q
    };
    (t + out_min as i64) as i32
}

/// Blends that darken.
pub enum DimCover {
    Multiply,
    LinearBurn,
}

pub open spec fn multiply(c1: u8, c2: u8) -> int {
    (c1 * c2) / 255
}

pub open spec fn linear_burn(c1: u8, c2: u8) -> int {
    (c1 + c2) * 255 / 510
}

/// Blends that lighten.
pub enum LightCover {
    Screen,
    LinearDodge,
}

pub open spec fn screen(c1: u8, c2: u8) -> int {
    (65025 - (255 - c1) * (255 - c2)) * 255 / 65025
}

pub open spec fn linear_dodge(c1: u8, c2: u8) -> int {
    if c1 + c2 < 255 {
        c1 + c2
    } else {
        255
    }
}

impl MixRule for DimCover {
    open spec fn spec_mix(&self, c1: u8, c2: u8) -> u8 {
        match self {
            DimCover::Multiply => multiply(c1, c2) as u8,
            DimCover::LinearBurn => linear_burn(c1, c2) as u8,
        }
    }

    fn mix(&self, c1: u8, c2: u8) -> (r: u8) {
        match self {
            DimCover::Multiply => {
                assert(0 <= c1 * c2 <= 255 * 255) by (nonlinear_arith)
                    requires
                        c1 <= 255,
                        c2 <= 255,
                ;
                let p: i32 = c1 as i32 * c2 as i32;
                (p / 255) as u8
            },
            DimCover::LinearBurn => {
                let v: i32 = map((c1 as i32 + c2 as i32) - 255, -255, 255, 0, 255);
                proof {
                    vstd::arithmetic::div_mod::lemma_div_is_ordered((c1 + c2) * 255, (510 * 255) as int, 510);
                    vstd::arithmetic::div_mod::lemma_div_pos_is_pos((c1 + c2) * 255, 510);
                }
                v as u8
            },
        }
    }

    open spec fn spec_name(&self) -> Seq<char> {
        match self {
            DimCover::Multiply => "multiply"@,
            DimCover::LinearBurn => "linear_burn"@,
        }
    }

    fn name(&self) -> (r: &'static str) {
        match self {
            DimCover::Multiply => "multiply",
            DimCover::LinearBurn => "linear_burn",
        }
    }
}

impl MixRule for LightCover {
    open spec fn spec_mix(&self, c1: u8, c2: u8) -> u8 {
        match self {
            LightCover::Screen => screen(c1, c2) as u8,
            LightCover::LinearDodge => linear_dodge(c1, c2) as u8,
        }
    }

    fn mix(&self, c1: u8, c2: u8) -> (r: u8) {
        match self {
            LightCover::Screen => {
                assert(0 <= (255 - c1) * (255 - c2) <= 65025) by (nonlinear_arith)
                    requires
                        c1 <= 255,
                        c2 <= 255,
                ;
                let d: i32 = (255 - c1 as i32) * (255 - c2 as i32);
                let v: i32 = map(255 - d, 255 - (255 * 255), 255, 0, 255);
                proof {
                    vstd::arithmetic::div_mod::lemma_div_is_ordered((65025 - d) * 255, (65025 * 255) as int, 65025);
                    vstd::arithmetic::div_mod::lemma_div_pos_is_pos((65025 - d) * 255, 65025);
                }
                v as u8
            },
            LightCover::LinearDodge => {
                let s: u32 = c1 as u32 + c2 as u32;
                if s < 255 {
                    s as u8
                } else {
                    255
                }
            },
        }
    }

    open spec fn spec_name(&self) -> Seq<char> {
        match self {
            LightCover::Screen => "screen"@,
            LightCover::LinearDodge => "linear_dodge"@,
        }
    }

    fn name(&self) -> (r: &'static str) {
        match self {
            LightCover::Screen => "screen",
            LightCover::LinearDodge => "linear_dodge",
        }
    }
}

/// Which derivative a kernel approximates.
pub enum Mode {
    Vertical,
    Horizontal,
}

/// Edge-detection kernels.
pub enum EdgeDetect {
    Robert(Mode),
    Prewitt(Mode),
    Sobel(Mode),
}

pub open spec fn kernel_of(f: EdgeDetect) -> Seq<i8> {
    match f {
        EdgeDetect::Robert(Mode::Vertical) => seq![-1i8, 0i8, 0i8, 0i8, 1i8, 0i8, 0i8, 0i8, 0i8],
        EdgeDetect::Robert(Mode::Horizontal) => seq![0i8, -1i8, 0i8, 1i8, 0i8, 0i8, 0i8, 0i8, 0i8],
        EdgeDetect::Prewitt(Mode::Vertical) => seq![-1i8, -1i8, -1i8, 0i8, 0i8, 0i8, 1i8, 1i8, 1i8],
        EdgeDetect::Prewitt(Mode::Horizontal) => seq![-1i8, 0i8, 1i8, -1i8, 0i8, 1i8, -1i8, 0i8, 1i8],
        EdgeDetect::Sobel(Mode::Vertical) => seq![-1i8, -2i8, -1i8, 0i8, 0i8, 0i8, 1i8, 2i8, 1i8],
        EdgeDetect::Sobel(Mode::Horizontal) => seq![-1i8, 0i8, 1i8, -2i8, 0i8, 2i8, -1i8, 0i8, 1i8],
    }
}

/// The name of a kernel: its family, `_`, its direction.
pub open spec fn edge_name(f: EdgeDetect) -> Seq<char> {
    match f {
        EdgeDetect::Robert(Mode::Vertical) => "robert_vertical"@,
        EdgeDetect::Robert(Mode::Horizontal) => "robert_horizontal"@,
        EdgeDetect::Prewitt(Mode::Vertical) => "prewitt_vertical"@,
        EdgeDetect::Prewitt(Mode::Horizontal) => "prewitt_horizontal"@,
        EdgeDetect::Sobel(Mode::Vertical) => "sobel_vertical"@,
        EdgeDetect::Sobel(Mode::Horizontal) => "sobel_horizontal"@,
    }
}

impl EdgeDetect {
    /// The 3×3 kernel, row by row.
    pub fn get_matrix(&self) -> (r: [i8; 9])
        ensures
            r@ == kernel_of(*self),
    {
        let r: [i8; 9] = match self {
            EdgeDetect::Robert(mode) => match mode {
                Mode::Vertical => [-1, 0, 0, 0, 1, 0, 0, 0, 0],
                Mode::Horizontal => [0, -1, 0, 1, 0, 0, 0, 0, 0],
            },
            EdgeDetect::Prewitt(mode) => match mode {
                Mode::Vertical => [-1, -1, -1, 0, 0, 0, 1, 1, 1],
                Mode::Horizontal => [-1, 0, 1, -1, 0, 1, -1, 0, 1],
            },
            EdgeDetect::Sobel(mode) => match mode {
                Mode::Vertical => [-1, -2, -1, 0, 0, 0, 1, 2, 1],
                Mode::Horizontal => [-1, 0, 1, -2, 0, 2, -1, 0, 1],
            },
        };
        assert(r@ =~= kernel_of(*self));
        r
    }

    pub fn name(&self) -> (r: &'static str)
        ensures
            r@ == edge_name(*self),
    {
        match self {
            EdgeDetect::Robert(mode) => match mode {
                Mode::Vertical => "robert_vertical",
                Mode::Horizontal => "robert_horizontal",
            },
            EdgeDetect::Prewitt(mode) => match mode {
                Mode::Vertical => "prewitt_vertical",
                Mode::Horizontal => "prewitt_horizontal",
            },
            EdgeDetect::Sobel(mode) => match mode {
                Mode::Vertical => "sobel_vertical",
                Mode::Horizontal => "sobel_horizontal",
            },
        }
    }
}

/// The smaller width and the smaller height of two dimensions.
pub fn get_min_dim(dim1: (u32, u32), dim2: (u32, u32)) -> (r: (u32, u32))
    ensures
        r.0 == (if dim1.0 < dim2.0 { dim1.0 } else { dim2.0 }),
        r.1 == (if dim1.1 < dim2.1 { dim1.1 } else { dim2.1 }),
{
    let w: u32 = if dim1.0 < dim2.0 { dim1.0 } else { dim2.0 };
    let h: u32 = if dim1.1 < dim2.1 { dim1.1 } else { dim2.1 };
    (w, h)
}

} // verus!
