use vstd::prelude::*;

verus! {

#[derive(PartialEq, Eq, Structural, Debug, Clone, Copy)]
pub struct Point {
    pub x: i32,
    pub y: i32,
}

impl Point {
    pub fn new(x: i32, y: i32) -> (r: Self)
        ensures
            r.x == x && r.y == y,
    {
        Point { x, y }
    }

    pub fn to_array(self) -> (r: [i32; 2])
        ensures
            r@ == seq![self.x, self.y],
    {
        [self.x, self.y]
    }
}

impl From<[i32; 2]> for Point {
    fn from(a: [i32; 2]) -> (r: Point) {
        Point { x: a[0], y: a[1] }
    }
}

impl vstd::std_specs::convert::FromSpecImpl<[i32; 2]> for Point {
    open spec fn obeys_from_spec() -> bool {
        true
    }

    open spec fn from_spec(a: [i32; 2]) -> Point {
        Point { x: a@[0], y: a@[1] }
    }
}

impl From<Point> for [i32; 2] {
    fn from(p: Point) -> (r: [i32; 2]) {
        [p.x, p.y]
    }
}

impl vstd::std_specs::convert::FromSpecImpl<Point> for [i32; 2] {
    open spec fn obeys_from_spec() -> bool {
        true
    }

    open spec fn from_spec(p: Point) -> [i32; 2] {
        [p.x, p.y]
    }
}

pub open spec fn abs(v: int) -> int {
    if v < 0 {
        -v
    } else {
        v
    }
}

/// Step direction along one axis: `1` towards a larger end, `-1` otherwise.
pub open spec fn sign(v: int) -> int {
    if v > 0 {
        1
    } else {
        -1
    }
}

/// How far the minor axis has moved after `k` steps along the major axis,
/// for a line that spans `major` steps along it and `minor` across it.
pub open spec fn minor_offset(k: int, major: int, minor: int) -> int {
    (2 * k * (minor + 1) + (major + 1)) / (2 * (major + 1))
}

/// The number of points from `p1` to `p2`.
pub open spec fn line_len(p1: Point, p2: Point) -> int {
    let dx = abs(p2.x - p1.x);
    let dy = abs(p2.y - p1.y);
    if dy > dx {
        dy + 1
    } else {
        dx + 1
    }
}

/// The `k`-th point from `p1` towards `p2`, as `(x, y)`.
pub open spec fn line_point(p1: Point, p2: Point, k: int) -> (int, int) {
    let dx = p2.x - p1.x;
    let dy = p2.y - p1.y;
    if abs(dy) > abs(dx) {
        (p1.x + sign(dx) * minor_offset(k, abs(dy), abs(dx)), p1.y + sign(dy) * k)
    } else {
        (p1.x + sign(dx) * k, p1.y + sign(dy) * minor_offset(k, abs(dx), abs(dy)))
    }
}

proof fn lemma_offset_step(k: int, major: int, minor: int, c: int, e: int)
    requires
        0 <= minor <= major,
        e == 2 * k * (minor + 1) - (major + 1) - 2 * (major + 1) * c,
        -2 * (major + 1) <= e < 0,
    ensures
        c == minor_offset(k, major, minor),
{
    let num = 2 * k * (minor + 1) + (major + 1);
    let den = 2 * (major + 1);
    assert(num == c * den + (e + den)) by (nonlinear_arith)
        requires
            e == 2 * k * (minor + 1) - (major + 1) - 2 * (major + 1) * c,
            num == 2 * k * (minor + 1) + (major + 1),
            den == 2 * (major + 1),
    ;
    vstd::arithmetic::div_mod::lemma_fundamental_div_mod_converse(num, den, c, e + den);
}

proof fn lemma_offset_le(k: int, major: int, minor: int)
    requires
        0 <= minor <= major,
        0 <= k <= major,
    ensures
        0 <= minor_offset(k, major, minor) <= minor + 1,
{
    let num = 2 * k * (minor + 1) + (major + 1);
    let den = 2 * (major + 1);
    assert(0 <= num < den * (minor + 2)) by (nonlinear_arith)
        requires
            num == 2 * k * (minor + 1) + (major + 1),
            den == 2 * (major + 1),
            0 <= minor <= major,
            0 <= k <= major,
    ;
    vstd::arithmetic::div_mod::lemma_div_pos_is_pos(num, den);
    vstd::arithmetic::div_mod::lemma_fundamental_div_mod(num, den);
    let q = num / den;
    let rem = num % den;
    assert(q < minor + 2) by (nonlinear_arith)
        requires
            num == den * q + rem,
            0 <= rem,
            num < den * (minor + 2),
            den > 0,
    ;
}

proof fn lemma_offset_mono(k1: int, k2: int, major: int, minor: int)
    requires
        0 <= minor <= major,
        0 <= k1 <= k2,
    ensures
        minor_offset(k1, major, minor) <= minor_offset(k2, major, minor),
{
    assert(2 * k1 * (minor + 1) <= 2 * k2 * (minor + 1)) by (nonlinear_arith)
        requires
            0 <= k1 <= k2,
            0 <= minor,
    ;
    vstd::arithmetic::div_mod::lemma_div_is_ordered(
        2 * k1 * (minor + 1) + (major + 1),
        2 * k2 * (minor + 1) + (major + 1),
        2 * (major + 1),
    );
}

/// Both coordinates of the last point of the line fit in `i32`.
pub open spec fn last_point_fits(p1: Point, p2: Point) -> bool {
    let q = line_point(p1, p2, line_len(p1, p2) - 1);
    i32::MIN <= q.0 <= i32::MAX && i32::MIN <= q.1 <= i32::MAX
}

proof fn lemma_sign_mul(s: int, v: int)
    requires
        s == 1 || s == -1,
    ensures
        s == 1 ==> s * v == v,
        s == -1 ==> s * v == -v,
        s * (v + 1) == s * v + s,
{
    assert(s * (v + 1) == s * v + s) by (nonlinear_arith);
    assert(s == -1 ==> s * v == -v) by (nonlinear_arith);
}

/// The pixels of the line from `p1` to `p2`: one per step along the longer
/// axis, with an error term deciding the steps along the shorter one.
pub fn rasterize(p1: Point, p2: Point) -> (r: Vec<Point>)
    requires
        -i32::MAX <= p2.x - p1.x <= i32::MAX,
        -i32::MAX <= p2.y - p1.y <= i32::MAX,
        last_point_fits(p1, p2),
    ensures
        r@.len() == line_len(p1, p2),
        forall|k: int|
            0 <= k < r@.len() ==> ((#[trigger] r@[k]).x as int, r@[k].y as int) == line_point(
                p1,
                p2,
                k,
            ),
{
    let dx: i64 = p2.x as i64 - p1.x as i64;
    let dy: i64 = p2.y as i64 - p1.y as i64;
    let x_sign: i64 = if dx > 0 {
        1
    } else {
        -1
    };
    let y_sign: i64 = if dy > 0 {
        1
    } else {
        -1
    };
    let adx: i64 = if dx < 0 {
        -dx
    } else {
        dx
    };
    let ady: i64 = if dy < 0 {
        -dy
    } else {
        dy
    };
    let y_major: bool = ady > adx;
    let major: i64 = if y_major {
        ady
    } else {
        adx
    };
    let minor: i64 = if y_major {
        adx
    } else {
        ady
    };
    let major_sign: i64 = if y_major {
        y_sign
    } else {
        x_sign
    };
    let minor_sign: i64 = if y_major {
        x_sign
    } else {
        y_sign
    };
    let major_start: i64 = if y_major {
        p1.y as i64
    } else {
        p1.x as i64
    };
    let minor_start: i64 = if y_major {
        p1.x as i64
    } else {
        p1.y as i64
    };
    let ghost major_end: int = if y_major {
        p2.y as int
    } else {
        p2.x as int
    };
    let ghost minor_end: int = if y_major {
        p2.x as int
    } else {
        p2.y as int
    };
    let mut out: Vec<Point> = Vec::new();
    let mut a: i64 = major_start;
    let mut b: i64 = minor_start;
    let mut e: i64 = -(major + 1);
    let ghost mut c: int = 0;
    let mut k: i64 = 0;
    proof {
        let mj = major as int;
        let mn = minor as int;
        assert(e == 2 * 0 * (mn + 1) - (mj + 1) - 2 * (mj + 1) * 0) by (nonlinear_arith)
            requires
                e == -(mj + 1),
        ;
        lemma_offset_step(0, mj, mn, 0, e as int);
    }
    while k <= major
        invariant
            0 <= minor <= major <= 0xffff_ffff,
            major_end == major_start + major_sign * major,
            minor_end == minor_start + minor_sign * minor,
            major_sign == 1 || major_sign == -1,
            minor_sign == 1 || minor_sign == -1,
            i32::MIN <= major_start <= i32::MAX,
            i32::MIN <= minor_start <= i32::MAX,
            i32::MIN <= major_end <= i32::MAX,
            i32::MIN <= minor_start + minor_sign * minor_offset(major as int, major as int, minor as int)
                <= i32::MAX,
            0 <= k <= major + 1,
            out@.len() == k,
            k <= major ==> a == major_start + major_sign * k,
            k <= major ==> b == minor_start + minor_sign * c,
            k <= major ==> c == minor_offset(k as int, major as int, minor as int),
            k <= major ==> e == 2 * k * (minor + 1) - (major + 1) - 2 * (major + 1) * c,
            k <= major ==> -2 * (major + 1) <= e < 0,
            forall|l: int|
                0 <= l < k ==> (#[trigger] out@[l]).x == (if y_major {
                    minor_start + minor_sign * minor_offset(l, major as int, minor as int)
                } else {
                    major_start + major_sign * l
                }) && out@[l].y == (if y_major {
                    major_start + major_sign * l
                } else {
                    minor_start + minor_sign * minor_offset(l, major as int, minor as int)
                }),
        decreases major + 1 - k,
    {
        proof {
            lemma_offset_le(k as int, major as int, minor as int);
            lemma_offset_mono(k as int, major as int, major as int, minor as int);
            lemma_sign_mul(minor_sign as int, minor_offset(major as int, major as int, minor as int));
            lemma_sign_mul(major_sign as int, k as int);
            lemma_sign_mul(minor_sign as int, c);
            lemma_sign_mul(major_sign as int, major as int);
            lemma_sign_mul(minor_sign as int, minor as int);
        }
        let pt = if y_major {
            Point { x: b as i32, y: a as i32 }
        } else {
            Point { x: a as i32, y: b as i32 }
        };
        out.push(pt);
        if k < major {
            a = a + major_sign;
            e = e + 2 * (minor + 1);
            proof {
                assert(2 * (k + 1) * (minor + 1) == 2 * k * (minor + 1) + 2 * (minor + 1))
                    by (nonlinear_arith);
            }
            if e >= 0 {
                b = b + minor_sign;
                e = e - 2 * (major + 1);
                proof {
                    c = c + 1;
                    assert(2 * (major + 1) * c == 2 * (major + 1) * (c - 1) + 2 * (major + 1))
                        by (nonlinear_arith);
                }
            }
            proof {
                lemma_offset_step((k + 1) as int, major as int, minor as int, c, e as int);
                lemma_offset_mono((k + 1) as int, major as int, major as int, minor as int);
                lemma_sign_mul(minor_sign as int, c);
            }
        }
        k += 1;
    }
    proof {
        assert forall|l: int| 0 <= l < out@.len() implies ((#[trigger] out@[l]).x as int,
            out@[l].y as int) == line_point(p1, p2, l) by {}
    }
    out
}

} // verus!
