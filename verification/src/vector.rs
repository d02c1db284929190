use vstd::prelude::*;
use vstd::std_specs::convert::FromSpecImpl;
use vstd::std_specs::ops::{AddSpecImpl, MulSpecImpl, SubSpecImpl};

verus! {

/// A pair of grid coordinates, or a step between two of them: `.0` runs east, `.1` runs south.
#[derive(Debug, Default, Hash, Eq, PartialEq, Copy, Clone, Structural)]
pub struct Vector(pub i32, pub i32);

/// Whether `i` is a value of `i32`.
pub open spec fn fits_i32(i: int) -> bool {
    i32::MIN <= i <= i32::MAX
}

/// Whether `root` is the square root of `square`, rounded down.
pub open spec fn is_floor_sqrt(square: int, root: int) -> bool {
    0 <= root && root * root <= square < (root + 1) * (root + 1)
}

/// The squared length of the step from `a` to `b`.
pub open spec fn squared_distance(a: Vector, b: Vector) -> int {
    (a.0 - b.0) * (a.0 - b.0) + (a.1 - b.1) * (a.1 - b.1)
}

/// The square root of `square`, rounded down.
pub open spec fn floor_sqrt_of(square: int) -> int {
    choose|root: int| is_floor_sqrt(square, root)
}

/// The straight-line distance between `a` and `b`, rounded down; `u32::MAX` where it would
/// not fit.
pub open spec fn distance_between(a: Vector, b: Vector) -> u32 {
    let root = floor_sqrt_of(squared_distance(a, b));
    if root > u32::MAX {
        u32::MAX
    } else {
        root as u32
    }
}

/// A square grows with its root.
pub proof fn lemma_square_monotonic(a: int, b: int)
    requires
        0 <= a <= b,
    ensures
        a * a <= b * b,
{
    assert(a * a <= b * b) by (nonlinear_arith)
        requires
            0 <= a <= b,
    ;
}

/// A number has one rounded-down square root only.
pub proof fn lemma_floor_sqrt_unique(square: int, a: int, b: int)
    requires
        is_floor_sqrt(square, a),
        is_floor_sqrt(square, b),
    ensures
        a == b,
{
    if a < b {
        lemma_square_monotonic(a + 1, b);
    } else if b < a {
        lemma_square_monotonic(b + 1, a);
    }
}

/// The square root of `square`, rounded down.
pub fn floor_sqrt(square: u128) -> (root: u64)
    ensures
        is_floor_sqrt(square as int, root as int),
{
    let mut low: u128 = 0;
    let mut high: u128 = 0x1_0000_0000_0000_0000;
    assert(square < 0x1_0000_0000_0000_0000 * 0x1_0000_0000_0000_0000) by (nonlinear_arith)
        requires
            square <= u128::MAX,
    ;
    while high - low > 1
        invariant
            low < high <= 0x1_0000_0000_0000_0000,
            low * low <= square < high * high,
        decreases high - low,
    {
        let middle: u128 = low + (high - low) / 2;
        proof {
            lemma_square_monotonic(middle as int, 0xffff_ffff_ffff_ffff);
            assert(0xffff_ffff_ffff_ffffint * 0xffff_ffff_ffff_ffffint <= u128::MAX) by (nonlinear_arith);
        }
        if middle * middle <= square {
            low = middle;
        } else {
            high = middle;
        }
    }
    low as u64
}

impl Vector {
    /// The straight-line distance to `vector`, rounded down; `u32::MAX` where it would not fit.
    pub fn distance(&self, vector: Vector) -> (steps: u32)
        ensures
            steps == distance_between(*self, vector),
            is_floor_sqrt(squared_distance(*self, vector), steps as int) || (steps == u32::MAX
                && squared_distance(*self, vector) >= 0x1_0000_0000 * 0x1_0000_0000),
    {
        let a: i64 = self.0 as i64 - vector.0 as i64;
        let b: i64 = self.1 as i64 - vector.1 as i64;
        let wide_a: u128 = if a < 0 { (-a) as u128 } else { a as u128 };
        let wide_b: u128 = if b < 0 { (-b) as u128 } else { b as u128 };
        proof {
            lemma_square_monotonic(wide_a as int, 0xffff_ffff);
            lemma_square_monotonic(wide_b as int, 0xffff_ffff);
            assert(wide_a * wide_a == a * a) by (nonlinear_arith)
                requires
                    wide_a == a || wide_a == -a,
            ;
            assert(wide_b * wide_b == b * b) by (nonlinear_arith)
                requires
                    wide_b == b || wide_b == -b,
            ;
        }
        let root = floor_sqrt(wide_a * wide_a + wide_b * wide_b);
        proof {
            lemma_floor_sqrt_unique(
                squared_distance(*self, vector),
                root as int,
                floor_sqrt_of(squared_distance(*self, vector)),
            );
        }
        if root > u32::MAX as u64 {
            proof {
                lemma_square_monotonic(0x1_0000_0000, root as int);
            }
            u32::MAX
        } else {
            root as u32
        }
    }

    /// The sum of the two, or `None` where a coordinate of it is no `i32`.
    pub fn checked_add(self, rhs: Vector) -> (sum: Option<Vector>)
        ensures
            sum == (if fits_i32(self.0 + rhs.0) && fits_i32(self.1 + rhs.1) {
                Some(Vector((self.0 + rhs.0) as i32, (self.1 + rhs.1) as i32))
            } else {
                None
            }),
    {
        match (self.0.checked_add(rhs.0), self.1.checked_add(rhs.1)) {
            (Some(x), Some(y)) => Some(Vector(x, y)),
            _ => None,
        }
    }

    /// The vector stretched by `rhs`, or `None` where a coordinate of it is no `i32`.
    pub fn checked_mul(self, rhs: i32) -> (product: Option<Vector>)
        ensures
            product == (if fits_i32(self.0 * rhs) && fits_i32(self.1 * rhs) {
                Some(Vector((self.0 * rhs) as i32, (self.1 * rhs) as i32))
            } else {
                None
            }),
    {
        match (self.0.checked_mul(rhs), self.1.checked_mul(rhs)) {
            (Some(x), Some(y)) => Some(Vector(x, y)),
            _ => None,
        }
    }
}

impl From<(i32, i32)> for Vector {
    fn from(tuple: (i32, i32)) -> (vector: Vector) {
        Vector(tuple.0, tuple.1)
    }
}

impl FromSpecImpl<(i32, i32)> for Vector {
    open spec fn obeys_from_spec() -> bool {
        true
    }

    open spec fn from_spec(tuple: (i32, i32)) -> Vector {
        Vector(tuple.0, tuple.1)
    }
}

impl std::ops::Add for Vector {
    type Output = Vector;

    fn add(self, rhs: Vector) -> (sum: Vector) {
        Vector(self.0 + rhs.0, self.1 + rhs.1)
    }
}

impl AddSpecImpl for Vector {
    open spec fn obeys_add_spec() -> bool {
        true
    }

    open spec fn add_req(self, rhs: Vector) -> bool {
        fits_i32(self.0 + rhs.0) && fits_i32(self.1 + rhs.1)
    }

    open spec fn add_spec(self, rhs: Vector) -> Vector {
        Vector((self.0 + rhs.0) as i32, (self.1 + rhs.1) as i32)
    }
}

impl std::ops::Sub for Vector {
    type Output = Vector;

    fn sub(self, rhs: Vector) -> (difference: Vector) {
        Vector(self.0 - rhs.0, self.1 - rhs.1)
    }
}

impl SubSpecImpl for Vector {
    open spec fn obeys_sub_spec() -> bool {
        true
    }

    open spec fn sub_req(self, rhs: Vector) -> bool {
        fits_i32(self.0 - rhs.0) && fits_i32(self.1 - rhs.1)
    }

    open spec fn sub_spec(self, rhs: Vector) -> Vector {
        Vector((self.0 - rhs.0) as i32, (self.1 - rhs.1) as i32)
    }
}

impl std::ops::Mul<i32> for Vector {
    type Output = Vector;

    fn mul(self, rhs: i32) -> (product: Vector) {
        Vector(self.0 * rhs, self.1 * rhs)
    }
}

impl MulSpecImpl<i32> for Vector {
    open spec fn obeys_mul_spec() -> bool {
        true
    }

    open spec fn mul_req(self, rhs: i32) -> bool {
        fits_i32(self.0 * rhs) && fits_i32(self.1 * rhs)
    }

    open spec fn mul_spec(self, rhs: i32) -> Vector {
        Vector((self.0 * rhs) as i32, (self.1 * rhs) as i32)
    }
}

impl std::ops::AddAssign for Vector {
    /// Adds `rhs` to this vector, part by part, where both sums fit.
    fn add_assign(&mut self, rhs: Vector)
        requires
            fits_i32(old(self).0 + rhs.0) && fits_i32(old(self).1 + rhs.1),
        ensures
            *final(self) == Vector((old(self).0 + rhs.0) as i32, (old(self).1 + rhs.1) as i32),
    {
        self.0 = self.0 + rhs.0;
        self.1 = self.1 + rhs.1;
    }
}

impl std::ops::MulAssign<i32> for Vector {
    /// Makes this vector `rhs` times as long, part by part, where both products fit.
    fn mul_assign(&mut self, rhs: i32)
        requires
            fits_i32(old(self).0 * rhs) && fits_i32(old(self).1 * rhs),
        ensures
            *final(self) == Vector((old(self).0 * rhs) as i32, (old(self).1 * rhs) as i32),
    {
        self.0 = self.0 * rhs;
        self.1 = self.1 * rhs;
    }
}

} // verus!
