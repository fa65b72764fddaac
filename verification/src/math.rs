//! 2D fixed-point vector type.
//!
//! [`Vec2`] is an ordered pair of fixed-point coordinates with the handful of
//! operations the curve math needs. Every operation is pure and carries an
//! exact contract over the integer coordinates.

use vstd::prelude::*;

verus! {

use crate::fixed::{
    ONE, COORD_LIMIT, fx_ok, sqrt_floor, sdiv_s, isqrt, sdiv, fdiv, lemma_mul_bound,
    lemma_sq_bounds,
};

/// A 2D point or direction, each coordinate a fixed-point scalar.
#[derive(Copy, Clone, Debug)]
pub struct Vec2 {
    pub x: i64,
    pub y: i64,
}

/// Both coordinates are within the range the curve math accepts.
pub open spec fn vec_ok(v: Vec2) -> bool {
    fx_ok(v.x as int) && fx_ok(v.y as int)
}

/// Squared Euclidean length of the vector `(x, y)`, in raw product units.
pub open spec fn len_sq(x: int, y: int) -> int {
    x * x + y * y
}

/// Componentwise sign, mapping to -1.0, 0.0 or 1.0 in fixed point.
pub open spec fn sign_s(v: int) -> int {
    if v < 0 {
        -ONE as int
    } else if v == 0 {
        0
    } else {
        ONE as int
    }
}

/// Build a vector from its coordinates.
pub fn vec2(x: i64, y: i64) -> (r: Vec2)
    ensures
        r.x == x,
        r.y == y,
{
    Vec2 { x, y }
}

impl Vec2 {
    /// Dot product, in raw product units (2^32 per unit square).
    pub fn dot(&self, other: Vec2) -> (r: i64)
        requires
            vec_ok(*self),
            vec_ok(other),
        ensures
            r == self.x * other.x + self.y * other.y,
    {
        proof {
            lemma_mul_bound(self.x as int, other.x as int, COORD_LIMIT as int, COORD_LIMIT as int);
            lemma_mul_bound(self.y as int, other.y as int, COORD_LIMIT as int, COORD_LIMIT as int);
        }
        self.x * other.x + self.y * other.y
    }

    /// 2D scalar cross product, in raw product units.
    pub fn cross(&self, other: Vec2) -> (r: i64)
        requires
            vec_ok(*self),
            vec_ok(other),
        ensures
            r == self.x * other.y - self.y * other.x,
    {
        proof {
            lemma_mul_bound(self.x as int, other.y as int, COORD_LIMIT as int, COORD_LIMIT as int);
            lemma_mul_bound(self.y as int, other.x as int, COORD_LIMIT as int, COORD_LIMIT as int);
        }
        self.x * other.y - self.y * other.x
    }

    /// Euclidean norm: the floor square root of the squared length.
    pub fn length(&self) -> (r: i64)
        requires
            vec_ok(*self),
        ensures
            r == sqrt_floor(len_sq(self.x as int, self.y as int)),
            0 <= r <= 2 * COORD_LIMIT,
            r * r <= len_sq(self.x as int, self.y as int),
            len_sq(self.x as int, self.y as int) < (r + 1) * (r + 1),
    {
        proof {
            lemma_sq_bounds(self.x as int, COORD_LIMIT as int);
            lemma_sq_bounds(self.y as int, COORD_LIMIT as int);
        }
        let sq: i64 = self.x * self.x + self.y * self.y;
        let r = isqrt(sq);
        proof {
            assert(r <= 2 * COORD_LIMIT) by (nonlinear_arith)
                requires
                    0 <= r,
                    r * r <= sq,
                    sq <= 2 * (COORD_LIMIT as int) * (COORD_LIMIT as int),
                    COORD_LIMIT == 0x1000_0000;
        }
        r
    }

    /// Componentwise sign: -1.0, 0.0 or 1.0 per coordinate.
    pub fn sign(&self) -> (r: Vec2)
        ensures
            r.x == sign_s(self.x as int),
            r.y == sign_s(self.y as int),
    {
        let x: i64 = if self.x < 0 {
            -ONE
        } else if self.x == 0 {
            0
        } else {
            ONE
        };
        let y: i64 = if self.y < 0 {
            -ONE
        } else if self.y == 0 {
            0
        } else {
            ONE
        };
        Vec2 { x, y }
    }

    /// Componentwise absolute value.
    pub fn abs(&self) -> (r: Vec2)
        requires
            vec_ok(*self),
        ensures
            r.x == vstd::math::abs(self.x as int),
            r.y == vstd::math::abs(self.y as int),
    {
        let x: i64 = if self.x < 0 {
            -self.x
        } else {
            self.x
        };
        let y: i64 = if self.y < 0 {
            -self.y
        } else {
            self.y
        };
        Vec2 { x, y }
    }

    /// Unit vector in the same direction; a zero vector maps to (0, 1.0)
    /// instead of dividing by zero.
    pub fn normalize(&self) -> (r: Vec2)
        requires
            vec_ok(*self),
        ensures
            ({
                let l = sqrt_floor(len_sq(self.x as int, self.y as int));
                if l == 0 {
                    r.x == 0 && r.y == ONE
                } else {
                    r.x == sdiv_s(self.x * ONE, l) && r.y == sdiv_s(self.y * ONE, l)
                }
            }),
    {
        let len = self.length();
        if len == 0 {
            Vec2 { x: 0, y: ONE }
        } else {
            proof {
                lemma_mul_bound(self.x as int, ONE as int, COORD_LIMIT as int, ONE as int);
                lemma_mul_bound(self.y as int, ONE as int, COORD_LIMIT as int, ONE as int);
            }
            Vec2 { x: sdiv(self.x * ONE, len), y: sdiv(self.y * ONE, len) }
        }
    }

    /// Perpendicular unit vector; `polarity` picks the rotation direction,
    /// and a zero vector maps to (0, 1.0) or (0, -1.0) by convention.
    pub fn get_orthonormal(&self, polarity: bool) -> (r: Vec2)
        requires
            vec_ok(*self),
        ensures
            ({
                let l = sqrt_floor(len_sq(self.x as int, self.y as int));
                if l == 0 {
                    r.x == 0 && r.y == (if polarity {
                        ONE as int
                    } else {
                        -ONE as int
                    })
                } else if polarity {
                    r.x == sdiv_s(-(self.y * ONE), l) && r.y == sdiv_s(self.x * ONE, l)
                } else {
                    r.x == sdiv_s(self.y * ONE, l) && r.y == sdiv_s(-(self.x * ONE), l)
                }
            }),
    {
        let len = self.length();
        if len == 0 {
            if polarity {
                Vec2 { x: 0, y: ONE }
            } else {
                Vec2 { x: 0, y: -ONE }
            }
        } else {
            proof {
                lemma_mul_bound(self.x as int, ONE as int, COORD_LIMIT as int, ONE as int);
                lemma_mul_bound(self.y as int, ONE as int, COORD_LIMIT as int, ONE as int);
            }
            if polarity {
                Vec2 { x: sdiv(-(self.y * ONE), len), y: sdiv(self.x * ONE, len) }
            } else {
                Vec2 { x: sdiv(self.y * ONE, len), y: sdiv(-(self.x * ONE), len) }
            }
        }
    }

    /// Componentwise sum.
    pub fn add(&self, other: Vec2) -> (r: Vec2)
        requires
            vec_ok(*self),
            vec_ok(other),
        ensures
            r.x == self.x + other.x,
            r.y == self.y + other.y,
    {
        Vec2 { x: self.x + other.x, y: self.y + other.y }
    }

    /// Componentwise difference.
    pub fn sub(&self, other: Vec2) -> (r: Vec2)
        requires
            vec_ok(*self),
            vec_ok(other),
        ensures
            r.x == self.x - other.x,
            r.y == self.y - other.y,
    {
        Vec2 { x: self.x - other.x, y: self.y - other.y }
    }

    /// Componentwise fixed-point product.
    pub fn mul(&self, other: Vec2) -> (r: Vec2)
        requires
            vec_ok(*self),
            vec_ok(other),
        ensures
            r.x == (self.x * other.x) / (ONE as int),
            r.y == (self.y * other.y) / (ONE as int),
    {
        proof {
            lemma_mul_bound(self.x as int, other.x as int, COORD_LIMIT as int, COORD_LIMIT as int);
            lemma_mul_bound(self.y as int, other.y as int, COORD_LIMIT as int, COORD_LIMIT as int);
        }
        Vec2 { x: fdiv(self.x * other.x, ONE), y: fdiv(self.y * other.y, ONE) }
    }

    /// Componentwise fixed-point quotient.
    pub fn div(&self, other: Vec2) -> (r: Vec2)
        requires
            vec_ok(*self),
            vec_ok(other),
            other.x != 0,
            other.y != 0,
        ensures
            r.x == sdiv_s(self.x * ONE, other.x as int),
            r.y == sdiv_s(self.y * ONE, other.y as int),
    {
        proof {
            lemma_mul_bound(self.x as int, ONE as int, COORD_LIMIT as int, ONE as int);
            lemma_mul_bound(self.y as int, ONE as int, COORD_LIMIT as int, ONE as int);
        }
        Vec2 { x: sdiv(self.x * ONE, other.x), y: sdiv(self.y * ONE, other.y) }
    }
}

} // verus!
