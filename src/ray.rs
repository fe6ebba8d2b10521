//! Rays: a half-line `origin + t * direction`.
use crate::fixed::{div_floor, fmul, ONE};
use crate::vec3::{abs_le, bounded, lemma_fmul_bound, Vec3, LIMIT};
use vstd::prelude::*;

verus! {

/// Positions stay within 2^28 units (4096.0) of the origin in each coordinate.
pub const WORLD: i64 = 268435456;

/// Ray directions stay within 2^20 units (16.0) in each coordinate.
pub const DIR_LIMIT: i64 = 1048576;

/// A point in space.
pub type Point = Vec3;

#[derive(Clone, Copy, Debug, PartialEq, Eq, Structural)]
pub struct Ray {
    pub orig: Point,
    pub dir: Vec3,
}

/// `v` clamped to `[-WORLD, WORLD]`.
pub open spec fn clamp_world(v: int) -> int {
    if v < -WORLD {
        -WORLD
    } else if v > WORLD {
        WORLD as int
    } else {
        v
    }
}

fn clamp_to_world(v: i128) -> (r: i64)
    ensures
        r == clamp_world(v as int),
{
    if v < -(WORLD as i128) {
        -WORLD
    } else if v > WORLD as i128 {
        WORLD
    } else {
        v as i64
    }
}

/// The coordinate `o + t d` of a point along a ray, rounded down.
pub open spec fn coord_at(o: i64, d: i64, t: int) -> int {
    o + fmul(t, d as int)
}

impl Ray {
    /// The origin lies in the world and the direction is within its limit.
    pub open spec fn wf(self) -> bool {
        bounded(self.orig, WORLD as int) && bounded(self.dir, DIR_LIMIT as int)
    }

    /// The point at parameter `t` with each coordinate clamped to the world.
    pub open spec fn clamped_point_at(self, t: int) -> Point {
        Vec3 {
            x: clamp_world(coord_at(self.orig.x, self.dir.x, t)) as i64,
            y: clamp_world(coord_at(self.orig.y, self.dir.y, t)) as i64,
            z: clamp_world(coord_at(self.orig.z, self.dir.z, t)) as i64,
        }
    }

    /// The point at parameter `t`.
    pub open spec fn point_at(self, t: int) -> Point {
        Vec3 {
            x: coord_at(self.orig.x, self.dir.x, t) as i64,
            y: coord_at(self.orig.y, self.dir.y, t) as i64,
            z: coord_at(self.orig.z, self.dir.z, t) as i64,
        }
    }

    /// The ray at the origin with a zero direction.
    pub fn new_null() -> (r: Ray)
        ensures
            r.orig == (Vec3 { x: 0, y: 0, z: 0 }),
            r.dir == (Vec3 { x: 0, y: 0, z: 0 }),
    {
        Ray { orig: Vec3 { x: 0, y: 0, z: 0 }, dir: Vec3 { x: 0, y: 0, z: 0 } }
    }

    pub fn new(origin: Point, dir: Vec3) -> (r: Ray)
        ensures
            r.orig == origin && r.dir == dir,
    {
        Ray { orig: origin, dir }
    }

    /// The point `origin + t * direction`.
    pub fn at(&self, t: i64) -> (r: Point)
        requires
            self.wf(),
            abs_le(t as int, WORLD as int),
        ensures
            r == self.point_at(t as int),
    {
        proof {
            lemma_fmul_bound(t as int, self.dir.x as int, WORLD as int, DIR_LIMIT as int, LIMIT as int);
            crate::vec3::lemma_mul_abs_bound(t as int, self.dir.x as int, WORLD as int, DIR_LIMIT as int);
            lemma_fmul_bound(t as int, self.dir.y as int, WORLD as int, DIR_LIMIT as int, LIMIT as int);
            crate::vec3::lemma_mul_abs_bound(t as int, self.dir.y as int, WORLD as int, DIR_LIMIT as int);
            lemma_fmul_bound(t as int, self.dir.z as int, WORLD as int, DIR_LIMIT as int, LIMIT as int);
            crate::vec3::lemma_mul_abs_bound(t as int, self.dir.z as int, WORLD as int, DIR_LIMIT as int);
        }
        self.orig.plus(&self.dir.scaled(t))
    }

    /// The point at parameter `t`, each coordinate clamped to `[-WORLD, WORLD]`.
    pub fn at_clamped(&self, t: i64) -> (r: Point)
        requires
            self.wf(),
        ensures
            r == self.clamped_point_at(t as int),
            bounded(r, WORLD as int),
    {
        proof {
            crate::vec3::lemma_mul_abs_bound(t as int, self.dir.x as int, i64::MAX as int + 1, DIR_LIMIT as int);
            crate::vec3::lemma_mul_abs_bound(t as int, self.dir.y as int, i64::MAX as int + 1, DIR_LIMIT as int);
            crate::vec3::lemma_mul_abs_bound(t as int, self.dir.z as int, i64::MAX as int + 1, DIR_LIMIT as int);
        }
        let x = self.orig.x as i128 + div_floor(t as i128 * self.dir.x as i128, ONE as i128);
        let y = self.orig.y as i128 + div_floor(t as i128 * self.dir.y as i128, ONE as i128);
        let z = self.orig.z as i128 + div_floor(t as i128 * self.dir.z as i128, ONE as i128);
        Vec3 { x: clamp_to_world(x), y: clamp_to_world(y), z: clamp_to_world(z) }
    }

    pub fn origin(&self) -> (r: Point)
        ensures
            r == self.orig,
    {
        self.orig
    }

    pub fn direction(&self) -> (r: Vec3)
        ensures
            r == self.dir,
    {
        self.dir
    }
}

} // verus!
