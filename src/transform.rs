//! Spatial transforms (scale, position, rotation) and their composition.
//!
//! Components are 64-bit integers with two's-complement (wrapping) arithmetic,
//! so every operation is total and composition is exact ring arithmetic.
use vstd::prelude::*;

verus! {

/// A three-component vector.
#[derive(Clone, Copy, Debug, PartialEq, Eq, Structural)]
pub struct Vec3 {
    pub x: i64,
    pub y: i64,
    pub z: i64,
}

/// A quaternion `s + x i + y j + z k`; `s` is the real part.
#[derive(Clone, Copy, Debug, PartialEq, Eq, Structural)]
pub struct Quat {
    pub s: i64,
    pub x: i64,
    pub y: i64,
    pub z: i64,
}

/// The placement of something in space: scale, then rotation, then translation.
#[derive(Clone, Copy, Debug, PartialEq, Eq, Structural)]
pub struct SpatialTransform {
    pub scale: Vec3,
    pub position: Vec3,
    pub rotation: Quat,
}

pub open spec fn spec_vec_add(a: Vec3, b: Vec3) -> Vec3 {
    Vec3 { x: a.x.wrapping_add(b.x), y: a.y.wrapping_add(b.y), z: a.z.wrapping_add(b.z) }
}

pub open spec fn spec_vec_mul_elem(a: Vec3, b: Vec3) -> Vec3 {
    Vec3 { x: a.x.wrapping_mul(b.x), y: a.y.wrapping_mul(b.y), z: a.z.wrapping_mul(b.z) }
}

pub open spec fn spec_vec_scale(a: Vec3, k: i64) -> Vec3 {
    Vec3 { x: a.x.wrapping_mul(k), y: a.y.wrapping_mul(k), z: a.z.wrapping_mul(k) }
}

pub open spec fn spec_cross(a: Vec3, b: Vec3) -> Vec3 {
    Vec3 {
        x: a.y.wrapping_mul(b.z).wrapping_sub(a.z.wrapping_mul(b.y)),
        y: a.z.wrapping_mul(b.x).wrapping_sub(a.x.wrapping_mul(b.z)),
        z: a.x.wrapping_mul(b.y).wrapping_sub(a.y.wrapping_mul(b.x)),
    }
}

/// The vector part of a quaternion.
pub open spec fn spec_quat_vector(q: Quat) -> Vec3 {
    Vec3 { x: q.x, y: q.y, z: q.z }
}

/// Hamilton product `a * b`.
pub open spec fn spec_quat_mul(a: Quat, b: Quat) -> Quat {
    Quat {
        s: a.s.wrapping_mul(b.s).wrapping_sub(a.x.wrapping_mul(b.x)).wrapping_sub(
            a.y.wrapping_mul(b.y),
        ).wrapping_sub(a.z.wrapping_mul(b.z)),
        x: a.s.wrapping_mul(b.x).wrapping_add(a.x.wrapping_mul(b.s)).wrapping_add(
            a.y.wrapping_mul(b.z),
        ).wrapping_sub(a.z.wrapping_mul(b.y)),
        y: a.s.wrapping_mul(b.y).wrapping_add(a.y.wrapping_mul(b.s)).wrapping_add(
            a.z.wrapping_mul(b.x),
        ).wrapping_sub(a.x.wrapping_mul(b.z)),
        z: a.s.wrapping_mul(b.z).wrapping_add(a.z.wrapping_mul(b.s)).wrapping_add(
            a.x.wrapping_mul(b.y),
        ).wrapping_sub(a.y.wrapping_mul(b.x)),
    }
}

/// Rotation of `v` by the unit quaternion `q`: `v + 2 qv x (qv x v + s v)`,
/// which equals `q v q*` whenever `q` has norm one.
pub open spec fn spec_rotate(q: Quat, v: Vec3) -> Vec3 {
    let qv = spec_quat_vector(q);
    let tmp = spec_vec_add(spec_cross(qv, v), spec_vec_scale(v, q.s));
    spec_vec_add(spec_vec_scale(spec_cross(qv, tmp), 2), v)
}

/// The transform that does nothing: unit scale, origin, identity rotation.
pub open spec fn spec_identity() -> SpatialTransform {
    SpatialTransform {
        scale: Vec3 { x: 1, y: 1, z: 1 },
        position: Vec3 { x: 0, y: 0, z: 0 },
        rotation: Quat { s: 1, x: 0, y: 0, z: 0 },
    }
}

/// The overall transform of a child placed by `child` inside `parent`.
pub open spec fn spec_combine(parent: SpatialTransform, child: SpatialTransform) -> SpatialTransform {
    SpatialTransform {
        scale: spec_vec_mul_elem(parent.scale, child.scale),
        position: spec_vec_add(
            parent.position,
            spec_rotate(parent.rotation, spec_vec_mul_elem(parent.scale, child.position)),
        ),
        rotation: spec_quat_mul(parent.rotation, child.rotation),
    }
}

impl Vec3 {
    pub fn new(x: i64, y: i64, z: i64) -> (r: Vec3)
        ensures
            r == (Vec3 { x, y, z }),
    {
        Vec3 { x, y, z }
    }

    /// Component-wise sum.
    pub fn add(&self, o: &Vec3) -> (r: Vec3)
        ensures
            r == spec_vec_add(*self, *o),
    {
        Vec3 { x: self.x.wrapping_add(o.x), y: self.y.wrapping_add(o.y), z: self.z.wrapping_add(o.z) }
    }

    /// Component-wise product.
    pub fn mul_element_wise(&self, o: &Vec3) -> (r: Vec3)
        ensures
            r == spec_vec_mul_elem(*self, *o),
    {
        Vec3 { x: self.x.wrapping_mul(o.x), y: self.y.wrapping_mul(o.y), z: self.z.wrapping_mul(o.z) }
    }

    /// Every component multiplied by `k`.
    pub fn scaled(&self, k: i64) -> (r: Vec3)
        ensures
            r == spec_vec_scale(*self, k),
    {
        Vec3 { x: self.x.wrapping_mul(k), y: self.y.wrapping_mul(k), z: self.z.wrapping_mul(k) }
    }

    /// Cross product `self x o`.
    pub fn cross(&self, o: &Vec3) -> (r: Vec3)
        ensures
            r == spec_cross(*self, *o),
    {
        Vec3 {
            x: self.y.wrapping_mul(o.z).wrapping_sub(self.z.wrapping_mul(o.y)),
            y: self.z.wrapping_mul(o.x).wrapping_sub(self.x.wrapping_mul(o.z)),
            z: self.x.wrapping_mul(o.y).wrapping_sub(self.y.wrapping_mul(o.x)),
        }
    }
}

impl Quat {
    pub fn new(s: i64, x: i64, y: i64, z: i64) -> (r: Quat)
        ensures
            r == (Quat { s, x, y, z }),
    {
        Quat { s, x, y, z }
    }

    /// Hamilton product `self * o`.
    pub fn mul(&self, o: &Quat) -> (r: Quat)
        ensures
            r == spec_quat_mul(*self, *o),
    {
        Quat {
            s: self.s.wrapping_mul(o.s).wrapping_sub(self.x.wrapping_mul(o.x)).wrapping_sub(
                self.y.wrapping_mul(o.y),
            ).wrapping_sub(self.z.wrapping_mul(o.z)),
            x: self.s.wrapping_mul(o.x).wrapping_add(self.x.wrapping_mul(o.s)).wrapping_add(
                self.y.wrapping_mul(o.z),
            ).wrapping_sub(self.z.wrapping_mul(o.y)),
            y: self.s.wrapping_mul(o.y).wrapping_add(self.y.wrapping_mul(o.s)).wrapping_add(
                self.z.wrapping_mul(o.x),
            ).wrapping_sub(self.x.wrapping_mul(o.z)),
            z: self.s.wrapping_mul(o.z).wrapping_add(self.z.wrapping_mul(o.s)).wrapping_add(
                self.x.wrapping_mul(o.y),
            ).wrapping_sub(self.y.wrapping_mul(o.x)),
        }
    }

    /// Rotates `v` by this quaternion.
    pub fn rotate(&self, v: &Vec3) -> (r: Vec3)
        ensures
            r == spec_rotate(*self, *v),
    {
        let qv = Vec3 { x: self.x, y: self.y, z: self.z };
        let tmp = qv.cross(v).add(&v.scaled(self.s));
        qv.cross(&tmp).scaled(2).add(v)
    }
}

impl SpatialTransform {
    /// The identity transform: unit scale, positioned at the origin, not rotated.
    pub fn identity() -> (r: SpatialTransform)
        ensures
            r == spec_identity(),
    {
        SpatialTransform {
            scale: Vec3 { x: 1, y: 1, z: 1 },
            position: Vec3 { x: 0, y: 0, z: 0 },
            rotation: Quat { s: 1, x: 0, y: 0, z: 0 },
        }
    }

    /// Combines this transform with a child transform, giving the child's overall transform.
    pub fn combine(&self, child: &SpatialTransform) -> (r: SpatialTransform)
        ensures
            r == spec_combine(*self, *child),
    {
        let scaled_position = self.scale.mul_element_wise(&child.position);
        let combined_scale = self.scale.mul_element_wise(&child.scale);
        let rotated_position = self.rotation.rotate(&scaled_position);
        let final_position = self.position.add(&rotated_position);
        let combined_rotation = self.rotation.mul(&child.rotation);
        SpatialTransform {
            scale: combined_scale,
            position: final_position,
            rotation: combined_rotation,
        }
    }

    /// The forward direction: the unit z axis rotated by this transform's rotation.
    pub fn forward(&self) -> (r: Vec3)
        ensures
            r == spec_rotate(self.rotation, Vec3 { x: 0, y: 0, z: 1 }),
    {
        self.rotation.rotate(&Vec3 { x: 0, y: 0, z: 1 })
    }

    /// The up direction: the unit y axis rotated by this transform's rotation.
    pub fn up(&self) -> (r: Vec3)
        ensures
            r == spec_rotate(self.rotation, Vec3 { x: 0, y: 1, z: 0 }),
    {
        self.rotation.rotate(&Vec3 { x: 0, y: 1, z: 0 })
    }
}

proof fn lemma_wrapping_units(a: i64)
    ensures
        (1i64).wrapping_mul(a) == a,
        a.wrapping_mul(1i64) == a,
        (0i64).wrapping_mul(a) == 0,
        a.wrapping_mul(0i64) == 0,
        (0i64).wrapping_add(a) == a,
        a.wrapping_add(0i64) == a,
        a.wrapping_sub(0i64) == a,
{
    assert(1 * a == a);
    assert(0 * a == 0);
    assert(a * 1 == a);
    assert(a * 0 == 0);
}

/// Combining with the identity as parent leaves any transform unchanged.
pub proof fn lemma_identity_combine(t: SpatialTransform)
    ensures
        spec_combine(spec_identity(), t) == t,
{
    lemma_wrapping_units(t.scale.x);
    lemma_wrapping_units(t.scale.y);
    lemma_wrapping_units(t.scale.z);
    lemma_wrapping_units(t.position.x);
    lemma_wrapping_units(t.position.y);
    lemma_wrapping_units(t.position.z);
    lemma_wrapping_units(t.rotation.s);
    lemma_wrapping_units(t.rotation.x);
    lemma_wrapping_units(t.rotation.y);
    lemma_wrapping_units(t.rotation.z);
    lemma_wrapping_units(0);
    lemma_wrapping_units(2);
}

/// Combining with the identity as child gives the parent back.
pub proof fn lemma_combine_identity(t: SpatialTransform)
    ensures
        spec_combine(t, spec_identity()) == t,
{
    lemma_wrapping_units(t.scale.x);
    lemma_wrapping_units(t.scale.y);
    lemma_wrapping_units(t.scale.z);
    lemma_wrapping_units(t.position.x);
    lemma_wrapping_units(t.position.y);
    lemma_wrapping_units(t.position.z);
    lemma_wrapping_units(t.rotation.s);
    lemma_wrapping_units(t.rotation.x);
    lemma_wrapping_units(t.rotation.y);
    lemma_wrapping_units(t.rotation.z);
    lemma_wrapping_units(0);
    lemma_wrapping_units(2);
}

} // verus!
