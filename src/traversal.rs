use crate::coords::lemma_div_mod_parts;
use crate::model::position_key;
use crate::world::VoxelLookup;
use vstd::prelude::*;

verus! {

/// A ray in world space. Its origin is `origin / scale` on each axis, in fixed
/// point; its direction is `direction`, which need not be normalised, as
/// scaling it changes no voxel that the ray crosses.
#[derive(Clone, Copy, Debug, PartialEq, Eq)]
pub struct Ray {
    pub origin: (i32, i32, i32),
    pub scale: u32,
    pub direction: (i32, i32, i32),
}

/// Picks voxels under the cursor by walking the ray from the camera.
pub struct MousePicker {}

/// How many voxels a pick walks at most.
pub const MAX_DISTANCE: u32 = 20;

/// `+1` where the ray moves forward along the axis (or not at all), `-1` otherwise.
pub open spec fn axis_step(d: int) -> int {
    if d >= 0 {
        1
    } else {
        -1
    }
}

/// The voxel that holds the origin along one axis: `floor(o / s)`.
pub open spec fn axis_start(o: int, s: int) -> int {
    o / s
}

/// The voxel the walk starts from along one axis: the origin's voxel, one
/// lower where the ray moves backwards.
pub open spec fn axis_first(o: int, s: int, d: int) -> int {
    axis_start(o, s) + if d < 0 {
        -1int
    } else {
        0int
    }
}

/// Ray parameter of the next boundary crossing along one axis after `k`
/// advances on it, as the numerator over the denominator `s * |d|`: the first
/// crossing is at `(start + step - o / s) / d`, and each advance adds `1 / |d|`.
pub open spec fn axis_tnum(o: int, s: int, d: int, k: int) -> int {
    axis_step(d) * ((axis_start(o, s) + axis_step(d)) * s - o) + k * s
}

/// `|x|`.
pub open spec fn abs(x: int) -> int {
    if x < 0 {
        -x
    } else {
        x
    }
}

/// Whether the crossing `na / (s * |da|)` comes no later than `nb / (s * |db|)`,
/// where an axis along which the ray does not move never crosses (`+infinity`).
pub open spec fn t_le(na: int, da: int, nb: int, db: int) -> bool {
    if da == 0 {
        db == 0
    } else if db == 0 {
        true
    } else {
        na * abs(db) <= nb * abs(da)
    }
}

impl Ray {
    /// The origin's numerators, as integers.
    pub open spec fn o(self) -> (int, int, int) {
        (self.origin.0 as int, self.origin.1 as int, self.origin.2 as int)
    }

    /// The direction, as integers.
    pub open spec fn d(self) -> (int, int, int) {
        (self.direction.0 as int, self.direction.1 as int, self.direction.2 as int)
    }

    /// A ray that the walk accepts: a positive scale and a non-zero direction.
    pub open spec fn valid(self) -> bool {
        self.scale > 0 && self.direction != (0i32, 0i32, 0i32)
    }

    /// Crossing numerators of the three axes after `c` advances on each.
    pub open spec fn tnums(self, c: (nat, nat, nat)) -> (int, int, int) {
        let s = self.scale as int;
        (
            axis_tnum(self.o().0, s, self.d().0, c.0 as int),
            axis_tnum(self.o().1, s, self.d().1, c.1 as int),
            axis_tnum(self.o().2, s, self.d().2, c.2 as int),
        )
    }

    /// The axis of the next advance after `c` advances on each: the one whose
    /// next crossing comes first; on a tie X goes before Y, and the winner of
    /// those two before Z.
    pub open spec fn next_axis(self, c: (nat, nat, nat)) -> int {
        let n = self.tnums(c);
        let d = self.d();
        let xy = if t_le(n.0, d.0, n.1, d.1) {
            0int
        } else {
            1int
        };
        let (nw, dw) = if xy == 0 {
            (n.0, d.0)
        } else {
            (n.1, d.1)
        };
        if t_le(nw, dw, n.2, d.2) {
            xy
        } else {
            2
        }
    }

    /// How many advances the walk has made on each axis after `n` advances.
    pub open spec fn counts(self, n: nat) -> (nat, nat, nat)
        decreases n,
    {
        if n == 0 {
            (0, 0, 0)
        } else {
            let c = self.counts((n - 1) as nat);
            let a = self.next_axis(c);
            if a == 0 {
                ((c.0 + 1) as nat, c.1, c.2)
            } else if a == 1 {
                (c.0, (c.1 + 1) as nat, c.2)
            } else {
                (c.0, c.1, (c.2 + 1) as nat)
            }
        }
    }

    /// The voxel that the walk stands on after `n` advances.
    pub open spec fn voxel_after(self, n: nat) -> (int, int, int) {
        let s = self.scale as int;
        let c = self.counts(n);
        (
            axis_first(self.o().0, s, self.d().0) + axis_step(self.d().0) * c.0,
            axis_first(self.o().1, s, self.d().1) + axis_step(self.d().1) * c.1,
            axis_first(self.o().2, s, self.d().2) + axis_step(self.d().2) * c.2,
        )
    }
}

/// The first advance, among the first `n`, after which the walk stands on an
/// occupied voxel of `world`.
pub open spec fn hit_step<L: VoxelLookup>(world: L, ray: Ray, n: nat) -> Option<nat>
    decreases n,
{
    if n == 0 {
        None
    } else {
        match hit_step(world, ray, (n - 1) as nat) {
            Some(k) => Some(k),
            None => if world.spec_occupied(ray.voxel_after(n)) {
                Some(n)
            } else {
                None
            },
        }
    }
}

/// The walk reports the first occupied voxel within its first `n` advances,
/// and no hit means that none of those `n` voxels is occupied: it never looks
/// past `n` advances.
pub proof fn lemma_hit_step_bounded<L: VoxelLookup>(world: L, ray: Ray, n: nat)
    ensures
        match hit_step(world, ray, n) {
            Some(k) => {
                &&& 1 <= k <= n
                &&& world.spec_occupied(ray.voxel_after(k))
                &&& forall|j: nat|
                    1 <= j < k ==> !world.spec_occupied(#[trigger] ray.voxel_after(j))
            },
            None => forall|j: nat|
                1 <= j <= n ==> !world.spec_occupied(#[trigger] ray.voxel_after(j)),
        },
    decreases n,
{
    if n > 0 {
        lemma_hit_step_bounded(world, ray, (n - 1) as nat);
    }
}

/// Once the walk has hit, walking further changes nothing.
proof fn lemma_hit_step_stable<L: VoxelLookup>(world: L, ray: Ray, m: nat, n: nat)
    requires
        m <= n,
        hit_step(world, ray, m) is Some,
    ensures
        hit_step(world, ray, n) == hit_step(world, ray, m),
    decreases n - m,
{
    if m < n {
        lemma_hit_step_stable(world, ray, m, (n - 1) as nat);
    }
}

/// Per-axis set-up of the walk: the first voxel, the step, and the numerator
/// of the first crossing.
fn axis_setup(o: i32, s: u32, d: i32) -> (r: (i64, i64, i128))
    requires
        s > 0,
    ensures
        r.0 as int == axis_first(o as int, s as int, d as int),
        r.1 as int == axis_step(d as int),
        r.2 as int == axis_tnum(o as int, s as int, d as int, 0),
        0 < r.2 <= 2 * s,
        -0x8000_0001 <= r.0 <= 0x8000_0000,
{
    proof {
        lemma_div_mod_parts(o as int, s as int);
    }
    let start = (o as i64).checked_div_euclid(s as i64).unwrap();
    let step: i64 = if d >= 0 {
        1
    } else {
        -1
    };
    let first = if d < 0 {
        start - 1
    } else {
        start
    };
    assert(-0x8000_0001 * 0xffff_ffff <= (start + step) * s <= 0x8000_0001 * 0xffff_ffff)
        by (nonlinear_arith)
        requires
            -0x8000_0001 <= start + step <= 0x8000_0001,
            0 < s <= 0xffff_ffff,
    ;
    let boundary = (start + step) as i128 * (s as i128) - o as i128;
    proof {
        let q = o as int / s as int;
        let m = o as int % s as int;
        assert(boundary == (q + step) * s - o);
        assert((q + step) * s - o == step * s - m) by (nonlinear_arith)
            requires
                o == s * q + m,
        ;
    }
    let n0 = if d >= 0 {
        boundary
    } else {
        -boundary
    };
    (first, step, n0)
}

/// Whether the crossing `na / (s * |da|)` comes no later than `nb / (s * |db|)`.
fn crossing_le(na: i128, da: i32, nb: i128, db: i32) -> (r: bool)
    requires
        0 <= na < 0x4_0000_0000_0000_0000,
        0 <= nb < 0x4_0000_0000_0000_0000,
    ensures
        r == t_le(na as int, da as int, nb as int, db as int),
{
    if da == 0 {
        db == 0
    } else if db == 0 {
        true
    } else {
        let ada: i128 = if da < 0 {
            -(da as i128)
        } else {
            da as i128
        };
        let adb: i128 = if db < 0 {
            -(db as i128)
        } else {
            db as i128
        };
        assert(0 <= na * adb < 0x4_0000_0000_0000_0000 * 0x8000_0000) by (nonlinear_arith)
            requires
                0 <= na < 0x4_0000_0000_0000_0000,
                0 <= adb <= 0x8000_0000,
        ;
        assert(0 <= nb * ada < 0x4_0000_0000_0000_0000 * 0x8000_0000) by (nonlinear_arith)
            requires
                0 <= nb < 0x4_0000_0000_0000_0000,
                0 <= ada <= 0x8000_0000,
        ;
        na * adb <= nb * ada
    }
}

/// Walks the voxels that `ray` crosses, advancing at most `max_steps` times,
/// and returns the first occupied voxel stood on after an advance, if any.
pub fn pick_voxel<L: VoxelLookup>(ray: &Ray, world: &L, max_steps: u32) -> (r: Option<(
    i64,
    i64,
    i64,
)>)
    requires
        world.lookup_ready(),
        ray.valid(),
    ensures
        match r {
            Some(v) => hit_step(*world, *ray, max_steps as nat) matches Some(k) && position_key(v)
                == ray.voxel_after(k),
            None => hit_step(*world, *ray, max_steps as nat) is None,
        },
{
    let s = ray.scale;
    let (fx, sx, nx0) = axis_setup(ray.origin.0, s, ray.direction.0);
    let (fy, sy, ny0) = axis_setup(ray.origin.1, s, ray.direction.1);
    let (fz, sz, nz0) = axis_setup(ray.origin.2, s, ray.direction.2);
    let mut cx: i64 = fx;
    let mut cy: i64 = fy;
    let mut cz: i64 = fz;
    let mut nx: i128 = nx0;
    let mut ny: i128 = ny0;
    let mut nz: i128 = nz0;
    let ghost mut kx: nat = 0;
    let ghost mut ky: nat = 0;
    let ghost mut kz: nat = 0;
    let mut k: u32 = 0;
    assert(sx * kx == 0 && sy * ky == 0 && sz * kz == 0) by (nonlinear_arith)
        requires
            kx == 0,
            ky == 0,
            kz == 0,
    ;
    while k < max_steps
        invariant
            world.lookup_ready(),
            ray.valid(),
            s == ray.scale,
            k <= max_steps,
            ray.counts(k as nat) == (kx, ky, kz),
            kx + ky + kz == k,
            ray.tnums((kx, ky, kz)) == (nx as int, ny as int, nz as int),
            position_key((cx, cy, cz)) == ray.voxel_after(k as nat),
            fx as int == axis_first(ray.o().0, s as int, ray.d().0),
            fy as int == axis_first(ray.o().1, s as int, ray.d().1),
            fz as int == axis_first(ray.o().2, s as int, ray.d().2),
            sx as int == axis_step(ray.d().0),
            sy as int == axis_step(ray.d().1),
            sz as int == axis_step(ray.d().2),
            0 < nx0 <= 2 * s,
            0 < ny0 <= 2 * s,
            0 < nz0 <= 2 * s,
            nx == nx0 + kx * s,
            ny == ny0 + ky * s,
            nz == nz0 + kz * s,
            -0x8000_0001 <= fx <= 0x8000_0000,
            -0x8000_0001 <= fy <= 0x8000_0000,
            -0x8000_0001 <= fz <= 0x8000_0000,
            cx == fx + sx * kx,
            cy == fy + sy * ky,
            cz == fz + sz * kz,
            -0x8000_0001 - k <= cx <= 0x8000_0000 + k,
            -0x8000_0001 - k <= cy <= 0x8000_0000 + k,
            -0x8000_0001 - k <= cz <= 0x8000_0000 + k,
            hit_step(*world, *ray, k as nat) is None,
        decreases max_steps - k,
    {
        assert(0 <= kx * s <= 0xffff_ffff * 0xffff_ffff) by (nonlinear_arith)
            requires
                kx <= 0xffff_ffff,
                s <= 0xffff_ffff,
        ;
        assert(0 <= ky * s <= 0xffff_ffff * 0xffff_ffff) by (nonlinear_arith)
            requires
                ky <= 0xffff_ffff,
                s <= 0xffff_ffff,
        ;
        assert(0 <= kz * s <= 0xffff_ffff * 0xffff_ffff) by (nonlinear_arith)
            requires
                kz <= 0xffff_ffff,
                s <= 0xffff_ffff,
        ;
        let ghost c = (kx, ky, kz);
        let x_first = crossing_le(nx, ray.direction.0, ny, ray.direction.1);
        let (nw, dw) = if x_first {
            (nx, ray.direction.0)
        } else {
            (ny, ray.direction.1)
        };
        let w_first = crossing_le(nw, dw, nz, ray.direction.2);
        if w_first && x_first {
            cx = cx + sx;
            nx = nx + s as i128;
            proof {
                assert((kx + 1) * s == kx * s + s) by (nonlinear_arith);
                kx = kx + 1;
            }
        } else if w_first {
            cy = cy + sy;
            ny = ny + s as i128;
            proof {
                assert((ky + 1) * s == ky * s + s) by (nonlinear_arith);
                ky = ky + 1;
            }
        } else {
            cz = cz + sz;
            nz = nz + s as i128;
            proof {
                assert((kz + 1) * s == kz * s + s) by (nonlinear_arith);
                kz = kz + 1;
            }
        }
        assert(ray.next_axis(c) == if w_first && x_first {
            0int
        } else if w_first {
            1int
        } else {
            2int
        });
        k = k + 1;
        assert(ray.counts(k as nat) == (kx, ky, kz));
        if world.occupied(cx, cy, cz) {
            proof {
                lemma_hit_step_stable(*world, *ray, k as nat, max_steps as nat);
            }
            return Some((cx, cy, cz));
        }
    }
    None
}

impl MousePicker {
    /// The first occupied voxel along `ray` within `MAX_DISTANCE` advances.
    pub fn voxel_along_ray<L: VoxelLookup>(ray: &Ray, world: &L) -> (r: Option<(i64, i64, i64)>)
        requires
            world.lookup_ready(),
            ray.valid(),
        ensures
            match r {
                Some(v) => hit_step(*world, *ray, MAX_DISTANCE as nat) matches Some(k)
                    && position_key(v) == ray.voxel_after(k),
                None => hit_step(*world, *ray, MAX_DISTANCE as nat) is None,
            },
    {
        pick_voxel(ray, world, MAX_DISTANCE)
    }
}

} // verus!
