//! Moon physics: gravity pulls each coordinate of each moon one unit
//! toward every other moon, velocity moves it, and total energy is
//! potential times kinetic. The three axes evolve independently, and
//! the simulation is reversible, so each axis first repeats itself at
//! its own return to the start; the whole system's period is their
//! least common multiple.

use crate::solutions::day10::gcd_spec;
use vstd::prelude::*;
use vstd::string::StringSliceAdditionalSpecFns;

verus! {

/// A three-component integer vector.
#[derive(Debug, Clone, Copy, PartialEq, Eq, Hash, Structural)]
pub struct Vector {
    pub x: i32,
    pub y: i32,
    pub z: i32,
}

/// A moon: where it is and how it moves.
#[derive(Debug, Clone, Copy, PartialEq, Eq, Hash, Structural)]
pub struct Moon {
    pub p: Vector,
    pub v: Vector,
}

/// A moon as the specification sees it, free of machine widths.
#[verifier::ext_equal]
pub ghost struct GMoon {
    pub px: int,
    pub py: int,
    pub pz: int,
    pub vx: int,
    pub vy: int,
    pub vz: int,
}

/// The mathematical image of a moon.
pub open spec fn gview(m: Moon) -> GMoon {
    GMoon {
        px: m.p.x as int,
        py: m.p.y as int,
        pz: m.p.z as int,
        vx: m.v.x as int,
        vy: m.v.y as int,
        vz: m.v.z as int,
    }
}

/// The mathematical image of a moon catalogue.
pub open spec fn gmoons(ms: Seq<Moon>) -> Seq<GMoon> {
    ms.map_values(|m: Moon| gview(m))
}

/// One unit of gravity along one coordinate.
pub open spec fn sgn_toward(a: int, b: int) -> int {
    if a == b {
        0
    } else if a < b {
        1
    } else {
        -1
    }
}

/// The gravity on coordinate picker `which` of moon `i` from the first
/// `k` moons: 0 picks x, 1 picks y, anything else z.
pub open spec fn pull(ms: Seq<GMoon>, i: int, which: int, k: int) -> int
    decreases k,
{
    if k <= 0 {
        0
    } else {
        pull(ms, i, which, k - 1) + (if which == 0 {
            sgn_toward(ms[i].px, ms[k - 1].px)
        } else if which == 1 {
            sgn_toward(ms[i].py, ms[k - 1].py)
        } else {
            sgn_toward(ms[i].pz, ms[k - 1].pz)
        })
    }
}

/// One time step of one moon: velocity takes the gravity of every
/// moon, then position takes the velocity.
pub open spec fn gstep_moon(ms: Seq<GMoon>, i: int) -> GMoon {
    let n = ms.len() as int;
    let vx = ms[i].vx + pull(ms, i, 0, n);
    let vy = ms[i].vy + pull(ms, i, 1, n);
    let vz = ms[i].vz + pull(ms, i, 2, n);
    GMoon { px: ms[i].px + vx, py: ms[i].py + vy, pz: ms[i].pz + vz, vx, vy, vz }
}

/// One time step of the whole system.
pub open spec fn gstep(ms: Seq<GMoon>) -> Seq<GMoon> {
    Seq::new(ms.len(), |i: int| gstep_moon(ms, i))
}

/// The system after `k` time steps.
pub open spec fn giter(ms: Seq<GMoon>, k: nat) -> Seq<GMoon>
    decreases k,
{
    if k == 0 {
        ms
    } else {
        gstep(giter(ms, (k - 1) as nat))
    }
}

/// Whether every component still fits a 32-bit machine word.
pub open spec fn in_range(ms: Seq<GMoon>) -> bool {
    forall|i: int|
        0 <= i < ms.len() ==> {
            let m = #[trigger] ms[i];
            &&& i32::MIN <= m.px <= i32::MAX
            &&& i32::MIN <= m.py <= i32::MAX
            &&& i32::MIN <= m.pz <= i32::MAX
            &&& i32::MIN <= m.vx <= i32::MAX
            &&& i32::MIN <= m.vy <= i32::MAX
            &&& i32::MIN <= m.vz <= i32::MAX
        }
}

/// An absolute value.
pub open spec fn abs_i(v: int) -> int {
    if v >= 0 {
        v
    } else {
        -v
    }
}

/// A moon's total energy: potential times kinetic.
pub open spec fn genergy(m: GMoon) -> int {
    (abs_i(m.px) + abs_i(m.py) + abs_i(m.pz)) * (abs_i(m.vx) + abs_i(m.vy) + abs_i(m.vz))
}

/// The system's total energy over its first `k` moons.
pub open spec fn genergy_sum(ms: Seq<GMoon>, k: int) -> int
    decreases k,
{
    if k <= 0 {
        0
    } else {
        genergy_sum(ms, k - 1) + genergy(ms[k - 1])
    }
}

impl Vector {
    /// The sum of the coordinates' absolute values.
    pub fn energy(self) -> (r: i64)
        ensures
            r == abs_i(self.x as int) + abs_i(self.y as int) + abs_i(self.z as int),
    {
        let a = if self.x >= 0 {
            self.x as i64
        } else {
            -(self.x as i64)
        };
        let b = if self.y >= 0 {
            self.y as i64
        } else {
            -(self.y as i64)
        };
        let c = if self.z >= 0 {
            self.z as i64
        } else {
            -(self.z as i64)
        };
        a + b + c
    }

    /// One unit of gravity per coordinate, toward `other`.
    pub fn diff(self, other: Vector) -> (r: (i32, i32, i32))
        ensures
            r.0 == sgn_toward(self.x as int, other.x as int),
            r.1 == sgn_toward(self.y as int, other.y as int),
            r.2 == sgn_toward(self.z as int, other.z as int),
    {
        let x: i32 = if self.x == other.x {
            0
        } else if self.x < other.x {
            1
        } else {
            -1
        };
        let y: i32 = if self.y == other.y {
            0
        } else if self.y < other.y {
            1
        } else {
            -1
        };
        let z: i32 = if self.z == other.z {
            0
        } else if self.z < other.z {
            1
        } else {
            -1
        };
        (x, y, z)
    }
}

impl Moon {
    /// Potential energy times kinetic energy.
    pub fn energy(&self) -> (r: i128)
        ensures
            r == genergy(gview(*self)),
    {
        let p = self.p.energy();
        let v = self.v.energy();
        proof {
            assert((p as i128) * (v as i128) == genergy(gview(*self))) by (nonlinear_arith)
                requires
                    p == abs_i(self.p.x as int) + abs_i(self.p.y as int) + abs_i(self.p.z as int),
                    v == abs_i(self.v.x as int) + abs_i(self.v.y as int) + abs_i(self.v.z as int),
                    genergy(gview(*self)) == (abs_i(self.p.x as int) + abs_i(self.p.y as int)
                        + abs_i(self.p.z as int)) * (abs_i(self.v.x as int) + abs_i(
                        self.v.y as int,
                    ) + abs_i(self.v.z as int)),
            ;
            assert(-0x2_0000_0000 <= p <= 0x2_0000_0000);
            assert(-0x2_0000_0000 <= v <= 0x2_0000_0000);
            assert((p as i128) * (v as i128) <= 0x4_0000_0000_0000_0000 && (p as i128) * (
            v as i128) >= -0x4_0000_0000_0000_0000) by (nonlinear_arith)
                requires
                    -0x2_0000_0000 <= p <= 0x2_0000_0000,
                    -0x2_0000_0000 <= v <= 0x2_0000_0000,
            ;
        }
        (p as i128) * (v as i128)
    }
}

/// The system of moons, stepped one tick at a time.
#[derive(Debug, Clone)]
pub struct Simulation {
    pub moons: Vec<Moon>,
}

impl Simulation {
    /// A simulation holding exactly these moons.
    pub fn new(moons: &[Moon]) -> (r: Simulation)
        ensures
            r.moons@ == moons@,
    {
        Simulation { moons: vstd::slice::slice_to_vec(moons) }
    }

    /// One time step: gravity adjusts every velocity, then velocity
    /// moves every position. Where any component would leave the
    /// 32-bit range the system is left unchanged and `None` comes
    /// back; otherwise the stepped moons.
    pub fn next(&mut self) -> (r: Option<Vec<Moon>>)
        requires
            old(self).moons@.len() <= 0x1000_0000,
        ensures
            in_range(gstep(gmoons(old(self).moons@))) ==> (r matches Some(m)
                && m@ == final(self).moons@
                && gmoons(final(self).moons@) == gstep(gmoons(old(self).moons@))),
            !in_range(gstep(gmoons(old(self).moons@))) ==> (r is None
                && final(self).moons@ == old(self).moons@),
    {
        let ghost gms = gmoons(self.moons@);
        let n = self.moons.len();
        let mut new_moons: Vec<Moon> = Vec::new();
        let mut i: usize = 0;
        while i < n
            invariant
                i <= n,
                n == self.moons@.len(),
                n <= 0x1000_0000,
                gms == gmoons(self.moons@),
                new_moons@.len() == i,
                forall|t: int| 0 <= t < i ==> gview(#[trigger] new_moons@[t]) == gstep_moon(
                    gms,
                    t,
                ),
            decreases n - i,
        {
            let m = self.moons[i];
            let mut vx: i64 = m.v.x as i64;
            let mut vy: i64 = m.v.y as i64;
            let mut vz: i64 = m.v.z as i64;
            let mut j: usize = 0;
            while j < n
                invariant
                    i < n,
                    j <= n,
                    n == self.moons@.len(),
                    n <= 0x1000_0000,
                    gms == gmoons(self.moons@),
                    m == self.moons@[i as int],
                    vx == gms[i as int].vx + pull(gms, i as int, 0, j as int),
                    vy == gms[i as int].vy + pull(gms, i as int, 1, j as int),
                    vz == gms[i as int].vz + pull(gms, i as int, 2, j as int),
                    gms[i as int].vx - j <= vx <= gms[i as int].vx + j,
                    gms[i as int].vy - j <= vy <= gms[i as int].vy + j,
                    gms[i as int].vz - j <= vz <= gms[i as int].vz + j,
                decreases n - j,
            {
                let d = m.p.diff(self.moons[j].p);
                vx = vx + d.0 as i64;
                vy = vy + d.1 as i64;
                vz = vz + d.2 as i64;
                j = j + 1;
            }
            let px = m.p.x as i64 + vx;
            let py = m.p.y as i64 + vy;
            let pz = m.p.z as i64 + vz;
            proof {
                assert(gstep_moon(gms, i as int) == GMoon {
                    px: px as int,
                    py: py as int,
                    pz: pz as int,
                    vx: vx as int,
                    vy: vy as int,
                    vz: vz as int,
                });
            }
            let lo = i32::MIN as i64;
            let hi = i32::MAX as i64;
            if !(lo <= vx && vx <= hi && lo <= vy && vy <= hi && lo <= vz && vz <= hi && lo <= px
                && px <= hi && lo <= py && py <= hi && lo <= pz && pz <= hi) {
                proof {
                    assert(!moon_fits(gstep_moon(gms, i as int)));
                    if in_range(gstep(gms)) {
                        assert(gstep(gms)[i as int] == gstep_moon(gms, i as int));
                        assert(moon_fits(gstep_moon(gms, i as int)));
                    }
                }
                return None;
            }
            new_moons.push(
                Moon {
                    p: Vector { x: px as i32, y: py as i32, z: pz as i32 },
                    v: Vector { x: vx as i32, y: vy as i32, z: vz as i32 },
                },
            );
            i = i + 1;
        }
        proof {
            assert forall|t: int| 0 <= t < gstep(gms).len() implies {
                let m2 = #[trigger] gstep(gms)[t];
                &&& i32::MIN <= m2.px <= i32::MAX
                &&& i32::MIN <= m2.py <= i32::MAX
                &&& i32::MIN <= m2.pz <= i32::MAX
                &&& i32::MIN <= m2.vx <= i32::MAX
                &&& i32::MIN <= m2.vy <= i32::MAX
                &&& i32::MIN <= m2.vz <= i32::MAX
            } by {
                assert(gstep(gms)[t] == gstep_moon(gms, t));
                assert(gview(new_moons@[t]) == gstep_moon(gms, t));
            }
            assert(in_range(gstep(gms)));
        }
        self.moons = new_moons;
        let out = self.moons.clone();
        proof {
            assert(gmoons(self.moons@) =~= gstep(gms));
            assert(out@ =~= self.moons@);
        }
        Some(out)
    }
}

/// Whether one stepped moon's components all fit the machine width.
pub open spec fn moon_fits(m: GMoon) -> bool {
    &&& i32::MIN <= m.px <= i32::MAX
    &&& i32::MIN <= m.py <= i32::MAX
    &&& i32::MIN <= m.pz <= i32::MAX
    &&& i32::MIN <= m.vx <= i32::MAX
    &&& i32::MIN <= m.vy <= i32::MAX
    &&& i32::MIN <= m.vz <= i32::MAX
}

} // verus!

verus! {

/// Whether the first `n` time steps all stay inside the machine
/// width.
pub open spec fn steps_ok(ms: Seq<GMoon>, n: nat) -> bool {
    forall|k: nat| k < n ==> in_range(#[trigger] giter(ms, k + 1))
}

/// Total energy after running the simulation `steps + 1` ticks (the
/// step count names the last tick taken, as an iterator's `nth`
/// does). `None` where any component would leave the machine width on
/// the way, or the sum a 128-bit word.
pub fn solve_01(moons: &[Moon], steps: usize) -> (r: Option<i128>)
    requires
        moons@.len() <= 0x1000_0000,
        steps < usize::MAX,
    ensures
        r matches Some(e) ==> steps_ok(gmoons(moons@), (steps + 1) as nat) && e == genergy_sum(
            giter(gmoons(moons@), (steps + 1) as nat),
            moons@.len() as int,
        ),
        r is None ==> !steps_ok(gmoons(moons@), (steps + 1) as nat),
{
    let ghost ms0 = gmoons(moons@);
    let mut sim = Simulation::new(moons);
    let mut k: usize = 0;
    proof {
        assert(gmoons(sim.moons@) == giter(ms0, 0));
    }
    while k < steps + 1
        invariant
            k <= steps + 1,
            steps < usize::MAX,
            moons@.len() <= 0x1000_0000,
            ms0 == gmoons(moons@),
            sim.moons@.len() == moons@.len(),
            gmoons(sim.moons@) == giter(ms0, k as nat),
            forall|t: nat| t < k ==> in_range(#[trigger] giter(ms0, t + 1)),
        decreases steps + 1 - k,
    {
        let ghost before = gmoons(sim.moons@);
        match sim.next() {
            Some(_) => {
                proof {
                    assert(gmoons(sim.moons@) == gstep(before));
                    assert(giter(ms0, k as nat + 1) == gstep(giter(ms0, k as nat)));
                    assert(sim.moons@.len() == gmoons(sim.moons@).len());
                }
            },
            None => {
                proof {
                    assert(!in_range(gstep(before)));
                    assert(giter(ms0, k as nat + 1) == gstep(giter(ms0, k as nat)));
                    assert(!steps_ok(ms0, (steps + 1) as nat));
                }
                return None;
            },
        }
        k = k + 1;
    }
    let n = sim.moons.len();
    let ghost fin = gmoons(sim.moons@);
    let mut acc: i128 = 0;
    let mut i: usize = 0;
    while i < n
        invariant
            i <= n,
            n == sim.moons@.len(),
            n <= 0x1000_0000,
            fin == gmoons(sim.moons@),
            acc == genergy_sum(fin, i as int),
            -(i as int) * 0x100_0000_0000_0000_0000 <= acc <= (i as int)
                * 0x100_0000_0000_0000_0000,
        decreases n - i,
    {
        let e = sim.moons[i].energy();
        proof {
            assert(gview(sim.moons@[i as int]) == fin[i as int]);
            assert(-0x100_0000_0000_0000_0000i128 <= e <= 0x100_0000_0000_0000_0000i128)
                by (nonlinear_arith)
                requires
                    e == genergy(gview(sim.moons@[i as int])),
                    genergy(gview(sim.moons@[i as int])) == (abs_i(sim.moons@[i as int].p.x as int)
                        + abs_i(sim.moons@[i as int].p.y as int) + abs_i(
                        sim.moons@[i as int].p.z as int,
                    )) * (abs_i(sim.moons@[i as int].v.x as int) + abs_i(
                        sim.moons@[i as int].v.y as int,
                    ) + abs_i(sim.moons@[i as int].v.z as int)),
            ;
        }
        acc = acc + e;
        i = i + 1;
    }
    proof {
        assert(genergy_sum(fin, n as int) == genergy_sum(
            giter(ms0, (steps + 1) as nat),
            moons@.len() as int,
        ));
    }
    Some(acc)
}

} // verus!

verus! {

/// How many scheduling ticks the cycle search will try; far beyond
/// any input of sane size.
pub const CYCLE_FUEL: u64 = 0x1000_0000;

/// One axis of the system: each moon's (position, velocity) on it.
/// 0 picks x, 1 picks y, anything else z.
pub open spec fn axis(ms: Seq<GMoon>, which: int) -> Seq<(int, int)> {
    Seq::new(
        ms.len(),
        |i: int|
            if which == 0 {
                (ms[i].px, ms[i].vx)
            } else if which == 1 {
                (ms[i].py, ms[i].vy)
            } else {
                (ms[i].pz, ms[i].vz)
            },
    )
}

/// Whether `n` is the first tick at which one axis returns to its
/// start.
pub open spec fn axis_cycle_at(ms: Seq<GMoon>, which: int, n: nat) -> bool {
    &&& 1 <= n <= CYCLE_FUEL
    &&& axis(giter(ms, n), which) == axis(ms, which)
    &&& forall|m: nat| 1 <= m < n ==> axis(#[trigger] giter(ms, m), which) != axis(ms, which)
}

/// The least common multiple by the usual formula.
pub open spec fn lcm_spec(a: nat, b: nat) -> nat {
    if gcd_spec(a, b) == 0 {
        0
    } else {
        (a / gcd_spec(a, b)) * b
    }
}

/// Whether two catalogues agree on one axis.
fn axis_eq(cur: &Vec<Moon>, init: &[Moon], which: u8) -> (r: bool)
    requires
        cur@.len() == init@.len(),
    ensures
        r == (axis(gmoons(cur@), which as int) == axis(gmoons(init@), which as int)),
{
    let mut i: usize = 0;
    while i < cur.len()
        invariant
            i <= cur@.len(),
            cur@.len() == init@.len(),
            forall|t: int|
                0 <= t < i ==> axis(gmoons(cur@), which as int)[t] == axis(
                    gmoons(init@),
                    which as int,
                )[t],
        decreases cur@.len() - i,
    {
        let a = cur[i];
        let b = *vstd::slice::slice_index_get(init, i);
        let same = if which == 0 {
            a.p.x == b.p.x && a.v.x == b.v.x
        } else if which == 1 {
            a.p.y == b.p.y && a.v.y == b.v.y
        } else {
            a.p.z == b.p.z && a.v.z == b.v.z
        };
        if !same {
            proof {
                assert(axis(gmoons(cur@), which as int)[i as int] != axis(
                    gmoons(init@),
                    which as int,
                )[i as int]);
            }
            return false;
        }
        proof {
            assert(axis(gmoons(cur@), which as int)[i as int] == axis(
                gmoons(init@),
                which as int,
            )[i as int]);
        }
        i = i + 1;
    }
    proof {
        assert(axis(gmoons(cur@), which as int) =~= axis(gmoons(init@), which as int));
    }
    true
}

/// The first tick at which one axis returns to its start, or `None`
/// where the search budget runs out or a component would leave the
/// machine width.
fn axis_cycle(moons: &[Moon], which: u8) -> (r: Option<u64>)
    requires
        moons@.len() <= 0x1000_0000,
    ensures
        r matches Some(n2) ==> axis_cycle_at(gmoons(moons@), which as int, n2 as nat),
{
    let ghost gm = gmoons(moons@);
    let mut sim = Simulation::new(moons);
    let mut k: u64 = 0;
    loop
        invariant_except_break
            k <= CYCLE_FUEL,
            moons@.len() <= 0x1000_0000,
            gm == gmoons(moons@),
            sim.moons@.len() == moons@.len(),
            gmoons(sim.moons@) == giter(gm, k as nat),
            forall|m: nat|
                1 <= m <= k ==> axis(#[trigger] giter(gm, m), which as int) != axis(
                    gm,
                    which as int,
                ),
        ensures
            true,
        decreases CYCLE_FUEL - k,
    {
        if k >= CYCLE_FUEL {
            return None;
        }
        let ghost before = gmoons(sim.moons@);
        match sim.next() {
            Some(_) => {
                proof {
                    assert(gmoons(sim.moons@) == gstep(before));
                    assert(giter(gm, k as nat + 1) == gstep(giter(gm, k as nat)));
                    assert(sim.moons@.len() == gmoons(sim.moons@).len());
                }
            },
            None => {
                return None;
            },
        }
        k = k + 1;
        if axis_eq(&sim.moons, moons, which) {
            proof {
                assert(axis_cycle_at(gm, which as int, k as nat));
            }
            return Some(k);
        }
    }
}

/// Euclid's algorithm on two tick counts.
fn gcd_u64(m: u64, n: u64) -> (r: u64)
    ensures
        r == gcd_spec(m as nat, n as nat),
    decreases m,
{
    let mut a = m;
    let mut b = n;
    while a != 0
        invariant
            gcd_spec(a as nat, b as nat) == gcd_spec(m as nat, n as nat),
        decreases a,
    {
        let t = b % a;
        proof {
            assert(t < a) by (nonlinear_arith)
                requires
                    a > 0,
                    t == b % a,
            ;
        }
        b = a;
        a = t;
    }
    b
}

/// How many ticks until the whole system first repeats: each axis
/// returns to its start on its own period, and the system's period is
/// the least common multiple of the three. `None` where an axis finds
/// no cycle within the search budget, a component would leave the
/// machine width, or the multiple a 64-bit word.
pub fn solve_02(moons: &[Moon]) -> (r: Option<u64>)
    requires
        moons@.len() <= 0x1000_0000,
    ensures
        r matches Some(v) ==> exists|nx: u64, ny: u64, nz: u64|
            axis_cycle_at(gmoons(moons@), 0, nx as nat) && axis_cycle_at(
                gmoons(moons@),
                1,
                ny as nat,
            ) && axis_cycle_at(gmoons(moons@), 2, nz as nat) && v == lcm_spec(
                lcm_spec(nx as nat, ny as nat),
                nz as nat,
            ),
{
    let nx = match axis_cycle(moons, 0) {
        Some(v) => v,
        None => {
            return None;
        },
    };
    let ny = match axis_cycle(moons, 1) {
        Some(v) => v,
        None => {
            return None;
        },
    };
    let nz = match axis_cycle(moons, 2) {
        Some(v) => v,
        None => {
            return None;
        },
    };
    let l1 = match lcm_u64(nx, ny) {
        Some(v) => v,
        None => {
            return None;
        },
    };
    let l2 = match lcm_u64(l1, nz) {
        Some(v) => v,
        None => {
            return None;
        },
    };
    Some(l2)
}

/// The least common multiple, or `None` where it would not fit.
fn lcm_u64(a: u64, b: u64) -> (r: Option<u64>)
    ensures
        r matches Some(v) ==> v == lcm_spec(a as nat, b as nat),
{
    let g = gcd_u64(a, b);
    if g == 0 {
        return Some(0);
    }
    let q = a / g;
    proof {
        assert((q as int) * (b as int) < 0x1_0000_0000_0000_0000_0000_0000_0000_0000)
            by (nonlinear_arith)
            requires
                (q as int) < 0x1_0000_0000_0000_0000,
                (b as int) < 0x1_0000_0000_0000_0000,
                (q as int) >= 0,
                (b as int) >= 0,
        ;
    }
    let wide = (q as u128) * (b as u128);
    if wide > u64::MAX as u128 {
        return None;
    }
    proof {
        assert((q as u128) * (b as u128) == (a as nat / gcd_spec(a as nat, b as nat)) * (
        b as nat)) by (nonlinear_arith)
            requires
                q == a as nat / g as nat,
                g == gcd_spec(a as nat, b as nat),
                g > 0,
        ;
    }
    Some(wide as u64)
}

} // verus!

verus! {

/// The value of one `tag=value` field, `tag` being the axis letter.
pub open spec fn field_val(t: Seq<u8>, tag: u8) -> Option<i64> {
    let u = crate::intcode::trim_front(t);
    if u.len() >= 2 && u[0] == tag && u[1] == 61 {
        crate::intcode::token_val(u.subrange(2, u.len() as int))
    } else {
        None
    }
}

/// The vector a catalogue line names: `<x=…, y=…, z=…>`, whitespace
/// permitted around each part, each value fitting 32 bits.
pub open spec fn vector_spec(t: Seq<u8>) -> Option<(int, int, int)> {
    let u = crate::intcode::trimmed(t);
    if u.len() >= 2 && u[0] == 60 && u.last() == 62 {
        let inner = u.subrange(1, u.len() - 1);
        let c1 = crate::intcode::first_comma(inner);
        if 0 <= c1 < inner.len() {
            let rest = inner.subrange(c1 + 1, inner.len() as int);
            let c2 = crate::intcode::first_comma(rest);
            if 0 <= c2 < rest.len() {
                match (field_val(inner.subrange(0, c1), 120), field_val(rest.subrange(0, c2), 121), field_val(rest.subrange(c2 + 1, rest.len() as int), 122)) {
                    (Some(x), Some(y), Some(z)) => {
                        if i32::MIN <= x <= i32::MAX && i32::MIN <= y <= i32::MAX && i32::MIN <= z
                            <= i32::MAX {
                            Some((x as int, y as int, z as int))
                        } else {
                            None
                        }
                    },
                    _ => None,
                }
            } else {
                None
            }
        } else {
            None
        }
    } else {
        None
    }
}

/// Parses one `tag=value` field.
fn parse_field(b: &Vec<u8>, lo: usize, hi: usize, tag: u8) -> (r: Option<i64>)
    requires
        lo <= hi <= b@.len(),
    ensures
        r == field_val(b@.subrange(lo as int, hi as int), tag),
{
    let fs = crate::intcode::skip_space_front(b, lo, hi);
    if hi - fs < 2 {
        return None;
    }
    if b[fs] != tag || b[fs + 1] != 61 {
        return None;
    }
    proof {
        assert(b@.subrange(fs as int, hi as int).subrange(2, (hi - fs) as int) =~= b@.subrange(
            fs as int + 2,
            hi as int,
        ));
    }
    crate::intcode::parse_token(b, fs + 2, hi)
}

/// Reads one moon position line.
#[verifier::rlimit(100)]
pub fn parse_vector(s: &str) -> (r: Option<Vector>)
    ensures
        r matches Some(v) ==> vector_spec(s.spec_bytes()) == Some(
            (v.x as int, v.y as int, v.z as int),
        ),
        r is None ==> vector_spec(s.spec_bytes()) is None,
{
    let b = vstd::slice::slice_to_vec(s.as_bytes());
    let n = b.len();
    proof {
        assert(b@.subrange(0, n as int) =~= b@);
    }
    let ls = crate::intcode::skip_space_front(&b, 0, n);
    let le = crate::intcode::skip_space_back(&b, ls, n);
    let ghost u = crate::intcode::trimmed(b@);
    proof {
        assert(u == b@.subrange(ls as int, le as int));
    }
    if le - ls < 2 {
        return None;
    }
    if b[ls] != 60 || b[le - 1] != 62 {
        return None;
    }
    let lo = ls + 1;
    let hi = le - 1;
    let ghost inner = u.subrange(1, u.len() - 1);
    proof {
        assert(inner =~= b@.subrange(lo as int, hi as int));
    }
    let mut c1 = lo;
    while c1 < hi && b[c1] != 44
        invariant
            lo <= c1 <= hi <= b@.len(),
            forall|j: int| lo <= j < c1 ==> b@[j] != 44,
        decreases hi - c1,
    {
        c1 = c1 + 1;
    }
    proof {
        lemma_first_comma_at12(inner, c1 - lo);
    }
    if c1 == hi {
        return None;
    }
    let ghost rest = inner.subrange(c1 - lo + 1, inner.len() as int);
    proof {
        assert(rest =~= b@.subrange(c1 as int + 1, hi as int));
    }
    let mut c2 = c1 + 1;
    while c2 < hi && b[c2] != 44
        invariant
            c1 + 1 <= c2 <= hi <= b@.len(),
            forall|j: int| c1 + 1 <= j < c2 ==> b@[j] != 44,
        decreases hi - c2,
    {
        c2 = c2 + 1;
    }
    proof {
        lemma_first_comma_at12(rest, c2 - c1 - 1);
    }
    if c2 == hi {
        return None;
    }
    proof {
        assert(inner.subrange(0, c1 - lo) =~= b@.subrange(lo as int, c1 as int));
        assert(rest.subrange(0, c2 - c1 - 1) =~= b@.subrange(c1 as int + 1, c2 as int));
        assert(rest.subrange(c2 - c1 - 1 + 1, rest.len() as int) =~= b@.subrange(
            c2 as int + 1,
            hi as int,
        ));
    }
    let x = match parse_field(&b, lo, c1, 120) {
        Some(v) => v,
        None => {
            return None;
        },
    };
    let y = match parse_field(&b, c1 + 1, c2, 121) {
        Some(v) => v,
        None => {
            return None;
        },
    };
    let z = match parse_field(&b, c2 + 1, hi, 122) {
        Some(v) => v,
        None => {
            return None;
        },
    };
    let lo32 = i32::MIN as i64;
    let hi32 = i32::MAX as i64;
    if !(lo32 <= x && x <= hi32 && lo32 <= y && y <= hi32 && lo32 <= z && z <= hi32) {
        return None;
    }
    Some(Vector { x: x as i32, y: y as i32, z: z as i32 })
}

proof fn lemma_first_comma_at12(s: Seq<u8>, k: int)
    requires
        0 <= k <= s.len(),
        forall|j: int| 0 <= j < k ==> s[j] != 44,
        k < s.len() ==> s[k] == 44,
    ensures
        crate::intcode::first_comma(s) == k,
    decreases k,
{
    if k > 0 {
        lemma_first_comma_at12(s.subrange(1, s.len() as int), k - 1);
    }
}

} // verus!
