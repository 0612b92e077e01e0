//! Crossed wires: each wire is a run of axis-aligned steps from the
//! origin; the answers are the closest crossing by taxi distance and
//! the crossing cheapest by combined wire length.

use crate::intcode::{skip_space_back, skip_space_front, trimmed};
use vstd::prelude::*;
use vstd::string::StringSliceAdditionalSpecFns;

verus! {

/// A step's heading.
#[derive(Debug, Clone, Copy, PartialEq, Eq, Structural)]
pub enum Dir {
    Up,
    Down,
    Left,
    Right,
}

/// One step of a wire: a heading and how far it runs.
#[derive(Debug, Clone, Copy, PartialEq, Eq, Structural)]
pub struct Step {
    pub dir: Dir,
    pub len: i64,
}

/// The unit displacement of a heading.
pub open spec fn dp_spec(d: Dir) -> (int, int) {
    match d {
        Dir::Up => (0, 1),
        Dir::Down => (0, -1),
        Dir::Left => (-1, 0),
        Dir::Right => (1, 0),
    }
}

impl Step {
    /// The unit displacement this step moves by, cell per cell.
    pub fn dp(&self) -> (r: (i64, i64))
        ensures
            (r.0 as int, r.1 as int) == dp_spec(self.dir),
    {
        match self.dir {
            Dir::Up => (0, 1),
            Dir::Down => (0, -1),
            Dir::Left => (-1, 0),
            Dir::Right => (1, 0),
        }
    }
}

/// How many cells a step visits: its length, or none for a negative
/// one.
pub open spec fn cells(s: Step) -> int {
    if s.len >= 0 {
        s.len as int
    } else {
        0
    }
}

/// Total number of cells a route visits.
pub open spec fn total_len(route: Seq<Step>) -> int
    decreases route.len(),
{
    if route.len() == 0 {
        0
    } else {
        total_len(route.drop_last()) + cells(route.last())
    }
}

/// Where a route ends, starting from the origin.
pub open spec fn endpoint(route: Seq<Step>) -> (int, int)
    decreases route.len(),
{
    if route.len() == 0 {
        (0, 0)
    } else {
        let e = endpoint(route.drop_last());
        let d = dp_spec(route.last().dir);
        (e.0 + d.0 * cells(route.last()), e.1 + d.1 * cells(route.last()))
    }
}

/// The cells one step visits from `(x, y)`, in walking order.
pub open spec fn seg(x: int, y: int, s: Step) -> Seq<(int, int)> {
    Seq::new(
        cells(s) as nat,
        |i: int| (x + dp_spec(s.dir).0 * (i + 1), y + dp_spec(s.dir).1 * (i + 1)),
    )
}

/// Every cell a route visits, in walking order, the origin excluded.
pub open spec fn positions(route: Seq<Step>) -> Seq<(int, int)>
    decreases route.len(),
{
    if route.len() == 0 {
        Seq::empty()
    } else {
        let e = endpoint(route.drop_last());
        positions(route.drop_last()) + seg(e.0, e.1, route.last())
    }
}

/// The route's walk, each visited cell paired with the count of cells
/// walked to reach it; the cell coordinates stay within the route's
/// total length.
pub fn path(route: &Vec<Step>) -> (r: Vec<((i64, i64), i64)>)
    requires
        total_len(route@) <= 0x4000_0000,
    ensures
        r@.len() == positions(route@).len(),
        r@.len() == total_len(route@),
        forall|i: int|
            0 <= i < r@.len() ==> ((#[trigger] r@[i]).0.0 as int, r@[i].0.1 as int) == positions(
                route@,
            )[i] && r@[i].1 == i + 1,
        forall|i: int|
            0 <= i < r@.len() ==> -0x4000_0000 <= (#[trigger] r@[i]).0.0 <= 0x4000_0000
                && -0x4000_0000 <= r@[i].0.1 <= 0x4000_0000,
{
    let mut out: Vec<((i64, i64), i64)> = Vec::new();
    let mut x: i64 = 0;
    let mut y: i64 = 0;
    let mut k: usize = 0;
    proof {
        assert(route@.subrange(0, 0) =~= Seq::<Step>::empty());
        lemma_total_len_mono(route@, 0);
    }
    while k < route.len()
        invariant
            k <= route@.len(),
            total_len(route@) <= 0x4000_0000,
            total_len(route@.subrange(0, k as int)) <= total_len(route@),
            out@.len() == positions(route@.subrange(0, k as int)).len(),
            out@.len() == total_len(route@.subrange(0, k as int)),
            (x as int, y as int) == endpoint(route@.subrange(0, k as int)),
            -0x4000_0000 <= x <= 0x4000_0000,
            -0x4000_0000 <= y <= 0x4000_0000,
            x as int - total_len(route@.subrange(0, k as int)) >= -0x4000_0000 || x as int
                + total_len(route@.subrange(0, k as int)) <= 0x4000_0000,
            forall|i: int|
                0 <= i < out@.len() ==> ((#[trigger] out@[i]).0.0 as int, out@[i].0.1 as int)
                    == positions(route@.subrange(0, k as int))[i] && out@[i].1 == i + 1,
            forall|i: int|
                0 <= i < out@.len() ==> -0x4000_0000 <= (#[trigger] out@[i]).0.0 <= 0x4000_0000
                    && -0x4000_0000 <= out@[i].0.1 <= 0x4000_0000,
            abs_bound(x as int, y as int, total_len(route@.subrange(0, k as int)), total_len(
                route@,
            )),
        decreases route@.len() - k,
    {
        let st = route[k];
        let d = st.dp();
        let ghost pre = route@.subrange(0, k as int);
        let ghost cur = route@.subrange(0, k as int + 1);
        proof {
            assert(cur.drop_last() =~= pre);
            assert(cur.last() == route@[k as int]);
            lemma_total_len_mono(route@, k as int + 1);
        }
        let mut c: i64 = 0;
        let n = if st.len >= 0 {
            st.len
        } else {
            0
        };
        while c < n
            invariant
                0 <= c <= n,
                n == cells(route@[k as int]),
                (d.0 as int, d.1 as int) == dp_spec(route@[k as int].dir),
                out@.len() == positions(pre).len() + c,
                out@.len() == total_len(pre) + c,
                total_len(pre) + cells(route@[k as int]) <= total_len(route@) <= 0x4000_0000,
                pre == route@.subrange(0, k as int),
                (x as int, y as int) == (endpoint(pre).0 + d.0 * c, endpoint(pre).1 + d.1 * c),
                abs_bound(x as int, y as int, total_len(pre) + c, total_len(route@)),
                -0x4000_0000 <= x <= 0x4000_0000,
                -0x4000_0000 <= y <= 0x4000_0000,
                forall|i: int|
                    0 <= i < positions(pre).len() ==> ((#[trigger] out@[i]).0.0 as int,
                    out@[i].0.1 as int) == positions(pre)[i] && out@[i].1 == i + 1,
                forall|i: int|
                    positions(pre).len() <= i < out@.len() ==> ((#[trigger] out@[i]).0.0 as int,
                    out@[i].0.1 as int) == seg(endpoint(pre).0, endpoint(pre).1, route@[k as int])[i
                    - positions(pre).len()] && out@[i].1 == i + 1,
                forall|i: int|
                    0 <= i < out@.len() ==> -0x4000_0000 <= (#[trigger] out@[i]).0.0 <= 0x4000_0000
                        && -0x4000_0000 <= out@[i].0.1 <= 0x4000_0000,
            decreases n - c,
        {
            x = x + d.0;
            y = y + d.1;
            out.push(((x, y), (out.len() + 1) as i64));
            c = c + 1;
            proof {
                assert((x as int, y as int) == (endpoint(pre).0 + d.0 as int * c, endpoint(
                    pre,
                ).1 + d.1 as int * c)) by (nonlinear_arith)
                    requires
                        (x as int, y as int) == (endpoint(pre).0 + d.0 as int * (c - 1) + d.0,
                        endpoint(pre).1 + d.1 as int * (c - 1) + d.1),
                ;
            }
        }
        proof {
            assert(positions(cur) =~= positions(pre) + seg(
                endpoint(pre).0,
                endpoint(pre).1,
                route@[k as int],
            ));
            assert((x as int, y as int) == endpoint(cur)) by (nonlinear_arith)
                requires
                    (x as int, y as int) == (endpoint(pre).0 + dp_spec(route@[k as int].dir).0 * n,
                    endpoint(pre).1 + dp_spec(route@[k as int].dir).1 * n),
                    n == cells(route@[k as int]),
                    endpoint(cur) == (endpoint(pre).0 + dp_spec(cur.last().dir).0 * cells(
                        cur.last(),
                    ), endpoint(pre).1 + dp_spec(cur.last().dir).1 * cells(cur.last())),
                    cur.last() == route@[k as int],
            ;
        }
        k = k + 1;
    }
    proof {
        assert(route@.subrange(0, route@.len() as int) =~= route@);
    }
    out
}

/// The walker stays within reach of the cells left to walk.
pub open spec fn abs_bound(x: int, y: int, walked: int, total: int) -> bool {
    &&& -walked <= x <= walked
    &&& -walked <= y <= walked
    &&& walked <= total
}

/// A prefix of a route walks no more cells than the whole.
proof fn lemma_total_len_mono(route: Seq<Step>, k: int)
    requires
        0 <= k <= route.len(),
    ensures
        total_len(route.subrange(0, k)) <= total_len(route),
        total_len(route.subrange(0, k)) >= 0,
    decreases route.len() - k,
{
    if k == route.len() {
        assert(route.subrange(0, k) =~= route);
        lemma_total_len_nonneg(route);
    } else {
        lemma_total_len_mono(route, k + 1);
        assert(route.subrange(0, k + 1).drop_last() =~= route.subrange(0, k));
        lemma_total_len_nonneg(route.subrange(0, k));
    }
}

proof fn lemma_total_len_nonneg(route: Seq<Step>)
    ensures
        total_len(route) >= 0,
    decreases route.len(),
{
    if route.len() > 0 {
        lemma_total_len_nonneg(route.drop_last());
    }
}

/// The taxi distance of a cell from the origin.
pub open spec fn manhattan_spec(x: int, y: int) -> int {
    (if x >= 0 {
        x
    } else {
        -x
    }) + (if y >= 0 {
        y
    } else {
        -y
    })
}

/// The taxi distance of a cell from the origin.
pub fn manhattan_distance(coord: (i64, i64)) -> (r: i64)
    requires
        -0x4000_0000 <= coord.0 <= 0x4000_0000,
        -0x4000_0000 <= coord.1 <= 0x4000_0000,
    ensures
        r == manhattan_spec(coord.0 as int, coord.1 as int),
{
    let a = if coord.0 >= 0 {
        coord.0
    } else {
        -coord.0
    };
    let b = if coord.1 >= 0 {
        coord.1
    } else {
        -coord.1
    };
    a + b
}

} // verus!

verus! {

/// Whether both wires visit `p`.
pub open spec fn crossing(r0: Seq<Step>, r1: Seq<Step>, p: (int, int)) -> bool {
    positions(r0).contains(p) && positions(r1).contains(p)
}

/// The taxi distance of the crossing closest to the origin.
pub fn solve_01(routes: Vec<Vec<Step>>) -> (r: i64)
    requires
        routes@.len() >= 2,
        total_len(routes@[0]@) <= 0x4000_0000,
        total_len(routes@[1]@) <= 0x4000_0000,
        exists|p: (int, int)| crossing(routes@[0]@, routes@[1]@, p),
    ensures
        exists|p: (int, int)|
            crossing(routes@[0]@, routes@[1]@, p) && r == manhattan_spec(p.0, p.1),
        forall|q: (int, int)|
            crossing(routes@[0]@, routes@[1]@, q) ==> manhattan_spec(q.0, q.1) >= r,
{
    let ghost r0 = routes@[0]@;
    let ghost r1 = routes@[1]@;
    let p0 = path(&routes[0]);
    let p1 = path(&routes[1]);
    let mut best: i64 = 0;
    let mut found = false;
    let ghost mut bp: (int, int) = (0, 0);
    let mut i: usize = 0;
    while i < p0.len()
        invariant
            i <= p0@.len(),
            p0@.len() == positions(r0).len(),
            p1@.len() == positions(r1).len(),
            forall|t: int|
                0 <= t < p0@.len() ==> ((#[trigger] p0@[t]).0.0 as int, p0@[t].0.1 as int)
                    == positions(r0)[t],
            forall|t: int|
                0 <= t < p1@.len() ==> ((#[trigger] p1@[t]).0.0 as int, p1@[t].0.1 as int)
                    == positions(r1)[t],
            forall|t: int|
                0 <= t < p0@.len() ==> -0x4000_0000 <= (#[trigger] p0@[t]).0.0 <= 0x4000_0000
                    && -0x4000_0000 <= p0@[t].0.1 <= 0x4000_0000,
            found ==> crossing(r0, r1, bp) && best == manhattan_spec(bp.0, bp.1),
            forall|t: int, u: int|
                0 <= t < i && 0 <= u < p1@.len() && positions(r0)[t] == positions(r1)[u] ==> found
                    && manhattan_spec(
                    (#[trigger] positions(r0)[t]).0,
                    (#[trigger] positions(r1)[u], positions(r0)[t]).1.1,
                ) >= best,
        decreases p0@.len() - i,
    {
        let q = p0[i].0;
        let mut j: usize = 0;
        while j < p1.len()
            invariant
                i < p0@.len(),
                j <= p1@.len(),
                p0@.len() == positions(r0).len(),
                p1@.len() == positions(r1).len(),
                q == p0@[i as int].0,
                forall|t: int|
                    0 <= t < p0@.len() ==> ((#[trigger] p0@[t]).0.0 as int, p0@[t].0.1 as int)
                        == positions(r0)[t],
                forall|t: int|
                    0 <= t < p1@.len() ==> ((#[trigger] p1@[t]).0.0 as int, p1@[t].0.1 as int)
                        == positions(r1)[t],
                forall|t: int|
                    0 <= t < p0@.len() ==> -0x4000_0000 <= (#[trigger] p0@[t]).0.0 <= 0x4000_0000
                        && -0x4000_0000 <= p0@[t].0.1 <= 0x4000_0000,
                found ==> crossing(r0, r1, bp) && best == manhattan_spec(bp.0, bp.1),
                forall|t: int, u: int|
                    0 <= t < i && 0 <= u < p1@.len() && positions(r0)[t] == positions(r1)[u]
                        ==> found && manhattan_spec(
                        (#[trigger] positions(r0)[t]).0,
                        (#[trigger] positions(r1)[u], positions(r0)[t]).1.1,
                    ) >= best,
                forall|u: int|
                    0 <= u < j && positions(r0)[i as int] == positions(r1)[u] ==> found
                        && manhattan_spec(
                        (#[trigger] positions(r1)[u]).0,
                        positions(r1)[u].1,
                    ) >= best,
            decreases p1@.len() - j,
        {
            if q.0 == p1[j].0.0 && q.1 == p1[j].0.1 {
                proof {
                    assert(positions(r0)[i as int] == positions(r1)[j as int]);
                    assert(positions(r0).contains(positions(r0)[i as int]));
                    assert(positions(r1).contains(positions(r1)[j as int]));
                }
                let d = manhattan_distance(q);
                if !found || d < best {
                    best = d;
                    found = true;
                    proof {
                        bp = positions(r0)[i as int];
                    }
                }
            }
            j = j + 1;
        }
        i = i + 1;
    }
    proof {
        let pw = choose|p: (int, int)| crossing(r0, r1, p);
        let t = choose|t: int| 0 <= t < positions(r0).len() && positions(r0)[t] == pw;
        let u = choose|u: int| 0 <= u < positions(r1).len() && positions(r1)[u] == pw;
        assert(found);
        assert forall|qq: (int, int)| crossing(r0, r1, qq) implies manhattan_spec(qq.0, qq.1)
            >= best by {
            let t2 = choose|t2: int| 0 <= t2 < positions(r0).len() && positions(r0)[t2] == qq;
            let u2 = choose|u2: int| 0 <= u2 < positions(r1).len() && positions(r1)[u2] == qq;
            assert(manhattan_spec(
                (positions(r0)[t2]).0,
                (positions(r1)[u2], positions(r0)[t2]).1.1,
            ) >= best);
        }
    }
    best
}

/// The count of cells a wire has walked when it last visits `p`, or 0
/// for a cell it never visits.
pub open spec fn last_visit(ps: Seq<(int, int)>, p: (int, int)) -> int
    decreases ps.len(),
{
    if ps.len() == 0 {
        0
    } else if ps.last() == p {
        ps.len() as int
    } else {
        last_visit(ps.drop_last(), p)
    }
}

/// Where the last visit is.
proof fn lemma_last_visit_at(ps: Seq<(int, int)>, p: (int, int), i: int)
    requires
        0 <= i < ps.len(),
        ps[i] == p,
        forall|j: int| i < j < ps.len() ==> ps[j] != p,
    ensures
        last_visit(ps, p) == i + 1,
    decreases ps.len(),
{
    if i + 1 < ps.len() {
        lemma_last_visit_at(ps.drop_last(), p, i);
    }
}

/// Whether no later cell of the walk is the same as cell `t`.
pub open spec fn is_last_occ(ps: Seq<(int, int)>, t: int) -> bool {
    forall|j: int| t < j < ps.len() ==> ps[j] != ps[t]
}

/// Every visited cell has a last visit.
proof fn lemma_exists_last(ps: Seq<(int, int)>, q: (int, int))
    requires
        ps.contains(q),
    ensures
        exists|t: int| 0 <= t < ps.len() && ps[t] == q && is_last_occ(ps, t),
    decreases ps.len(),
{
    if ps.last() == q {
        assert(ps[ps.len() - 1] == q && is_last_occ(ps, ps.len() - 1));
    } else {
        let i = choose|i: int| 0 <= i < ps.len() && ps[i] == q;
        assert(ps.drop_last()[i] == q);
        assert(ps.drop_last().contains(q));
        lemma_exists_last(ps.drop_last(), q);
        let t = choose|t: int|
            0 <= t < ps.drop_last().len() && ps.drop_last()[t] == q && is_last_occ(
                ps.drop_last(),
                t,
            );
        assert(ps[t] == q);
        assert forall|j: int| t < j < ps.len() implies ps[j] != ps[t] by {
            if j < ps.len() - 1 {
                assert(ps.drop_last()[j] == ps[j]);
            }
        }
        assert(is_last_occ(ps, t));
    }
}

/// The crossing cheapest by combined wire length, that combined
/// length.
pub fn solve_02(routes: Vec<Vec<Step>>) -> (r: i64)
    requires
        routes@.len() >= 2,
        total_len(routes@[0]@) <= 0x4000_0000,
        total_len(routes@[1]@) <= 0x4000_0000,
        exists|p: (int, int)| crossing(routes@[0]@, routes@[1]@, p),
    ensures
        exists|p: (int, int)|
            crossing(routes@[0]@, routes@[1]@, p) && r == last_visit(positions(routes@[0]@), p)
                + last_visit(positions(routes@[1]@), p),
        forall|q: (int, int)|
            crossing(routes@[0]@, routes@[1]@, q) ==> last_visit(positions(routes@[0]@), q)
                + last_visit(positions(routes@[1]@), q) >= r,
{
    let ghost r0 = routes@[0]@;
    let ghost r1 = routes@[1]@;
    let p0 = path(&routes[0]);
    let p1 = path(&routes[1]);
    let mut best: i64 = 0;
    let mut found = false;
    let ghost mut bp: (int, int) = (0, 0);
    let mut i: usize = 0;
    while i < p0.len()
        invariant
            i <= p0@.len(),
            p0@.len() == positions(r0).len(),
            p1@.len() == positions(r1).len(),
            p0@.len() <= 0x4000_0000,
            p1@.len() <= 0x4000_0000,
            forall|t: int|
                0 <= t < p0@.len() ==> ((#[trigger] p0@[t]).0.0 as int, p0@[t].0.1 as int)
                    == positions(r0)[t],
            forall|t: int|
                0 <= t < p1@.len() ==> ((#[trigger] p1@[t]).0.0 as int, p1@[t].0.1 as int)
                    == positions(r1)[t],
            found ==> crossing(r0, r1, bp) && best == last_visit(positions(r0), bp) + last_visit(
                positions(r1),
                bp,
            ),
            forall|t: int|
                0 <= t < i && is_last_occ(positions(r0), t) && positions(r1).contains(
                    #[trigger] positions(r0)[t],
                ) ==> found && last_visit(positions(r0), positions(r0)[t]) + last_visit(
                    positions(r1),
                    positions(r0)[t],
                ) >= best,
        decreases p0@.len() - i,
    {
        let q = p0[i].0;
        // only score `q` at its last visit on the first wire
        let mut is_last = true;
        let mut t = i + 1;
        while t < p0.len()
            invariant
                i < t <= p0@.len(),
                q == p0@[i as int].0,
                p0@.len() == positions(r0).len(),
                forall|s2: int|
                    0 <= s2 < p0@.len() ==> ((#[trigger] p0@[s2]).0.0 as int, p0@[s2].0.1 as int)
                        == positions(r0)[s2],
                is_last == forall|s2: int|
                    i < s2 < t ==> positions(r0)[s2] != positions(r0)[i as int],
            decreases p0@.len() - t,
        {
            if p0[t].0.0 == q.0 && p0[t].0.1 == q.1 {
                is_last = false;
                proof {
                    assert(positions(r0)[t as int] == positions(r0)[i as int]);
                }
                t = p0.len();
            } else {
                t = t + 1;
            }
        }
        if is_last {
            // find the last visit on the second wire, scanning from its end
            let mut j = p1.len();
            let mut hit = false;
            let mut lv1: i64 = 0;
            while j > 0 && !hit
                invariant
                    j <= p1@.len(),
                    p1@.len() == positions(r1).len(),
                    p1@.len() <= 0x4000_0000,
                    q == p0@[i as int].0,
                    i < p0@.len(),
                    p0@.len() == positions(r0).len(),
                    forall|s2: int|
                        0 <= s2 < p0@.len() ==> ((#[trigger] p0@[s2]).0.0 as int,
                        p0@[s2].0.1 as int) == positions(r0)[s2],
                    forall|s2: int|
                        0 <= s2 < p1@.len() ==> ((#[trigger] p1@[s2]).0.0 as int,
                        p1@[s2].0.1 as int) == positions(r1)[s2],
                    !hit ==> forall|u: int|
                        j <= u < p1@.len() ==> #[trigger] positions(r1)[u] != positions(
                            r0,
                        )[i as int],
                    hit ==> 0 < j + 1 <= p1@.len() && positions(r1)[j as int] == positions(
                        r0,
                    )[i as int] && (forall|u: int|
                        j < u < p1@.len() ==> #[trigger] positions(r1)[u] != positions(
                            r0,
                        )[i as int]) && lv1 == j + 1,
                decreases j + if hit {
                    0int
                } else {
                    1int
                },
            {
                j = j - 1;
                if p1[j].0.0 == q.0 && p1[j].0.1 == q.1 {
                    hit = true;
                    lv1 = (j + 1) as i64;
                    proof {
                        assert(positions(r1)[j as int] == positions(r0)[i as int]);
                    }
                } else {
                    proof {
                        assert(positions(r1)[j as int] != positions(r0)[i as int]);
                    }
                }
            }
            if hit {
                proof {
                    lemma_last_visit_at(positions(r0), positions(r0)[i as int], i as int);
                    lemma_last_visit_at(positions(r1), positions(r0)[i as int], j as int);
                    assert(positions(r0).contains(positions(r0)[i as int]));
                    assert(positions(r1).contains(positions(r1)[j as int]));
                }
                let total = (i + 1) as i64 + lv1;
                if !found || total < best {
                    best = total;
                    found = true;
                    proof {
                        bp = positions(r0)[i as int];
                    }
                }
            }
        }
        proof {
            assert forall|t2: int|
                0 <= t2 < i + 1 && is_last_occ(positions(r0), t2) && positions(r1).contains(
                    #[trigger] positions(r0)[t2],
                ) implies found && last_visit(positions(r0), positions(r0)[t2]) + last_visit(
                positions(r1),
                positions(r0)[t2],
            ) >= best by {
                if t2 == i as int {
                    assert(is_last);
                }
            }
        }
        i = i + 1;
    }
    proof {
        let pw = choose|p: (int, int)| crossing(r0, r1, p);
        lemma_exists_last(positions(r0), pw);
        let t = choose|t: int|
            0 <= t < positions(r0).len() && positions(r0)[t] == pw && is_last_occ(positions(r0), t);
        assert(positions(r1).contains(positions(r0)[t]));
        assert(found);
        assert forall|qq: (int, int)| crossing(r0, r1, qq) implies last_visit(positions(r0), qq)
            + last_visit(positions(r1), qq) >= best by {
            lemma_exists_last(positions(r0), qq);
            let t2 = choose|t2: int|
                0 <= t2 < positions(r0).len() && positions(r0)[t2] == qq && is_last_occ(
                    positions(r0),
                    t2,
                );
            assert(positions(r1).contains(positions(r0)[t2]));
        }
    }
    best
}

} // verus!

verus! {

/// The heading a letter names.
pub open spec fn dir_of(b: u8) -> Option<Dir> {
    if b == 85 {
        Some(Dir::Up)
    } else if b == 68 {
        Some(Dir::Down)
    } else if b == 76 {
        Some(Dir::Left)
    } else if b == 82 {
        Some(Dir::Right)
    } else {
        None
    }
}

/// The step a token names: a heading letter, then a decimal length.
pub open spec fn token_step(t: Seq<u8>) -> Option<Step> {
    if t.len() > 0 && dir_of(t[0]) is Some {
        match crate::intcode::token_val(t.subrange(1, t.len() as int)) {
            Some(v) => Some(Step { dir: dir_of(t[0])->Some_0, len: v }),
            None => None,
        }
    } else {
        None
    }
}

/// The steps a comma-joined route names, or `None` where any token is
/// malformed.
pub open spec fn route_spec(u: Seq<u8>) -> Option<Seq<Step>>
    decreases u.len(),
{
    let i = crate::intcode::first_comma(u);
    if 0 <= i < u.len() {
        match token_step(u.subrange(0, i)) {
            Some(st) => match route_spec(u.subrange(i + 1, u.len() as int)) {
                Some(rest) => Some(seq![st] + rest),
                None => None,
            },
            None => None,
        }
    } else {
        match token_step(u) {
            Some(st) => Some(seq![st]),
            None => None,
        }
    }
}

/// The routes a text names, one trimmed line each.
pub open spec fn parse_spec(b: Seq<u8>) -> Option<Seq<Seq<Step>>>
    decreases b.len(),
{
    if b.len() == 0 {
        Some(Seq::empty())
    } else {
        let i = first_nl(b);
        if 0 <= i < b.len() {
            match route_spec(trimmed(b.subrange(0, i))) {
                Some(route) => match parse_spec(b.subrange(i + 1, b.len() as int)) {
                    Some(rest) => Some(seq![route] + rest),
                    None => None,
                },
                None => None,
            }
        } else {
            match route_spec(trimmed(b)) {
                Some(route) => Some(seq![route]),
                None => None,
            }
        }
    }
}

/// Index of the first line feed, or `b.len()` if none.
pub open spec fn first_nl(b: Seq<u8>) -> int
    decreases b.len(),
{
    if b.len() == 0 {
        0
    } else if b[0] == 10 {
        0
    } else {
        1 + first_nl(b.subrange(1, b.len() as int))
    }
}

proof fn lemma_first_nl_at(s: Seq<u8>, k: int)
    requires
        0 <= k <= s.len(),
        forall|j: int| 0 <= j < k ==> s[j] != 10,
        k < s.len() ==> s[k] == 10,
    ensures
        first_nl(s) == k,
    decreases k,
{
    if k > 0 {
        lemma_first_nl_at(s.subrange(1, s.len() as int), k - 1);
    }
}

proof fn lemma_first_comma_at(s: Seq<u8>, k: int)
    requires
        0 <= k <= s.len(),
        forall|j: int| 0 <= j < k ==> s[j] != 44,
        k < s.len() ==> s[k] == 44,
    ensures
        crate::intcode::first_comma(s) == k,
    decreases k,
{
    if k > 0 {
        lemma_first_comma_at(s.subrange(1, s.len() as int), k - 1);
    }
}

/// Parses one route token, the bytes `lo ..= hi - 1`.
fn parse_step(b: &Vec<u8>, lo: usize, hi: usize) -> (r: Option<Step>)
    requires
        lo <= hi <= b@.len(),
    ensures
        r == token_step(b@.subrange(lo as int, hi as int)),
{
    if lo >= hi {
        return None;
    }
    let c = b[lo];
    let d = if c == 85 {
        Dir::Up
    } else if c == 68 {
        Dir::Down
    } else if c == 76 {
        Dir::Left
    } else if c == 82 {
        Dir::Right
    } else {
        return None;
    };
    proof {
        assert(b@.subrange(lo as int, hi as int).subrange(1, (hi - lo) as int) =~= b@.subrange(
            lo as int + 1,
            hi as int,
        ));
    }
    match crate::intcode::parse_token(b, lo + 1, hi) {
        Some(v) => Some(Step { dir: d, len: v }),
        None => None,
    }
}

/// Parses one trimmed line's comma-joined route.
fn parse_route(b: &Vec<u8>, lo: usize, hi: usize) -> (r: Option<Vec<Step>>)
    requires
        lo <= hi <= b@.len(),
    ensures
        match r {
            Some(v) => route_spec(b@.subrange(lo as int, hi as int)) == Some(v@),
            None => route_spec(b@.subrange(lo as int, hi as int)) is None,
        },
{
    let mut out: Vec<Step> = Vec::new();
    let mut start = lo;
    proof {
        let po = route_spec(b@.subrange(lo as int, hi as int));
        if po is Some {
            assert(out@ + po->Some_0 =~= po->Some_0);
        }
    }
    loop
        invariant
            lo <= start <= hi <= b@.len(),
            match route_spec(b@.subrange(start as int, hi as int)) {
                Some(rest) => route_spec(b@.subrange(lo as int, hi as int)) == Some(out@ + rest),
                None => route_spec(b@.subrange(lo as int, hi as int)) is None,
            },
        decreases hi - start,
    {
        let mut end = start;
        while end < hi && b[end] != 44
            invariant
                start <= end <= hi,
                hi <= b@.len(),
                forall|j: int| start <= j < end ==> b@[j] != 44,
            decreases hi - end,
        {
            end = end + 1;
        }
        let ghost suffix = b@.subrange(start as int, hi as int);
        proof {
            lemma_first_comma_at(suffix, end - start);
            assert(suffix.subrange(0, end - start) =~= b@.subrange(start as int, end as int));
        }
        let ghost out_old = out@;
        let st = match parse_step(b, start, end) {
            Some(st) => st,
            None => {
                return None;
            },
        };
        out.push(st);
        if end == hi {
            proof {
                assert(suffix =~= b@.subrange(start as int, end as int));
                assert(out_old + seq![st] =~= out@);
            }
            return Some(out);
        }
        proof {
            assert(suffix.subrange(end - start + 1, suffix.len() as int) =~= b@.subrange(
                end as int + 1,
                hi as int,
            ));
            let rest = route_spec(b@.subrange(end as int + 1, hi as int));
            if rest is Some {
                assert(out_old + (seq![st] + rest->Some_0) =~= out@ + rest->Some_0);
            }
        }
        start = end + 1;
    }
}

/// Reads the wire routes, one comma-joined line per wire.
pub fn parse(input: &str) -> (r: Vec<Vec<Step>>)
    requires
        parse_spec(input.spec_bytes()) is Some,
    ensures
        Some(r@.map_values(|v: Vec<Step>| v@)) == parse_spec(input.spec_bytes()),
{
    let b = vstd::slice::slice_to_vec(input.as_bytes());
    let n = b.len();
    let mut out: Vec<Vec<Step>> = Vec::new();
    let mut start: usize = 0;
    proof {
        let po = parse_spec(b@);
        if po is Some {
            assert(out@.map_values(|v: Vec<Step>| v@) + po->Some_0 =~= po->Some_0);
        }
        assert(b@.subrange(0, n as int) =~= b@);
    }
    loop
        invariant
            start <= n,
            n == b@.len(),
            input.spec_bytes() == b@,
            parse_spec(input.spec_bytes()) is Some,
            match parse_spec(b@.subrange(start as int, n as int)) {
                Some(rest) => parse_spec(input.spec_bytes()) == Some(
                    out@.map_values(|v: Vec<Step>| v@) + rest,
                ),
                None => parse_spec(input.spec_bytes()) is None,
            },
        decreases n - start + 1,
    {
        if start >= n {
            proof {
                assert(b@.subrange(n as int, n as int) =~= Seq::<u8>::empty());
                assert(out@.map_values(|v: Vec<Step>| v@) + Seq::<Seq<Step>>::empty()
                    =~= out@.map_values(|v: Vec<Step>| v@));
            }
            return out;
        }
        let mut end = start;
        while end < n && b[end] != 10
            invariant
                start <= end <= n,
                n == b@.len(),
                forall|j: int| start <= j < end ==> b@[j] != 10,
            decreases n - end,
        {
            end = end + 1;
        }
        let ghost suffix = b@.subrange(start as int, n as int);
        proof {
            lemma_first_nl_at(suffix, end - start);
            assert(suffix.subrange(0, end - start) =~= b@.subrange(start as int, end as int));
        }
        let ls = skip_space_front(&b, start, end);
        let le = skip_space_back(&b, ls, end);
        proof {
            assert(trimmed(b@.subrange(start as int, end as int)) == b@.subrange(
                ls as int,
                le as int,
            ));
        }
        let ghost out_old = out@.map_values(|v: Vec<Step>| v@);
        let route = match parse_route(&b, ls, le) {
            Some(v) => v,
            None => {
                proof {
                    assert(false);
                }
                return out;
            },
        };
        out.push(route);
        if end == n {
            proof {
                assert(suffix =~= b@.subrange(start as int, end as int));
                assert(out@.map_values(|v: Vec<Step>| v@) =~= out_old + seq![out@.last()@]);
                assert(out_old + seq![out@.last()@] + Seq::<Seq<Step>>::empty() =~= out@.map_values(
                    |v: Vec<Step>| v@,
                ));
            }
            start = n;
        } else {
            proof {
                assert(suffix.subrange(end - start + 1, suffix.len() as int) =~= b@.subrange(
                    end as int + 1,
                    n as int,
                ));
                assert(out@.map_values(|v: Vec<Step>| v@) =~= out_old + seq![out@.last()@]);
                let rest = parse_spec(b@.subrange(end as int + 1, n as int));
                if rest is Some {
                    assert(out_old + (seq![out@.last()@] + rest->Some_0) =~= out@.map_values(
                        |v: Vec<Step>| v@,
                    ) + rest->Some_0);
                }
            }
            start = end + 1;
        }
    }
}

} // verus!
