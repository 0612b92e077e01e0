//! Asteroid sightlines: an asteroid sees another when no third one
//! stands on the segment between them, which is exactly when their
//! reduced slope is unique; the best station sees the most.

use crate::intcode::trimmed;
use vstd::prelude::*;
use vstd::string::StringSliceAdditionalSpecFns;

verus! {

/// A direction between grid cells, reduced to lowest terms.
#[derive(Debug, Clone, Copy, PartialEq, Eq, Hash, Structural)]
pub struct Slope {
    pub dx: i32,
    pub dy: i32,
}

/// Euclid's greatest common divisor of two magnitudes.
pub open spec fn gcd_spec(a: nat, b: nat) -> nat
    decreases a,
{
    if a == 0 {
        b
    } else {
        gcd_spec((b % a) as nat, a)
    }
}

/// A magnitude's absolute value.
pub open spec fn abs_of(v: int) -> nat {
    if v >= 0 {
        v as nat
    } else {
        (-v) as nat
    }
}

/// The divisor of two magnitudes not both zero is positive.
pub proof fn lemma_gcd_pos(a: nat, b: nat)
    requires
        a > 0 || b > 0,
    ensures
        gcd_spec(a, b) > 0,
    decreases a,
{
    if a > 0 {
        lemma_gcd_pos((b % a) as nat, a);
    }
}

/// Euclid's algorithm on the two magnitudes.
pub fn gcd(m: i32, n: i32) -> (r: i32)
    requires
        !((m == i32::MIN || m == 0) && (n == i32::MIN || n == 0)) || (m == 0 && n == 0),
    ensures
        r == gcd_spec(abs_of(m as int), abs_of(n as int)),
{
    let mut a: u64 = if m >= 0 {
        m as u64
    } else {
        (-(m as i64)) as u64
    };
    let mut b: u64 = if n >= 0 {
        n as u64
    } else {
        (-(n as i64)) as u64
    };
    proof {
        assert(a == abs_of(m as int));
        assert(b == abs_of(n as int));
    }
    while a != 0
        invariant
            gcd_spec(a as nat, b as nat) == gcd_spec(abs_of(m as int), abs_of(n as int)),
            a <= 0x8000_0000u64,
            b <= 0x8000_0000u64,
            (a == 0x8000_0000u64 || a == 0) && (b == 0x8000_0000u64 || b == 0) ==> (a == 0 && b
                == 0),
        decreases a,
    {
        let t = b % a;
        proof {
            assert(t < a) by (nonlinear_arith)
                requires
                    a > 0,
                    t == b % a,
            ;
            if b < a {
                assert(t == b) by (nonlinear_arith)
                    requires
                        a > 0,
                        b < a,
                        t == b % a,
                ;
            }
        }
        b = a;
        a = t;
    }
    proof {
        if b == 0x8000_0000u64 {
            assert(false);
        }
    }
    b as i32
}

/// The reduced direction from one cell to another: both differences
/// divided by their greatest common divisor; the zero direction for a
/// cell and itself.
pub open spec fn reduced(dx: int, dy: int) -> (int, int) {
    if dx == 0 && dy == 0 {
        (0, 0)
    } else {
        let g = gcd_spec(abs_of(dx), abs_of(dy)) as int;
        (
            if dx >= 0 {
                abs_of(dx) as int / g
            } else {
                -(abs_of(dx) as int / g)
            },
            if dy >= 0 {
                abs_of(dy) as int / g
            } else {
                -(abs_of(dy) as int / g)
            },
        )
    }
}

impl Slope {
    /// The reduced direction from one asteroid to another.
    pub fn from(from: (i32, i32), to: (i32, i32)) -> (r: Slope)
        requires
            -0x3fff_ffff <= from.0 <= 0x3fff_ffff,
            -0x3fff_ffff <= from.1 <= 0x3fff_ffff,
            -0x3fff_ffff <= to.0 <= 0x3fff_ffff,
            -0x3fff_ffff <= to.1 <= 0x3fff_ffff,
        ensures
            (r.dx as int, r.dy as int) == reduced(to.0 - from.0, to.1 - from.1),
    {
        let dx = to.0 - from.0;
        let dy = to.1 - from.1;
        if dx == 0 && dy == 0 {
            return Slope { dx, dy };
        }
        let div = gcd(dx, dy);
        proof {
            lemma_gcd_pos(abs_of(dx as int), abs_of(dy as int));
        }
        let mx = if dx >= 0 {
            dx as u64
        } else {
            (-(dx as i64)) as u64
        };
        let my = if dy >= 0 {
            dy as u64
        } else {
            (-(dy as i64)) as u64
        };
        proof {
            assert(mx / (div as u64) <= mx) by (nonlinear_arith)
                requires
                    div as u64 >= 1,
            ;
            assert(my / (div as u64) <= my) by (nonlinear_arith)
                requires
                    div as u64 >= 1,
            ;
        }
        let qx = (mx / (div as u64)) as i32;
        let qy = (my / (div as u64)) as i32;
        Slope { dx: if dx >= 0 {
            qx
        } else {
            -qx
        }, dy: if dy >= 0 {
            qy
        } else {
            -qy
        } }
    }
}

/// The asteroid cells one catalogue line contributes, scanned left to
/// right.
pub open spec fn line_cells(u: Seq<u8>, col: int, row: int) -> Seq<(int, int)>
    decreases u.len(),
{
    if u.len() == 0 {
        Seq::empty()
    } else {
        (if u[0] == 35 {
            seq![(col, row)]
        } else {
            Seq::empty()
        }) + line_cells(u.subrange(1, u.len() as int), col + 1, row)
    }
}

/// Index of the first line feed, or `b.len()` if none.
pub open spec fn first_nl(b: Seq<u8>) -> int
    decreases b.len(),
{
    if b.len() == 0 {
        0
    } else if b[0] == 10 {
        0
    } else {
        1 + first_nl(b.subrange(1, b.len() as int))
    }
}

/// The asteroid cells a whole map names, row by row.
pub open spec fn asteroids_spec(b: Seq<u8>, row: int) -> Seq<(int, int)>
    decreases b.len(),
{
    if b.len() == 0 {
        Seq::empty()
    } else {
        let i = first_nl(b);
        if 0 <= i < b.len() {
            line_cells(trimmed(b.subrange(0, i)), 0, row) + asteroids_spec(
                b.subrange(i + 1, b.len() as int),
                row + 1,
            )
        } else {
            line_cells(trimmed(b), 0, row)
        }
    }
}

proof fn lemma_first_nl_at(s: Seq<u8>, k: int)
    requires
        0 <= k <= s.len(),
        forall|j: int| 0 <= j < k ==> s[j] != 10,
        k < s.len() ==> s[k] == 10,
    ensures
        first_nl(s) == k,
    decreases k,
{
    if k > 0 {
        lemma_first_nl_at(s.subrange(1, s.len() as int), k - 1);
    }
}

/// Scans one trimmed line for asteroid cells.
fn scan_line(b: &Vec<u8>, lo: usize, hi: usize, row: i32, out: &mut Vec<(i32, i32)>)
    requires
        lo <= hi <= b@.len(),
        hi - lo <= 0x4000_0000,
        0 <= row,
    ensures
        final(out)@.map_values(|p: (i32, i32)| (p.0 as int, p.1 as int)) == old(out)@.map_values(
            |p: (i32, i32)| (p.0 as int, p.1 as int),
        ) + line_cells(b@.subrange(lo as int, hi as int), 0, row as int),
{
    let ghost before = out@.map_values(|p: (i32, i32)| (p.0 as int, p.1 as int));
    let mut i = lo;
    while i < hi
        invariant
            lo <= i <= hi <= b@.len(),
            hi - lo <= 0x4000_0000,
            0 <= row,
            before + line_cells(b@.subrange(lo as int, hi as int), 0, row as int) == out@.map_values(
                |p: (i32, i32)| (p.0 as int, p.1 as int),
            ) + line_cells(b@.subrange(i as int, hi as int), (i - lo) as int, row as int),
        decreases hi - i,
    {
        let ghost out_old = out@.map_values(|p: (i32, i32)| (p.0 as int, p.1 as int));
        proof {
            assert(b@.subrange(i as int, hi as int).subrange(1, (hi - i) as int) =~= b@.subrange(
                i as int + 1,
                hi as int,
            ));
        }
        if b[i] == 35 {
            out.push(((i - lo) as i32, row));
            proof {
                assert(out@.map_values(|p: (i32, i32)| (p.0 as int, p.1 as int)) =~= out_old
                    + seq![((i - lo) as int, row as int)]);
                assert(out_old + (seq![((i - lo) as int, row as int)] + line_cells(
                    b@.subrange(i as int + 1, hi as int),
                    (i - lo) as int + 1,
                    row as int,
                )) =~= (out_old + seq![((i - lo) as int, row as int)]) + line_cells(
                    b@.subrange(i as int + 1, hi as int),
                    (i - lo) as int + 1,
                    row as int,
                ));
            }
        } else {
            proof {
                assert(Seq::<(int, int)>::empty() + line_cells(
                    b@.subrange(i as int + 1, hi as int),
                    (i - lo) as int + 1,
                    row as int,
                ) =~= line_cells(b@.subrange(i as int + 1, hi as int), (i - lo) as int + 1,
                row as int));
            }
        }
        i = i + 1;
    }
    proof {
        assert(line_cells(b@.subrange(hi as int, hi as int), (hi - lo) as int, row as int)
            =~= Seq::<(int, int)>::empty());
        assert(out@.map_values(|p: (i32, i32)| (p.0 as int, p.1 as int)) + Seq::<(
            int,
            int,
        )>::empty() =~= out@.map_values(|p: (i32, i32)| (p.0 as int, p.1 as int)));
    }
}

/// Reads the asteroid map: `#` marks an asteroid at (column, row).
pub fn parse_input(input: &str) -> (r: Vec<(i32, i32)>)
    requires
        input.spec_bytes().len() <= 0x4000_0000,
    ensures
        r@.map_values(|p: (i32, i32)| (p.0 as int, p.1 as int)) == asteroids_spec(
            input.spec_bytes(),
            0,
        ),
{
    let b = vstd::slice::slice_to_vec(input.as_bytes());
    let n = b.len();
    let mut out: Vec<(i32, i32)> = Vec::new();
    let mut start: usize = 0;
    let mut row: i32 = 0;
    proof {
        assert(out@.map_values(|p: (i32, i32)| (p.0 as int, p.1 as int)) + asteroids_spec(b@, 0)
            =~= asteroids_spec(b@, 0));
        assert(b@.subrange(0, n as int) =~= b@);
    }
    loop
        invariant
            start <= n,
            n == b@.len(),
            n <= 0x4000_0000,
            input.spec_bytes() == b@,
            0 <= row,
            row <= start,
            asteroids_spec(input.spec_bytes(), 0) == out@.map_values(
                |p: (i32, i32)| (p.0 as int, p.1 as int),
            ) + asteroids_spec(b@.subrange(start as int, n as int), row as int),
        decreases n - start + 1,
    {
        if start >= n {
            proof {
                assert(b@.subrange(n as int, n as int) =~= Seq::<u8>::empty());
                assert(out@.map_values(|p: (i32, i32)| (p.0 as int, p.1 as int)) + Seq::<(
                    int,
                    int,
                )>::empty() =~= out@.map_values(|p: (i32, i32)| (p.0 as int, p.1 as int)));
            }
            return out;
        }
        let mut end = start;
        while end < n && b[end] != 10
            invariant
                start <= end <= n,
                n == b@.len(),
                forall|j: int| start <= j < end ==> b@[j] != 10,
            decreases n - end,
        {
            end = end + 1;
        }
        let ghost suffix = b@.subrange(start as int, n as int);
        proof {
            lemma_first_nl_at(suffix, end - start);
            assert(suffix.subrange(0, end - start) =~= b@.subrange(start as int, end as int));
        }
        let ls = crate::intcode::skip_space_front(&b, start, end);
        let le = crate::intcode::skip_space_back(&b, ls, end);
        proof {
            assert(trimmed(b@.subrange(start as int, end as int)) == b@.subrange(
                ls as int,
                le as int,
            ));
        }
        let ghost out_old = out@.map_values(|p: (i32, i32)| (p.0 as int, p.1 as int));
        scan_line(&b, ls, le, row, &mut out);
        if end == n {
            proof {
                assert(suffix =~= b@.subrange(start as int, end as int));
                assert(out_old + (line_cells(
                    trimmed(b@.subrange(start as int, end as int)),
                    0,
                    row as int,
                ) + Seq::<(int, int)>::empty()) =~= out@.map_values(
                    |p: (i32, i32)| (p.0 as int, p.1 as int),
                ) + Seq::<(int, int)>::empty());
            }
            start = n;
        } else {
            proof {
                assert(suffix.subrange(end - start + 1, suffix.len() as int) =~= b@.subrange(
                    end as int + 1,
                    n as int,
                ));
                let rest = asteroids_spec(b@.subrange(end as int + 1, n as int), row as int + 1);
                assert(out_old + (line_cells(
                    trimmed(b@.subrange(start as int, end as int)),
                    0,
                    row as int,
                ) + rest) =~= out@.map_values(|p: (i32, i32)| (p.0 as int, p.1 as int)) + rest);
            }
            start = end + 1;
            row = row + 1;
        }
    }
}

} // verus!

verus! {

/// The asteroid catalogue as the specification sees it.
pub open spec fn coords_of(asts: Seq<(i32, i32)>) -> Seq<(int, int)> {
    asts.map_values(|p: (i32, i32)| (p.0 as int, p.1 as int))
}

/// The reduced direction from `p` to each asteroid, in catalogue
/// order.
pub open spec fn slopes_of(asts: Seq<(int, int)>, p: (int, int)) -> Seq<(int, int)> {
    Seq::new(asts.len(), |j: int| reduced(asts[j].0 - p.0, asts[j].1 - p.1))
}

/// How many distinct values the first `k` entries hold.
pub open spec fn distinct_upto(s: Seq<(int, int)>, k: int) -> int
    decreases k,
{
    if k <= 0 {
        0
    } else {
        distinct_upto(s, k - 1) + if exists|j: int| 0 <= j < k - 1 && #[trigger] s[j] == s[k - 1] {
            0int
        } else {
            1int
        }
    }
}

/// An asteroid's score: how many distinct directions the others (and
/// itself, as the zero direction) lie in.
pub open spec fn score(asts: Seq<(int, int)>, i: int) -> int {
    distinct_upto(slopes_of(asts, asts[i]), asts.len() as int)
}

/// The catalogue order the search breaks ties by: score first, then
/// coordinates.
pub open spec fn lex_le(a: (int, (int, int)), b: (int, (int, int))) -> bool {
    a.0 < b.0 || (a.0 == b.0 && (a.1.0 < b.1.0 || (a.1.0 == b.1.0 && a.1.1 <= b.1.1)))
}

proof fn lemma_distinct_bounds(s: Seq<(int, int)>, k: int)
    requires
        k >= 0,
    ensures
        0 <= distinct_upto(s, k) <= k,
        k >= 1 ==> distinct_upto(s, k) >= 1,
    decreases k,
{
    if k > 0 {
        lemma_distinct_bounds(s, k - 1);
    }
}

/// The best station: the asteroid that sees the most others, and how
/// many it sees. Of equally good asteroids the catalogue's later one
/// wins.
pub fn solve_01(asteroids: &Vec<(i32, i32)>) -> (r: (usize, (i32, i32)))
    requires
        asteroids@.len() >= 1,
        forall|i: int|
            0 <= i < asteroids@.len() ==> -0x3fff_ffff <= (#[trigger] asteroids@[i]).0
                <= 0x3fff_ffff && -0x3fff_ffff <= asteroids@[i].1 <= 0x3fff_ffff,
    ensures
        exists|i: int|
            0 <= i < coords_of(asteroids@).len() && (r.1.0 as int, r.1.1 as int) == coords_of(
                asteroids@,
            )[i] && r.0 + 1 == #[trigger] score(coords_of(asteroids@), i) && (forall|j: int|
                0 <= j < coords_of(asteroids@).len() ==> lex_le(
                    (#[trigger] score(coords_of(asteroids@), j), coords_of(asteroids@)[j]),
                    (score(coords_of(asteroids@), i), coords_of(asteroids@)[i]),
                )) && (forall|j: int|
                i < j < coords_of(asteroids@).len() ==> !lex_le(
                    (score(coords_of(asteroids@), i), coords_of(asteroids@)[i]),
                    (#[trigger] score(coords_of(asteroids@), j), coords_of(asteroids@)[j]),
                )),
{
    let ghost av = coords_of(asteroids@);
    let n = asteroids.len();
    let mut best_count: usize = 0;
    let mut best_coord: (i32, i32) = asteroids[0];
    let ghost mut bi: int = 0;
    let mut i: usize = 0;
    while i < n
        invariant
            n == asteroids@.len(),
            n >= 1,
            av == coords_of(asteroids@),
            forall|t: int|
                0 <= t < asteroids@.len() ==> -0x3fff_ffff <= (#[trigger] asteroids@[t]).0
                    <= 0x3fff_ffff && -0x3fff_ffff <= asteroids@[t].1 <= 0x3fff_ffff,
            i <= n,
            i >= 1 ==> 0 <= bi < i && (best_coord.0 as int, best_coord.1 as int) == av[bi]
                && best_count == score(av, bi),
            i >= 1 ==> forall|j: int|
                0 <= j < i ==> lex_le((#[trigger] score(av, j), av[j]), (score(av, bi), av[bi])),
            i >= 1 ==> forall|j: int|
                bi < j < i ==> !lex_le((score(av, bi), av[bi]), (#[trigger] score(av, j), av[j])),
        decreases n - i,
    {
        let p = asteroids[i];
        let ghost sl = slopes_of(av, av[i as int]);
        let mut slopes: Vec<Slope> = Vec::new();
        let mut j: usize = 0;
        while j < n
            invariant
                n == asteroids@.len(),
                av == coords_of(asteroids@),
                i < n,
                j <= n,
                p == asteroids@[i as int],
                sl == slopes_of(av, av[i as int]),
                forall|t: int|
                    0 <= t < asteroids@.len() ==> -0x3fff_ffff <= (#[trigger] asteroids@[t]).0
                        <= 0x3fff_ffff && -0x3fff_ffff <= asteroids@[t].1 <= 0x3fff_ffff,
                slopes@.len() == j,
                forall|t: int|
                    0 <= t < j ==> ((#[trigger] slopes@[t]).dx as int, slopes@[t].dy as int)
                        == sl[t],
            decreases n - j,
        {
            slopes.push(Slope::from(p, asteroids[j]));
            j = j + 1;
        }
        let mut cnt: usize = 0;
        let mut j2: usize = 0;
        while j2 < n
            invariant
                n == asteroids@.len(),
                i < n,
                j2 <= n,
                sl == slopes_of(av, av[i as int]),
                slopes@.len() == n,
                forall|t: int|
                    0 <= t < n ==> ((#[trigger] slopes@[t]).dx as int, slopes@[t].dy as int)
                        == sl[t],
                cnt == distinct_upto(sl, j2 as int),
                cnt <= j2,
            decreases n - j2,
        {
            let mut seen = false;
            let mut k: usize = 0;
            while k < j2
                invariant
                    k <= j2 < n,
                    slopes@.len() == n,
                    forall|t: int|
                        0 <= t < n ==> ((#[trigger] slopes@[t]).dx as int, slopes@[t].dy as int)
                            == sl[t],
                    seen == exists|t: int| 0 <= t < k && sl[t] == sl[j2 as int],
                decreases j2 - k + if seen {
                    0int
                } else {
                    1int
                },
            {
                if slopes[k].dx == slopes[j2].dx && slopes[k].dy == slopes[j2].dy {
                    proof {
                        assert(sl[k as int] == sl[j2 as int]);
                    }
                    seen = true;
                    k = j2;
                } else {
                    proof {
                        assert(sl[k as int] != sl[j2 as int]);
                    }
                    k = k + 1;
                }
            }
            if !seen {
                cnt = cnt + 1;
            }
            j2 = j2 + 1;
        }
        proof {
            lemma_distinct_bounds(sl, n as int);
        }
        let replace = if i == 0 {
            true
        } else {
            best_count < cnt || (best_count == cnt && (best_coord.0 < p.0 || (best_coord.0 == p.0
                && best_coord.1 <= p.1)))
        };
        if replace {
            best_count = cnt;
            best_coord = p;
            proof {
                bi = i as int;
            }
        }
        i = i + 1;
    }
    proof {
        lemma_distinct_bounds(slopes_of(av, av[bi]), n as int);
        assert(best_count >= 1);
    }
    (best_count - 1, best_coord)
}

} // verus!
