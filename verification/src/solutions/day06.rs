//! Orbit bookkeeping: a catalogue of `parent)child` lines names each
//! body's one direct parent; chains of parents lead every body to the
//! central body.

use crate::intcode::{skip_space_back, skip_space_front, trimmed};
use vstd::prelude::*;
use vstd::string::StringSliceAdditionalSpecFns;

verus! {

/// The central body every chain ends at.
pub open spec fn com() -> Seq<u8> {
    seq![67u8, 79u8, 77u8]
}

/// The parent map an orbit catalogue denotes: child to parent, a later
/// entry for the same child winning.
pub open spec fn graph_map(g: Seq<(Vec<u8>, Vec<u8>)>) -> Map<Seq<u8>, Seq<u8>>
    decreases g.len(),
{
    if g.len() == 0 {
        Map::empty()
    } else {
        graph_map(g.drop_last()).insert(g.last().0@, g.last().1@)
    }
}

/// How many orbits `key` stands in: the length of its parent chain up
/// to the central body, `None` where no chain of length `fuel` or less
/// exists.
pub open spec fn depth_to_com(m: Map<Seq<u8>, Seq<u8>>, key: Seq<u8>, fuel: nat) -> Option<int>
    decreases fuel,
{
    if key == com() {
        Some(0)
    } else if fuel == 0 {
        None
    } else if m.dom().contains(key) {
        match depth_to_com(m, m[key], (fuel - 1) as nat) {
            Some(d) => Some(d + 1),
            None => None,
        }
    } else {
        None
    }
}

/// A chain length is never negative.
pub proof fn lemma_depth_nonneg(m: Map<Seq<u8>, Seq<u8>>, key: Seq<u8>, fuel: nat)
    ensures
        depth_to_com(m, key, fuel) matches Some(d) ==> d >= 0,
    decreases fuel,
{
    if key != com() && fuel > 0 && m.dom().contains(key) {
        lemma_depth_nonneg(m, m[key], (fuel - 1) as nat);
    }
}

/// Looking a child up in the map is finding its last catalogue entry.
proof fn lemma_graph_map_at(g: Seq<(Vec<u8>, Vec<u8>)>, key: Seq<u8>, i: int)
    requires
        0 <= i < g.len(),
        g[i].0@ == key,
        forall|j: int| i < j < g.len() ==> g[j].0@ != key,
    ensures
        graph_map(g).dom().contains(key),
        graph_map(g)[key] == g[i].1@,
    decreases g.len(),
{
    if i + 1 < g.len() {
        lemma_graph_map_at(g.drop_last(), key, i);
    }
}

/// A child in no catalogue entry is in no map.
proof fn lemma_graph_map_absent(g: Seq<(Vec<u8>, Vec<u8>)>, key: Seq<u8>)
    requires
        forall|j: int| 0 <= j < g.len() ==> g[j].0@ != key,
    ensures
        !graph_map(g).dom().contains(key),
    decreases g.len(),
{
    if g.len() > 0 {
        lemma_graph_map_absent(g.drop_last(), key);
    }
}

/// Whether two byte strings are equal.
fn bytes_eq(a: &Vec<u8>, b: &Vec<u8>) -> (r: bool)
    ensures
        r == (a@ == b@),
{
    if a.len() != b.len() {
        proof {
            assert(a@ != b@);
        }
        return false;
    }
    let mut i: usize = 0;
    while i < a.len()
        invariant
            i <= a@.len(),
            a@.len() == b@.len(),
            forall|j: int| 0 <= j < i ==> a@[j] == b@[j],
        decreases a@.len() - i,
    {
        if a[i] != b[i] {
            return false;
        }
        i = i + 1;
    }
    proof {
        assert(a@ =~= b@);
    }
    true
}

/// Whether `v` names the central body.
fn is_com(v: &Vec<u8>) -> (r: bool)
    ensures
        r == (v@ == com()),
{
    if v.len() == 3 && v[0] == 67 && v[1] == 79 && v[2] == 77 {
        proof {
            assert(v@ =~= com());
        }
        true
    } else {
        proof {
            assert(v@ != com());
        }
        false
    }
}

/// The last catalogue entry for `key`, if any.
fn lookup(graph: &Vec<(Vec<u8>, Vec<u8>)>, key: &Vec<u8>) -> (r: Option<Vec<u8>>)
    ensures
        match r {
            Some(p) => graph_map(graph@).dom().contains(key@) && p@ == graph_map(graph@)[key@],
            None => !graph_map(graph@).dom().contains(key@),
        },
{
    let mut j = graph.len();
    while j > 0
        invariant
            j <= graph@.len(),
            forall|t: int| j <= t < graph@.len() ==> graph@[t].0@ != key@,
        decreases j,
    {
        j = j - 1;
        if bytes_eq(&graph[j].0, key) {
            proof {
                lemma_graph_map_at(graph@, key@, j as int);
            }
            let p = graph[j].1.clone();
            proof {
                assert(p@ == graph@[j as int].1@);
            }
            return Some(p);
        }
    }
    proof {
        lemma_graph_map_absent(graph@, key@);
    }
    None
}

/// The length of `key`'s parent chain up to the central body. The
/// catalogue must actually carry `key` there: a chain exists within
/// one step more than the catalogue is long.
pub fn count_orbits(key: &[u8], graph: &Vec<(Vec<u8>, Vec<u8>)>) -> (r: usize)
    requires
        graph@.len() < usize::MAX,
        depth_to_com(graph_map(graph@), key@, graph@.len() + 1) is Some,
    ensures
        Some(r as int) == depth_to_com(graph_map(graph@), key@, graph@.len() + 1),
{
    let ghost m = graph_map(graph@);
    let ghost f0 = (graph@.len() + 1) as nat;
    let mut cur = vstd::slice::slice_to_vec(key);
    let mut count: usize = 0;
    let mut fuel = graph.len() + 1;
    while fuel > 0
        invariant
            m == graph_map(graph@),
            count + fuel == f0,
            f0 == graph@.len() + 1,
            graph@.len() < usize::MAX,
            match depth_to_com(m, cur@, fuel as nat) {
                Some(d) => depth_to_com(m, key@, f0) == Some(count + d),
                None => depth_to_com(m, key@, f0) is None,
            },
            depth_to_com(m, key@, f0) is Some,
        decreases fuel,
    {
        if is_com(&cur) {
            proof {
                lemma_depth_nonneg(m, cur@, fuel as nat);
            }
            return count;
        }
        match lookup(graph, &cur) {
            Some(p) => {
                cur = p;
            },
            None => {
                proof {
                    assert(false);
                }
                return 0;
            },
        }
        count = count + 1;
        fuel = fuel - 1;
    }
    if is_com(&cur) {
        return count;
    }
    proof {
        assert(false);
    }
    0
}

/// Whether index `i` is the last catalogue entry for its child.
pub open spec fn last_entry(g: Seq<(Vec<u8>, Vec<u8>)>, i: int) -> bool {
    forall|j: int| i < j < g.len() ==> g[j].0@ != g[i].0@
}

/// Sum of the orbit counts of the first `k` distinct children.
pub open spec fn orbit_sum(g: Seq<(Vec<u8>, Vec<u8>)>, k: int) -> int
    decreases k,
{
    if k <= 0 {
        0
    } else {
        orbit_sum(g, k - 1) + if last_entry(g, k - 1) {
            depth_to_com(graph_map(g), g[k - 1].0@, g.len() + 1)->Some_0
        } else {
            0
        }
    }
}

/// Total number of direct and indirect orbits: every distinct child's
/// chain length, summed.
pub fn solve_01(graph: &Vec<(Vec<u8>, Vec<u8>)>) -> (r: usize)
    requires
        graph@.len() < usize::MAX,
        forall|i: int|
            0 <= i < graph@.len() ==> #[trigger] depth_to_com(
                graph_map(graph@),
                graph@[i].0@,
                graph@.len() + 1,
            ) is Some,
        orbit_sum(graph@, graph@.len() as int) <= usize::MAX,
    ensures
        r == orbit_sum(graph@, graph@.len() as int),
{
    let mut total: usize = 0;
    let mut i: usize = 0;
    while i < graph.len()
        invariant
            i <= graph@.len(),
            graph@.len() < usize::MAX,
            total == orbit_sum(graph@, i as int),
            forall|t: int|
                0 <= t < graph@.len() ==> #[trigger] depth_to_com(
                    graph_map(graph@),
                    graph@[t].0@,
                    graph@.len() + 1,
                ) is Some,
            orbit_sum(graph@, graph@.len() as int) <= usize::MAX,
        decreases graph@.len() - i,
    {
        let mut is_last = true;
        let mut j = i + 1;
        while j < graph.len()
            invariant
                i < j <= graph@.len(),
                is_last == forall|t: int| i < t < j ==> graph@[t].0@ != graph@[i as int].0@,
            decreases graph@.len() - j,
        {
            if bytes_eq(&graph[j].0, &graph[i].0) {
                is_last = false;
                proof {
                    assert(graph@[j as int].0@ == graph@[i as int].0@);
                }
                j = graph.len();
            } else {
                j = j + 1;
            }
        }
        proof {
            lemma_orbit_sum_bound(graph@, i as int + 1, graph@.len() as int);
        }
        if is_last {
            let d = count_orbits(graph[i].0.as_slice(), graph);
            proof {
                assert(last_entry(graph@, i as int));
            }
            total = total + d;
        } else {
            proof {
                assert(!last_entry(graph@, i as int));
            }
        }
        i = i + 1;
    }
    total
}

/// Orbit sums grow with the prefix, and never past the whole.
proof fn lemma_orbit_sum_bound(g: Seq<(Vec<u8>, Vec<u8>)>, k: int, n: int)
    requires
        0 <= k <= n <= g.len(),
        forall|i: int|
            0 <= i < g.len() ==> #[trigger] depth_to_com(
                graph_map(g),
                g[i].0@,
                g.len() + 1,
            ) is Some,
    ensures
        orbit_sum(g, k) <= orbit_sum(g, n),
    decreases n - k,
{
    if k < n {
        lemma_orbit_sum_bound(g, k + 1, n);
        lemma_depth_nonneg(graph_map(g), g[k].0@, (g.len() + 1) as nat);
    }
}

} // verus!

verus! {

/// Index of the first closing parenthesis, or `b.len()` if none.
pub open spec fn first_paren(b: Seq<u8>) -> int
    decreases b.len(),
{
    if b.len() == 0 {
        0
    } else if b[0] == 41 {
        0
    } else {
        1 + first_paren(b.subrange(1, b.len() as int))
    }
}

/// Index of the first line feed, or `b.len()` if none.
pub open spec fn first_nl(b: Seq<u8>) -> int
    decreases b.len(),
{
    if b.len() == 0 {
        0
    } else if b[0] == 10 {
        0
    } else {
        1 + first_nl(b.subrange(1, b.len() as int))
    }
}

/// The parent and child one catalogue line names: the part before the
/// first closing parenthesis, and the part between it and the next one
/// (or the end). `None` for a line with no parenthesis.
pub open spec fn line_pair(t: Seq<u8>) -> Option<(Seq<u8>, Seq<u8>)> {
    let u = trimmed(t);
    let i = first_paren(u);
    if 0 <= i < u.len() {
        let rest = u.subrange(i + 1, u.len() as int);
        let j = first_paren(rest);
        let b = if 0 <= j < rest.len() {
            rest.subrange(0, j)
        } else {
            rest
        };
        Some((u.subrange(0, i), b))
    } else {
        None
    }
}

/// The catalogue a text denotes: one (child, parent) pair per line.
/// Meaningful where every line parses.
pub open spec fn to_graph_spec(b: Seq<u8>) -> Seq<(Seq<u8>, Seq<u8>)>
    decreases b.len(),
{
    if b.len() == 0 {
        Seq::empty()
    } else {
        let i = first_nl(b);
        if 0 <= i < b.len() {
            line_pairs(b.subrange(0, i)) + to_graph_spec(b.subrange(i + 1, b.len() as int))
        } else {
            line_pairs(b)
        }
    }
}

/// The pairs one line contributes.
pub open spec fn line_pairs(t: Seq<u8>) -> Seq<(Seq<u8>, Seq<u8>)> {
    match line_pair(t) {
        Some(p) => seq![(p.1, p.0)],
        None => Seq::empty(),
    }
}

/// Whether every line of the text parses as a catalogue entry.
pub open spec fn graph_lines_ok(b: Seq<u8>) -> bool
    decreases b.len(),
{
    if b.len() == 0 {
        true
    } else {
        let i = first_nl(b);
        if 0 <= i < b.len() {
            line_pair(b.subrange(0, i)) is Some && graph_lines_ok(
                b.subrange(i + 1, b.len() as int),
            )
        } else {
            line_pair(b) is Some
        }
    }
}

/// The catalogue as the specification sees it.
pub open spec fn views_of(g: Seq<(Vec<u8>, Vec<u8>)>) -> Seq<(Seq<u8>, Seq<u8>)> {
    g.map_values(|p: (Vec<u8>, Vec<u8>)| (p.0@, p.1@))
}

proof fn lemma_first_paren_at(s: Seq<u8>, k: int)
    requires
        0 <= k <= s.len(),
        forall|j: int| 0 <= j < k ==> s[j] != 41,
        k < s.len() ==> s[k] == 41,
    ensures
        first_paren(s) == k,
    decreases k,
{
    if k > 0 {
        lemma_first_paren_at(s.subrange(1, s.len() as int), k - 1);
    }
}

proof fn lemma_first_nl_at(s: Seq<u8>, k: int)
    requires
        0 <= k <= s.len(),
        forall|j: int| 0 <= j < k ==> s[j] != 10,
        k < s.len() ==> s[k] == 10,
    ensures
        first_nl(s) == k,
    decreases k,
{
    if k > 0 {
        lemma_first_nl_at(s.subrange(1, s.len() as int), k - 1);
    }
}

/// Copies the bytes `lo ..= hi - 1`.
fn copy_range(b: &Vec<u8>, lo: usize, hi: usize) -> (r: Vec<u8>)
    requires
        lo <= hi <= b@.len(),
    ensures
        r@ == b@.subrange(lo as int, hi as int),
{
    let mut out: Vec<u8> = Vec::new();
    let mut i = lo;
    while i < hi
        invariant
            lo <= i <= hi <= b@.len(),
            out@.len() == i - lo,
            forall|j: int| 0 <= j < out@.len() ==> out@[j] == b@[lo + j],
        decreases hi - i,
    {
        out.push(b[i]);
        i = i + 1;
    }
    proof {
        assert(out@ =~= b@.subrange(lo as int, hi as int));
    }
    out
}

/// Parses one catalogue line into its (child, parent) pair.
#[verifier::loop_isolation(false)]
fn parse_orbit_line(b: &Vec<u8>, lo: usize, hi: usize) -> (r: Option<(Vec<u8>, Vec<u8>)>)
    requires
        lo <= hi <= b@.len(),
    ensures
        match r {
            Some(p) => line_pair(b@.subrange(lo as int, hi as int)) == Some((p.1@, p.0@)),
            None => line_pair(b@.subrange(lo as int, hi as int)) is None,
        },
{
    let ghost orig = b@.subrange(lo as int, hi as int);
    let lo1 = skip_space_front(b, lo, hi);
    let hi1 = skip_space_back(b, lo1, hi);
    proof {
        assert(trimmed(orig) == b@.subrange(lo1 as int, hi1 as int));
    }
    let ghost u = trimmed(orig);
    let mut i = lo1;
    while i < hi1 && b[i] != 41
        invariant
            lo1 <= i <= hi1,
            forall|j: int| lo1 <= j < i ==> b@[j] != 41,
        decreases hi1 - i,
    {
        i = i + 1;
    }
    proof {
        lemma_first_paren_at(u, i - lo1);
    }
    if i == hi1 {
        return None;
    }
    let mut j = i + 1;
    while j < hi1 && b[j] != 41
        invariant
            i + 1 <= j <= hi1,
            forall|t: int| i + 1 <= t < j ==> b@[t] != 41,
        decreases hi1 - j,
    {
        j = j + 1;
    }
    let ghost rest = u.subrange(i - lo1 + 1, u.len() as int);
    proof {
        assert(rest =~= b@.subrange(i as int + 1, hi1 as int));
        lemma_first_paren_at(rest, j - i - 1);
        assert(u.subrange(0, i - lo1) =~= b@.subrange(lo1 as int, i as int));
        if j < hi1 {
            assert(rest.subrange(0, j - i - 1) =~= b@.subrange(i as int + 1, j as int));
        }
    }
    let a = copy_range(b, lo1, i);
    let c = copy_range(b, i + 1, j);
    Some((c, a))
}

/// Reads the orbit catalogue: one `parent)child` line per body, each
/// line yielding the pair (child, parent).
pub fn to_graph(input: &str) -> (r: Vec<(Vec<u8>, Vec<u8>)>)
    requires
        graph_lines_ok(input.spec_bytes()),
    ensures
        views_of(r@) == to_graph_spec(input.spec_bytes()),
{
    let b = vstd::slice::slice_to_vec(input.as_bytes());
    let n = b.len();
    let mut out: Vec<(Vec<u8>, Vec<u8>)> = Vec::new();
    let mut start: usize = 0;
    proof {
        assert(views_of(out@) + to_graph_spec(b@) =~= to_graph_spec(b@));
        assert(b@.subrange(0, n as int) =~= b@);
    }
    while start < n
        invariant
            start <= n,
            n == b@.len(),
            input.spec_bytes() == b@,
            graph_lines_ok(b@.subrange(start as int, n as int)),
            to_graph_spec(input.spec_bytes()) == views_of(out@) + to_graph_spec(
                b@.subrange(start as int, n as int),
            ),
        decreases n - start,
    {
        let mut end = start;
        while end < n && b[end] != 10
            invariant
                start <= end <= n,
                n == b@.len(),
                forall|j: int| start <= j < end ==> b@[j] != 10,
            decreases n - end,
        {
            end = end + 1;
        }
        let ghost suffix = b@.subrange(start as int, n as int);
        proof {
            lemma_first_nl_at(suffix, end - start);
            assert(suffix.subrange(0, end - start) =~= b@.subrange(start as int, end as int));
        }
        let ghost out_old = views_of(out@);
        match parse_orbit_line(&b, start, end) {
            Some(p) => {
                out.push(p);
                proof {
                    assert(views_of(out@) =~= out_old + line_pairs(
                        b@.subrange(start as int, end as int),
                    ));
                }
            },
            None => {
                proof {
                    assert(false);
                }
            },
        }
        if end == n {
            proof {
                assert(suffix =~= b@.subrange(start as int, end as int));
                assert(views_of(out@) + to_graph_spec(b@.subrange(n as int, n as int)) =~= views_of(
                    out@,
                ));
            }
            start = n;
        } else {
            proof {
                assert(suffix.subrange(end - start + 1, suffix.len() as int) =~= b@.subrange(
                    end as int + 1,
                    n as int,
                ));
                let rest = to_graph_spec(b@.subrange(end as int + 1, n as int));
                assert(out_old + (line_pairs(b@.subrange(start as int, end as int)) + rest)
                    =~= views_of(out@) + rest);
            }
            start = end + 1;
        }
    }
    proof {
        assert(to_graph_spec(b@.subrange(n as int, n as int)) =~= Seq::<(Seq<u8>, Seq<u8>)>::empty());
        assert(views_of(out@) + Seq::<(Seq<u8>, Seq<u8>)>::empty() =~= views_of(out@));
    }
    out
}

} // verus!

verus! {

/// The bodies on `key`'s chain up to (and excluding) the central
/// body, `key` itself first; `None` where no such chain of length
/// `fuel` or less exists.
pub open spec fn chain_to_com(m: Map<Seq<u8>, Seq<u8>>, key: Seq<u8>, fuel: nat) -> Option<
    Seq<Seq<u8>>,
>
    decreases fuel,
{
    if key == com() {
        Some(Seq::empty())
    } else if fuel == 0 {
        None
    } else if m.dom().contains(key) {
        match chain_to_com(m, m[key], (fuel - 1) as nat) {
            Some(c) => Some(seq![key] + c),
            None => None,
        }
    } else {
        None
    }
}

/// The name of one's own first hop.
pub open spec fn you() -> Seq<u8> {
    seq![89u8, 79u8, 85u8]
}

/// The name of the destination body.
pub open spec fn san() -> Seq<u8> {
    seq![83u8, 65u8, 78u8]
}

/// A chain is never longer than the fuel that built it.
pub proof fn lemma_chain_len(m: Map<Seq<u8>, Seq<u8>>, key: Seq<u8>, fuel: nat)
    ensures
        chain_to_com(m, key, fuel) matches Some(c) ==> c.len() <= fuel,
    decreases fuel,
{
    if key != com() && fuel > 0 && m.dom().contains(key) {
        lemma_chain_len(m, m[key], (fuel - 1) as nat);
    }
}

/// Whether the destination's chain meets one's own anywhere.
pub open spec fn chains_meet(py: Seq<Seq<u8>>, ps: Seq<Seq<u8>>) -> bool {
    exists|h: int| 0 <= h < ps.len() && py.contains(#[trigger] ps[h])
}

/// What the minimum-transfer answer states, with the two chains given:
/// walking up from the destination side, `h` is the first body already
/// on one's own chain, `i` is where it sits there, and the answer is
/// `i + h`.
pub open spec fn transfer_answer(py: Seq<Seq<u8>>, ps: Seq<Seq<u8>>, r: int) -> bool {
    exists|h: int|
        0 <= h < ps.len() && py.contains(#[trigger] ps[h]) && (forall|h2: int|
            0 <= h2 < h ==> !py.contains(#[trigger] ps[h2])) && (exists|i: int|
            0 <= i < py.len() && py[i] == ps[h] && (forall|i2: int|
                0 <= i2 < i ==> py[i2] != ps[h]) && r == i + h)
}

/// Whether `hay` (a chain) carries `needle`.
fn contains_body(hay: &Vec<Vec<u8>>, needle: &Vec<u8>) -> (r: bool)
    ensures
        r == hay@.map_values(|v: Vec<u8>| v@).contains(needle@),
{
    let ghost views = hay@.map_values(|v: Vec<u8>| v@);
    let mut i: usize = 0;
    while i < hay.len()
        invariant
            i <= hay@.len(),
            views == hay@.map_values(|v: Vec<u8>| v@),
            forall|j: int| 0 <= j < i ==> views[j] != needle@,
        decreases hay@.len() - i,
    {
        if bytes_eq(&hay[i], needle) {
            proof {
                assert(views[i as int] == needle@);
            }
            return true;
        }
        i = i + 1;
    }
    proof {
        assert(forall|j: int| 0 <= j < views.len() ==> views[j] != needle@);
    }
    false
}

/// Walks `key`'s chain, collecting the bodies up to the central one.
fn collect_chain(graph: &Vec<(Vec<u8>, Vec<u8>)>, key: &Vec<u8>) -> (r: Vec<Vec<u8>>)
    requires
        graph@.len() < usize::MAX,
        chain_to_com(graph_map(graph@), key@, graph@.len() + 1) is Some,
    ensures
        Some(r@.map_values(|v: Vec<u8>| v@)) == chain_to_com(
            graph_map(graph@),
            key@,
            graph@.len() + 1,
        ),
{
    let ghost m = graph_map(graph@);
    let ghost f0 = (graph@.len() + 1) as nat;
    let mut out: Vec<Vec<u8>> = Vec::new();
    let mut cur = key.clone();
    let mut fuel = graph.len() + 1;
    proof {
        assert(cur@ == key@);
        assert(out@.map_values(|v: Vec<u8>| v@) =~= Seq::<Seq<u8>>::empty());
    }
    loop
        invariant_except_break
            m == graph_map(graph@),
            graph@.len() < usize::MAX,
            fuel <= f0,
            f0 == graph@.len() + 1,
            chain_to_com(m, key@, f0) is Some,
            match chain_to_com(m, cur@, fuel as nat) {
                Some(c) => chain_to_com(m, key@, f0) == Some(
                    out@.map_values(|v: Vec<u8>| v@) + c,
                ),
                None => chain_to_com(m, key@, f0) is None,
            },
        ensures
            Some(out@.map_values(|v: Vec<u8>| v@)) == chain_to_com(m, key@, f0),
        decreases fuel,
    {
        if is_com(&cur) {
            proof {
                assert(out@.map_values(|v: Vec<u8>| v@) + Seq::<Seq<u8>>::empty() =~= out@.map_values(
                    |v: Vec<u8>| v@,
                ));
            }
            break;
        }
        if fuel == 0 {
            proof {
                assert(false);
            }
            break;
        }
        let ghost out_old = out@.map_values(|v: Vec<u8>| v@);
        match lookup(graph, &cur) {
            Some(p) => {
                out.push(cur);
                cur = p;
                proof {
                    assert(out@.map_values(|v: Vec<u8>| v@) =~= out_old + seq![
                        out@.last()@,
                    ]);
                    if chain_to_com(m, cur@, (fuel - 1) as nat) is Some {
                        let c = chain_to_com(m, cur@, (fuel - 1) as nat)->Some_0;
                        assert(out_old + (seq![out@.last()@] + c) =~= out@.map_values(
                            |v: Vec<u8>| v@,
                        ) + c);
                    }
                }
            },
            None => {
                proof {
                    assert(false);
                }
                break;
            },
        }
        fuel = fuel - 1;
    }
    out
}

/// The fewest orbital transfers from one's own position to the
/// destination's: walk the destination's chain upward until it meets
/// one's own, and add where the meeting body sits on each side.
pub fn solve_02(graph: &Vec<(Vec<u8>, Vec<u8>)>) -> (r: usize)
    requires
        graph@.len() < usize::MAX / 2,
        graph_map(graph@).dom().contains(you()),
        graph_map(graph@).dom().contains(san()),
        chain_to_com(graph_map(graph@), graph_map(graph@)[you()], graph@.len() + 1) is Some,
        chain_to_com(graph_map(graph@), graph_map(graph@)[san()], graph@.len() + 1) is Some,
        chains_meet(
            chain_to_com(graph_map(graph@), graph_map(graph@)[you()], graph@.len() + 1)->Some_0,
            chain_to_com(graph_map(graph@), graph_map(graph@)[san()], graph@.len() + 1)->Some_0,
        ),
    ensures
        transfer_answer(
            chain_to_com(graph_map(graph@), graph_map(graph@)[you()], graph@.len() + 1)->Some_0,
            chain_to_com(graph_map(graph@), graph_map(graph@)[san()], graph@.len() + 1)->Some_0,
            r as int,
        ),
{
    let ghost m = graph_map(graph@);
    let mut youv: Vec<u8> = Vec::new();
    youv.push(89);
    youv.push(79);
    youv.push(85);
    let mut sanv: Vec<u8> = Vec::new();
    sanv.push(83);
    sanv.push(65);
    sanv.push(78);
    proof {
        assert(youv@ =~= you());
        assert(sanv@ =~= san());
    }
    let yp = match lookup(graph, &youv) {
        Some(p) => p,
        None => {
            proof {
                assert(false);
            }
            return 0;
        },
    };
    let sp = match lookup(graph, &sanv) {
        Some(p) => p,
        None => {
            proof {
                assert(false);
            }
            return 0;
        },
    };
    let path = collect_chain(graph, &yp);
    let ghost py = path@.map_values(|v: Vec<u8>| v@);
    let schain = collect_chain(graph, &sp);
    let ghost ps = schain@.map_values(|v: Vec<u8>| v@);
    let mut h: usize = 0;
    while h < schain.len() && !contains_body(&path, &schain[h])
        invariant
            h <= schain@.len(),
            py == path@.map_values(|v: Vec<u8>| v@),
            ps == schain@.map_values(|v: Vec<u8>| v@),
            forall|h2: int| 0 <= h2 < h ==> !py.contains(#[trigger] ps[h2]),
        decreases schain@.len() - h,
    {
        proof {
            assert(ps[h as int] == schain@[h as int]@);
        }
        h = h + 1;
    }
    if h >= schain.len() {
        proof {
            let hw = choose|hw: int| 0 <= hw < ps.len() && py.contains(#[trigger] ps[hw]);
            assert(py.contains(ps[hw]));
            assert(false);
        }
        return 0;
    }
    proof {
        assert(ps[h as int] == schain@[h as int]@);
        assert(py.contains(ps[h as int]));
    }
    let mut i: usize = 0;
    while i < path.len() && !bytes_eq(&path[i], &schain[h])
        invariant
            i <= path@.len(),
            h < schain@.len(),
            py == path@.map_values(|v: Vec<u8>| v@),
            ps == schain@.map_values(|v: Vec<u8>| v@),
            forall|i2: int| 0 <= i2 < i ==> py[i2] != ps[h as int],
        decreases path@.len() - i,
    {
        proof {
            assert(py[i as int] == path@[i as int]@);
        }
        i = i + 1;
    }
    if i >= path.len() {
        proof {
            let iw = choose|iw: int| 0 <= iw < py.len() && py[iw] == ps[h as int];
            assert(false);
        }
        return 0;
    }
    proof {
        assert(py[i as int] == path@[i as int]@);
        assert(py[i as int] == ps[h as int]);
        lemma_chain_len(m, yp@, (graph@.len() + 1) as nat);
        lemma_chain_len(m, sp@, (graph@.len() + 1) as nat);
    }
    i + h
}

} // verus!
