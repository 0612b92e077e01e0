//! Fuel arithmetic: a module's fuel is its mass over three, rounded
//! down, minus two (never below zero); total fuel also feeds the fuel
//! itself until the requirement dies out.

use crate::intcode::{all_digits, digits_val};
use vstd::prelude::*;
use vstd::string::StringSliceAdditionalSpecFns;

verus! {

/// Fuel for one mass: a third of it, less two, floored at zero.
pub open spec fn fuel_spec(mass: u32) -> int {
    if mass / 3 >= 2 {
        mass / 3 - 2
    } else {
        0
    }
}

/// Fuel for a mass and then for that fuel in turn, summed until the
/// requirement reaches zero.
pub open spec fn total_fuel_spec(mass: u32) -> int
    decreases mass,
{
    let f = fuel_spec(mass);
    if f <= 0 {
        0
    } else {
        f + total_fuel_spec(f as u32)
    }
}

/// Total fuel never exceeds the mass it is for.
pub proof fn lemma_total_fuel_bound(mass: u32)
    ensures
        0 <= total_fuel_spec(mass) <= mass,
    decreases mass,
{
    let f = fuel_spec(mass);
    if f > 0 {
        lemma_total_fuel_bound(f as u32);
    }
}

pub fn fuel_for_mass(mass: u32) -> (r: u32)
    ensures
        r == fuel_spec(mass),
{
    let q = mass / 3;
    if q >= 2 {
        q - 2
    } else {
        0
    }
}

pub fn total_fuel_for_mass(mass: u32) -> (r: u32)
    ensures
        r == total_fuel_spec(mass),
{
    let mut total: u32 = 0;
    let mut new_mass: u32 = mass;
    proof {
        lemma_total_fuel_bound(mass);
    }
    while new_mass > 0
        invariant
            total + total_fuel_spec(new_mass) == total_fuel_spec(mass),
            total_fuel_spec(new_mass) <= new_mass,
            total + new_mass <= mass || (total == 0 && new_mass == mass),
        decreases new_mass,
    {
        proof {
            lemma_total_fuel_bound(new_mass);
            lemma_total_fuel_bound(fuel_spec(new_mass) as u32);
        }
        new_mass = fuel_for_mass(new_mass);
        total = total + new_mass;
    }
    total
}

/// A line parsed the way an unsigned decimal is: an optional plus
/// sign, then digits, and a value that fits 32 bits.
pub open spec fn line_u32(t: Seq<u8>) -> Option<u32> {
    let ds = if t.len() > 0 && t[0] == 43 {
        t.subrange(1, t.len() as int)
    } else {
        t
    };
    if ds.len() == 0 || !all_digits(ds) {
        None
    } else if digits_val(ds) <= u32::MAX {
        Some(digits_val(ds) as u32)
    } else {
        None
    }
}

/// A line with a trailing carriage return removed, as line splitting
/// does.
pub open spec fn strip_cr(t: Seq<u8>) -> Seq<u8> {
    if t.len() > 0 && t.last() == 13 {
        t.drop_last()
    } else {
        t
    }
}

/// The masses a line contributes: one value where it parses, none
/// where it does not (malformed lines are skipped here).
pub open spec fn line_masses(t: Seq<u8>) -> Seq<u32> {
    match line_u32(strip_cr(t)) {
        Some(v) => seq![v],
        None => Seq::empty(),
    }
}

/// Index of the first line feed of `b`, or `b.len()` if there is none.
pub open spec fn first_nl(b: Seq<u8>) -> int
    decreases b.len(),
{
    if b.len() == 0 {
        0
    } else if b[0] == 10 {
        0
    } else {
        1 + first_nl(b.subrange(1, b.len() as int))
    }
}

/// Every mass named in the text, one line at a time, in order.
pub open spec fn masses_spec(b: Seq<u8>) -> Seq<u32>
    decreases b.len(),
{
    if b.len() == 0 {
        Seq::empty()
    } else {
        let i = first_nl(b);
        if 0 <= i < b.len() {
            line_masses(b.subrange(0, i)) + masses_spec(b.subrange(i + 1, b.len() as int))
        } else {
            line_masses(b)
        }
    }
}

/// Sum of the fuel for each mass.
pub open spec fn fuel_sum(ms: Seq<u32>) -> int
    decreases ms.len(),
{
    if ms.len() == 0 {
        0
    } else {
        fuel_sum(ms.drop_last()) + fuel_spec(ms.last())
    }
}

/// Sum of the total fuel for each mass.
pub open spec fn total_fuel_sum(ms: Seq<u32>) -> int
    decreases ms.len(),
{
    if ms.len() == 0 {
        0
    } else {
        total_fuel_sum(ms.drop_last()) + total_fuel_spec(ms.last())
    }
}

/// The first line feed is where no earlier byte is one.
proof fn lemma_first_nl_at(s: Seq<u8>, k: int)
    requires
        0 <= k <= s.len(),
        forall|j: int| 0 <= j < k ==> s[j] != 10,
        k < s.len() ==> s[k] == 10,
    ensures
        first_nl(s) == k,
    decreases k,
{
    if k > 0 {
        let t = s.subrange(1, s.len() as int);
        lemma_first_nl_at(t, k - 1);
    }
}

/// Parses one line's mass, if it has one.
#[verifier::loop_isolation(false)]
fn parse_line(b: &Vec<u8>, lo: usize, hi: usize) -> (r: Option<u32>)
    requires
        lo <= hi <= b@.len(),
    ensures
        r == line_u32(strip_cr(b@.subrange(lo as int, hi as int))),
{
    let ghost orig = b@.subrange(lo as int, hi as int);
    let mut lo = lo;
    let mut hi = hi;
    if hi > lo && b[hi - 1] == 13 {
        proof {
            assert(b@.subrange(lo as int, hi as int).drop_last() =~= b@.subrange(
                lo as int,
                hi as int - 1,
            ));
        }
        hi = hi - 1;
    }
    let ghost u = strip_cr(orig);
    proof {
        assert(u == b@.subrange(lo as int, hi as int));
    }
    if lo < hi && b[lo] == 43 {
        proof {
            assert(b@.subrange(lo as int, hi as int).subrange(1, (hi - lo) as int) =~= b@.subrange(
                lo as int + 1,
                hi as int,
            ));
        }
        lo = lo + 1;
    }
    let ghost ds = b@.subrange(lo as int, hi as int);
    proof {
        assert(ds == if u.len() > 0 && u[0] == 43 {
            u.subrange(1, u.len() as int)
        } else {
            u
        });
    }
    if lo == hi {
        return None;
    }
    let mut mag: u64 = 0;
    let mut j = lo;
    while j < hi
        invariant
            lo <= j <= hi <= b@.len(),
            ds == b@.subrange(lo as int, hi as int),
            all_digits(b@.subrange(lo as int, j as int)),
            mag == digits_val(b@.subrange(lo as int, j as int)),
            mag <= u32::MAX,
        decreases hi - j,
    {
        let c = b[j];
        if c < 48 || c > 57 {
            proof {
                assert(ds[j - lo] == c);
                assert(!all_digits(ds));
            }
            return None;
        }
        let nm = mag * 10 + ((c - 48) as u64);
        proof {
            assert(b@.subrange(lo as int, j as int + 1).drop_last() =~= b@.subrange(
                lo as int,
                j as int,
            ));
        }
        if nm > u32::MAX as u64 {
            proof {
                let pre = b@.subrange(lo as int, j as int + 1);
                assert(pre =~= ds.subrange(0, j - lo + 1));
                if all_digits(ds) {
                    crate::intcode::lemma_digits_val_prefix(ds, j - lo + 1);
                    assert(digits_val(ds) >= nm);
                }
            }
            return None;
        }
        mag = nm;
        j = j + 1;
    }
    proof {
        assert(b@.subrange(lo as int, j as int) =~= ds);
    }
    Some(mag as u32)
}

/// Every mass named in the text, one line at a time; a line that is
/// not an unsigned decimal contributes nothing.
pub fn masses(input: &str) -> (r: Vec<u32>)
    ensures
        r@ == masses_spec(input.spec_bytes()),
{
    let b = vstd::slice::slice_to_vec(input.as_bytes());
    let n = b.len();
    let mut out: Vec<u32> = Vec::new();
    let mut start: usize = 0;
    proof {
        assert(out@ + masses_spec(b@.subrange(0, n as int)) =~= masses_spec(b@.subrange(
            0,
            n as int,
        )));
        assert(b@.subrange(0, n as int) =~= b@);
    }
    while start < n
        invariant
            start <= n,
            n == b@.len(),
            input.spec_bytes() == b@,
            masses_spec(input.spec_bytes()) == out@ + masses_spec(
                b@.subrange(start as int, n as int),
            ),
        decreases n - start,
    {
        let mut end = start;
        while end < n && b[end] != 10
            invariant
                start <= end <= n,
                n == b@.len(),
                forall|j: int| start <= j < end ==> b@[j] != 10,
            decreases n - end,
        {
            end = end + 1;
        }
        let ghost suffix = b@.subrange(start as int, n as int);
        proof {
            lemma_first_nl_at(suffix, end - start);
            assert(suffix.subrange(0, end - start) =~= b@.subrange(start as int, end as int));
        }
        let ghost out_old = out@;
        match parse_line(&b, start, end) {
            Some(v) => {
                out.push(v);
            },
            None => {},
        }
        if end == n {
            proof {
                assert(suffix =~= b@.subrange(start as int, end as int));
                assert(out@ + masses_spec(b@.subrange(n as int, n as int)) =~= out@);
            }
            start = n;
        } else {
            proof {
                assert(suffix.subrange(end - start + 1, suffix.len() as int) =~= b@.subrange(
                    end as int + 1,
                    n as int,
                ));
                let rest = masses_spec(b@.subrange(end as int + 1, n as int));
                assert(out_old + (line_masses(b@.subrange(start as int, end as int)) + rest)
                    =~= out@ + rest);
            }
            start = end + 1;
        }
    }
    proof {
        assert(masses_spec(b@.subrange(n as int, n as int)) =~= Seq::<u32>::empty());
        assert(out@ + Seq::<u32>::empty() =~= out@);
    }
    out
}

/// Fuel for every module, summed.
pub fn solve_01(input: &str) -> (r: u32)
    requires
        fuel_sum(masses_spec(input.spec_bytes())) <= u32::MAX,
    ensures
        r == fuel_sum(masses_spec(input.spec_bytes())),
{
    let ms = masses(input);
    let mut total: u32 = 0;
    let mut i: usize = 0;
    proof {
        lemma_fuel_sum_nonneg(ms@);
    }
    while i < ms.len()
        invariant
            i <= ms@.len(),
            ms@ == masses_spec(input.spec_bytes()),
            total == fuel_sum(ms@.subrange(0, i as int)),
            fuel_sum(ms@) <= u32::MAX,
        decreases ms@.len() - i,
    {
        proof {
            lemma_fuel_sum_prefix(ms@, i as int + 1);
            assert(ms@.subrange(0, i as int + 1).drop_last() =~= ms@.subrange(0, i as int));
        }
        total = total + fuel_for_mass(ms[i]);
        i = i + 1;
    }
    proof {
        assert(ms@.subrange(0, ms@.len() as int) =~= ms@);
    }
    total
}

/// Total fuel — fuel for the fuel included — for every module, summed.
pub fn solve_02(input: &str) -> (r: u32)
    requires
        total_fuel_sum(masses_spec(input.spec_bytes())) <= u32::MAX,
    ensures
        r == total_fuel_sum(masses_spec(input.spec_bytes())),
{
    let ms = masses(input);
    let mut total: u32 = 0;
    let mut i: usize = 0;
    proof {
        lemma_total_fuel_sum_nonneg(ms@);
    }
    while i < ms.len()
        invariant
            i <= ms@.len(),
            ms@ == masses_spec(input.spec_bytes()),
            total == total_fuel_sum(ms@.subrange(0, i as int)),
            total_fuel_sum(ms@) <= u32::MAX,
        decreases ms@.len() - i,
    {
        proof {
            lemma_total_fuel_sum_prefix(ms@, i as int + 1);
            assert(ms@.subrange(0, i as int + 1).drop_last() =~= ms@.subrange(0, i as int));
        }
        total = total + total_fuel_for_mass(ms[i]);
        i = i + 1;
    }
    proof {
        assert(ms@.subrange(0, ms@.len() as int) =~= ms@);
    }
    total
}

/// Each fuel sum is non-negative.
proof fn lemma_fuel_sum_nonneg(ms: Seq<u32>)
    ensures
        fuel_sum(ms) >= 0,
    decreases ms.len(),
{
    if ms.len() > 0 {
        lemma_fuel_sum_nonneg(ms.drop_last());
    }
}

proof fn lemma_total_fuel_sum_nonneg(ms: Seq<u32>)
    ensures
        total_fuel_sum(ms) >= 0,
    decreases ms.len(),
{
    if ms.len() > 0 {
        lemma_total_fuel_sum_nonneg(ms.drop_last());
        lemma_total_fuel_bound(ms.last());
    }
}

/// A prefix of the fuel sum never exceeds the whole.
proof fn lemma_fuel_sum_prefix(ms: Seq<u32>, k: int)
    requires
        0 <= k <= ms.len(),
    ensures
        fuel_sum(ms.subrange(0, k)) <= fuel_sum(ms),
    decreases ms.len() - k,
{
    if k == ms.len() {
        assert(ms.subrange(0, k) =~= ms);
    } else {
        lemma_fuel_sum_prefix(ms, k + 1);
        assert(ms.subrange(0, k + 1).drop_last() =~= ms.subrange(0, k));
    }
}

proof fn lemma_total_fuel_sum_prefix(ms: Seq<u32>, k: int)
    requires
        0 <= k <= ms.len(),
    ensures
        total_fuel_sum(ms.subrange(0, k)) <= total_fuel_sum(ms),
    decreases ms.len() - k,
{
    if k == ms.len() {
        assert(ms.subrange(0, k) =~= ms);
    } else {
        lemma_total_fuel_sum_prefix(ms, k + 1);
        assert(ms.subrange(0, k + 1).drop_last() =~= ms.subrange(0, k));
        lemma_total_fuel_bound(ms.subrange(0, k + 1).last());
    }
}

} // verus!
