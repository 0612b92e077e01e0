//! Password screening: a candidate's digits must never decrease, and
//! some digit must repeat — for the stricter rule, repeat exactly
//! twice.

use vstd::prelude::*;

verus! {

/// The decimal digits of `n`, most significant first; none for zero.
pub open spec fn digits_spec(n: usize) -> Seq<usize>
    decreases n,
{
    if n == 0 {
        Seq::empty()
    } else {
        digits_spec(n / 10).push(n % 10)
    }
}

/// Whether a sequence never decreases.
pub open spec fn sorted_spec(s: Seq<usize>) -> bool {
    forall|i: int, j: int| 0 <= i <= j < s.len() ==> s[i] <= s[j]
}

/// How often `v` occurs in `s`.
pub open spec fn count_of(s: Seq<usize>, v: usize) -> int
    decreases s.len(),
{
    if s.len() == 0 {
        0
    } else {
        count_of(s.drop_last(), v) + if s.last() == v {
            1int
        } else {
            0int
        }
    }
}

/// The looser rule: digits never decrease and some digit repeats.
pub open spec fn check_01_spec(n: usize) -> bool {
    sorted_spec(digits_spec(n)) && exists|v: usize| count_of(digits_spec(n), v) >= 2
}

/// The stricter rule: digits never decrease and some digit occurs
/// exactly twice.
pub open spec fn check_02_spec(n: usize) -> bool {
    sorted_spec(digits_spec(n)) && exists|v: usize| count_of(digits_spec(n), v) == 2
}

/// The decimal digits of `n`, most significant first.
pub fn digits(i: usize) -> (r: Vec<usize>)
    ensures
        r@ == digits_spec(i),
{
    let mut tmp: Vec<usize> = Vec::new();
    let mut n = i;
    while n > 0
        invariant
            digits_spec(i) == digits_spec(n) + tmp@.reverse(),
        decreases n,
    {
        let ghost t_old = tmp@;
        tmp.push(n % 10);
        proof {
            assert(tmp@.reverse() =~= seq![n % 10] + t_old.reverse());
            assert(digits_spec(n / 10) + (seq![n % 10] + t_old.reverse()) =~= (digits_spec(n / 10)
                + seq![n % 10]) + t_old.reverse());
            assert(digits_spec(n / 10).push(n % 10) =~= digits_spec(n / 10) + seq![n % 10]);
        }
        n = n / 10;
    }
    let mut m: Vec<usize> = Vec::new();
    let mut k = tmp.len();
    while k > 0
        invariant
            k <= tmp@.len(),
            m@.len() == tmp@.len() - k,
            forall|j: int| 0 <= j < m@.len() ==> m@[j] == tmp@[tmp@.len() - 1 - j],
        decreases k,
    {
        k = k - 1;
        m.push(tmp[k]);
    }
    proof {
        assert(m@ =~= tmp@.reverse());
        assert(digits_spec(0) + tmp@.reverse() =~= tmp@.reverse());
    }
    m
}

/// Whether the values never decrease.
pub fn is_sorted(slice: &[usize]) -> (r: bool)
    ensures
        r == sorted_spec(slice@),
{
    if slice.len() == 0 {
        return true;
    }
    let mut i: usize = 1;
    while i < slice.len()
        invariant
            1 <= i <= slice@.len(),
            forall|a: int, b: int| 0 <= a <= b < i ==> slice@[a] <= slice@[b],
        decreases slice@.len() - i,
    {
        if *vstd::slice::slice_index_get(slice, i) < *vstd::slice::slice_index_get(slice, i - 1) {
            return false;
        }
        i = i + 1;
    }
    true
}

/// How often `v` occurs among the first `hi` values.
fn count_value(ds: &Vec<usize>, v: usize) -> (r: usize)
    ensures
        r == count_of(ds@, v),
{
    let mut c: usize = 0;
    let mut i: usize = 0;
    while i < ds.len()
        invariant
            i <= ds@.len(),
            c == count_of(ds@.subrange(0, i as int), v),
            c <= i,
        decreases ds@.len() - i,
    {
        proof {
            assert(ds@.subrange(0, i as int + 1).drop_last() =~= ds@.subrange(0, i as int));
        }
        if ds[i] == v {
            c = c + 1;
        }
        i = i + 1;
    }
    proof {
        assert(ds@.subrange(0, ds@.len() as int) =~= ds@);
    }
    c
}

/// The looser screening rule on one candidate.
pub fn check_01(i: usize) -> (r: bool)
    ensures
        r == check_01_spec(i),
{
    let v = digits(i);
    if !is_sorted(v.as_slice()) {
        return false;
    }
    let mut d: usize = 0;
    while d < 10
        invariant
            d <= 10,
            v@ == digits_spec(i),
            sorted_spec(digits_spec(i)),
            forall|v2: usize| v2 < d ==> count_of(digits_spec(i), v2) < 2,
        decreases 10 - d,
    {
        if count_value(&v, d) >= 2 {
            return true;
        }
        d = d + 1;
    }
    proof {
        if exists|v2: usize| count_of(digits_spec(i), v2) >= 2 {
            let v2 = choose|v2: usize| count_of(digits_spec(i), v2) >= 2;
            if v2 >= 10 {
                lemma_count_digit_range(digits_spec(i), v2, i);
            }
        }
    }
    false
}

/// The stricter screening rule on one candidate.
pub fn check_02(i: usize) -> (r: bool)
    ensures
        r == check_02_spec(i),
{
    let v = digits(i);
    if !is_sorted(v.as_slice()) {
        return false;
    }
    let mut d: usize = 0;
    while d < 10
        invariant
            d <= 10,
            v@ == digits_spec(i),
            sorted_spec(digits_spec(i)),
            forall|v2: usize| v2 < d ==> count_of(digits_spec(i), v2) != 2,
        decreases 10 - d,
    {
        if count_value(&v, d) == 2 {
            return true;
        }
        d = d + 1;
    }
    proof {
        if exists|v2: usize| count_of(digits_spec(i), v2) == 2 {
            let v2 = choose|v2: usize| count_of(digits_spec(i), v2) == 2;
            if v2 >= 10 {
                lemma_count_digit_range(digits_spec(i), v2, i);
            }
        }
    }
    false
}

/// A value that is no decimal digit never occurs in a digit string.
proof fn lemma_count_digit_range(s: Seq<usize>, v: usize, n: usize)
    requires
        v >= 10,
        s == digits_spec(n),
    ensures
        count_of(s, v) == 0,
    decreases n,
{
    if n > 0 {
        lemma_count_digit_range(digits_spec((n / 10) as usize), v, (n / 10) as usize);
        assert(digits_spec(n).drop_last() =~= digits_spec((n / 10) as usize));
    }
}

/// How many candidates in `lo ..= hi` pass the looser rule.
pub open spec fn count_01(lo: int, hi: int) -> int
    decreases hi - lo,
{
    if lo >= hi {
        0
    } else {
        (if check_01_spec(lo as usize) {
            1int
        } else {
            0int
        }) + count_01(lo + 1, hi)
    }
}

/// How many candidates in `lo ..= hi` pass the stricter rule.
pub open spec fn count_02(lo: int, hi: int) -> int
    decreases hi - lo,
{
    if lo >= hi {
        0
    } else {
        (if check_02_spec(lo as usize) {
            1int
        } else {
            0int
        }) + count_02(lo + 1, hi)
    }
}

/// Counts the candidates from `lo` through `hi` that pass the looser
/// rule.
pub fn solve_01(lo: usize, hi: usize) -> (r: usize)
    requires
        hi < usize::MAX,
    ensures
        r == count_01(lo as int, hi as int + 1),
{
    let mut count: usize = 0;
    let mut i = lo;
    while i <= hi
        invariant
            lo <= i,
            i <= hi + 1 || i == lo,
            hi < usize::MAX,
            count + count_01(i as int, hi as int + 1) == count_01(lo as int, hi as int + 1),
            count <= i - lo,
        decreases hi + 1 - i,
    {
        if check_01(i) {
            count = count + 1;
        }
        i = i + 1;
    }
    proof {
        assert(count_01(i as int, hi as int + 1) == 0);
    }
    count
}

/// Counts the candidates from `lo` through `hi` that pass the
/// stricter rule.
pub fn solve_02(lo: usize, hi: usize) -> (r: usize)
    requires
        hi < usize::MAX,
    ensures
        r == count_02(lo as int, hi as int + 1),
{
    let mut count: usize = 0;
    let mut i = lo;
    while i <= hi
        invariant
            lo <= i,
            i <= hi + 1 || i == lo,
            hi < usize::MAX,
            count + count_02(i as int, hi as int + 1) == count_02(lo as int, hi as int + 1),
            count <= i - lo,
        decreases hi + 1 - i,
    {
        if check_02(i) {
            count = count + 1;
        }
        i = i + 1;
    }
    proof {
        assert(count_02(i as int, hi as int + 1) == 0);
    }
    count
}

} // verus!
