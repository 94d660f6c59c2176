//! Levenshtein edit distance, computed both by plain recursion and by a
//! dynamic-programming table, both against the same recurrence.

use vstd::prelude::*;
use crate::text::chars_vec;

verus! {

/// The edit-distance recurrence over the first `n` characters of `x` and
/// the first `m` of `y`.
pub open spec fn spec_ed(x: Seq<char>, y: Seq<char>, n: int, m: int) -> int
    decreases n + m,
    when 0 <= n && 0 <= m
{
    if n == 0 {
        m
    } else if m == 0 {
        n
    } else {
        let a = spec_ed(x, y, n, m - 1) + 1;
        let b = spec_ed(x, y, n - 1, m) + 1;
        let d = spec_ed(x, y, n - 1, m - 1) + if x[n - 1] != y[m - 1] {
            1int
        } else {
            0int
        };
        if a <= b && a <= d {
            a
        } else if b <= d {
            b
        } else {
            d
        }
    }
}

/// The distance never exceeds the summed lengths and never goes negative.
pub proof fn lemma_ed_bounds(x: Seq<char>, y: Seq<char>, n: int, m: int)
    requires
        0 <= n,
        0 <= m,
    ensures
        0 <= spec_ed(x, y, n, m) <= n + m,
    decreases n + m,
{
    if n > 0 && m > 0 {
        lemma_ed_bounds(x, y, n, m - 1);
        lemma_ed_bounds(x, y, n - 1, m);
        lemma_ed_bounds(x, y, n - 1, m - 1);
    }
}

fn compute_ed_recursively_int(x: &Vec<char>, y: &Vec<char>, n: usize, m: usize) -> (r: usize)
    requires
        n <= x@.len(),
        m <= y@.len(),
        x@.len() + y@.len() < usize::MAX,
    ensures
        r == spec_ed(x@, y@, n as int, m as int),
    decreases n + m,
{
    if n == 0 {
        return m;
    }
    if m == 0 {
        return n;
    }
    proof {
        lemma_ed_bounds(x@, y@, n as int, m as int - 1);
        lemma_ed_bounds(x@, y@, n as int - 1, m as int);
        lemma_ed_bounds(x@, y@, n as int - 1, m as int - 1);
    }
    let a = compute_ed_recursively_int(x, y, n, m - 1) + 1;
    let b = compute_ed_recursively_int(x, y, n - 1, m) + 1;
    let mut d = compute_ed_recursively_int(x, y, n - 1, m - 1);
    if x[n - 1] != y[m - 1] {
        d = d + 1;
    }
    if a <= b && a <= d {
        a
    } else if b <= d {
        b
    } else {
        d
    }
}

/// The edit distance between two strings, by plain recursion.
pub fn compute_ed_recursively(x: &str, y: &str) -> (r: usize)
    requires
        x@.len() + y@.len() < usize::MAX,
    ensures
        r == spec_ed(x@, y@, x@.len() as int, y@.len() as int),
{
    let xv = chars_vec(x);
    let yv = chars_vec(y);
    let n = xv.len();
    let m = yv.len();
    compute_ed_recursively_int(&xv, &yv, n, m)
}

fn compute_ed_via_table_int(x: &Vec<char>, y: &Vec<char>, n: usize, m: usize) -> (r: usize)
    requires
        n <= x@.len(),
        m <= y@.len(),
        x@.len() + y@.len() < usize::MAX,
    ensures
        r == spec_ed(x@, y@, n as int, m as int),
{
    let mut table: Vec<Vec<usize>> = Vec::new();
    let mut i: usize = 0;
    while i <= n
        invariant
            i <= n + 1,
            n <= x@.len(),
            m <= y@.len(),
            x@.len() + y@.len() < usize::MAX,
            table@.len() == i,
            forall|a: int| 0 <= a < i ==> (#[trigger] table@[a]@.len()) == m + 1,
            forall|a: int, b: int|
                0 <= a < i && 0 <= b <= m ==> (#[trigger] table@[a]@[b]) == spec_ed(x@, y@, a, b),
        decreases n + 1 - i,
    {
        let mut row: Vec<usize> = Vec::new();
        let mut j: usize = 0;
        while j <= m
            invariant
                j <= m + 1,
                i <= n <= x@.len(),
                m <= y@.len(),
                x@.len() + y@.len() < usize::MAX,
                table@.len() == i,
                forall|a: int| 0 <= a < i ==> (#[trigger] table@[a]@.len()) == m + 1,
                forall|a: int, b: int|
                    0 <= a < i && 0 <= b <= m ==> (#[trigger] table@[a]@[b]) == spec_ed(
                        x@,
                        y@,
                        a,
                        b,
                    ),
                row@.len() == j,
                forall|b: int| 0 <= b < j ==> (#[trigger] row@[b]) == spec_ed(x@, y@, i as int, b),
            decreases m + 1 - j,
        {
            proof {
                lemma_ed_bounds(x@, y@, i as int, j as int);
                if i > 0 && j > 0 {
                    lemma_ed_bounds(x@, y@, i as int, j - 1);
                    lemma_ed_bounds(x@, y@, i as int - 1, j as int);
                    lemma_ed_bounds(x@, y@, i as int - 1, j - 1);
                }
            }
            let cell: usize = if i == 0 {
                j
            } else if j == 0 {
                i
            } else {
                let a = row[j - 1] + 1;
                let b = table[i - 1][j] + 1;
                let mut d = table[i - 1][j - 1];
                if x[i - 1] != y[j - 1] {
                    d = d + 1;
                }
                if a <= b && a <= d {
                    a
                } else if b <= d {
                    b
                } else {
                    d
                }
            };
            row.push(cell);
            j += 1;
        }
        table.push(row);
        i += 1;
    }
    table[n][m]
}

/// The edit distance between two strings, by a dynamic-programming table.
pub fn compute_ed_via_table(x: &str, y: &str) -> (r: usize)
    requires
        x@.len() + y@.len() < usize::MAX,
    ensures
        r == spec_ed(x@, y@, x@.len() as int, y@.len() as int),
{
    let xv = chars_vec(x);
    let yv = chars_vec(y);
    let n = xv.len();
    let m = yv.len();
    compute_ed_via_table_int(&xv, &yv, n, m)
}

} // verus!
