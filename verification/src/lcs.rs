//! Longest common subsequence: the length as a recursive definition, and
//! the dynamic-programming tables that the diffs walk.
use vstd::prelude::*;

verus! {

/// Length of a longest common subsequence of `a` and `b`.
pub open spec fn lcs_len<T>(a: Seq<T>, b: Seq<T>) -> nat
    decreases a.len() + b.len(),
{
    if a.len() == 0 || b.len() == 0 {
        0
    } else if a[0] == b[0] {
        1 + lcs_len(a.drop_first(), b.drop_first())
    } else {
        let x = lcs_len(a.drop_first(), b);
        let y = lcs_len(a, b.drop_first());
        if x >= y {
            x
        } else {
            y
        }
    }
}

/// An LCS is no longer than either sequence.
pub proof fn lemma_lcs_bound<T>(a: Seq<T>, b: Seq<T>)
    ensures
        lcs_len(a, b) <= a.len(),
        lcs_len(a, b) <= b.len(),
    decreases a.len() + b.len(),
{
    if a.len() == 0 || b.len() == 0 {
    } else if a[0] == b[0] {
        lemma_lcs_bound(a.drop_first(), b.drop_first());
    } else {
        lemma_lcs_bound(a.drop_first(), b);
        lemma_lcs_bound(a, b.drop_first());
    }
}

/// The LCS of two suffixes, unfolded once, in terms of positions.
pub proof fn lemma_lcs_step<T>(a: Seq<T>, b: Seq<T>, i: int, j: int)
    requires
        0 <= i < a.len(),
        0 <= j < b.len(),
    ensures
        lcs_len(a.skip(i), b.skip(j)) == if a[i] == b[j] {
            1 + lcs_len(a.skip(i + 1), b.skip(j + 1))
        } else {
            let x = lcs_len(a.skip(i + 1), b.skip(j));
            let y = lcs_len(a.skip(i), b.skip(j + 1));
            if x >= y {
                x
            } else {
                y
            }
        },
{
    assert(a.skip(i).drop_first() =~= a.skip(i + 1));
    assert(b.skip(j).drop_first() =~= b.skip(j + 1));
    assert(a.skip(i)[0] == a[i]);
    assert(b.skip(j)[0] == b[j]);
}

/// The LCS with an exhausted suffix is empty.
pub proof fn lemma_lcs_end<T>(a: Seq<T>, b: Seq<T>, i: int, j: int)
    requires
        0 <= i <= a.len(),
        0 <= j <= b.len(),
        i == a.len() || j == b.len(),
    ensures
        lcs_len(a.skip(i), b.skip(j)) == 0,
{
}

/// `t[i][j]` holds the LCS length of `a[i..]` and `b[j..]` for every cell.
pub open spec fn lcs_table_ok<T, N: Copy>(t: Seq<Vec<N>>, a: Seq<T>, b: Seq<T>, f: spec_fn(N) -> int) -> bool {
    &&& t.len() == a.len() + 1
    &&& forall|i: int| 0 <= i <= a.len() ==> (#[trigger] t[i]).len() == b.len() + 1
    &&& forall|i: int, j: int|
        0 <= i <= a.len() && 0 <= j <= b.len() ==> f(#[trigger] t[i]@[j]) == lcs_len(
            a.skip(i),
            b.skip(j),
        )
}

/// The `u32` value as an integer.
pub open spec fn u32_int(x: u32) -> int {
    x as int
}

/// The `usize` value as an integer.
pub open spec fn usize_int(x: usize) -> int {
    x as int
}

/// The table of suffix LCS lengths of two character sequences.
pub fn char_lcs_table(a: &Vec<char>, b: &Vec<char>) -> (t: Vec<Vec<u32>>)
    requires
        a.len() <= u32::MAX || b.len() <= u32::MAX,
    ensures
        lcs_table_ok(t@, a@, b@, |x: u32| u32_int(x)),
{
    let n = a.len();
    let m = b.len();
    let mut t: Vec<Vec<u32>> = zero_table_u32(n, m);
    let mut i: usize = n;
    while i > 0
        invariant
            i <= n,
            n == a.len(),
            m == b.len(),
            a.len() <= u32::MAX || b.len() <= u32::MAX,
            t.len() == n + 1,
            forall|r: int| 0 <= r <= n ==> (#[trigger] t@[r]).len() == m + 1,
            forall|r: int, c: int|
                i <= r <= n && 0 <= c <= m ==> #[trigger] t@[r]@[c] == lcs_len(a@.skip(r), b@.skip(c)),
        decreases i,
    {
        i -= 1;
        let mut row: Vec<u32> = zero_row_u32(m);
        proof {
            lemma_lcs_end(a@, b@, i as int, m as int);
        }
        let mut j: usize = m;
        while j > 0
            invariant
                j <= m,
                i < n,
                n == a.len(),
                m == b.len(),
                a.len() <= u32::MAX || b.len() <= u32::MAX,
                t.len() == n + 1,
                row.len() == m + 1,
                forall|r: int| 0 <= r <= n ==> (#[trigger] t@[r]).len() == m + 1,
                forall|r: int, x: int|
                    i + 1 <= r <= n && 0 <= x <= m ==> #[trigger] t@[r]@[x] == lcs_len(
                        a@.skip(r),
                        b@.skip(x),
                    ),
                forall|x: int| j <= x <= m ==> #[trigger] row@[x] == lcs_len(a@.skip(i as int), b@.skip(x)),
            decreases j,
        {
            j -= 1;
            proof {
                lemma_lcs_step(a@, b@, i as int, j as int);
                lemma_lcs_bound(a@.skip(i + 1), b@.skip(j + 1));
                assert(t@[i + 1]@[j + 1] == lcs_len(a@.skip(i + 1), b@.skip(j + 1)));
                assert(t@[i + 1]@[j as int] == lcs_len(a@.skip(i + 1), b@.skip(j as int)));
            }
            let v: u32 = if a[i] == b[j] {
                t[i + 1][j + 1] + 1
            } else {
                let x = t[i + 1][j];
                let y = row[j + 1];
                if x >= y {
                    x
                } else {
                    y
                }
            };
            row.set(j, v);
        }
        t.set(i, row);
    }
    t
}

/// The table of suffix LCS lengths of two sequences of strings, compared by
/// their characters.
pub fn string_lcs_table(a: &[String], b: &[String]) -> (t: Vec<Vec<usize>>)
    ensures
        lcs_table_ok(t@, views(a@), views(b@), |x: usize| usize_int(x)),
{
    let ghost av = views(a@);
    let ghost bv = views(b@);
    let n = a.len();
    let m = b.len();
    let mut t: Vec<Vec<usize>> = zero_table_usize(n, m);
    proof {
        assert forall|c: int| 0 <= c <= m implies #[trigger] lcs_len(av.skip(n as int), bv.skip(c)) == 0 by {
            lemma_lcs_end(av, bv, n as int, c);
        }
    }
    let mut i: usize = n;
    while i > 0
        invariant
            i <= n,
            n == a.len(),
            m == b.len(),
            av == views(a@),
            bv == views(b@),
            t.len() == n + 1,
            forall|r: int| 0 <= r <= n ==> (#[trigger] t@[r]).len() == m + 1,
            forall|c: int| 0 <= c <= m ==> #[trigger] t@[n as int]@[c] == 0,
            forall|c: int| 0 <= c <= m ==> #[trigger] lcs_len(av.skip(n as int), bv.skip(c)) == 0,
            forall|r: int, c: int|
                i <= r < n && 0 <= c <= m ==> #[trigger] t@[r]@[c] == lcs_len(av.skip(r), bv.skip(c)),
        decreases i,
    {
        i -= 1;
        let mut row: Vec<usize> = zero_row_usize(m);
        proof {
            lemma_lcs_end(av, bv, i as int, m as int);
        }
        let mut j: usize = m;
        while j > 0
            invariant
                j <= m,
                i < n,
                n == a.len(),
                m == b.len(),
                av == views(a@),
                bv == views(b@),
                t.len() == n + 1,
                row.len() == m + 1,
                forall|r: int| 0 <= r <= n ==> (#[trigger] t@[r]).len() == m + 1,
                forall|c: int| 0 <= c <= m ==> #[trigger] t@[n as int]@[c] == 0,
                forall|c: int| 0 <= c <= m ==> #[trigger] lcs_len(av.skip(n as int), bv.skip(c)) == 0,
                forall|r: int, x: int|
                    i + 1 <= r < n && 0 <= x <= m ==> #[trigger] t@[r]@[x] == lcs_len(
                        av.skip(r),
                        bv.skip(x),
                    ),
                forall|x: int| j <= x <= m ==> #[trigger] row@[x] == lcs_len(av.skip(i as int), bv.skip(x)),
            decreases j,
        {
            j -= 1;
            proof {
                lemma_lcs_step(av, bv, i as int, j as int);
                lemma_lcs_bound(av.skip(i + 1), bv.skip(j + 1));
                if i + 1 == n {
                    assert(t@[n as int]@[j + 1] == 0);
                    assert(t@[n as int]@[j as int] == 0);
                } else {
                    assert(t@[i + 1]@[j + 1] == lcs_len(av.skip(i + 1), bv.skip(j + 1)));
                    assert(t@[i + 1]@[j as int] == lcs_len(av.skip(i + 1), bv.skip(j as int)));
                }
            }
            let v: usize = if a[i] == b[j] {
                t[i + 1][j + 1] + 1
            } else {
                let x = t[i + 1][j];
                let y = row[j + 1];
                if x >= y {
                    x
                } else {
                    y
                }
            };
            row.set(j, v);
        }
        t.set(i, row);
    }
    t
}

/// A row of `m + 1` zeros.
fn zero_row_u32(m: usize) -> (row: Vec<u32>)
    ensures
        row.len() == m + 1,
        forall|c: int| 0 <= c <= m ==> #[trigger] row@[c] == 0,
{
    let mut row: Vec<u32> = Vec::new();
    let mut j: usize = 0;
    while j < m
        invariant
            j <= m,
            row.len() == j,
            forall|c: int| 0 <= c < j ==> #[trigger] row@[c] == 0,
        decreases m - j,
    {
        row.push(0);
        j += 1;
    }
    row.push(0);
    row
}

/// A row of `m + 1` zeros.
fn zero_row_usize(m: usize) -> (row: Vec<usize>)
    ensures
        row.len() == m + 1,
        forall|c: int| 0 <= c <= m ==> #[trigger] row@[c] == 0,
{
    let mut row: Vec<usize> = Vec::new();
    let mut j: usize = 0;
    while j < m
        invariant
            j <= m,
            row.len() == j,
            forall|c: int| 0 <= c < j ==> #[trigger] row@[c] == 0,
        decreases m - j,
    {
        row.push(0);
        j += 1;
    }
    row.push(0);
    row
}

/// `n + 1` rows of `m + 1` zeros.
fn zero_table_u32(n: usize, m: usize) -> (t: Vec<Vec<u32>>)
    ensures
        t.len() == n + 1,
        forall|r: int| 0 <= r <= n ==> (#[trigger] t@[r]).len() == m + 1,
        forall|r: int, c: int| 0 <= r <= n && 0 <= c <= m ==> #[trigger] t@[r]@[c] == 0,
{
    let mut t: Vec<Vec<u32>> = Vec::new();
    let mut k: usize = 0;
    while k < n
        invariant
            k <= n,
            t.len() == k,
            forall|r: int| 0 <= r < k ==> (#[trigger] t@[r]).len() == m + 1,
            forall|r: int, c: int| 0 <= r < k && 0 <= c <= m ==> #[trigger] t@[r]@[c] == 0,
        decreases n - k,
    {
        t.push(zero_row_u32(m));
        k += 1;
    }
    t.push(zero_row_u32(m));
    t
}

/// `n + 1` rows of `m + 1` zeros.
fn zero_table_usize(n: usize, m: usize) -> (t: Vec<Vec<usize>>)
    ensures
        t.len() == n + 1,
        forall|r: int| 0 <= r <= n ==> (#[trigger] t@[r]).len() == m + 1,
        forall|r: int, c: int| 0 <= r <= n && 0 <= c <= m ==> #[trigger] t@[r]@[c] == 0,
{
    let mut t: Vec<Vec<usize>> = Vec::new();
    let mut k: usize = 0;
    while k < n
        invariant
            k <= n,
            t.len() == k,
            forall|r: int| 0 <= r < k ==> (#[trigger] t@[r]).len() == m + 1,
            forall|r: int, c: int| 0 <= r < k && 0 <= c <= m ==> #[trigger] t@[r]@[c] == 0,
        decreases n - k,
    {
        t.push(zero_row_usize(m));
        k += 1;
    }
    t.push(zero_row_usize(m));
    t
}

/// The character sequences of a sequence of strings.
pub open spec fn views(s: Seq<String>) -> Seq<Seq<char>> {
    s.map_values(|x: String| x@)
}

} // verus!
