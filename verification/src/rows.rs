//! Rows as units of comparison: the lexicographic total order used by the
//! sorting primitives, row equality, and the first-seen classification of
//! rows that `classify` and `deduplicate` share.

use core::cmp::Ordering;
use vstd::prelude::*;

use crate::array::{spec_row, ArrayValue};

verus! {

/// Row-wise lexicographic order: the first differing element decides.
pub open spec fn spec_lex_le<T: ArrayValue>(a: Seq<T>, b: Seq<T>) -> bool
    decreases a.len(),
{
    if a.len() == 0 || b.len() == 0 {
        true
    } else if a[0] == b[0] {
        spec_lex_le(a.drop_first(), b.drop_first())
    } else {
        a[0].le_spec(b[0])
    }
}

/// If two equal-length rows agree before position `k` and differ at `k`,
/// position `k` decides the order, and the rows differ.
pub proof fn lemma_lex_le_from_diff<T: ArrayValue>(a: Seq<T>, b: Seq<T>, k: int)
    requires
        a.len() == b.len(),
        0 <= k < a.len(),
        forall|m: int| 0 <= m < k ==> a[m] == b[m],
        a[k] != b[k],
    ensures
        spec_lex_le(a, b) == a[k].le_spec(b[k]),
        a != b,
    decreases k,
{
    if k == 0 {
    } else {
        assert(forall|m: int|
            0 <= m < k - 1 ==> a.drop_first()[m] == b.drop_first()[m]);
        assert(a.drop_first()[k - 1] == a[k] && b.drop_first()[k - 1] == b[k]);
        lemma_lex_le_from_diff(a.drop_first(), b.drop_first(), k - 1);
    }
}

/// Three-way comparison of rows `a` and `b` of a flat buffer, by the
/// lexicographic order over the element total order.
pub fn row_cmp<T: ArrayValue>(data: &Vec<T>, row_len: usize, a: usize, b: usize) -> (r: Ordering)
    requires
        (a as int + 1) * row_len <= data@.len(),
        (b as int + 1) * row_len <= data@.len(),
    ensures
        ({
            let ra = spec_row(data@, row_len as int, a as int);
            let rb = spec_row(data@, row_len as int, b as int);
            &&& (r == Ordering::Equal) == (ra == rb)
            &&& (r == Ordering::Less) ==> spec_lex_le(ra, rb) && ra != rb
            &&& (r == Ordering::Greater) ==> spec_lex_le(rb, ra) && ra != rb
        }),
{
    // Reading the length brings its usize bound into scope.
    let _buffer_len = data.len();
    let ghost rl = row_len as int;
    let ghost ra = spec_row(data@, rl, a as int);
    let ghost rb = spec_row(data@, rl, b as int);
    proof {
        assert(a * row_len <= (a as int + 1) * row_len && b * row_len <= (b as int + 1)
            * row_len) by (nonlinear_arith);
        assert(a * row_len + row_len == (a as int + 1) * row_len) by (nonlinear_arith);
        assert(b * row_len + row_len == (b as int + 1) * row_len) by (nonlinear_arith);
        assert(a * row_len >= 0 && b * row_len >= 0) by (nonlinear_arith);
    }
    let base_a = a * row_len;
    let base_b = b * row_len;
    let mut k: usize = 0;
    while k < row_len
        invariant
            row_len as int == rl,
            base_a == a as int * rl,
            base_b == b as int * rl,
            base_a + rl <= data@.len(),
            base_b + rl <= data@.len(),
            data@.len() <= usize::MAX,
            ra == spec_row(data@, rl, a as int),
            rb == spec_row(data@, rl, b as int),
            ra.len() == rl && rb.len() == rl,
            0 <= k <= rl,
            forall|m: int| 0 <= m < k ==> ra[m] == rb[m],
        decreases rl - k,
    {
        proof {
            assert(a as int * rl + rl == (a as int + 1) * rl) by (nonlinear_arith);
            assert(b as int * rl + rl == (b as int + 1) * rl) by (nonlinear_arith);
        }
        let x = data[base_a + k];
        let y = data[base_b + k];
        proof {
            assert(ra[k as int] == data@[base_a + k] && rb[k as int] == data@[base_b + k]);
        }
        let le_xy = x.array_le(y);
        let le_yx = y.array_le(x);
        if le_xy && le_yx {
            proof {
                T::lemma_le_antisymmetric(x, y);
            }
        } else {
            proof {
                T::lemma_le_total(x, y);
                lemma_lex_le_from_diff(ra, rb, k as int);
                lemma_lex_le_from_diff(rb, ra, k as int);
            }
            if le_xy {
                return Ordering::Less;
            } else {
                return Ordering::Greater;
            }
        }
        k += 1;
    }
    proof {
        assert(ra =~= rb);
    }
    Ordering::Equal
}

/// True iff rows `a` and `b` of a flat buffer hold the same elements.
pub fn row_eq<T: ArrayValue>(data: &Vec<T>, row_len: usize, a: usize, b: usize) -> (r: bool)
    requires
        (a as int + 1) * row_len <= data@.len(),
        (b as int + 1) * row_len <= data@.len(),
    ensures
        r == (spec_row(data@, row_len as int, a as int) == spec_row(
            data@,
            row_len as int,
            b as int,
        )),
{
    matches!(row_cmp(data, row_len, a, b), Ordering::Equal)
}

/// The position of the first occurrence of row `r` in a list of rows.
pub open spec fn spec_first_index<T>(rows: Seq<Seq<T>>, r: Seq<T>) -> int
    decreases rows.len(),
{
    if rows.len() == 0 {
        0
    } else if rows[0] == r {
        0
    } else {
        1 + spec_first_index(rows.drop_first(), r)
    }
}

pub proof fn lemma_first_index_of_contained<T>(rows: Seq<Seq<T>>, r: Seq<T>)
    requires
        rows.contains(r),
    ensures
        0 <= spec_first_index(rows, r) < rows.len(),
        rows[spec_first_index(rows, r)] == r,
        forall|m: int| 0 <= m < spec_first_index(rows, r) ==> rows[m] != r,
    decreases rows.len(),
{
    if rows[0] == r {
    } else {
        assert(rows.drop_first().contains(r)) by {
            let i = choose|i: int| 0 <= i < rows.len() && rows[i] == r;
            assert(rows.drop_first()[i - 1] == r);
        }
        lemma_first_index_of_contained(rows.drop_first(), r);
        assert(forall|m: int|
            1 <= m < spec_first_index(rows, r) ==> rows[m] == rows.drop_first()[m - 1]);
    }
}

/// Appending a row does not move the first occurrence of a row already
/// present.
pub proof fn lemma_first_index_push<T>(rows: Seq<Seq<T>>, r: Seq<T>, x: Seq<T>)
    requires
        rows.contains(r),
    ensures
        spec_first_index(rows.push(x), r) == spec_first_index(rows, r),
    decreases rows.len(),
{
    assert(rows.len() > 0) by {
        let i = choose|i: int| 0 <= i < rows.len() && rows[i] == r;
    }
    assert(rows.push(x)[0] == rows[0]);
    if rows[0] == r {
    } else {
        assert(rows.drop_first().contains(r)) by {
            let i = choose|i: int| 0 <= i < rows.len() && rows[i] == r;
            assert(rows.drop_first()[i - 1] == r);
        }
        assert(rows.push(x).drop_first() =~= rows.drop_first().push(x));
        lemma_first_index_push(rows.drop_first(), r, x);
    }
}

/// In a duplicate-free list of rows, the first occurrence of the `c`-th row
/// is `c` itself.
pub proof fn lemma_first_index_unique<T>(rows: Seq<Seq<T>>, c: int)
    requires
        0 <= c < rows.len(),
        forall|p: int, q: int| 0 <= p < q < rows.len() ==> rows[p] != rows[q],
    ensures
        spec_first_index(rows, rows[c]) == c,
    decreases c,
{
    if c == 0 {
    } else {
        assert(rows[0] != rows[c]);
        assert(forall|p: int, q: int|
            0 <= p < q < rows.drop_first().len() ==> rows.drop_first()[p]
                != rows.drop_first()[q]);
        lemma_first_index_unique(rows.drop_first(), c - 1);
        assert(rows.drop_first()[c - 1] == rows[c]);
    }
}

/// The distinct rows of the first `n` rows of a flat buffer, in the order
/// each row content was first seen.
pub open spec fn spec_distinct_rows<T>(d: Seq<T>, rl: int, n: int) -> Seq<Seq<T>>
    decreases n,
{
    if n <= 0 {
        Seq::empty()
    } else {
        let prev = spec_distinct_rows(d, rl, n - 1);
        let r = spec_row(d, rl, n - 1);
        if prev.contains(r) {
            prev
        } else {
            prev.push(r)
        }
    }
}

/// The class of row `i`: the position its content holds in the list of
/// distinct rows.
pub open spec fn spec_class_of<T>(d: Seq<T>, rl: int, n: int, i: int) -> int {
    spec_first_index(spec_distinct_rows(d, rl, n), spec_row(d, rl, i))
}

pub proof fn lemma_distinct_no_dup<T>(d: Seq<T>, rl: int, n: int)
    ensures
        forall|p: int, q: int|
            0 <= p < q < spec_distinct_rows(d, rl, n).len() ==> spec_distinct_rows(d, rl, n)[p]
                != spec_distinct_rows(d, rl, n)[q],
    decreases n,
{
    if n > 0 {
        lemma_distinct_no_dup(d, rl, n - 1);
        let prev = spec_distinct_rows(d, rl, n - 1);
        let r = spec_row(d, rl, n - 1);
        if !prev.contains(r) {
            assert(forall|p: int| 0 <= p < prev.len() ==> prev.push(r)[p] == prev[p]);
            assert(forall|p: int| 0 <= p < prev.len() ==> prev[p] != r);
        }
    }
}

/// Every earlier distinct-row list is a prefix of every later one.
pub proof fn lemma_distinct_prefix<T>(d: Seq<T>, rl: int, m: int, n: int)
    requires
        0 <= m <= n,
    ensures
        spec_distinct_rows(d, rl, m).len() <= spec_distinct_rows(d, rl, n).len(),
        forall|c: int|
            0 <= c < spec_distinct_rows(d, rl, m).len() ==> spec_distinct_rows(d, rl, n)[c]
                == spec_distinct_rows(d, rl, m)[c],
    decreases n - m,
{
    if m < n {
        lemma_distinct_prefix(d, rl, m, n - 1);
    }
}

/// Every row of the buffer appears among the distinct rows.
pub proof fn lemma_distinct_contains<T>(d: Seq<T>, rl: int, n: int, i: int)
    requires
        0 <= i < n,
    ensures
        spec_distinct_rows(d, rl, n).contains(spec_row(d, rl, i)),
    decreases n,
{
    let cur = spec_distinct_rows(d, rl, n);
    let prev = spec_distinct_rows(d, rl, n - 1);
    let r = spec_row(d, rl, n - 1);
    if i == n - 1 {
        if prev.contains(r) {
        } else {
            assert(cur[cur.len() - 1] == r);
        }
    } else {
        lemma_distinct_contains(d, rl, n - 1, i);
        lemma_distinct_prefix(d, rl, n - 1, n);
        let c = choose|c: int| 0 <= c < prev.len() && prev[c] == spec_row(d, rl, i);
        assert(cur[c] == spec_row(d, rl, i));
    }
}

/// Every distinct row comes from some row of the buffer.
pub proof fn lemma_distinct_from_rows<T>(d: Seq<T>, rl: int, n: int, c: int)
    requires
        0 <= c < spec_distinct_rows(d, rl, n).len(),
    ensures
        exists|i: int| 0 <= i < n && spec_row(d, rl, i) == spec_distinct_rows(d, rl, n)[c],
    decreases n,
{
    let cur = spec_distinct_rows(d, rl, n);
    let prev = spec_distinct_rows(d, rl, n - 1);
    let r = spec_row(d, rl, n - 1);
    if n <= 0 {
    } else if c < prev.len() {
        lemma_distinct_from_rows(d, rl, n - 1, c);
        let i = choose|i: int| 0 <= i < n - 1 && spec_row(d, rl, i) == prev[c];
        assert(cur[c] == prev[c]);
        assert(spec_row(d, rl, i) == cur[c]);
    } else {
        assert(cur[c] == r);
        assert(spec_row(d, rl, n - 1) == cur[c]);
    }
}

/// Some row among the first `n` has class `c`.
pub open spec fn spec_class_inhabited<T>(d: Seq<T>, rl: int, n: int, c: int) -> bool {
    exists|i: int| 0 <= i < n && #[trigger] spec_class_of(d, rl, n, i) == c
}

/// A row's class is `c` exactly when the row equals the `c`-th distinct
/// row; every class below the distinct count is inhabited.  Collecting the
/// first row of each class therefore reproduces the distinct rows in
/// first-seen order: the tie between `classify` and `deduplicate`.
pub proof fn lemma_classify_deduplicate<T: ArrayValue>(d: Seq<T>, rl: int, n: int)
    ensures
        forall|i: int, c: int|
            0 <= i < n && 0 <= c < spec_distinct_rows(d, rl, n).len() ==> ((spec_class_of(
                d,
                rl,
                n,
                i,
            ) == c) <==> spec_row(d, rl, i) == spec_distinct_rows(d, rl, n)[c]),
        forall|c: int|
            0 <= c < spec_distinct_rows(d, rl, n).len() ==> #[trigger] spec_class_inhabited(
                d,
                rl,
                n,
                c,
            ),
{
    let dr = spec_distinct_rows(d, rl, n);
    lemma_distinct_no_dup(d, rl, n);
    assert forall|i: int, c: int| 0 <= i < n && 0 <= c < dr.len() implies ((spec_class_of(
        d,
        rl,
        n,
        i,
    ) == c) <==> spec_row(d, rl, i) == dr[c]) by {
        lemma_distinct_contains(d, rl, n, i);
        lemma_first_index_of_contained(dr, spec_row(d, rl, i));
        if spec_row(d, rl, i) == dr[c] {
            lemma_first_index_unique(dr, c);
        }
    }
    assert forall|c: int| 0 <= c < dr.len() implies #[trigger] spec_class_inhabited(
        d,
        rl,
        n,
        c,
    ) by {
        lemma_distinct_from_rows(d, rl, n, c);
        let i = choose|i: int| 0 <= i < n && spec_row(d, rl, i) == dr[c];
        lemma_distinct_contains(d, rl, n, i);
        lemma_first_index_of_contained(dr, spec_row(d, rl, i));
        lemma_first_index_unique(dr, c);
        assert(spec_class_of(d, rl, n, i) == c);
    }
}

/// Concatenating rows of equal length `rl` yields a buffer of matching
/// length.
pub proof fn lemma_flatten_len<T>(rows: Seq<Seq<T>>, rl: int)
    requires
        forall|c: int| 0 <= c < rows.len() ==> (#[trigger] rows[c]).len() == rl,
        rl >= 0,
    ensures
        rows.flatten().len() == rows.len() * rl,
    decreases rows.len(),
{
    if rows.len() == 0 {
    } else {
        assert(forall|c: int|
            0 <= c < rows.drop_first().len() ==> (#[trigger] rows.drop_first()[c]).len() == rl);
        lemma_flatten_len(rows.drop_first(), rl);
        assert(rows.flatten() == rows.first() + rows.drop_first().flatten());
        assert(rows.first() == rows[0]);
        assert(rl + (rows.len() - 1) * rl == rows.len() * rl) by (nonlinear_arith);
    }
}


} // verus!
