//! The monadic shape algorithms: operations that take one array and
//! reinterpret, reorder or summarise its rows.

use rayon::slice::ParallelSliceMut;
use vstd::prelude::*;

use crate::array::{
    copy_data, lemma_product_head, lemma_product_pos, lemma_product_push, lemma_product_zero_dim,
    lemma_suffix_product_le, shape_product, slice_product, spec_row, spec_row_count, spec_row_len,
    Array, ArrayValue,
};
use crate::rows::{
    lemma_distinct_contains, lemma_distinct_from_rows, lemma_distinct_no_dup,
    lemma_first_index_push, lemma_first_index_unique, lemma_flatten_len, row_cmp, row_eq,
    spec_class_of, spec_distinct_rows, spec_first_index, spec_lex_le,
};
use crate::{Uiua, UiuaError, UiuaResult};

verus! {

/// The data buffer after the order of the rows is reversed: element `k`
/// moves to the mirrored row, same position within the row.
pub open spec fn spec_reverse_rows<T>(d: Seq<T>, rc: int, rl: int) -> Seq<T> {
    Seq::new(d.len(), |k: int| d[(rc - 1 - k / rl) * rl + k % rl])
}

/// The data buffer after the first axis is moved last: output position `k`
/// reads row `k % rc`, column `k / rc` of the input.
pub open spec fn spec_transpose_data<T>(d: Seq<T>, rc: int, rl: int) -> Seq<T> {
    Seq::new(d.len(), |k: int| d[(k % rc) * rl + k / rc])
}

/// Decomposing an index as `q * d + j` with `0 <= j < d` fixes its quotient
/// and remainder.
pub proof fn lemma_index_decompose(q: int, j: int, d: int)
    requires
        0 <= j < d,
        0 <= q,
    ensures
        (q * d + j) / d == q,
        (q * d + j) % d == j,
{
    vstd::arithmetic::div_mod::lemma_fundamental_div_mod_converse(q * d + j, d, q, j);
}

/// An index into a row-major buffer of `rc` rows of length `rl` lies in a
/// row below `rc`.
pub proof fn lemma_index_in_rows(k: int, rc: int, rl: int)
    requires
        0 <= k < rc * rl,
        rl >= 1,
    ensures
        0 <= k / rl < rc,
        0 <= k % rl < rl,
        k == (k / rl) * rl + k % rl,
{
    vstd::arithmetic::div_mod::lemma_fundamental_div_mod(k, rl);
    assert(k / rl < rc) by (nonlinear_arith)
        requires
            k < rc * rl,
            rl >= 1,
            k == (k / rl) * rl + k % rl,
            0 <= k % rl < rl,
            0 <= k / rl,
    ;
}

impl<T: Copy> Array<T> {
    /// Flatten: the shape becomes the single dimension `flat_len`; the data
    /// is unchanged.
    pub fn deshape(&mut self)
        requires
            old(self).valid(),
        ensures
            final(self).shape@ =~= seq![old(self).data@.len() as usize],
            final(self).data@ == old(self).data@,
            final(self).valid(),
    {
        let n = self.data.len();
        let mut shape: Vec<usize> = Vec::new();
        shape.push(n);
        self.shape = shape;
        proof {
            assert(self.shape@ =~= seq![n]);
            assert(self.shape@.drop_first() =~= Seq::<usize>::empty());
            assert(shape_product(self.shape@) == (n as nat) * shape_product(
                self.shape@.drop_first(),
            ));
        }
    }

    /// Drop the leading axis and keep only the first row.  Fails on a
    /// scalar and on an empty leading dimension.
    pub fn first(self, env: &Uiua) -> (r: UiuaResult<Array<T>>)
        requires
            self.valid(),
        ensures
            match r {
                Ok(out) => {
                    &&& self.spec_rank() >= 1
                    &&& self.shape@[0] != 0
                    &&& out.shape@ == self.shape@.drop_first()
                    &&& out.data@ == self.data@.subrange(0, spec_row_len(self.shape@) as int)
                    &&& out.valid()
                },
                Err(e) => {
                    &&& (self.spec_rank() == 0 || self.shape@[0] == 0)
                    &&& (self.spec_rank() == 0 ==> e == (UiuaError::DomainError {
                        message: "Cannot take first of a scalar",
                    }))
                    &&& (self.spec_rank() >= 1 && self.shape@[0] == 0 ==> e
                        == (UiuaError::DomainError {
                        message: "Cannot take first of an empty array",
                    }))
                },
            },
    {
        if self.shape.len() == 0 {
            return Err(UiuaError::DomainError { message: "Cannot take first of a scalar" });
        }
        if self.shape[0] == 0 {
            return Err(UiuaError::DomainError { message: "Cannot take first of an empty array" });
        }
        proof {
            self.lemma_row_len_fits();
        }
        let row_len = self.row_len();
        let Array { mut shape, mut data } = self;
        shape.remove(0);
        data.truncate(row_len);
        proof {
            assert(shape@ =~= self.shape@.drop_first());
        }
        Ok(Array::new(shape, data))
    }

    /// Drop the leading axis and keep only the last row.  Fails on a
    /// scalar and on an empty leading dimension.
    pub fn last(self, env: &Uiua) -> (r: UiuaResult<Array<T>>)
        requires
            self.valid(),
        ensures
            match r {
                Ok(out) => {
                    &&& self.spec_rank() >= 1
                    &&& self.shape@[0] != 0
                    &&& out.shape@ == self.shape@.drop_first()
                    &&& out.data@ == self.data@.subrange(
                        self.data@.len() - spec_row_len(self.shape@),
                        self.data@.len() as int,
                    )
                    &&& out.valid()
                },
                Err(e) => {
                    &&& (self.spec_rank() == 0 || self.shape@[0] == 0)
                    &&& (self.spec_rank() == 0 ==> e == (UiuaError::DomainError {
                        message: "Cannot take last of a scalar",
                    }))
                    &&& (self.spec_rank() >= 1 && self.shape@[0] == 0 ==> e
                        == (UiuaError::DomainError {
                        message: "Cannot take last of an empty array",
                    }))
                },
            },
    {
        if self.shape.len() == 0 {
            return Err(UiuaError::DomainError { message: "Cannot take last of a scalar" });
        }
        if self.shape[0] == 0 {
            return Err(UiuaError::DomainError { message: "Cannot take last of an empty array" });
        }
        proof {
            self.lemma_row_len_fits();
        }
        let row_len = self.row_len();
        let Array { mut shape, mut data } = self;
        shape.remove(0);
        let prefix_len = data.len() - row_len;
        let tail = data.split_off(prefix_len);
        proof {
            assert(shape@ =~= self.shape@.drop_first());
        }
        Ok(Array::new(shape, tail))
    }

    /// Reverse the order of the rows in place.  A scalar or an empty array
    /// is left unchanged.
    pub fn reverse(&mut self)
        requires
            old(self).valid(),
        ensures
            final(self).shape@ == old(self).shape@,
            final(self).valid(),
            (old(self).spec_rank() == 0 || old(self).data@.len() == 0) ==> final(self).data@
                == old(self).data@,
            old(self).spec_rank() >= 1 && old(self).data@.len() > 0 ==> final(self).data@
                == spec_reverse_rows(
                old(self).data@,
                spec_row_count(old(self).shape@) as int,
                spec_row_len(old(self).shape@) as int,
            ),
    {
        if self.shape.len() == 0 || self.data.len() == 0 {
            return ;
        }
        proof {
            lemma_product_head(self.shape@);
            if self.shape@[0] == 0 {
                lemma_product_zero_dim(self.shape@, 0);
            }
            self.lemma_row_len_fits();
        }
        let flat = self.data.len();
        let row_count = self.row_count();
        let row_len = self.row_len();
        let ghost d0 = self.data@;
        let ghost rc = row_count as int;
        let ghost rl = row_len as int;
        proof {
            // The buffer is nonempty, so neither factor is zero.
            if rl == 0 {
                assert(rc * 0 == 0) by (nonlinear_arith);
                assert(d0.len() == 0);
            }
        }
        let mut i: usize = 0;
        proof {
            assert forall|k: int| 0 <= k < d0.len() implies !(#[trigger] (k / rl) < 0 || k / rl
                > rc - 1) by {
                lemma_index_in_rows(k, rc, rl);
            }
        }
        while i < row_count / 2
            invariant
                self.shape@ == old(self).shape@,
                self.data@.len() == d0.len(),
                d0.len() == rc * rl,
                d0.len() == flat,
                rc == spec_row_count(self.shape@),
                rl == spec_row_len(self.shape@),
                row_count as int == rc,
                row_len as int == rl,
                rl >= 1,
                rc >= 1,
                0 <= i <= rc / 2,
                forall|k: int|
                    0 <= k < d0.len() ==> self.data@[k] == (if k / rl < i || k / rl > rc - 1 - i {
                        d0[(rc - 1 - k / rl) * rl + k % rl]
                    } else {
                        d0[k]
                    }),
            decreases rc / 2 - i,
    {
            proof {
                assert(2 * (i as int) < rc);
                assert((i + 1) * rl <= rc * rl && (rc - i) * rl <= rc * rl) by (nonlinear_arith)
                    requires
                        0 <= i,
                        2 * (i as int) < rc,
                        rl >= 1,
                ;
                assert(i * rl + rl == (i + 1) * rl) by (nonlinear_arith);
                assert((rc - 1 - i) * rl + rl == (rc - i) * rl) by (nonlinear_arith);
            }
            let left_base = i * row_len;
            let right_base = (row_count - i - 1) * row_len;
            let mut j: usize = 0;
            while j < row_len
                invariant
                    self.shape@ == old(self).shape@,
                    self.data@.len() == d0.len(),
                    d0.len() == rc * rl,
                    d0.len() <= usize::MAX,
                    rc == spec_row_count(self.shape@),
                    rl == spec_row_len(self.shape@),
                    row_len as int == rl,
                    rl >= 1,
                    0 <= i,
                    2 * (i as int) < rc,
                    0 <= j <= rl,
                    left_base == i * rl,
                    right_base == (rc - 1 - i) * rl,
                    left_base + rl <= d0.len(),
                    right_base + rl <= d0.len(),
                    forall|k: int|
                        0 <= k < d0.len() ==> self.data@[k] == (if k / rl < i || k / rl > rc - 1
                            - i {
                            d0[(rc - 1 - k / rl) * rl + k % rl]
                        } else if (k / rl == i || k / rl == rc - 1 - i) && k % rl < j {
                            d0[(rc - 1 - k / rl) * rl + k % rl]
                        } else {
                            d0[k]
                        }),
                decreases rl - j,
            {
                let x = left_base + j;
                let y = right_base + j;
                proof {
                    lemma_index_decompose(i as int, j as int, rl);
                    lemma_index_decompose(rc - 1 - i, j as int, rl);
                }
                let tmp = self.data[x];
                let other = self.data[y];
                self.data[x] = other;
                self.data[y] = tmp;
                proof {
                    assert forall|k: int| 0 <= k < d0.len() implies self.data@[k] == (if k / rl < i
                        || k / rl > rc - 1 - i {
                        d0[(rc - 1 - k / rl) * rl + k % rl]
                    } else if (k / rl == i || k / rl == rc - 1 - i) && k % rl < j + 1 {
                        d0[(rc - 1 - k / rl) * rl + k % rl]
                    } else {
                        d0[k]
                    }) by {
                        lemma_index_in_rows(k, rc, rl);
                        if k == x {
                            assert(k / rl == i && k % rl == j);
                        } else if k == y {
                            assert(k / rl == rc - 1 - i && k % rl == j);
                        }
                    }
                }
                j += 1;
            }
            i += 1;
            proof {
                assert forall|k: int| 0 <= k < d0.len() implies self.data@[k] == (if k / rl < i
                    || k / rl > rc - 1 - i {
                    d0[(rc - 1 - k / rl) * rl + k % rl]
                } else {
                    d0[k]
                }) by {
                    lemma_index_in_rows(k, rc, rl);
                }
            }
        }
        proof {
            assert forall|k: int| 0 <= k < d0.len() implies self.data@[k] == d0[(rc - 1 - k / rl)
                * rl + k % rl] by {
                lemma_index_in_rows(k, rc, rl);
                let q = k / rl;
                if !(q < i || q > rc - 1 - i) {
                    // The untouched middle row is its own mirror.
                    assert(q == rc - 1 - q);
                    assert(k == q * rl + k % rl);
                }
            }
            assert(self.data@ =~= spec_reverse_rows(d0, rc, rl));
        }
    }
}

/// A shape with its first axis moved last.
pub open spec fn spec_rot_left(s: Seq<usize>) -> Seq<usize> {
    s.drop_first().push(s[0])
}

/// A shape with its last axis moved first.
pub open spec fn spec_rot_right(s: Seq<usize>) -> Seq<usize> {
    seq![s.last()] + s.drop_last()
}

impl<T: Copy> Array<T> {
    /// Move the first axis last: output position `k` holds row `k % rc`,
    /// column `k / rc` of the input, and the shape rotates left.  Rank 0 and
    /// 1 are left unchanged; an empty leading axis only rotates the shape.
    pub fn transpose(&mut self)
        requires
            old(self).valid(),
        ensures
            final(self).valid(),
            old(self).spec_rank() < 2 ==> *final(self) == *old(self),
            old(self).spec_rank() >= 2 ==> final(self).shape@ == spec_rot_left(old(self).shape@),
            old(self).spec_rank() >= 2 && old(self).shape@[0] == 0 ==> final(self).data@ == old(
                self,
            ).data@,
            old(self).spec_rank() >= 2 && old(self).shape@[0] != 0 ==> final(self).data@
                == spec_transpose_data(
                old(self).data@,
                spec_row_count(old(self).shape@) as int,
                spec_row_len(old(self).shape@) as int,
            ),
    {
        if self.shape.len() < 2 {
            return ;
        }
        proof {
            lemma_product_head(self.shape@);
        }
        let ghost s0 = self.shape@;
        if self.shape[0] == 0 {
            let first = self.shape[0];
            self.shape.remove(0);
            self.shape.push(first);
            proof {
                assert(self.shape@ =~= spec_rot_left(s0));
                lemma_product_zero_dim(s0, 0);
                lemma_product_zero_dim(self.shape@, self.shape@.len() - 1);
            }
            return ;
        }
        let flat = self.data.len();
        let row_count = self.row_count();
        let row_len = self.row_len();
        let ghost d0 = self.data@;
        let ghost rc = row_count as int;
        let ghost rl = row_len as int;
        let mut temp: Vec<T> = Vec::new();
        let mut j: usize = 0;
        while j < row_len
            invariant
                d0 == self.data@,
                d0.len() == rc * rl,
                d0.len() == flat,
                rc >= 1,
                rl >= 0,
                row_count as int == rc,
                row_len as int == rl,
                0 <= j <= rl,
                temp@.len() == j * rc,
                forall|k: int|
                    0 <= k < temp@.len() ==> temp@[k] == d0[(#[trigger] (k % rc)) * rl + k / rc],
            decreases rl - j,
        {
            let mut i: usize = 0;
            proof {
                assert((j + 1) * rc == j * rc + rc) by (nonlinear_arith);
                assert(j * rc + rc <= rl * rc) by (nonlinear_arith)
                    requires
                        0 <= j < rl,
                        rc >= 1,
                ;
                assert(rl * rc == rc * rl) by (nonlinear_arith);
            }
            while i < row_count
                invariant
                    d0 == self.data@,
                    d0.len() == rc * rl,
                    d0.len() == flat,
                    rc >= 1,
                    0 <= j < rl,
                    row_count as int == rc,
                    row_len as int == rl,
                    0 <= i <= rc,
                    j * rc + rc <= rc * rl,
                    temp@.len() == j * rc + i,
                    forall|k: int|
                        0 <= k < temp@.len() ==> temp@[k] == d0[(#[trigger] (k % rc)) * rl + k
                            / rc],
                decreases rc - i,
            {
                proof {
                    assert(i * rl + j < rc * rl) by (nonlinear_arith)
                        requires
                            0 <= i < rc,
                            0 <= j < rl,
                    ;
                    lemma_index_decompose(j as int, i as int, rc);
                }
                temp.push(self.data[i * row_len + j]);
                i += 1;
            }
            j += 1;
        }
        self.data = temp;
        let first = self.shape[0];
        self.shape.remove(0);
        self.shape.push(first);
        proof {
            assert(self.shape@ =~= spec_rot_left(s0));
            assert(self.shape@.drop_last() =~= s0.drop_first());
            lemma_product_push(s0.drop_first(), s0[0]);
            assert(rl * rc == rc * rl) by (nonlinear_arith);
            assert(self.data@ =~= spec_transpose_data(d0, rc, rl));
        }
    }

    /// Move the last axis first: the inverse of [`Array::transpose`].
    /// Output position `k` holds column `k % cc`, position `k / cc` of the
    /// input read column-wise, and the shape rotates right.
    pub fn inv_transpose(&mut self)
        requires
            old(self).valid(),
        ensures
            final(self).valid(),
            old(self).spec_rank() < 2 ==> *final(self) == *old(self),
            old(self).spec_rank() >= 2 ==> final(self).shape@ == spec_rot_right(old(self).shape@),
            old(self).spec_rank() >= 2 && old(self).shape@[0] == 0 ==> final(self).data@ == old(
                self,
            ).data@,
            old(self).spec_rank() >= 2 && old(self).shape@[0] != 0 ==> final(self).data@
                == spec_transpose_data(
                old(self).data@,
                shape_product(old(self).shape@.drop_last()) as int,
                old(self).shape@.last() as int,
            ),
    {
        if self.shape.len() < 2 {
            return ;
        }
        let ghost s0 = self.shape@;
        proof {
            assert(s0 =~= s0.drop_last().push(s0.last()));
            lemma_product_push(s0.drop_last(), s0.last());
        }
        if self.shape[0] == 0 {
            let last = self.shape.pop().unwrap();
            self.shape.insert(0, last);
            proof {
                assert(self.shape@ =~= spec_rot_right(s0));
                lemma_product_zero_dim(s0, 0);
                lemma_product_zero_dim(self.shape@, 1);
            }
            return ;
        }
        let flat = self.data.len();
        let col_len = self.shape[self.shape.len() - 1];
        let ghost cl = col_len as int;
        let ghost cc = shape_product(s0.drop_last()) as int;
        let ghost d0 = self.data@;
        if col_len == 0 {
            // The array is empty; only the shape moves.
            proof {
                lemma_product_zero_dim(s0, s0.len() - 1);
            }
            let last = self.shape.pop().unwrap();
            self.shape.insert(0, last);
            proof {
                assert(self.shape@ =~= spec_rot_right(s0));
                lemma_product_zero_dim(self.shape@, 0);
                assert(self.data@ =~= spec_transpose_data(d0, cc, cl));
            }
            return ;
        }
        let col_count: usize = flat / col_len;
        proof {
            lemma_index_decompose(cc, 0, cl);
            assert(cc * cl + 0 == cc * cl);
            assert(flat == cc * cl);
        }
        let mut temp: Vec<T> = Vec::new();
        let mut j: usize = 0;
        while j < col_len
            invariant
                d0 == self.data@,
                d0.len() == cc * cl,
                d0.len() == flat,
                cc >= 0,
                cl >= 1,
                col_count as int == cc,
                col_len as int == cl,
                0 <= j <= cl,
                temp@.len() == j * cc,
                forall|k: int|
                    0 <= k < temp@.len() ==> temp@[k] == d0[(#[trigger] (k % cc)) * cl + k / cc],
            decreases cl - j,
        {
            let mut i: usize = 0;
            proof {
                assert((j + 1) * cc == j * cc + cc) by (nonlinear_arith);
                assert(j * cc + cc <= cl * cc) by (nonlinear_arith)
                    requires
                        0 <= j < cl,
                        cc >= 0,
                ;
                assert(cl * cc == cc * cl) by (nonlinear_arith);
            }
            while i < col_count
                invariant
                    d0 == self.data@,
                    d0.len() == cc * cl,
                    d0.len() == flat,
                    cc >= 0,
                    0 <= j < cl,
                    col_count as int == cc,
                    col_len as int == cl,
                    0 <= i <= cc,
                    j * cc + cc <= cc * cl,
                    temp@.len() == j * cc + i,
                    forall|k: int|
                        0 <= k < temp@.len() ==> temp@[k] == d0[(#[trigger] (k % cc)) * cl + k
                            / cc],
                decreases cc - i,
            {
                proof {
                    assert(i * cl + j < cc * cl) by (nonlinear_arith)
                        requires
                            0 <= i < cc,
                            0 <= j < cl,
                    ;
                    lemma_index_decompose(j as int, i as int, cc);
                }
                temp.push(self.data[i * col_len + j]);
                i += 1;
            }
            j += 1;
        }
        self.data = temp;
        let last = self.shape.pop().unwrap();
        self.shape.insert(0, last);
        proof {
            assert(self.shape@ =~= spec_rot_right(s0));
            assert(self.shape@.drop_first() =~= s0.drop_last());
            assert(cl * cc == cc * cl) by (nonlinear_arith);
            assert(self.data@ =~= spec_transpose_data(d0, cc, cl));
        }
    }
}

/// `transpose` then `inverse transpose` restores both the shape and the
/// data of any array of rank at least 2 with a nonzero leading dimension.
pub proof fn lemma_transpose_round_trip<T>(x: Array<T>)
    requires
        x.valid(),
        x.spec_rank() >= 2,
        x.shape@[0] != 0,
    ensures
        spec_rot_right(spec_rot_left(x.shape@)) == x.shape@,
        spec_rot_left(x.shape@).last() == x.shape@[0],
        shape_product(spec_rot_left(x.shape@).drop_last()) == spec_row_len(x.shape@),
        spec_transpose_data(
            spec_transpose_data(
                x.data@,
                spec_row_count(x.shape@) as int,
                spec_row_len(x.shape@) as int,
            ),
            spec_row_len(x.shape@) as int,
            spec_row_count(x.shape@) as int,
        ) == x.data@,
{
    let s = x.shape@;
    let d = x.data@;
    let rc = spec_row_count(s) as int;
    let rl = spec_row_len(s) as int;
    assert(spec_rot_right(spec_rot_left(s)) =~= s);
    assert(spec_rot_left(s).drop_last() =~= s.drop_first());
    lemma_product_head(s);
    let t = spec_transpose_data(d, rc, rl);
    let u = spec_transpose_data(t, rl, rc);
    if rl == 0 {
        assert(rc * 0 == 0) by (nonlinear_arith);
        assert(u =~= d);
    } else {
        assert forall|k: int| 0 <= k < d.len() implies u[k] == d[k] by {
            lemma_index_in_rows(k, rc, rl);
            let q = k / rl;
            let j = k % rl;
            lemma_index_decompose(q as int, j, rl);
            let m = j * rc + q;
            lemma_index_decompose(j, q, rc);
            assert(m % rc == q && m / rc == j);
            assert(0 <= m < rl * rc) by (nonlinear_arith)
                requires
                    0 <= j < rl,
                    0 <= q < rc,
                    m == j * rc + q,
            ;
            assert(rl * rc == rc * rl) by (nonlinear_arith);
            assert(u[k] == t[(k % rl) * rc + k / rl]);
            assert(u[k] == t[m]);
            assert(t[m] == d[(m % rc) * rl + m / rc]);
        }
        assert(u =~= d);
    }
}

/// The first position among the recorded first-occurrence rows whose row
/// content equals row `i`, if any.
fn find_first_matching<T: ArrayValue>(
    data: &Vec<T>,
    row_len: usize,
    firsts: &Vec<usize>,
    i: usize,
) -> (r: Option<usize>)
    requires
        (i as int + 1) * row_len <= data@.len(),
        forall|d2: int|
            0 <= d2 < firsts@.len() ==> (#[trigger] firsts@[d2] as int + 1) * row_len
                <= data@.len(),
    ensures
        ({
            let rl = row_len as int;
            let target = spec_row(data@, rl, i as int);
            match r {
                Some(dd) => {
                    &&& 0 <= dd < firsts@.len()
                    &&& spec_row(data@, rl, firsts@[dd as int] as int) == target
                    &&& forall|d2: int|
                        0 <= d2 < dd ==> spec_row(data@, rl, #[trigger] firsts@[d2] as int)
                            != target
                },
                None => forall|d2: int|
                    0 <= d2 < firsts@.len() ==> spec_row(data@, rl, #[trigger] firsts@[d2] as int)
                        != spec_row(data@, rl, i as int),
            }
        }),
{
    let ghost rl = row_len as int;
    let n = firsts.len();
    let mut dd: usize = 0;
    while dd < n
        invariant
            n == firsts@.len(),
            0 <= dd <= n,
            row_len as int == rl,
            (i as int + 1) * row_len <= data@.len(),
            forall|d2: int|
                0 <= d2 < firsts@.len() ==> (#[trigger] firsts@[d2] as int + 1) * row_len
                    <= data@.len(),
            forall|d2: int|
                0 <= d2 < dd ==> spec_row(data@, rl, #[trigger] firsts@[d2] as int) != spec_row(
                    data@,
                    rl,
                    i as int,
                ),
        decreases n - dd,
    {
        if row_eq(data, row_len, firsts[dd], i) {
            return Some(dd);
        }
        dd += 1;
    }
    None
}

impl<T: ArrayValue> Array<T> {
    /// Assign each row the index under which its content was first seen:
    /// one class id per row, in original order.  Fails on a scalar.
    pub fn classify(&self, env: &Uiua) -> (r: UiuaResult<Vec<usize>>)
        requires
            self.valid(),
        ensures
            match r {
                Ok(classes) => {
                    let d = self.data@;
                    let rl = spec_row_len(self.shape@) as int;
                    let n = spec_row_count(self.shape@) as int;
                    &&& self.spec_rank() >= 1
                    &&& classes@.len() == n
                    &&& forall|j: int|
                        0 <= j < n ==> #[trigger] classes@[j] as int == spec_class_of(d, rl, n, j)
                },
                Err(e) => self.spec_rank() == 0 && e == (UiuaError::DomainError {
                    message: "Cannot classify a rank-0 array",
                }),
            },
    {
        if self.shape.len() == 0 {
            return Err(UiuaError::DomainError { message: "Cannot classify a rank-0 array" });
        }
        let ghost d = self.data@;
        let row_count = self.row_count();
        if row_count == 0 {
            return Ok(Vec::new());
        }
        proof {
            lemma_product_head(self.shape@);
        }
        let row_len = self.row_len();
        let ghost rl = row_len as int;
        let ghost n = row_count as int;
        proof {
            assert forall|idx: int| 0 <= idx < n implies #[trigger] ((idx + 1) * rl) <= d.len()
                by {
                vstd::arithmetic::mul::lemma_mul_inequality(idx + 1, n, rl);
            }
        }
        let mut classes: Vec<usize> = Vec::new();
        let mut firsts: Vec<usize> = Vec::new();
        let mut i: usize = 0;
        while i < row_count
            invariant
                d == self.data@,
                d.len() == n * rl,
                row_count as int == n,
                row_len as int == rl,
                rl >= 0,
                0 <= i <= n,
                forall|idx: int| 0 <= idx < n ==> #[trigger] ((idx + 1) * rl) <= d.len(),
                firsts@.len() == spec_distinct_rows(d, rl, i as int).len(),
                forall|dd: int|
                    0 <= dd < firsts@.len() ==> {
                        &&& #[trigger] firsts@[dd] < i
                        &&& spec_row(d, rl, firsts@[dd] as int) == spec_distinct_rows(
                            d,
                            rl,
                            i as int,
                        )[dd]
                    },
                classes@.len() == i,
                forall|j: int|
                    0 <= j < i ==> #[trigger] classes@[j] as int == spec_first_index(
                        spec_distinct_rows(d, rl, i as int),
                        spec_row(d, rl, j),
                    ),
            decreases n - i,
        {
            let ghost dri = spec_distinct_rows(d, rl, i as int);
            let ghost dri1 = spec_distinct_rows(d, rl, i as int + 1);
            let ghost row_i = spec_row(d, rl, i as int);
            proof {
                assert(forall|d2: int|
                    0 <= d2 < firsts@.len() ==> (#[trigger] firsts@[d2] as int + 1) * row_len
                        <= d.len());
            }
            let found = find_first_matching(&self.data, row_len, &firsts, i);
            match found {
                Some(dd) => {
                    proof {
                        assert(dri[dd as int] == row_i);
                        assert(dri.contains(row_i));
                        assert(dri1 == dri);
                        lemma_distinct_no_dup(d, rl, i as int);
                        lemma_first_index_unique(dri, dd as int);
                    }
                    classes.push(dd);
                },
                None => {
                    proof {
                        assert forall|c: int| 0 <= c < dri.len() implies dri[c] != row_i by {
                            assert(spec_row(d, rl, firsts@[c] as int) == dri[c]);
                        }
                        if dri.contains(row_i) {
                            let c = choose|c: int| 0 <= c < dri.len() && dri[c] == row_i;
                            assert(false);
                        }
                        assert(dri1 == dri.push(row_i));
                        lemma_distinct_no_dup(d, rl, i as int + 1);
                        assert(dri1[dri.len() as int] == row_i);
                        lemma_first_index_unique(dri1, dri.len() as int);
                        assert forall|j: int| 0 <= j < i implies #[trigger] classes@[j] as int
                            == spec_first_index(dri1, spec_row(d, rl, j)) by {
                            lemma_distinct_contains(d, rl, i as int, j);
                            lemma_first_index_push(dri, spec_row(d, rl, j), row_i);
                        }
                    }
                    let new_class = firsts.len();
                    firsts.push(i);
                    classes.push(new_class);
                },
            }
            i += 1;
        }
        Ok(classes)
    }

    /// Retain only the first occurrence of each distinct row, in original
    /// order; the leading dimension shrinks to the retained count.  A
    /// scalar is left unchanged.
    pub fn deduplicate(&mut self)
        requires
            old(self).valid(),
        ensures
            final(self).valid(),
            old(self).spec_rank() == 0 ==> *final(self) == *old(self),
            old(self).spec_rank() >= 1 ==> {
                let d = old(self).data@;
                let rl = spec_row_len(old(self).shape@) as int;
                let n = spec_row_count(old(self).shape@) as int;
                let dr = spec_distinct_rows(d, rl, n);
                &&& final(self).shape@ == old(self).shape@.update(0, dr.len() as usize)
                &&& final(self).data@ == dr.flatten()
            },
    {
        if self.shape.len() == 0 {
            return ;
        }
        let ghost d = self.data@;
        let row_count = self.row_count();
        if row_count == 0 {
            proof {
                assert(self.shape@.update(0, 0usize) =~= self.shape@);
                assert(spec_distinct_rows(d, spec_row_len(self.shape@) as int, 0).flatten()
                    =~= Seq::<T>::empty());
                lemma_product_zero_dim(self.shape@, 0);
                assert(d =~= Seq::<T>::empty());
            }
            return ;
        }
        proof {
            lemma_product_head(self.shape@);
        }
        let row_len = self.row_len();
        let flat = self.data.len();
        let ghost rl = row_len as int;
        let ghost n = row_count as int;
        proof {
            assert forall|idx: int| 0 <= idx < n implies #[trigger] ((idx + 1) * rl) <= d.len()
                by {
                vstd::arithmetic::mul::lemma_mul_inequality(idx + 1, n, rl);
            }
        }
        let mut deduped: Vec<T> = Vec::new();
        let mut firsts: Vec<usize> = Vec::new();
        let mut i: usize = 0;
        while i < row_count
            invariant
                d == self.data@,
                d.len() == n * rl,
                row_count as int == n,
                row_len as int == rl,
                rl >= 0,
                d.len() == flat,
                0 <= i <= n,
                forall|idx: int| 0 <= idx < n ==> #[trigger] ((idx + 1) * rl) <= d.len(),
                firsts@.len() == spec_distinct_rows(d, rl, i as int).len(),
                forall|dd: int|
                    0 <= dd < firsts@.len() ==> {
                        &&& #[trigger] firsts@[dd] < i
                        &&& spec_row(d, rl, firsts@[dd] as int) == spec_distinct_rows(
                            d,
                            rl,
                            i as int,
                        )[dd]
                    },
                deduped@ == spec_distinct_rows(d, rl, i as int).flatten(),
            decreases n - i,
        {
            let ghost dri = spec_distinct_rows(d, rl, i as int);
            let ghost dri1 = spec_distinct_rows(d, rl, i as int + 1);
            let ghost row_i = spec_row(d, rl, i as int);
            proof {
                assert(forall|d2: int|
                    0 <= d2 < firsts@.len() ==> (#[trigger] firsts@[d2] as int + 1) * row_len
                        <= d.len());
            }
            let found = find_first_matching(&self.data, row_len, &firsts, i);
            match found {
                Some(dd) => {
                    proof {
                        assert(dri[dd as int] == row_i);
                        assert(dri.contains(row_i));
                        assert(dri1 == dri);
                    }
                },
                None => {
                    proof {
                        assert forall|c: int| 0 <= c < dri.len() implies dri[c] != row_i by {
                            assert(spec_row(d, rl, firsts@[c] as int) == dri[c]);
                        }
                        if dri.contains(row_i) {
                            let c = choose|c: int| 0 <= c < dri.len() && dri[c] == row_i;
                            assert(false);
                        }
                        assert(dri1 == dri.push(row_i));
                        dri.lemma_flatten_push(row_i);
                        assert((i as int) * rl + rl == (i as int + 1) * rl) by (nonlinear_arith);
                        assert((i as int) * rl >= 0) by (nonlinear_arith)
                            requires
                                0 <= i as int,
                                rl >= 0,
                        ;
                    }
                    firsts.push(i);
                    let base = i * row_len;
                    let mut k: usize = 0;
                    while k < row_len
                        invariant
                            d == self.data@,
                            d.len() == flat,
                            row_len as int == rl,
                            base == i as int * rl,
                            base + rl == (i as int + 1) * rl,
                            base + rl <= d.len(),
                            row_i == spec_row(d, rl, i as int),
                            row_i.len() == rl,
                            0 <= k <= rl,
                            deduped@ == dri.flatten() + row_i.subrange(0, k as int),
                        decreases rl - k,
                    {
                        proof {
                            assert(row_i[k as int] == d[base + k]);
                        }
                        deduped.push(self.data[base + k]);
                        proof {
                            assert(row_i.subrange(0, k as int).push(row_i[k as int])
                                =~= row_i.subrange(0, k + 1));
                            assert(dri.flatten() + row_i.subrange(0, k as int).push(
                                row_i[k as int],
                            ) =~= (dri.flatten() + row_i.subrange(0, k as int)).push(
                                row_i[k as int],
                            ));
                        }
                        k += 1;
                    }
                    proof {
                        assert(row_i.subrange(0, rl) =~= row_i);
                        assert(deduped@ == dri.flatten() + row_i);
                        assert(dri1.flatten() =~= dri.flatten() + row_i);
                    }
                },
            }
            i += 1;
        }
        let new_len = firsts.len();
        self.data = deduped;
        self.shape[0] = new_len;
        proof {
            let dr = spec_distinct_rows(d, rl, n);
            assert forall|c: int| 0 <= c < dr.len() implies (#[trigger] dr[c]).len() == rl by {
                lemma_distinct_from_rows(d, rl, n, c);
                let ii = choose|ii: int| 0 <= ii < n && spec_row(d, rl, ii) == dr[c];
                assert((ii + 1) * rl <= d.len());
                assert(ii * rl + rl == (ii + 1) * rl) by (nonlinear_arith);
                assert(ii * rl >= 0) by (nonlinear_arith)
                    requires
                        0 <= ii,
                        rl >= 0,
                ;
            }
            lemma_flatten_len(dr, rl);
            assert(self.shape@ == old(self).shape@.update(0, dr.len() as usize));
            assert(self.shape@.drop_first() =~= old(self).shape@.drop_first());
            assert(shape_product(self.shape@) == (dr.len() as usize as nat) * shape_product(
                self.shape@.drop_first(),
            ));
        }
    }
}

/// The number of values the range of a shape holds: one multi-index
/// component per dimension, for every cell.
pub open spec fn spec_range_len(s: Seq<usize>) -> nat {
    s.len() * shape_product(s)
}

/// Value `k` of the flattened range data: component `k % rank` of the
/// multi-index of cell `k / rank`, in row-major (odometer) order.
pub open spec fn spec_range_elem(s: Seq<usize>, k: int) -> u64 {
    let rank = s.len() as int;
    let j = k / rank;
    let d = k % rank;
    let stride = shape_product(s.subrange(d + 1, rank)) as int;
    (((j / stride) % (s[d] as int)) as u64)
}

/// Enumerate every multi-index of the given shape in row-major order, each
/// index's components laid out as a trailing axis when the rank exceeds 1.
/// The empty shape yields the scalar `0`; a zero dimension yields an empty
/// array; a request whose element count exceeds the addressable length
/// fails.
pub fn range(shape: &[usize], env: &Uiua) -> (r: UiuaResult<Array<u64>>)
    ensures
        ({
            let s = shape@;
            let rank = s.len() as int;
            match r {
                Ok(out) => {
                    &&& out.valid()
                    &&& (s.len() == 0 ==> out.shape@ =~= Seq::<usize>::empty() && out.data@
                        =~= seq![0u64])
                    &&& (s.len() >= 1 ==> out.shape@ == (if s.len() > 1 {
                        s.push(s.len() as usize)
                    } else {
                        s
                    }))
                    &&& ((exists|d: int| 0 <= d < rank && s[d] == 0) ==> out.data@.len() == 0)
                    &&& ((s.len() >= 1 && (forall|d: int| 0 <= d < rank ==> s[d] >= 1)) ==> {
                        &&& spec_range_len(s) <= usize::MAX
                        &&& out.data@.len() == spec_range_len(s)
                        &&& forall|k: int|
                            0 <= k < out.data@.len() ==> #[trigger] out.data@[k]
                                == spec_range_elem(s, k)
                    })
                },
                Err(e) => {
                    &&& s.len() >= 1
                    &&& (forall|d: int| 0 <= d < rank ==> s[d] >= 1)
                    &&& spec_range_len(s) > usize::MAX
                    &&& e matches UiuaError::RangeOverflow { shape: sh } && sh@ == s
                },
            }
        }),
{
    let rank = shape.len();
    if rank == 0 {
        let out_shape: Vec<usize> = Vec::new();
        let mut data: Vec<u64> = Vec::new();
        data.push(0);
        return Ok(Array::new(out_shape, data));
    }
    let mut z: usize = 0;
    while z < rank
        invariant
            rank == shape@.len(),
            0 <= z <= rank,
            forall|d: int| 0 <= d < z ==> shape@[d] >= 1,
        decreases rank - z,
    {
        if shape[z] == 0 {
            let mut out_shape = copy_data(shape);
            if rank > 1 {
                out_shape.push(rank);
            }
            proof {
                lemma_product_zero_dim(out_shape@, z as int);
            }
            return Ok(Array::new(out_shape, Vec::new()));
        }
        z += 1;
    }
    // All dimensions are nonzero; grow the element count and stop at the
    // first factor that would overflow the addressable length.
    let ghost s = shape@;
    let mut len: usize = rank;
    let mut i: usize = 0;
    proof {
        assert(s.subrange(0, 0int) =~= Seq::<usize>::empty());
        assert(shape_product(s.subrange(0, 0int)) == 1);
        assert(len == rank * shape_product(s.subrange(0, 0int)));
    }
    while i < rank
        invariant
            rank == s.len(),
            rank >= 1,
            shape@ == s,
            forall|d: int| 0 <= d < rank ==> s[d] >= 1,
            0 <= i <= rank,
            len == rank * shape_product(s.subrange(0, i as int)),
        decreases rank - i,
    {
        proof {
            assert(s.subrange(0, 0) =~= Seq::<usize>::empty());
        }
        let item = shape[i];
        let cap = usize::MAX / item;
        proof {
            let pre = shape_product(s.subrange(0, i as int));
            assert(s.subrange(0, i + 1) =~= s.subrange(0, i as int).push(s[i as int]));
            lemma_product_push(s.subrange(0, i as int), s[i as int]);
            vstd::arithmetic::div_mod::lemma_fundamental_div_mod(usize::MAX as int, item as int);
            if len <= cap {
                vstd::arithmetic::mul::lemma_mul_inequality(len as int, cap as int, item as int);
                assert(cap as int * item as int <= usize::MAX) by (nonlinear_arith)
                    requires
                        usize::MAX as int == (cap as int) * (item as int) + ((usize::MAX as int)
                            % (item as int)),
                        (usize::MAX as int) % (item as int) >= 0,
                ;
            } else {
                vstd::arithmetic::mul::lemma_mul_inequality(cap as int + 1, len as int, item as int);
                assert((cap as int + 1) * item as int > usize::MAX) by (nonlinear_arith)
                    requires
                        usize::MAX as int == (cap as int) * (item as int) + ((usize::MAX as int)
                            % (item as int)),
                        (usize::MAX as int) % (item as int) < item as int,
                ;
            }
            assert(rank as int * (pre * s[i as int] as nat) == (rank as int * pre) * s[i as int]
                as nat) by (nonlinear_arith);
        }
        if len > cap {
            proof {
                // The remaining factors only grow the product further.
                let grown = rank * shape_product(s.subrange(0, i + 1));
                lemma_product_split(s, i + 1);
                lemma_product_pos(s.subrange(i + 1, rank as int));
                assert(spec_range_len(s) >= grown) by (nonlinear_arith)
                    requires
                        spec_range_len(s) == rank * (shape_product(s.subrange(0, i + 1))
                            * shape_product(s.subrange(i + 1, rank as int))),
                        grown == rank * shape_product(s.subrange(0, i + 1)),
                        shape_product(s.subrange(i + 1, rank as int)) >= 1,
                        rank >= 1,
                        shape_product(s.subrange(0, i + 1)) >= 0,
                ;
            }
            return Err(UiuaError::RangeOverflow { shape: copy_data(shape) });
        }
        len = len * item;
        i += 1;
    }
    proof {
        assert(s.subrange(0, rank as int) =~= s);
        assert(rank as int * shape_product(s) >= shape_product(s)) by (nonlinear_arith)
            requires
                rank >= 1,
                shape_product(s) >= 0,
        ;
    }
    let cells = slice_product(shape, 0);
    proof {
        assert(s.subrange(0, s.len() as int) =~= s);
    }
    // Strides: the number of cells each index component advances over.
    let mut strides: Vec<usize> = Vec::new();
    let mut d: usize = 0;
    while d < rank
        invariant
            rank == s.len(),
            shape@ == s,
            forall|dd: int| 0 <= dd < rank ==> s[dd] >= 1,
            shape_product(s) <= usize::MAX,
            0 <= d <= rank,
            strides@.len() == d,
            forall|dd: int|
                0 <= dd < d ==> #[trigger] strides@[dd] == shape_product(
                    s.subrange(dd + 1, rank as int),
                ),
        decreases rank - d,
    {
        proof {
            lemma_suffix_product_le(s, d + 1);
        }
        strides.push(slice_product(shape, d + 1));
        d += 1;
    }
    let mut data: Vec<u64> = Vec::new();
    let mut j: usize = 0;
    while j < cells
        invariant
            rank == s.len(),
            rank >= 1,
            shape@ == s,
            strides@.len() == rank,
            forall|dd: int|
                0 <= dd < rank ==> #[trigger] strides@[dd] == shape_product(
                    s.subrange(dd + 1, rank as int),
                ),
            forall|dd: int| 0 <= dd < rank ==> s[dd] >= 1,
            cells == shape_product(s),
            len == rank * shape_product(s),
            0 <= j <= cells,
            data@.len() == j * rank,
            forall|k: int| 0 <= k < data@.len() ==> #[trigger] data@[k] == spec_range_elem(s, k),
        decreases cells - j,
    {
        let mut d: usize = 0;
        proof {
            assert((j + 1) * rank == j * rank + rank) by (nonlinear_arith);
            vstd::arithmetic::mul::lemma_mul_inequality(j as int + 1, cells as int, rank as int);
            assert(cells as int * rank as int == rank as int * cells as int) by (nonlinear_arith);
        }
        while d < rank
            invariant
                rank == s.len(),
                rank >= 1,
                shape@ == s,
                strides@.len() == rank,
                forall|dd: int|
                    0 <= dd < rank ==> #[trigger] strides@[dd] == shape_product(
                        s.subrange(dd + 1, rank as int),
                    ),
                forall|dd: int| 0 <= dd < rank ==> s[dd] >= 1,
                len == rank * shape_product(s),
                len <= usize::MAX,
                0 <= j,
                j * rank + rank <= len,
                0 <= d <= rank,
                data@.len() == j * rank + d,
                forall|k: int|
                    0 <= k < data@.len() ==> #[trigger] data@[k] == spec_range_elem(s, k),
            decreases rank - d,
        {
            proof {
                lemma_product_pos(s.subrange(d + 1, rank as int));
                lemma_index_decompose(j as int, d as int, rank as int);
            }
            let v = (j / strides[d]) % shape[d];
            data.push(v as u64);
            d += 1;
        }
        j += 1;
    }
    let mut out_shape = copy_data(shape);
    if rank > 1 {
        out_shape.push(rank);
        proof {
            lemma_product_push(s, rank as usize);
        }
    }
    proof {
        assert(cells as int * rank as int == rank as int * cells as int) by (nonlinear_arith);
        if rank == 1 {
            assert(data@.len() == cells as int * 1);
        }
    }
    Ok(Array::new(out_shape, data))
}

/// The product of a shape splits at any cut point.
pub proof fn lemma_product_split(s: Seq<usize>, i: int)
    requires
        0 <= i <= s.len(),
    ensures
        shape_product(s) == shape_product(s.subrange(0, i)) * shape_product(
            s.subrange(i, s.len() as int),
        ),
    decreases i,
{
    if i == 0 {
        assert(s.subrange(0, 0) =~= Seq::<usize>::empty());
        assert(s.subrange(0, s.len() as int) =~= s);
        assert(shape_product(Seq::<usize>::empty()) == 1);
    } else {
        lemma_product_split(s, i - 1);
        let pre = s.subrange(0, i - 1);
        let suf = s.subrange(i - 1, s.len() as int);
        assert(s.subrange(0, i) =~= pre.push(s[i - 1]));
        lemma_product_push(pre, s[i - 1]);
        assert(suf.drop_first() =~= s.subrange(i, s.len() as int));
        let a = shape_product(pre);
        let b = s[i - 1] as nat;
        let c = shape_product(s.subrange(i, s.len() as int));
        assert(shape_product(suf) == b * c);
        assert(shape_product(s) == a * (b * c));
        assert(a * (b * c) == (a * b) * c) by (nonlinear_arith);
        assert(shape_product(s.subrange(0, i)) == a * b);
        assert(shape_product(s) == shape_product(s.subrange(0, i)) * c);
    }
}

/// Relies on rayon's `ParallelSliceMut::par_sort_by`: it reorders the
/// slice into ascending order as given by the comparator, here the
/// verified row-lexicographic comparison [`row_cmp`], whose contract makes
/// it a total order on row indices.
#[verifier::external_body]
fn par_sort_row_indices<T: ArrayValue + Sync>(
    indices: &mut Vec<usize>,
    data: &Vec<T>,
    row_len: usize,
)
    requires
        forall|k: int|
            0 <= k < old(indices)@.len() ==> (#[trigger] old(indices)@[k] as int + 1) * row_len
                <= data@.len(),
    ensures
        final(indices)@.len() == old(indices)@.len(),
        final(indices)@.to_multiset() == old(indices)@.to_multiset(),
        forall|i: int, j: int|
            0 <= i < j < final(indices)@.len() ==> spec_lex_le(
                spec_row(data@, row_len as int, #[trigger] final(indices)@[i] as int),
                spec_row(data@, row_len as int, #[trigger] final(indices)@[j] as int),
            ),
{
    indices.par_sort_by(|a: &usize, b: &usize| row_cmp(data, row_len, *a, *b));
}

impl<T: ArrayValue + Sync> Array<T> {
    /// The permutation of row indices that sorts the rows ascending by the
    /// row-lexicographic order.  Fails on a scalar; an empty array yields
    /// the empty permutation.
    pub fn rise(&self, env: &Uiua) -> (r: UiuaResult<Vec<usize>>)
        requires
            self.valid(),
        ensures
            match r {
                Ok(p) => {
                    let d = self.data@;
                    let rl = spec_row_len(self.shape@) as int;
                    let n = spec_row_count(self.shape@) as int;
                    &&& self.spec_rank() >= 1
                    &&& (d.len() == 0 ==> p@.len() == 0)
                    &&& (d.len() > 0 ==> {
                        &&& p@.len() == n
                        &&& p@.to_multiset() == Seq::new(n as nat, |k: int| k as usize)
                            .to_multiset()
                        &&& forall|i: int, j: int|
                            0 <= i < j < n ==> spec_lex_le(
                                spec_row(d, rl, #[trigger] p@[i] as int),
                                spec_row(d, rl, #[trigger] p@[j] as int),
                            )
                    })
                },
                Err(e) => self.spec_rank() == 0 && e == (UiuaError::DomainError {
                    message: "Cannot rise a scalar",
                }),
            },
    {
        if self.shape.len() == 0 {
            return Err(UiuaError::DomainError { message: "Cannot rise a scalar" });
        }
        if self.data.len() == 0 {
            return Ok(Vec::new());
        }
        let indices = self.sorted_row_indices();
        Ok(indices)
    }

    /// The permutation of row indices that sorts the rows descending: the
    /// reverse relation of [`Array::rise`].  Fails on a scalar; an empty
    /// array yields the empty permutation.
    pub fn fall(&self, env: &Uiua) -> (r: UiuaResult<Vec<usize>>)
        requires
            self.valid(),
        ensures
            match r {
                Ok(p) => {
                    let d = self.data@;
                    let rl = spec_row_len(self.shape@) as int;
                    let n = spec_row_count(self.shape@) as int;
                    &&& self.spec_rank() >= 1
                    &&& (d.len() == 0 ==> p@.len() == 0)
                    &&& (d.len() > 0 ==> {
                        &&& p@.len() == n
                        &&& p@.to_multiset() == Seq::new(n as nat, |k: int| k as usize)
                            .to_multiset()
                        &&& forall|i: int, j: int|
                            0 <= i < j < n ==> spec_lex_le(
                                spec_row(d, rl, #[trigger] p@[j] as int),
                                spec_row(d, rl, #[trigger] p@[i] as int),
                            )
                    })
                },
                Err(e) => self.spec_rank() == 0 && e == (UiuaError::DomainError {
                    message: "Cannot fall a scalar",
                }),
            },
    {
        if self.shape.len() == 0 {
            return Err(UiuaError::DomainError { message: "Cannot fall a scalar" });
        }
        if self.data.len() == 0 {
            return Ok(Vec::new());
        }
        let asc = self.sorted_row_indices();
        let ghost asc_view = asc@;
        let n = asc.len();
        let mut out: Vec<usize> = Vec::new();
        let mut k: usize = 0;
        while k < n
            invariant
                n == asc@.len(),
                asc_view == asc@,
                0 <= k <= n,
                out@.len() == k,
                forall|m: int| 0 <= m < k ==> #[trigger] out@[m] == asc@[n - 1 - m],
            decreases n - k,
        {
            out.push(asc[n - 1 - k]);
            k += 1;
        }
        proof {
            assert(out@ =~= asc_view.reverse());
            asc_view.lemma_reverse_to_multiset();
        }
        Ok(out)
    }

    /// The ascending sort permutation shared by `rise` and `fall`.
    fn sorted_row_indices(&self) -> (p: Vec<usize>)
        requires
            self.valid(),
            self.spec_rank() >= 1,
            self.data@.len() > 0,
        ensures
            ({
                let d = self.data@;
                let rl = spec_row_len(self.shape@) as int;
                let n = spec_row_count(self.shape@) as int;
                &&& p@.len() == n
                &&& p@.to_multiset() == Seq::new(n as nat, |k: int| k as usize).to_multiset()
                &&& forall|i: int, j: int|
                    0 <= i < j < n ==> spec_lex_le(
                        spec_row(d, rl, #[trigger] p@[i] as int),
                        spec_row(d, rl, #[trigger] p@[j] as int),
                    )
            }),
    {
        proof {
            lemma_product_head(self.shape@);
            if self.shape@[0] == 0 {
                lemma_product_zero_dim(self.shape@, 0);
            }
        }
        let row_count = self.row_count();
        let row_len = self.row_len();
        let ghost d = self.data@;
        let ghost rl = row_len as int;
        let ghost n = row_count as int;
        let mut indices: Vec<usize> = Vec::new();
        let mut i: usize = 0;
        while i < row_count
            invariant
                row_count as int == n,
                0 <= i <= n,
                indices@.len() == i,
                forall|m: int| 0 <= m < i ==> #[trigger] indices@[m] == m,
            decreases n - i,
        {
            indices.push(i);
            i += 1;
        }
        proof {
            assert(indices@ =~= Seq::new(n as nat, |k: int| k as usize));
            assert forall|k: int| 0 <= k < indices@.len() implies (#[trigger] indices@[k] as int
                + 1) * row_len <= self.data@.len() by {
                vstd::arithmetic::mul::lemma_mul_inequality(indices@[k] as int + 1, n, rl);
            }
        }
        par_sort_row_indices(&mut indices, &self.data, row_len);
        indices
    }
}

/// Reversing the rows twice restores the original buffer.
pub proof fn lemma_reverse_involution<T>(d: Seq<T>, rc: int, rl: int)
    requires
        d.len() == rc * rl,
        rc >= 1,
        rl >= 1,
    ensures
        spec_reverse_rows(spec_reverse_rows(d, rc, rl), rc, rl) == d,
{
    let r1 = spec_reverse_rows(d, rc, rl);
    let r2 = spec_reverse_rows(r1, rc, rl);
    assert forall|k: int| 0 <= k < d.len() implies r2[k] == d[k] by {
        lemma_index_in_rows(k, rc, rl);
        let q = k / rl;
        let j = k % rl;
        let m = (rc - 1 - q) * rl + j;
        lemma_index_decompose(rc - 1 - q, j, rl);
        assert(m / rl == rc - 1 - q && m % rl == j);
        assert(0 <= m < rc * rl) by (nonlinear_arith)
            requires
                0 <= rc - 1 - q < rc,
                0 <= j < rl,
                m == (rc - 1 - q) * rl + j,
        ;
        assert(r2[k] == r1[m]);
        assert(r1[m] == d[(rc - 1 - m / rl) * rl + m % rl]);
        assert((rc - 1 - (rc - 1 - q)) * rl + j == q * rl + j);
        assert(k == q * rl + j);
    }
    assert(r2 =~= d);
}

} // verus!
