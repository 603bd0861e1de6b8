//! The binary pervasion engine: reconcile the shapes of two operands by
//! fill-extension, then walk the matching row structure recursively and
//! apply a scalar kernel at the leaves.

use vstd::prelude::*;

pub mod abs;
pub mod acos;
pub mod add;
pub mod asin;
pub mod atan2;
pub mod ceil;
pub mod cmp;
pub mod cos;
pub mod div;
pub mod floor;
pub mod generic;
pub mod kernels;
pub mod log;
pub mod max;
pub mod min;
pub mod modulus;
pub mod mul;
pub mod neg;
pub mod not;
pub mod pow;
pub mod round;
pub mod sign;
pub mod sin;
pub mod sqrt;
pub mod sub;
pub mod tan;

use crate::array::{
    copy_data, lemma_product_head, lemma_product_zero_dim, shape_prefixes_match,
    shape_product, slice_product, spec_prefixes_match, spec_row, spec_row_count, spec_row_len,
    Array, ArrayValue,
};
use crate::{Uiua, UiuaError, UiuaResult};

verus! {

/// A scalar kernel as the engine sees it: a two-argument function that may
/// fail, with its success condition and value pinned by specification.
/// The fallible and the infallible adapters both implement this, so the
/// broadcasting walk need not distinguish them.
pub trait PervasiveFn {
    type A: Copy;

    type B: Copy;

    type Output;

    /// Whether the kernel accepts this pair of scalars.
    spec fn succeeds(&self, a: Self::A, b: Self::B) -> bool;

    /// The value the kernel returns when it accepts the pair.
    spec fn output(&self, a: Self::A, b: Self::B) -> Self::Output;

    /// The failure the kernel returns when it refuses the pair.
    spec fn error_of(&self, a: Self::A, b: Self::B) -> UiuaError;

    fn call(&self, a: Self::A, b: Self::B, env: &Uiua) -> (r: Result<Self::Output, UiuaError>)
        ensures
            match r {
                Ok(v) => self.succeeds(a, b) && v == self.output(a, b),
                Err(e) => !self.succeeds(a, b) && e == self.error_of(a, b),
            },
    ;
}

/// A two-argument kernel that cannot fail.
pub trait InfallibleFn {
    type A: Copy;

    type B: Copy;

    type Output;

    /// The value the kernel returns.
    spec fn out_spec(&self, a: Self::A, b: Self::B) -> Self::Output;

    fn apply(&self, a: Self::A, b: Self::B) -> (r: Self::Output)
        ensures
            r == self.out_spec(a, b),
    ;
}

/// Adapter wrapping a kernel that cannot fail under the common
/// [`PervasiveFn`] contract.
pub struct InfalliblePervasiveFn<K>(pub K);

impl<K> InfalliblePervasiveFn<K> {
    pub fn new(f: K) -> (r: Self)
        ensures
            r == InfalliblePervasiveFn(f),
    {
        Self(f)
    }
}

impl<K: InfallibleFn> PervasiveFn for InfalliblePervasiveFn<K> {
    type A = K::A;

    type B = K::B;

    type Output = K::Output;

    open spec fn succeeds(&self, a: K::A, b: K::B) -> bool {
        true
    }

    open spec fn output(&self, a: K::A, b: K::B) -> K::Output {
        self.0.out_spec(a, b)
    }

    /// Never returned: the kernel cannot fail.
    open spec fn error_of(&self, a: K::A, b: K::B) -> UiuaError {
        vstd::pervasive::arbitrary()
    }

    fn call(&self, a: K::A, b: K::B, env: &Uiua) -> (r: Result<K::Output, UiuaError>) {
        Ok(self.0.apply(a, b))
    }
}

/// Adapter wrapping an already fallible kernel under the common
/// [`PervasiveFn`] contract.
pub struct FalliblePerasiveFn<K>(pub K);

impl<K> FalliblePerasiveFn<K> {
    pub fn new(f: K) -> (r: Self)
        ensures
            r == FalliblePerasiveFn(f),
    {
        Self(f)
    }
}

impl<K: PervasiveFn> PervasiveFn for FalliblePerasiveFn<K> {
    type A = K::A;

    type B = K::B;

    type Output = K::Output;

    open spec fn succeeds(&self, a: K::A, b: K::B) -> bool {
        self.0.succeeds(a, b)
    }

    open spec fn output(&self, a: K::A, b: K::B) -> K::Output {
        self.0.output(a, b)
    }

    open spec fn error_of(&self, a: K::A, b: K::B) -> UiuaError {
        self.0.error_of(a, b)
    }

    fn call(&self, a: K::A, b: K::B, env: &Uiua) -> (r: Result<K::Output, UiuaError>) {
        self.0.call(a, b, env)
    }
}

/// A buffer of `n` copies of the fill value.
pub open spec fn spec_fill_seq<T>(n: nat, fill: T) -> Seq<T> {
    Seq::new(n, |k: int| fill)
}

/// A shape padded with leading 1-dimensions up to length `n`.
pub open spec fn spec_pad(s: Seq<usize>, n: int) -> Seq<usize> {
    Seq::new((n - s.len()) as nat, |k: int| 1usize) + s
}

/// The element-wise maximum of two shapes of equal rank.
pub open spec fn spec_elem_max(a: Seq<usize>, b: Seq<usize>) -> Seq<usize> {
    Seq::new(
        a.len(),
        |i: int|
            if a[i] >= b[i] {
                a[i]
            } else {
                b[i]
            },
    )
}

/// The data of an array embedded corner-first into a larger target shape
/// of the same rank, the remainder padded with the fill value.  Target
/// rows beyond the source's leading dimension are whole rows of fill;
/// source rows beyond the target's leading dimension are dropped.
pub open spec fn spec_embed<T>(osh: Seq<usize>, od: Seq<T>, tsh: Seq<usize>, fill: T) -> Seq<T>
    decreases tsh.len(), 1int, 0int,
{
    if tsh.len() == 0 {
        od
    } else {
        spec_embed_rows(osh, od, tsh, fill, 0)
    }
}

/// Rows `i..` of the embedding.
pub open spec fn spec_embed_rows<T>(
    osh: Seq<usize>,
    od: Seq<T>,
    tsh: Seq<usize>,
    fill: T,
    i: int,
) -> Seq<T>
    decreases tsh.len(), 0int, spec_row_count(tsh) - i,
{
    if i < 0 || i >= spec_row_count(tsh) || tsh.len() == 0 {
        Seq::empty()
    } else {
        let row = if i < spec_row_count(osh) {
            spec_embed(
                osh.drop_first(),
                spec_row(od, spec_row_len(osh) as int, i),
                tsh.drop_first(),
                fill,
            )
        } else {
            spec_fill_seq(spec_row_len(tsh), fill)
        };
        row + spec_embed_rows(osh, od, tsh, fill, i + 1)
    }
}

/// First repair pass: the operand with fewer rows, if its element type has
/// a fill value, grows its leading dimension to match the other's.
pub open spec fn spec_pass1<A: ArrayValue, B: ArrayValue>(
    ash: Seq<usize>,
    ad: Seq<A>,
    bsh: Seq<usize>,
    bd: Seq<B>,
    env: Uiua,
) -> (Seq<usize>, Seq<A>, Seq<usize>, Seq<B>) {
    let arc = spec_row_count(ash);
    let brc = spec_row_count(bsh);
    if arc < brc && A::spec_fill(env) is Some {
        let t = ash.update(0, brc as usize);
        (t, spec_embed(ash, ad, t, A::spec_fill(env)->Some_0), bsh, bd)
    } else if arc > brc && B::spec_fill(env) is Some {
        let t = bsh.update(0, arc as usize);
        (ash, ad, t, spec_embed(bsh, bd, t, B::spec_fill(env)->Some_0))
    } else {
        (ash, ad, bsh, bd)
    }
}

/// Second repair pass: the operand of lower rank gains a leading dimension
/// sized to the other's row count; with equal ranks, both grow to the
/// element-wise maximum shape.  Either repair happens only for an element
/// type with a fill value.
pub open spec fn spec_pass2<A: ArrayValue, B: ArrayValue>(
    ash: Seq<usize>,
    ad: Seq<A>,
    bsh: Seq<usize>,
    bd: Seq<B>,
    env: Uiua,
) -> (Seq<usize>, Seq<A>, Seq<usize>, Seq<B>) {
    if ash.len() < bsh.len() && A::spec_fill(env) is Some {
        let t = ash.insert(0, spec_row_count(bsh) as usize);
        (t, spec_embed(spec_pad(ash, t.len() as int), ad, t, A::spec_fill(env)->Some_0), bsh, bd)
    } else if ash.len() > bsh.len() && B::spec_fill(env) is Some {
        let t = bsh.insert(0, spec_row_count(ash) as usize);
        (ash, ad, t, spec_embed(spec_pad(bsh, t.len() as int), bd, t, B::spec_fill(env)->Some_0))
    } else if ash.len() == bsh.len() {
        let t = spec_elem_max(ash, bsh);
        let a2 = if ash != t && A::spec_fill(env) is Some {
            (t, spec_embed(ash, ad, t, A::spec_fill(env)->Some_0))
        } else {
            (ash, ad)
        };
        let b2 = if bsh != t && B::spec_fill(env) is Some {
            (t, spec_embed(bsh, bd, t, B::spec_fill(env)->Some_0))
        } else {
            (bsh, bd)
        };
        (a2.0, a2.1, b2.0, b2.1)
    } else {
        (ash, ad, bsh, bd)
    }
}

/// The shape reconciliation of the binary pervasion engine: where the
/// shape prefixes already match nothing happens; otherwise the two repair
/// passes run in order, each skipped as soon as the prefixes match.
pub open spec fn spec_reconcile<A: ArrayValue, B: ArrayValue>(
    ash: Seq<usize>,
    ad: Seq<A>,
    bsh: Seq<usize>,
    bd: Seq<B>,
    env: Uiua,
) -> (Seq<usize>, Seq<A>, Seq<usize>, Seq<B>) {
    if spec_prefixes_match(ash, bsh) {
        (ash, ad, bsh, bd)
    } else {
        let p1 = spec_pass1(ash, ad, bsh, bd, env);
        if spec_prefixes_match(p1.0, p1.2) {
            p1
        } else {
            spec_pass2(p1.0, p1.1, p1.2, p1.3, env)
        }
    }
}

/// The result shape of a pervasive operation over prefix-matching shapes:
/// the higher-rank one.
pub open spec fn spec_shape_max(ash: Seq<usize>, bsh: Seq<usize>) -> Seq<usize> {
    if bsh.len() > ash.len() {
        bsh
    } else {
        ash
    }
}

/// For prefix-matching shapes, the result shape equals the element-wise
/// maximum of the two shapes, the shorter one padded at its tail: the
/// shape law of pervasion.
pub proof fn lemma_shape_max_is_elementwise(ash: Seq<usize>, bsh: Seq<usize>)
    requires
        spec_prefixes_match(ash, bsh),
    ensures
        spec_shape_max(ash, bsh) == Seq::new(
            vstd::math::max(ash.len() as int, bsh.len() as int) as nat,
            |i: int|
                if i < ash.len() && i < bsh.len() {
                    vstd::math::max(ash[i] as int, bsh[i] as int) as usize
                } else if i < ash.len() {
                    ash[i]
                } else {
                    bsh[i]
                },
        ),
{
    let m = Seq::new(
        vstd::math::max(ash.len() as int, bsh.len() as int) as nat,
        |i: int|
            if i < ash.len() && i < bsh.len() {
                vstd::math::max(ash[i] as int, bsh[i] as int) as usize
            } else if i < ash.len() {
                ash[i]
            } else {
                bsh[i]
            },
    );
    assert(spec_shape_max(ash, bsh) =~= m);
}

/// The shape law of pervasion: operands whose shape prefixes already
/// match need no repair, and the result shape of [`bin_pervade`] on them
/// is the element-wise maximum of the two operand shapes.
pub proof fn lemma_pervade_shape_law<A: ArrayValue, B: ArrayValue>(
    ash: Seq<usize>,
    ad: Seq<A>,
    bsh: Seq<usize>,
    bd: Seq<B>,
    env: Uiua,
)
    requires
        spec_prefixes_match(ash, bsh),
    ensures
        spec_reconcile(ash, ad, bsh, bd, env) == (ash, ad, bsh, bd),
        spec_shape_max(ash, bsh) == Seq::new(
            vstd::math::max(ash.len() as int, bsh.len() as int) as nat,
            |i: int|
                if i < ash.len() && i < bsh.len() {
                    vstd::math::max(ash[i] as int, bsh[i] as int) as usize
                } else if i < ash.len() {
                    ash[i]
                } else {
                    bsh[i]
                },
        ),
{
    lemma_shape_max_is_elementwise(ash, bsh);
}

/// The failure of the first refused pair at or after position `k` of two
/// zipped buffers; meaningful only where some pair is refused.
pub open spec fn spec_zip_error<F: PervasiveFn>(
    f: F,
    ad: Seq<F::A>,
    bd: Seq<F::B>,
    k: int,
) -> UiuaError
    decreases ad.len() - k,
{
    if k < 0 || k >= ad.len() {
        vstd::pervasive::arbitrary()
    } else if !f.succeeds(ad[k], bd[k]) {
        f.error_of(ad[k], bd[k])
    } else {
        spec_zip_error(f, ad, bd, k + 1)
    }
}

/// The first refused pair decides the zip error.
pub proof fn lemma_zip_error_first<F: PervasiveFn>(
    f: F,
    ad: Seq<F::A>,
    bd: Seq<F::B>,
    j: int,
    k: int,
)
    requires
        0 <= j <= k < ad.len(),
        forall|m: int| j <= m < k ==> f.succeeds(ad[m], #[trigger] bd[m]),
        !f.succeeds(ad[k], bd[k]),
    ensures
        spec_zip_error(f, ad, bd, j) == f.error_of(ad[k], bd[k]),
    decreases k - j,
{
    if j < k {
        lemma_zip_error_first(f, ad, bd, j + 1, k);
    }
}

/// The broadcast application itself, on reconciled views: the first
/// kernel failure in traversal order, or the output values in `a`'s (and
/// `b`'s) traversal order.
pub open spec fn spec_pervade<F: PervasiveFn>(
    f: F,
    ash: Seq<usize>,
    ad: Seq<F::A>,
    bsh: Seq<usize>,
    bd: Seq<F::B>,
) -> Result<Seq<F::Output>, UiuaError>
    decreases ash.len() + bsh.len(), 1int, 0int,
{
    if ash == bsh {
        if forall|k: int| 0 <= k < ad.len() ==> f.succeeds(ad[k], #[trigger] bd[k]) {
            Ok(Seq::new(ad.len(), |k: int| f.output(ad[k], bd[k])))
        } else {
            Err(spec_zip_error(f, ad, bd, 0))
        }
    } else if ash.len() == 0 {
        spec_pervade_rows_b(f, ash, ad, bsh, bd, 0)
    } else if bsh.len() == 0 {
        spec_pervade_rows_a(f, ash, ad, bsh, bd, 0)
    } else {
        spec_pervade_rows_ab(f, ash, ad, bsh, bd, 0)
    }
}

/// Scalar `a` broadcast across rows `i..` of `b`.
pub open spec fn spec_pervade_rows_b<F: PervasiveFn>(
    f: F,
    ash: Seq<usize>,
    ad: Seq<F::A>,
    bsh: Seq<usize>,
    bd: Seq<F::B>,
    i: int,
) -> Result<Seq<F::Output>, UiuaError>
    decreases ash.len() + bsh.len(), 0int, spec_row_count(bsh) - i,
{
    if bsh.len() == 0 || i < 0 || i >= spec_row_count(bsh) {
        Ok(Seq::empty())
    } else {
        let sub = spec_pervade(
            f,
            ash,
            ad,
            bsh.drop_first(),
            spec_row(bd, spec_row_len(bsh) as int, i),
        );
        if sub is Err {
            sub
        } else {
            let rest = spec_pervade_rows_b(f, ash, ad, bsh, bd, i + 1);
            if rest is Err {
                rest
            } else {
                Ok(sub->Ok_0 + rest->Ok_0)
            }
        }
    }
}

/// Rows `i..` of `a` broadcast against scalar `b`.
pub open spec fn spec_pervade_rows_a<F: PervasiveFn>(
    f: F,
    ash: Seq<usize>,
    ad: Seq<F::A>,
    bsh: Seq<usize>,
    bd: Seq<F::B>,
    i: int,
) -> Result<Seq<F::Output>, UiuaError>
    decreases ash.len() + bsh.len(), 0int, spec_row_count(ash) - i,
{
    if ash.len() == 0 || i < 0 || i >= spec_row_count(ash) {
        Ok(Seq::empty())
    } else {
        let sub = spec_pervade(
            f,
            ash.drop_first(),
            spec_row(ad, spec_row_len(ash) as int, i),
            bsh,
            bd,
        );
        if sub is Err {
            sub
        } else {
            let rest = spec_pervade_rows_a(f, ash, ad, bsh, bd, i + 1);
            if rest is Err {
                rest
            } else {
                Ok(sub->Ok_0 + rest->Ok_0)
            }
        }
    }
}

/// Rows `i..` of `a` paired with the same rows of `b`.
pub open spec fn spec_pervade_rows_ab<F: PervasiveFn>(
    f: F,
    ash: Seq<usize>,
    ad: Seq<F::A>,
    bsh: Seq<usize>,
    bd: Seq<F::B>,
    i: int,
) -> Result<Seq<F::Output>, UiuaError>
    decreases ash.len() + bsh.len(), 0int, spec_row_count(ash) - i,
{
    if ash.len() == 0 || bsh.len() == 0 || i < 0 || i >= spec_row_count(ash) {
        Ok(Seq::empty())
    } else {
        let sub = spec_pervade(
            f,
            ash.drop_first(),
            spec_row(ad, spec_row_len(ash) as int, i),
            bsh.drop_first(),
            spec_row(bd, spec_row_len(bsh) as int, i),
        );
        if sub is Err {
            sub
        } else {
            let rest = spec_pervade_rows_ab(f, ash, ad, bsh, bd, i + 1);
            if rest is Err {
                rest
            } else {
                Ok(sub->Ok_0 + rest->Ok_0)
            }
        }
    }
}


/// Leading 1-dimensions do not change the element count.
pub proof fn lemma_pad_product(s: Seq<usize>, k: nat)
    ensures
        shape_product(Seq::new(k, |i: int| 1usize) + s) == shape_product(s),
    decreases k,
{
    let padded = Seq::new(k, |i: int| 1usize) + s;
    if k == 0 {
        assert(padded =~= s);
    } else {
        lemma_pad_product(s, (k - 1) as nat);
        assert(padded.drop_first() =~= Seq::new((k - 1) as nat, |i: int| 1usize) + s);
        assert(padded[0] == 1);
        assert(shape_product(padded) == 1 * shape_product(padded.drop_first()));
    }
}

/// Append the corner embedding of a buffer (its shape already padded to
/// the target's rank) into the target shape, padding with the fill value.
fn embed_rec<T: Copy>(osh: &[usize], od: &[T], tsh: &[usize], fill: T, out: &mut Vec<T>)
    requires
        osh@.len() == tsh@.len(),
        od@.len() == shape_product(osh@),
        shape_product(osh@) <= usize::MAX,
        shape_product(tsh@) <= usize::MAX,
    ensures
        final(out)@ == old(out)@ + spec_embed(osh@, od@, tsh@, fill),
        final(out)@.len() == old(out)@.len() + shape_product(tsh@),
    decreases tsh@.len(),
{
    let ghost out0 = out@;
    if tsh.len() == 0 {
        out.push(od[0]);
        proof {
            assert(od@.len() == 1);
            assert(out@ =~= out0 + od@);
        }
        return ;
    }
    proof {
        lemma_product_head(tsh@);
        lemma_product_head(osh@);
    }
    let trc = tsh[0];
    if trc == 0 {
        proof {
            lemma_product_zero_dim(tsh@, 0);
            assert(spec_embed_rows(osh@, od@, tsh@, fill, 0) =~= Seq::<T>::empty());
            assert(out@ =~= out0 + spec_embed(osh@, od@, tsh@, fill));
        }
        return ;
    }
    proof {
        assert(tsh@.subrange(1, tsh@.len() as int) =~= tsh@.drop_first());
        assert(spec_row_count(tsh@) * spec_row_len(tsh@) >= spec_row_len(tsh@))
            by (nonlinear_arith)
            requires
                spec_row_count(tsh@) >= 1,
                spec_row_len(tsh@) >= 0,
        ;
    }
    let trl = slice_product(tsh, 1);
    let orc = osh[0];
    let orl: usize = if orc == 0 {
        0
    } else {
        proof {
            assert(spec_row_count(osh@) * spec_row_len(osh@) >= spec_row_len(osh@))
                by (nonlinear_arith)
                requires
                    spec_row_count(osh@) >= 1,
                    spec_row_len(osh@) >= 0,
            ;
            assert(osh@.subrange(1, osh@.len() as int) =~= osh@.drop_first());
        }
        slice_product(osh, 1)
    };
    proof {
        assert(tsh@.subrange(1, tsh@.len() as int) =~= tsh@.drop_first());
        assert(osh@.subrange(1, osh@.len() as int) =~= osh@.drop_first());
    }
    let mut i: usize = 0;
    while i < trc
        invariant
            osh@.len() == tsh@.len(),
            tsh@.len() >= 1,
            od@.len() == shape_product(osh@),
            shape_product(osh@) <= usize::MAX,
            shape_product(tsh@) <= usize::MAX,
            trc == spec_row_count(tsh@),
            shape_product(osh@) == spec_row_count(osh@) * spec_row_len(osh@),
            trl == spec_row_len(tsh@),
            orc == spec_row_count(osh@),
            orc > 0 ==> orl == spec_row_len(osh@),
            shape_product(tsh@) == spec_row_count(tsh@) * spec_row_len(tsh@),
            0 <= i <= trc,
            out@.len() == out0.len() + i * (trl as int),
            spec_embed_rows(osh@, od@, tsh@, fill, 0) == out@.subrange(
                out0.len() as int,
                out@.len() as int,
            ) + spec_embed_rows(osh@, od@, tsh@, fill, i as int),
            out@.subrange(0, out0.len() as int) == out0,
        decreases trc - i,
    {
        let ghost before = out@;
        let ghost row_spec = (if (i as int) < orc as int {
            spec_embed(osh@.drop_first(), spec_row(od@, orl as int, i as int), tsh@.drop_first(), fill)
        } else {
            spec_fill_seq(spec_row_len(tsh@), fill)
        });
        proof {
            assert((i + 1) * (trl as int) == i * (trl as int) + trl) by (nonlinear_arith);
            vstd::arithmetic::mul::lemma_mul_inequality(i as int + 1, trc as int, trl as int);
            assert(trc as int * (trl as int) == spec_row_count(tsh@) * spec_row_len(tsh@));
        }
        if i < orc {
            proof {
                lemma_product_head(osh@);
                assert((i as int) * (orl as int) + orl == (i as int + 1) * (orl as int))
                    by (nonlinear_arith);
                assert((i as int) * (orl as int) >= 0) by (nonlinear_arith)
                    requires
                        i as int >= 0,
                        orl as int >= 0,
                ;
                vstd::arithmetic::mul::lemma_mul_inequality(i as int + 1, orc as int, orl as int);
                assert(orc as int * (orl as int) == spec_row_count(osh@) * spec_row_len(osh@));
            }
            let row = vstd::slice::slice_subrange(od, i * orl, (i + 1) * orl);
            embed_rec(
                vstd::slice::slice_subrange(osh, 1, osh.len()),
                row,
                vstd::slice::slice_subrange(tsh, 1, tsh.len()),
                fill,
                out,
            );
        } else {
            let mut k: usize = 0;
            while k < trl
                invariant
                    0 <= k <= trl,
                    out@.len() == before.len() + k,
                    out@ == before + spec_fill_seq(k as nat, fill),
                decreases trl - k,
            {
                out.push(fill);
                proof {
                    assert(out@ =~= before + spec_fill_seq((k + 1) as nat, fill));
                }
                k += 1;
            }
            proof {
                assert(spec_fill_seq(trl as nat, fill) =~= spec_fill_seq(spec_row_len(tsh@), fill));
            }
        }
        proof {
            assert(out@ == before + row_spec);
            assert(spec_embed_rows(osh@, od@, tsh@, fill, i as int) == row_spec
                + spec_embed_rows(osh@, od@, tsh@, fill, i as int + 1));
            assert(out@.subrange(0, out0.len() as int) =~= out0);
            assert(out@.subrange(out0.len() as int, out@.len() as int) =~= before.subrange(
                out0.len() as int,
                before.len() as int,
            ) + row_spec);
            assert(before.subrange(out0.len() as int, before.len() as int) + (row_spec
                + spec_embed_rows(osh@, od@, tsh@, fill, i as int + 1)) =~= (before.subrange(
                out0.len() as int,
                before.len() as int,
            ) + row_spec) + spec_embed_rows(osh@, od@, tsh@, fill, i as int + 1));
        }
        i += 1;
    }
    proof {
        assert(spec_embed_rows(osh@, od@, tsh@, fill, trc as int) =~= Seq::<T>::empty());
        assert(out@.subrange(out0.len() as int, out@.len() as int) + Seq::<T>::empty()
            =~= out@.subrange(out0.len() as int, out@.len() as int));
        assert(out@ =~= out0 + out@.subrange(out0.len() as int, out@.len() as int));
    }
}

impl<T: ArrayValue> Array<T> {
    /// Reshape this array to the target shape, embedding the existing data
    /// corner-first and padding the remainder with the fill value.
    pub fn fill_to_shape(&mut self, target: &[usize], fill: T)
        requires
            old(self).valid(),
            old(self).shape@.len() <= target@.len(),
            shape_product(target@) <= usize::MAX,
        ensures
            final(self).shape@ == target@,
            final(self).data@ == spec_embed(
                spec_pad(old(self).shape@, target@.len() as int),
                old(self).data@,
                target@,
                fill,
            ),
            final(self).valid(),
    {
        let ghost padded_spec = spec_pad(self.shape@, target@.len() as int);
        let pad_n = target.len() - self.shape.len();
        let mut padded: Vec<usize> = Vec::new();
        let mut k: usize = 0;
        while k < pad_n
            invariant
                0 <= k <= pad_n,
                padded@.len() == k,
                forall|m: int| 0 <= m < k ==> #[trigger] padded@[m] == 1usize,
            decreases pad_n - k,
        {
            padded.push(1);
            k += 1;
        }
        let mut k2: usize = 0;
        let n2 = self.shape.len();
        while k2 < n2
            invariant
                n2 == self.shape@.len(),
                0 <= k2 <= n2,
                padded@.len() == pad_n + k2,
                forall|m: int| 0 <= m < pad_n ==> #[trigger] padded@[m] == 1usize,
                forall|m: int|
                    pad_n <= m < pad_n + k2 ==> #[trigger] padded@[m] == self.shape@[m - pad_n],
            decreases n2 - k2,
        {
            padded.push(self.shape[k2]);
            k2 += 1;
        }
        proof {
            assert(padded@ =~= padded_spec);
            lemma_pad_product(self.shape@, (target@.len() - self.shape@.len()) as nat);
            assert(padded_spec == Seq::new(
                (target@.len() - self.shape@.len()) as nat,
                |i: int| 1usize,
            ) + self.shape@);
        }
        // Reading the length brings its usize bound into scope.
        let _buffer_len = self.data.len();
        let mut data: Vec<T> = Vec::new();
        embed_rec(padded.as_slice(), self.data.as_slice(), target, fill, &mut data);
        self.shape = copy_data(target);
        self.data = data;
        proof {
            assert(self.data@ =~= spec_embed(padded_spec, old(self).data@, target@, fill));
        }
    }
}


/// A kernel that accepts every pair never refuses the broadcast.
pub proof fn lemma_pervade_infallible<F: PervasiveFn>(
    f: F,
    ash: Seq<usize>,
    ad: Seq<F::A>,
    bsh: Seq<usize>,
    bd: Seq<F::B>,
)
    requires
        forall|a: F::A, b: F::B| #[trigger] f.succeeds(a, b),
    ensures
        spec_pervade(f, ash, ad, bsh, bd) is Ok,
    decreases ash.len() + bsh.len(), 1int, 0int,
{
    if ash == bsh {
    } else if ash.len() == 0 {
        lemma_pervade_rows_b_infallible(f, ash, ad, bsh, bd, 0);
    } else if bsh.len() == 0 {
        lemma_pervade_rows_a_infallible(f, ash, ad, bsh, bd, 0);
    } else {
        lemma_pervade_rows_ab_infallible(f, ash, ad, bsh, bd, 0);
    }
}

proof fn lemma_pervade_rows_b_infallible<F: PervasiveFn>(
    f: F,
    ash: Seq<usize>,
    ad: Seq<F::A>,
    bsh: Seq<usize>,
    bd: Seq<F::B>,
    i: int,
)
    requires
        forall|a: F::A, b: F::B| #[trigger] f.succeeds(a, b),
    ensures
        spec_pervade_rows_b(f, ash, ad, bsh, bd, i) is Ok,
    decreases ash.len() + bsh.len(), 0int, spec_row_count(bsh) - i,
{
    if bsh.len() == 0 || i < 0 || i >= spec_row_count(bsh) {
    } else {
        lemma_pervade_infallible(
            f,
            ash,
            ad,
            bsh.drop_first(),
            spec_row(bd, spec_row_len(bsh) as int, i),
        );
        lemma_pervade_rows_b_infallible(f, ash, ad, bsh, bd, i + 1);
    }
}

proof fn lemma_pervade_rows_a_infallible<F: PervasiveFn>(
    f: F,
    ash: Seq<usize>,
    ad: Seq<F::A>,
    bsh: Seq<usize>,
    bd: Seq<F::B>,
    i: int,
)
    requires
        forall|a: F::A, b: F::B| #[trigger] f.succeeds(a, b),
    ensures
        spec_pervade_rows_a(f, ash, ad, bsh, bd, i) is Ok,
    decreases ash.len() + bsh.len(), 0int, spec_row_count(ash) - i,
{
    if ash.len() == 0 || i < 0 || i >= spec_row_count(ash) {
    } else {
        lemma_pervade_infallible(
            f,
            ash.drop_first(),
            spec_row(ad, spec_row_len(ash) as int, i),
            bsh,
            bd,
        );
        lemma_pervade_rows_a_infallible(f, ash, ad, bsh, bd, i + 1);
    }
}

proof fn lemma_pervade_rows_ab_infallible<F: PervasiveFn>(
    f: F,
    ash: Seq<usize>,
    ad: Seq<F::A>,
    bsh: Seq<usize>,
    bd: Seq<F::B>,
    i: int,
)
    requires
        forall|a: F::A, b: F::B| #[trigger] f.succeeds(a, b),
    ensures
        spec_pervade_rows_ab(f, ash, ad, bsh, bd, i) is Ok,
    decreases ash.len() + bsh.len(), 0int, spec_row_count(ash) - i,
{
    if ash.len() == 0 || bsh.len() == 0 || i < 0 || i >= spec_row_count(ash) {
    } else {
        lemma_pervade_infallible(
            f,
            ash.drop_first(),
            spec_row(ad, spec_row_len(ash) as int, i),
            bsh.drop_first(),
            spec_row(bd, spec_row_len(bsh) as int, i),
        );
        lemma_pervade_rows_ab_infallible(f, ash, ad, bsh, bd, i + 1);
    }
}

/// The recursive element-wise application: walk the row structure of the
/// (reconciled) operands, apply the kernel at scalar leaves, and append
/// the outputs to `out` in traversal order.  On a kernel failure the first
/// error aborts the whole walk.
fn bin_pervade_recursive<F: PervasiveFn>(
    f: &F,
    ash: &[usize],
    ad: &[F::A],
    bsh: &[usize],
    bd: &[F::B],
    env: &Uiua,
    out: &mut Vec<F::Output>,
) -> (r: Result<(), UiuaError>)
    requires
        ad@.len() == shape_product(ash@),
        bd@.len() == shape_product(bsh@),
        shape_product(ash@) <= usize::MAX,
        shape_product(bsh@) <= usize::MAX,
        spec_prefixes_match(ash@, bsh@),
    ensures
        match r {
            Ok(_) => {
                &&& spec_pervade(*f, ash@, ad@, bsh@, bd@) matches Ok(s) && final(out)@ == old(
                    out,
                )@ + s
                &&& final(out)@.len() == old(out)@.len() + shape_product(
                    spec_shape_max(ash@, bsh@),
                )
            },
            Err(e) => spec_pervade(*f, ash@, ad@, bsh@, bd@) == Err::<
                Seq<F::Output>,
                UiuaError,
            >(e),
        },
    decreases ash@.len() + bsh@.len(),
{
    let ghost out0 = out@;
    if crate::array::shapes_equal(ash, bsh) {
        let n = ad.len();
        let mut k: usize = 0;
        while k < n
            invariant
                ash@ == bsh@,
                n == ad@.len(),
                ad@.len() == bd@.len(),
                0 <= k <= n,
                out@.len() == out0.len() + k,
                forall|m: int| 0 <= m < k ==> f.succeeds(ad@[m], #[trigger] bd@[m]),
                forall|m: int|
                    0 <= m < k ==> #[trigger] out@[out0.len() + m] == f.output(ad@[m], bd@[m]),
                out@.subrange(0, out0.len() as int) == out0,
            decreases n - k,
        {
            match f.call(ad[k], bd[k], env) {
                Ok(v) => {
                    out.push(v);
                },
                Err(e) => {
                    proof {
                        assert(!f.succeeds(ad@[k as int], bd@[k as int]));
                        lemma_zip_error_first(*f, ad@, bd@, 0, k as int);
                    }
                    return Err(e);
                },
            }
            k += 1;
        }
        proof {
            let s = Seq::new(ad@.len(), |m: int| f.output(ad@[m], bd@[m]));
            assert forall|j: int| 0 <= j < out@.len() implies out@[j] == (out0 + s)[j] by {
                if j >= out0.len() {
                    let m = j - out0.len();
                    assert(out@[out0.len() + m] == f.output(ad@[m], bd@[m]));
                }
            }
            assert(out@ =~= out0 + s);
        }
        Ok(())
    } else if ash.len() == 0 {
        proof {
            if bsh@.len() == 0 {
                assert(ash@ =~= bsh@);
            }
            lemma_product_head(bsh@);
            assert(bsh@.subrange(1, bsh@.len() as int) =~= bsh@.drop_first());
        }
        let brc = bsh[0];
        if brc == 0 {
            proof {
                assert(spec_pervade_rows_b(*f, ash@, ad@, bsh@, bd@, 0) == Ok::<
                    Seq<F::Output>,
                    UiuaError,
                >(Seq::empty()));
                assert(out@ =~= out0 + Seq::<F::Output>::empty());
                lemma_product_zero_dim(bsh@, 0);
            }
            return Ok(());
        }
        proof {
            assert(spec_row_count(bsh@) * spec_row_len(bsh@) >= spec_row_len(bsh@))
                by (nonlinear_arith)
                requires
                    spec_row_count(bsh@) >= 1,
                    spec_row_len(bsh@) >= 0,
            ;
        }
        let brl = slice_product(bsh, 1);
        let bsh_tail = vstd::slice::slice_subrange(bsh, 1, bsh.len());
        let mut i: usize = 0;
        while i < brc
            invariant
                ad@.len() == shape_product(ash@),
                bd@.len() == shape_product(bsh@),
                shape_product(ash@) <= usize::MAX,
                shape_product(bsh@) <= usize::MAX,
                spec_prefixes_match(ash@, bsh@),
                ash@.len() == 0,
                bsh@.len() >= 1,
                !(ash@ == bsh@),
                brc == spec_row_count(bsh@),
                brl == spec_row_len(bsh@),
                bsh_tail@ == bsh@.drop_first(),
                shape_product(bsh@) == spec_row_count(bsh@) * spec_row_len(bsh@),
                0 <= i <= brc,
                out@.subrange(0, out0.len() as int) == out0,
                out@.len() == out0.len() + i * (brl as int),
                ({
                    let acc = out@.subrange(out0.len() as int, out@.len() as int);
                    forall|srest: Seq<F::Output>|
                        spec_pervade_rows_b(*f, ash@, ad@, bsh@, bd@, i as int) == Ok::<
                            Seq<F::Output>,
                            UiuaError,
                        >(srest) ==> spec_pervade_rows_b(*f, ash@, ad@, bsh@, bd@, 0) == Ok::<
                            Seq<F::Output>,
                            UiuaError,
                        >(acc + srest)
                }),
                (spec_pervade_rows_b(*f, ash@, ad@, bsh@, bd@, i as int) is Err ==> spec_pervade_rows_b(
                    *f,
                    ash@,
                    ad@,
                    bsh@,
                    bd@,
                    0,
                ) == spec_pervade_rows_b(*f, ash@, ad@, bsh@, bd@, i as int)),
            decreases brc - i,
        {
            proof {
                assert((i as int) * (brl as int) + brl == (i as int + 1) * (brl as int))
                    by (nonlinear_arith);
                assert((i as int) * (brl as int) >= 0) by (nonlinear_arith)
                    requires
                        i as int >= 0,
                        brl as int >= 0,
                ;
                vstd::arithmetic::mul::lemma_mul_inequality(i as int + 1, brc as int, brl as int);
                assert(brc as int * (brl as int) == spec_row_count(bsh@) * spec_row_len(bsh@));
            }
            let brow = vstd::slice::slice_subrange(bd, i * brl, (i + 1) * brl);
            let ghost before = out@;
            let ghost sub_spec = spec_pervade(
                *f,
                ash@,
                ad@,
                bsh@.drop_first(),
                spec_row(bd@, brl as int, i as int),
            );
            let res = bin_pervade_recursive(f, ash, ad, bsh_tail, brow, env, out);
            proof {
                assert(spec_pervade_rows_b(*f, ash@, ad@, bsh@, bd@, i as int) == (if sub_spec is Err {
                    sub_spec
                } else if spec_pervade_rows_b(*f, ash@, ad@, bsh@, bd@, i as int + 1) is Err {
                    spec_pervade_rows_b(*f, ash@, ad@, bsh@, bd@, i as int + 1)
                } else {
                    Ok(sub_spec->Ok_0 + spec_pervade_rows_b(
                        *f,
                        ash@,
                        ad@,
                        bsh@,
                        bd@,
                        i as int + 1,
                    )->Ok_0)
                }));
            }
            match res {
                Ok(_) => {
                    proof {
                        let acc_old = before.subrange(out0.len() as int, before.len() as int);
                        let s_i = sub_spec->Ok_0;
                        assert(out@.subrange(0, out0.len() as int) =~= out0);
                        assert(out@.subrange(out0.len() as int, out@.len() as int) =~= acc_old
                            + s_i);
                        assert forall|srest: Seq<F::Output>|
                            spec_pervade_rows_b(*f, ash@, ad@, bsh@, bd@, i as int + 1) == Ok::<
                                Seq<F::Output>,
                                UiuaError,
                            >(srest) implies spec_pervade_rows_b(*f, ash@, ad@, bsh@, bd@, 0) == Ok::<
                            Seq<F::Output>,
                            UiuaError,
                        >((acc_old + s_i) + srest) by {
                            assert(spec_pervade_rows_b(*f, ash@, ad@, bsh@, bd@, i as int) == Ok::<
                                Seq<F::Output>,
                                UiuaError,
                            >(s_i + srest));
                            assert(acc_old + (s_i + srest) =~= (acc_old + s_i) + srest);
                        }
                    }
                },
                Err(e) => {
                    proof {
                        assert(spec_pervade_rows_b(*f, ash@, ad@, bsh@, bd@, i as int) == Err::<
                            Seq<F::Output>,
                            UiuaError,
                        >(e));
                    }
                    return Err(e);
                },
            }
            i += 1;
        }
        proof {
            assert(spec_pervade_rows_b(*f, ash@, ad@, bsh@, bd@, brc as int) == Ok::<
                Seq<F::Output>,
                UiuaError,
            >(Seq::empty()));
            let acc = out@.subrange(out0.len() as int, out@.len() as int);
            assert(acc + Seq::<F::Output>::empty() =~= acc);
            assert(out@ =~= out0 + acc);
            assert(brc as int * (brl as int) == spec_row_count(bsh@) * spec_row_len(bsh@));
        }
        Ok(())
    } else if bsh.len() == 0 {
        proof {
            lemma_product_head(ash@);
            assert(ash@.subrange(1, ash@.len() as int) =~= ash@.drop_first());
        }
        let arc = ash[0];
        if arc == 0 {
            proof {
                assert(spec_pervade_rows_a(*f, ash@, ad@, bsh@, bd@, 0) == Ok::<
                    Seq<F::Output>,
                    UiuaError,
                >(Seq::empty()));
                assert(out@ =~= out0 + Seq::<F::Output>::empty());
                lemma_product_zero_dim(ash@, 0);
            }
            return Ok(());
        }
        proof {
            assert(spec_row_count(ash@) * spec_row_len(ash@) >= spec_row_len(ash@))
                by (nonlinear_arith)
                requires
                    spec_row_count(ash@) >= 1,
                    spec_row_len(ash@) >= 0,
            ;
        }
        let arl = slice_product(ash, 1);
        let ash_tail = vstd::slice::slice_subrange(ash, 1, ash.len());
        let mut i: usize = 0;
        while i < arc
            invariant
                ad@.len() == shape_product(ash@),
                bd@.len() == shape_product(bsh@),
                shape_product(ash@) <= usize::MAX,
                shape_product(bsh@) <= usize::MAX,
                spec_prefixes_match(ash@, bsh@),
                bsh@.len() == 0,
                ash@.len() >= 1,
                !(ash@ == bsh@),
                arc == spec_row_count(ash@),
                arl == spec_row_len(ash@),
                ash_tail@ == ash@.drop_first(),
                shape_product(ash@) == spec_row_count(ash@) * spec_row_len(ash@),
                0 <= i <= arc,
                out@.subrange(0, out0.len() as int) == out0,
                out@.len() == out0.len() + i * (arl as int),
                ({
                    let acc = out@.subrange(out0.len() as int, out@.len() as int);
                    forall|srest: Seq<F::Output>|
                        spec_pervade_rows_a(*f, ash@, ad@, bsh@, bd@, i as int) == Ok::<
                            Seq<F::Output>,
                            UiuaError,
                        >(srest) ==> spec_pervade_rows_a(*f, ash@, ad@, bsh@, bd@, 0) == Ok::<
                            Seq<F::Output>,
                            UiuaError,
                        >(acc + srest)
                }),
                (spec_pervade_rows_a(*f, ash@, ad@, bsh@, bd@, i as int) is Err ==> spec_pervade_rows_a(
                    *f,
                    ash@,
                    ad@,
                    bsh@,
                    bd@,
                    0,
                ) == spec_pervade_rows_a(*f, ash@, ad@, bsh@, bd@, i as int)),
            decreases arc - i,
        {
            proof {
                assert((i as int) * (arl as int) + arl == (i as int + 1) * (arl as int))
                    by (nonlinear_arith);
                assert((i as int) * (arl as int) >= 0) by (nonlinear_arith)
                    requires
                        i as int >= 0,
                        arl as int >= 0,
                ;
                vstd::arithmetic::mul::lemma_mul_inequality(i as int + 1, arc as int, arl as int);
                assert(arc as int * (arl as int) == spec_row_count(ash@) * spec_row_len(ash@));
            }
            let arow = vstd::slice::slice_subrange(ad, i * arl, (i + 1) * arl);
            let ghost before = out@;
            let ghost sub_spec = spec_pervade(
                *f,
                ash@.drop_first(),
                spec_row(ad@, arl as int, i as int),
                bsh@,
                bd@,
            );
            let res = bin_pervade_recursive(f, ash_tail, arow, bsh, bd, env, out);
            proof {
                assert(spec_pervade_rows_a(*f, ash@, ad@, bsh@, bd@, i as int) == (if sub_spec is Err {
                    sub_spec
                } else if spec_pervade_rows_a(*f, ash@, ad@, bsh@, bd@, i as int + 1) is Err {
                    spec_pervade_rows_a(*f, ash@, ad@, bsh@, bd@, i as int + 1)
                } else {
                    Ok(sub_spec->Ok_0 + spec_pervade_rows_a(
                        *f,
                        ash@,
                        ad@,
                        bsh@,
                        bd@,
                        i as int + 1,
                    )->Ok_0)
                }));
            }
            match res {
                Ok(_) => {
                    proof {
                        let acc_old = before.subrange(out0.len() as int, before.len() as int);
                        let s_i = sub_spec->Ok_0;
                        assert(out@.subrange(0, out0.len() as int) =~= out0);
                        assert(out@.subrange(out0.len() as int, out@.len() as int) =~= acc_old
                            + s_i);
                        assert forall|srest: Seq<F::Output>|
                            spec_pervade_rows_a(*f, ash@, ad@, bsh@, bd@, i as int + 1) == Ok::<
                                Seq<F::Output>,
                                UiuaError,
                            >(srest) implies spec_pervade_rows_a(*f, ash@, ad@, bsh@, bd@, 0) == Ok::<
                            Seq<F::Output>,
                            UiuaError,
                        >((acc_old + s_i) + srest) by {
                            assert(spec_pervade_rows_a(*f, ash@, ad@, bsh@, bd@, i as int) == Ok::<
                                Seq<F::Output>,
                                UiuaError,
                            >(s_i + srest));
                            assert(acc_old + (s_i + srest) =~= (acc_old + s_i) + srest);
                        }
                    }
                },
                Err(e) => {
                    proof {
                        assert(spec_pervade_rows_a(*f, ash@, ad@, bsh@, bd@, i as int) == Err::<
                            Seq<F::Output>,
                            UiuaError,
                        >(e));
                    }
                    return Err(e);
                },
            }
            i += 1;
        }
        proof {
            assert(spec_pervade_rows_a(*f, ash@, ad@, bsh@, bd@, arc as int) == Ok::<
                Seq<F::Output>,
                UiuaError,
            >(Seq::empty()));
            let acc = out@.subrange(out0.len() as int, out@.len() as int);
            assert(acc + Seq::<F::Output>::empty() =~= acc);
            assert(out@ =~= out0 + acc);
        }
        Ok(())
    } else {
        // Both operands have rows; the matching prefixes force equal
        // leading dimensions.
        proof {
            lemma_product_head(ash@);
            lemma_product_head(bsh@);
            assert(ash@[0] == bsh@[0]);
            assert(ash@.subrange(1, ash@.len() as int) =~= ash@.drop_first());
            assert(bsh@.subrange(1, bsh@.len() as int) =~= bsh@.drop_first());
        }
        let rc = ash[0];
        if rc == 0 {
            proof {
                assert(spec_pervade_rows_ab(*f, ash@, ad@, bsh@, bd@, 0) == Ok::<
                    Seq<F::Output>,
                    UiuaError,
                >(Seq::empty()));
                assert(out@ =~= out0 + Seq::<F::Output>::empty());
                lemma_product_zero_dim(ash@, 0);
                lemma_product_zero_dim(bsh@, 0);
            }
            return Ok(());
        }
        proof {
            assert(spec_row_count(ash@) * spec_row_len(ash@) >= spec_row_len(ash@))
                by (nonlinear_arith)
                requires
                    spec_row_count(ash@) >= 1,
                    spec_row_len(ash@) >= 0,
            ;
            assert(spec_row_count(bsh@) * spec_row_len(bsh@) >= spec_row_len(bsh@))
                by (nonlinear_arith)
                requires
                    spec_row_count(bsh@) >= 1,
                    spec_row_len(bsh@) >= 0,
            ;
        }
        let arl = slice_product(ash, 1);
        let brl = slice_product(bsh, 1);
        let ash_tail = vstd::slice::slice_subrange(ash, 1, ash.len());
        let bsh_tail = vstd::slice::slice_subrange(bsh, 1, bsh.len());
        let ghost mrl: int = if bsh@.len() > ash@.len() {
            brl as int
        } else {
            arl as int
        };
        let mut i: usize = 0;
        while i < rc
            invariant
                ad@.len() == shape_product(ash@),
                bd@.len() == shape_product(bsh@),
                shape_product(ash@) <= usize::MAX,
                shape_product(bsh@) <= usize::MAX,
                spec_prefixes_match(ash@, bsh@),
                ash@.len() >= 1,
                bsh@.len() >= 1,
                !(ash@ == bsh@),
                rc == spec_row_count(ash@),
                rc == spec_row_count(bsh@),
                arl == spec_row_len(ash@),
                brl == spec_row_len(bsh@),
                mrl == spec_row_len(spec_shape_max(ash@, bsh@)),
                spec_shape_max(ash@, bsh@).len() >= 1,
                spec_row_count(spec_shape_max(ash@, bsh@)) == rc,
                ash_tail@ == ash@.drop_first(),
                bsh_tail@ == bsh@.drop_first(),
                shape_product(ash@) == spec_row_count(ash@) * spec_row_len(ash@),
                shape_product(bsh@) == spec_row_count(bsh@) * spec_row_len(bsh@),
                0 <= i <= rc,
                out@.subrange(0, out0.len() as int) == out0,
                out@.len() == out0.len() + i * mrl,
                ({
                    let acc = out@.subrange(out0.len() as int, out@.len() as int);
                    forall|srest: Seq<F::Output>|
                        spec_pervade_rows_ab(*f, ash@, ad@, bsh@, bd@, i as int) == Ok::<
                            Seq<F::Output>,
                            UiuaError,
                        >(srest) ==> spec_pervade_rows_ab(*f, ash@, ad@, bsh@, bd@, 0) == Ok::<
                            Seq<F::Output>,
                            UiuaError,
                        >(acc + srest)
                }),
                (spec_pervade_rows_ab(*f, ash@, ad@, bsh@, bd@, i as int) is Err ==> spec_pervade_rows_ab(
                    *f,
                    ash@,
                    ad@,
                    bsh@,
                    bd@,
                    0,
                ) == spec_pervade_rows_ab(*f, ash@, ad@, bsh@, bd@, i as int)),
            decreases rc - i,
        {
            proof {
                assert((i as int) * (arl as int) + arl == (i as int + 1) * (arl as int))
                    by (nonlinear_arith);
                assert((i as int) * (brl as int) + brl == (i as int + 1) * (brl as int))
                    by (nonlinear_arith);
                assert((i as int) * (arl as int) >= 0 && (i as int) * (brl as int) >= 0)
                    by (nonlinear_arith)
                    requires
                        i as int >= 0,
                        arl as int >= 0,
                        brl as int >= 0,
                ;
                vstd::arithmetic::mul::lemma_mul_inequality(i as int + 1, rc as int, arl as int);
                vstd::arithmetic::mul::lemma_mul_inequality(i as int + 1, rc as int, brl as int);
                assert(rc as int * (arl as int) == spec_row_count(ash@) * spec_row_len(ash@));
                assert(rc as int * (brl as int) == spec_row_count(bsh@) * spec_row_len(bsh@));
                assert((i as int) * mrl + mrl == (i as int + 1) * mrl) by (nonlinear_arith);
            }
            let arow = vstd::slice::slice_subrange(ad, i * arl, (i + 1) * arl);
            let brow = vstd::slice::slice_subrange(bd, i * brl, (i + 1) * brl);
            let ghost before = out@;
            let ghost sub_spec = spec_pervade(
                *f,
                ash@.drop_first(),
                spec_row(ad@, arl as int, i as int),
                bsh@.drop_first(),
                spec_row(bd@, brl as int, i as int),
            );
            let res = bin_pervade_recursive(f, ash_tail, arow, bsh_tail, brow, env, out);
            proof {
                assert(spec_shape_max(ash@.drop_first(), bsh@.drop_first()) =~= spec_shape_max(
                    ash@,
                    bsh@,
                ).drop_first());
                assert(spec_pervade_rows_ab(*f, ash@, ad@, bsh@, bd@, i as int) == (if sub_spec is Err {
                    sub_spec
                } else if spec_pervade_rows_ab(*f, ash@, ad@, bsh@, bd@, i as int + 1) is Err {
                    spec_pervade_rows_ab(*f, ash@, ad@, bsh@, bd@, i as int + 1)
                } else {
                    Ok(sub_spec->Ok_0 + spec_pervade_rows_ab(
                        *f,
                        ash@,
                        ad@,
                        bsh@,
                        bd@,
                        i as int + 1,
                    )->Ok_0)
                }));
            }
            match res {
                Ok(_) => {
                    proof {
                        let acc_old = before.subrange(out0.len() as int, before.len() as int);
                        let s_i = sub_spec->Ok_0;
                        assert(out@.subrange(0, out0.len() as int) =~= out0);
                        assert(out@.subrange(out0.len() as int, out@.len() as int) =~= acc_old
                            + s_i);
                        assert forall|srest: Seq<F::Output>|
                            spec_pervade_rows_ab(*f, ash@, ad@, bsh@, bd@, i as int + 1) == Ok::<
                                Seq<F::Output>,
                                UiuaError,
                            >(srest) implies spec_pervade_rows_ab(*f, ash@, ad@, bsh@, bd@, 0) == Ok::<
                            Seq<F::Output>,
                            UiuaError,
                        >((acc_old + s_i) + srest) by {
                            assert(spec_pervade_rows_ab(*f, ash@, ad@, bsh@, bd@, i as int) == Ok::<
                                Seq<F::Output>,
                                UiuaError,
                            >(s_i + srest));
                            assert(acc_old + (s_i + srest) =~= (acc_old + s_i) + srest);
                        }
                    }
                },
                Err(e) => {
                    proof {
                        assert(spec_pervade_rows_ab(*f, ash@, ad@, bsh@, bd@, i as int) == Err::<
                            Seq<F::Output>,
                            UiuaError,
                        >(e));
                    }
                    return Err(e);
                },
            }
            i += 1;
        }
        proof {
            assert(spec_pervade_rows_ab(*f, ash@, ad@, bsh@, bd@, rc as int) == Ok::<
                Seq<F::Output>,
                UiuaError,
            >(Seq::empty()));
            let acc = out@.subrange(out0.len() as int, out@.len() as int);
            assert(acc + Seq::<F::Output>::empty() =~= acc);
            assert(out@ =~= out0 + acc);
            lemma_product_head(spec_shape_max(ash@, bsh@));
            assert(rc as int * mrl == spec_row_count(spec_shape_max(ash@, bsh@)) * spec_row_len(
                spec_shape_max(ash@, bsh@),
            ));
        }
        Ok(())
    }
}


/// The element-wise maximum of two equal-rank shapes.
fn elem_max_exec(a: &[usize], b: &[usize]) -> (r: Vec<usize>)
    requires
        a@.len() == b@.len(),
    ensures
        r@ == spec_elem_max(a@, b@),
{
    let mut out: Vec<usize> = Vec::new();
    let mut i: usize = 0;
    while i < a.len()
        invariant
            a@.len() == b@.len(),
            0 <= i <= a@.len(),
            out@.len() == i,
            forall|k: int|
                0 <= k < i ==> #[trigger] out@[k] == (if a@[k] >= b@[k] {
                    a@[k]
                } else {
                    b@[k]
                }),
        decreases a@.len() - i,
    {
        if a[i] >= b[i] {
            out.push(a[i]);
        } else {
            out.push(b[i]);
        }
        i += 1;
    }
    proof {
        assert(out@ =~= spec_elem_max(a@, b@));
    }
    out
}

/// The fill-repair targets stay within addressable memory.  Operands
/// whose shape prefixes already match need no repair, so nothing is asked
/// of them; otherwise every clause is a machine limit on a shape the
/// reconciliation may build.
pub open spec fn spec_pervade_fits<A: ArrayValue, B: ArrayValue>(
    ash: Seq<usize>,
    ad: Seq<A>,
    bsh: Seq<usize>,
    bd: Seq<B>,
    env: Uiua,
) -> bool {
    spec_prefixes_match(ash, bsh) || {
        let p1 = spec_pass1(ash, ad, bsh, bd, env);
        let a1 = p1.0;
        let b1 = p1.2;
        &&& (spec_row_count(ash) < spec_row_count(bsh) ==> shape_product(
            ash.update(0, spec_row_count(bsh) as usize),
        ) <= usize::MAX)
        &&& (spec_row_count(ash) > spec_row_count(bsh) ==> shape_product(
            bsh.update(0, spec_row_count(ash) as usize),
        ) <= usize::MAX)
        &&& (a1.len() < b1.len() ==> shape_product(a1.insert(0, spec_row_count(b1) as usize))
            <= usize::MAX)
        &&& (a1.len() > b1.len() ==> shape_product(b1.insert(0, spec_row_count(a1) as usize))
            <= usize::MAX)
        &&& (a1.len() == b1.len() ==> shape_product(spec_elem_max(a1, b1)) <= usize::MAX)
    }
}

/// Apply a scalar kernel pervasively over two arrays: reconcile the shapes
/// by fill-extension where they disagree, fail with a fill-eligible shape
/// mismatch where repair is impossible, and otherwise broadcast the kernel
/// over the matching row structure.  The result shape is the element-wise
/// maximum of the reconciled operand shapes.
pub fn bin_pervade<F: PervasiveFn>(
    a: &Array<F::A>,
    b: &Array<F::B>,
    env: &Uiua,
    f: &F,
) -> (r: UiuaResult<Array<F::Output>>) where F::A: ArrayValue, F::B: ArrayValue
    requires
        a.valid(),
        b.valid(),
        spec_pervade_fits(a.shape@, a.data@, b.shape@, b.data@, *env),
    ensures
        ({
            let rec = spec_reconcile::<F::A, F::B>(a.shape@, a.data@, b.shape@, b.data@, *env);
            let csh = spec_shape_max(rec.0, rec.2);
            match r {
                Ok(c) => {
                    &&& spec_prefixes_match(rec.0, rec.2)
                    &&& c.shape@ == csh
                    &&& spec_pervade(*f, rec.0, rec.1, rec.2, rec.3) == Ok::<
                        Seq<F::Output>,
                        UiuaError,
                    >(c.data@)
                    &&& c.valid()
                },
                Err(e) => {
                    if !spec_prefixes_match(rec.0, rec.2) {
                        &&& e matches UiuaError::ShapeMismatch { a: av, b: bv, fill_eligible }
                        &&& av@ == rec.0
                        &&& bv@ == rec.2
                        &&& fill_eligible
                    } else {
                        // The first kernel failure is surfaced unchanged.
                        spec_pervade(*f, rec.0, rec.1, rec.2, rec.3) == Err::<
                            Seq<F::Output>,
                            UiuaError,
                        >(e)
                    }
                },
            }
        }),
{
    let ghost grec = spec_reconcile::<F::A, F::B>(a.shape@, a.data@, b.shape@, b.data@, *env);
    // Reading the lengths brings their usize bounds into scope.
    let _an = a.data.len();
    let _bn = b.data.len();
    let mut aw: Array<F::A> = Array::new(
        copy_data(a.shape.as_slice()),
        copy_data(a.data.as_slice()),
    );
    let mut bw: Array<F::B> = Array::new(
        copy_data(b.shape.as_slice()),
        copy_data(b.data.as_slice()),
    );
    if !shape_prefixes_match(aw.shape.as_slice(), bw.shape.as_slice()) {
        proof {
            if aw.shape@.len() == 0 || bw.shape@.len() == 0 {
                assert(spec_prefixes_match(aw.shape@, bw.shape@));
            }
        }
        // Fill in missing rows.
        let arc = aw.row_count();
        let brc = bw.row_count();
        let ghost p1 = spec_pass1::<F::A, F::B>(a.shape@, a.data@, b.shape@, b.data@, *env);
        if arc < brc {
            if let Some(fill) = <F::A as ArrayValue>::get_fill(env) {
                let mut target = copy_data(aw.shape.as_slice());
                target[0] = brc;
                proof {
                    assert(target@ =~= a.shape@.update(0, spec_row_count(b.shape@) as usize));
                    assert(spec_pad(a.shape@, target@.len() as int) =~= a.shape@);
                }
                aw.fill_to_shape(target.as_slice(), fill);
            }
        } else if arc > brc {
            if let Some(fill) = <F::B as ArrayValue>::get_fill(env) {
                let mut target = copy_data(bw.shape.as_slice());
                target[0] = arc;
                proof {
                    assert(target@ =~= b.shape@.update(0, spec_row_count(a.shape@) as usize));
                    assert(spec_pad(b.shape@, target@.len() as int) =~= b.shape@);
                }
                bw.fill_to_shape(target.as_slice(), fill);
            }
        }
        proof {
            assert(aw.shape@ == p1.0 && aw.data@ == p1.1 && bw.shape@ == p1.2 && bw.data@ == p1.3);
        }
        // Fill in missing dimensions.
        if !shape_prefixes_match(aw.shape.as_slice(), bw.shape.as_slice()) {
            let ar = aw.rank();
            let br = bw.rank();
            if ar < br {
                if let Some(fill) = <F::A as ArrayValue>::get_fill(env) {
                    let rc = bw.row_count();
                    let mut target = copy_data(aw.shape.as_slice());
                    target.insert(0, rc);
                    proof {
                        assert(target@ =~= p1.0.insert(0, spec_row_count(p1.2) as usize));
                    }
                    aw.fill_to_shape(target.as_slice(), fill);
                }
            } else if ar > br {
                if let Some(fill) = <F::B as ArrayValue>::get_fill(env) {
                    let rc = aw.row_count();
                    let mut target = copy_data(bw.shape.as_slice());
                    target.insert(0, rc);
                    proof {
                        assert(target@ =~= p1.2.insert(0, spec_row_count(p1.0) as usize));
                    }
                    bw.fill_to_shape(target.as_slice(), fill);
                }
            } else {
                let target = elem_max_exec(aw.shape.as_slice(), bw.shape.as_slice());
                if !crate::array::shapes_equal(aw.shape.as_slice(), target.as_slice()) {
                    if let Some(fill) = <F::A as ArrayValue>::get_fill(env) {
                        proof {
                            assert(spec_pad(p1.0, target@.len() as int) =~= p1.0);
                        }
                        aw.fill_to_shape(target.as_slice(), fill);
                    }
                }
                if !crate::array::shapes_equal(bw.shape.as_slice(), target.as_slice()) {
                    if let Some(fill) = <F::B as ArrayValue>::get_fill(env) {
                        proof {
                            assert(spec_pad(p1.2, target@.len() as int) =~= p1.2);
                        }
                        bw.fill_to_shape(target.as_slice(), fill);
                    }
                }
            }
            proof {
                let p2 = spec_pass2::<F::A, F::B>(p1.0, p1.1, p1.2, p1.3, *env);
                assert(aw.shape@ == p2.0 && aw.data@ == p2.1 && bw.shape@ == p2.2 && bw.data@
                    == p2.3);
            }
            if !shape_prefixes_match(aw.shape.as_slice(), bw.shape.as_slice()) {
                proof {
                    assert(aw.shape@ == grec.0 && bw.shape@ == grec.2);
                }
                return Err(UiuaError::ShapeMismatch {
                    a: aw.shape,
                    b: bw.shape,
                    fill_eligible: true,
                });
            }
        }
    }
    proof {
        assert(aw.shape@ == grec.0 && aw.data@ == grec.1 && bw.shape@ == grec.2 && bw.data@
            == grec.3);
    }
    let cshape = if bw.shape.len() > aw.shape.len() {
        copy_data(bw.shape.as_slice())
    } else {
        copy_data(aw.shape.as_slice())
    };
    // Reading the lengths brings their usize bounds into scope.
    let _awn = aw.data.len();
    let _bwn = bw.data.len();
    let mut data: Vec<F::Output> = Vec::new();
    let res = bin_pervade_recursive(
        f,
        aw.shape.as_slice(),
        aw.data.as_slice(),
        bw.shape.as_slice(),
        bw.data.as_slice(),
        env,
        &mut data,
    );
    match res {
        Ok(_) => {
            proof {
                let s = spec_pervade(*f, grec.0, grec.1, grec.2, grec.3)->Ok_0;
                assert(Seq::<F::Output>::empty() + s =~= s);
                assert(cshape@ == spec_shape_max(grec.0, grec.2));
            }
            Ok(Array::new(cshape, data))
        },
        Err(e) => Err(e),
    }
}


} // verus!
