//! The generic pervasion path: a second broadcasting engine for
//! two-argument operations over element types without a fill-value
//! concept.  Its only accommodations for shape mismatch are scalar
//! broadcasting and chunked recursion over equal leading dimensions; any
//! other mismatch is a hard error, never repaired.

use vstd::prelude::*;

use crate::array::{
    lemma_product_head, lemma_product_zero_dim, shape_product, shapes_equal,
    slice_product, spec_row, spec_row_count, spec_row_len,
};
use crate::pervade::{lemma_zip_error_first, spec_zip_error, PervasiveFn};
use crate::{Uiua, UiuaError, UiuaResult};

verus! {

/// A uniform input to the generic engine: an owned growable sequence, a
/// borrowed slice, or a single optional value, each seen as a finite
/// sequence of items.
pub trait PervasiveInput {
    type Item: Copy;

    /// The items this input holds, in order.
    spec fn items(&self) -> Seq<Self::Item>;

    fn len(&self) -> (r: usize)
        ensures
            r == self.items().len(),
    ;

    /// The sole value of a scalar input.
    fn only(&self) -> (r: Self::Item)
        requires
            self.items().len() > 0,
        ensures
            r == self.items()[0],
    ;

    fn item_at(&self, i: usize) -> (r: Self::Item)
        requires
            i < self.items().len(),
        ensures
            r == self.items()[i as int],
    ;

    fn into_only(self) -> (r: Self::Item) where Self: Sized
        requires
            self.items().len() > 0,
        ensures
            r == self.items()[0],
    ;
}

impl<T: Copy> PervasiveInput for Vec<T> {
    type Item = T;

    open spec fn items(&self) -> Seq<T> {
        self@
    }

    fn len(&self) -> (r: usize) {
        Vec::len(self)
    }

    fn only(&self) -> (r: T) {
        self[0]
    }

    fn item_at(&self, i: usize) -> (r: T) {
        self[i]
    }

    fn into_only(self) -> (r: T) {
        self[0]
    }
}

impl<'a, T: Copy> PervasiveInput for &'a [T] {
    type Item = T;

    open spec fn items(&self) -> Seq<T> {
        self@
    }

    fn len(&self) -> (r: usize) {
        <[T]>::len(self)
    }

    fn only(&self) -> (r: T) {
        self[0]
    }

    fn item_at(&self, i: usize) -> (r: T) {
        self[i]
    }

    fn into_only(self) -> (r: T) {
        self[0]
    }
}

impl<T: Copy> PervasiveInput for Option<T> {
    type Item = T;

    open spec fn items(&self) -> Seq<T> {
        match *self {
            Some(v) => seq![v],
            None => Seq::empty(),
        }
    }

    fn len(&self) -> (r: usize) {
        match self {
            Some(_) => 1,
            None => 0,
        }
    }

    fn only(&self) -> (r: T) {
        match self {
            Some(v) => *v,
            None => unreached(),
        }
    }

    fn item_at(&self, i: usize) -> (r: T) {
        match self {
            Some(v) => *v,
            None => unreached(),
        }
    }

    fn into_only(self) -> (r: T) {
        match self {
            Some(v) => v,
            None => unreached(),
        }
    }
}

/// The lexicographic order std gives shapes; the result shape of the
/// generic engine is the lexicographically larger operand shape.
pub open spec fn spec_shape_lex_le(a: Seq<usize>, b: Seq<usize>) -> bool
    decreases a.len(),
{
    if a.len() == 0 {
        true
    } else if b.len() == 0 {
        false
    } else if a[0] < b[0] {
        true
    } else if a[0] > b[0] {
        false
    } else {
        spec_shape_lex_le(a.drop_first(), b.drop_first())
    }
}

pub open spec fn spec_lex_max_shape(a: Seq<usize>, b: Seq<usize>) -> Seq<usize> {
    if spec_shape_lex_le(a, b) {
        b
    } else {
        a
    }
}

/// Pick the lexicographically larger shape.
pub fn lex_max_shape<'a>(a: &'a [usize], b: &'a [usize]) -> (r: &'a [usize])
    ensures
        r@ == spec_lex_max_shape(a@, b@),
{
    let n = if a.len() < b.len() {
        a.len()
    } else {
        b.len()
    };
    let mut i: usize = 0;
    proof {
        assert(a@.subrange(0, a@.len() as int) =~= a@);
        assert(b@.subrange(0, b@.len() as int) =~= b@);
    }
    while i < n
        invariant
            n == vstd::math::min(a@.len() as int, b@.len() as int),
            0 <= i <= n,
            forall|k: int| 0 <= k < i ==> a@[k] == b@[k],
            spec_shape_lex_le(a@, b@) == spec_shape_lex_le(
                a@.subrange(i as int, a@.len() as int),
                b@.subrange(i as int, b@.len() as int),
            ),
        decreases n - i,
    {
        proof {
            let asub = a@.subrange(i as int, a@.len() as int);
            let bsub = b@.subrange(i as int, b@.len() as int);
            assert(asub[0] == a@[i as int] && bsub[0] == b@[i as int]);
            assert(asub.drop_first() =~= a@.subrange(i + 1, a@.len() as int));
            assert(bsub.drop_first() =~= b@.subrange(i + 1, b@.len() as int));
        }
        if a[i] < b[i] {
            return b;
        }
        if a[i] > b[i] {
            return a;
        }
        i += 1;
    }
    proof {
        let asub = a@.subrange(i as int, a@.len() as int);
        let bsub = b@.subrange(i as int, b@.len() as int);
        if a@.len() <= b@.len() {
            assert(asub.len() == 0);
            assert(spec_shape_lex_le(a@, b@));
        } else {
            assert(bsub.len() == 0 && asub.len() > 0);
            assert(!spec_shape_lex_le(a@, b@));
        }
    }
    if a.len() <= b.len() {
        b
    } else {
        a
    }
}

/// Why the generic broadcast refuses: a structural shape mismatch at some
/// recursion level, naming the two shapes there, or the kernel's own first
/// failure.
pub enum GenericFailure {
    Mismatch { a: Seq<usize>, b: Seq<usize> },
    Kernel { error: UiuaError },
}

/// The error value the engine returns for a given refusal: a mismatch
/// yields the hard (not fill-eligible) shape-mismatch error naming both
/// shapes; a kernel failure is surfaced unchanged.
pub open spec fn spec_failure_matches(gf: GenericFailure, e: UiuaError) -> bool {
    match gf {
        GenericFailure::Mismatch { a, b } => {
            &&& e matches UiuaError::ShapeMismatch { a: av, b: bv, fill_eligible }
            &&& av@ == a
            &&& bv@ == b
            &&& !fill_eligible
        },
        GenericFailure::Kernel { error } => e == error,
    }
}

/// The generic broadcast, on sequences: identical shapes zip directly; a
/// scalar broadcasts flat across the other side; otherwise equal leading
/// dimensions are required and the engine recurses into matching chunks.
/// A refusal carries why: the mismatch, or the first kernel failure.
pub open spec fn spec_generic<F: PervasiveFn>(
    f: F,
    ash: Seq<usize>,
    ad: Seq<F::A>,
    bsh: Seq<usize>,
    bd: Seq<F::B>,
) -> Result<Seq<F::Output>, GenericFailure>
    decreases ash.len() + bsh.len(), 1int, 0int,
{
    if ash == bsh {
        if forall|k: int| 0 <= k < ad.len() ==> f.succeeds(ad[k], #[trigger] bd[k]) {
            Ok(Seq::new(ad.len(), |k: int| f.output(ad[k], bd[k])))
        } else {
            Err(GenericFailure::Kernel { error: spec_zip_error(f, ad, bd, 0) })
        }
    } else if ash.len() == 0 {
        if forall|k: int| 0 <= k < bd.len() ==> f.succeeds(ad[0], #[trigger] bd[k]) {
            Ok(Seq::new(bd.len(), |k: int| f.output(ad[0], bd[k])))
        } else {
            Err(
                GenericFailure::Kernel {
                    error: spec_zip_error(f, Seq::new(bd.len(), |k: int| ad[0]), bd, 0),
                },
            )
        }
    } else if bsh.len() == 0 {
        if forall|k: int| 0 <= k < ad.len() ==> f.succeeds(#[trigger] ad[k], bd[0]) {
            Ok(Seq::new(ad.len(), |k: int| f.output(ad[k], bd[0])))
        } else {
            Err(
                GenericFailure::Kernel {
                    error: spec_zip_error(f, ad, Seq::new(ad.len(), |k: int| bd[0]), 0),
                },
            )
        }
    } else if ash[0] != bsh[0] {
        Err(GenericFailure::Mismatch { a: ash, b: bsh })
    } else {
        spec_generic_rows(f, ash, ad, bsh, bd, 0)
    }
}

/// Chunks `i..` of the generic broadcast.
pub open spec fn spec_generic_rows<F: PervasiveFn>(
    f: F,
    ash: Seq<usize>,
    ad: Seq<F::A>,
    bsh: Seq<usize>,
    bd: Seq<F::B>,
    i: int,
) -> Result<Seq<F::Output>, GenericFailure>
    decreases ash.len() + bsh.len(), 0int, spec_row_count(ash) - i,
{
    if ash.len() == 0 || bsh.len() == 0 || i < 0 || i >= spec_row_count(ash) {
        Ok(Seq::empty())
    } else {
        let sub = spec_generic(
            f,
            ash.drop_first(),
            spec_row(ad, spec_row_len(ash) as int, i),
            bsh.drop_first(),
            spec_row(bd, spec_row_len(bsh) as int, i),
        );
        if sub is Err {
            sub
        } else {
            let rest = spec_generic_rows(f, ash, ad, bsh, bd, i + 1);
            if rest is Err {
                rest
            } else {
                Ok(sub->Ok_0 + rest->Ok_0)
            }
        }
    }
}


/// With a kernel that accepts every pair, the generic broadcast refuses
/// only for a structural shape mismatch.
pub proof fn lemma_generic_infallible<F: PervasiveFn>(
    f: F,
    ash: Seq<usize>,
    ad: Seq<F::A>,
    bsh: Seq<usize>,
    bd: Seq<F::B>,
)
    requires
        forall|a: F::A, b: F::B| #[trigger] f.succeeds(a, b),
    ensures
        spec_generic(f, ash, ad, bsh, bd) matches Err(gf) ==> gf matches GenericFailure::Mismatch {
            ..
        },
    decreases ash.len() + bsh.len(), 1int, 0int,
{
    if ash == bsh {
    } else if ash.len() == 0 {
    } else if bsh.len() == 0 {
    } else if ash[0] != bsh[0] {
    } else {
        lemma_generic_rows_infallible(f, ash, ad, bsh, bd, 0);
    }
}

proof fn lemma_generic_rows_infallible<F: PervasiveFn>(
    f: F,
    ash: Seq<usize>,
    ad: Seq<F::A>,
    bsh: Seq<usize>,
    bd: Seq<F::B>,
    i: int,
)
    requires
        forall|a: F::A, b: F::B| #[trigger] f.succeeds(a, b),
    ensures
        spec_generic_rows(f, ash, ad, bsh, bd, i) matches Err(gf) ==> gf
            matches GenericFailure::Mismatch { .. },
    decreases ash.len() + bsh.len(), 0int, spec_row_count(ash) - i,
{
    if ash.len() == 0 || bsh.len() == 0 || i < 0 || i >= spec_row_count(ash) {
    } else {
        lemma_generic_infallible(
            f,
            ash.drop_first(),
            spec_row(ad, spec_row_len(ash) as int, i),
            bsh.drop_first(),
            spec_row(bd, spec_row_len(bsh) as int, i),
        );
        lemma_generic_rows_infallible(f, ash, ad, bsh, bd, i + 1);
    }
}

/// The recursive chunked application: write the broadcast of the operands
/// into `c` starting at `start`, leaving everything outside the written
/// region untouched.
fn bin_pervade_recursive_generic<F: PervasiveFn>(
    f: &F,
    ash: &[usize],
    ad: &[F::A],
    bsh: &[usize],
    bd: &[F::B],
    c: &mut Vec<F::Output>,
    start: usize,
    env: &Uiua,
) -> (r: Result<(), UiuaError>)
    requires
        ad@.len() == shape_product(ash@),
        bd@.len() == shape_product(bsh@),
        shape_product(ash@) <= usize::MAX,
        shape_product(bsh@) <= usize::MAX,
        start + shape_product(spec_lex_max_shape(ash@, bsh@)) <= old(c)@.len(),
    ensures
        final(c)@.len() == old(c)@.len(),
        forall|k: int| 0 <= k < start ==> final(c)@[k] == old(c)@[k],
        forall|k: int|
            start + shape_product(spec_lex_max_shape(ash@, bsh@)) <= k < old(c)@.len()
                ==> final(c)@[k] == old(c)@[k],
        match r {
            Ok(_) => {
                &&& spec_generic(*f, ash@, ad@, bsh@, bd@) matches Ok(s) && s.len()
                    == shape_product(spec_lex_max_shape(ash@, bsh@)) && final(c)@.subrange(
                    start as int,
                    start + shape_product(spec_lex_max_shape(ash@, bsh@)),
                ) == s
            },
            Err(e) => spec_generic(*f, ash@, ad@, bsh@, bd@) matches Err(gf)
                && spec_failure_matches(gf, e),
        },
    decreases ash@.len() + bsh@.len(),
{
    // Reading the length brings its usize bound into scope.
    let _initial_len = c.len();
    let ghost c0 = c@;
    let ghost region = shape_product(spec_lex_max_shape(ash@, bsh@)) as int;
    if shapes_equal(ash, bsh) {
        let n = ad.len();
        proof {
            assert(spec_lex_max_shape(ash@, bsh@) == ash@ || spec_lex_max_shape(ash@, bsh@)
                == bsh@);
        }
        let mut k: usize = 0;
        while k < n
            invariant
                ash@ == bsh@,
                n == ad@.len(),
                ad@.len() == bd@.len(),
                n as int == region,
                start + region <= c0.len(),
                region == shape_product(spec_lex_max_shape(ash@, bsh@)),
                c0 == old(c)@,
                c0.len() <= usize::MAX,
                c@.len() == c0.len(),
                0 <= k <= n,
                forall|m: int| 0 <= m < k ==> f.succeeds(ad@[m], #[trigger] bd@[m]),
                forall|m: int|
                    0 <= m < k ==> #[trigger] c@[start + m] == f.output(ad@[m], bd@[m]),
                forall|m: int| 0 <= m < start ==> #[trigger] c@[m] == c0[m],
                forall|m: int| start + k <= m < c0.len() ==> #[trigger] c@[m] == c0[m],
            decreases n - k,
        {
            match f.call(ad[k], bd[k], env) {
                Ok(v) => {
                    c[start + k] = v;
                },
                Err(e) => {
                    proof {
                        assert(!f.succeeds(ad@[k as int], bd@[k as int]));
                        lemma_zip_error_first(*f, ad@, bd@, 0, k as int);
                    }
                    return Err(e);
                },
            }
            k += 1;
        }
        proof {
            let s = Seq::new(ad@.len(), |m: int| f.output(ad@[m], bd@[m]));
            let reg = c@.subrange(start as int, start + region);
            assert forall|m: int| 0 <= m < region implies reg[m] == s[m] by {
                assert(c@[start + m] == f.output(ad@[m], bd@[m]));
            }
            assert(reg =~= s);
        }
        Ok(())
    } else if ash.len() == 0 {
        proof {
            if bsh@.len() == 0 {
                assert(ash@ =~= bsh@);
            }
            assert(spec_shape_lex_le(ash@, bsh@));
        }
        let n = bd.len();
        let mut k: usize = 0;
        while k < n
            invariant
                ash@.len() == 0,
                !(ash@ == bsh@),
                ad@.len() == 1,
                n == bd@.len(),
                n as int == region,
                start + region <= c0.len(),
                region == shape_product(spec_lex_max_shape(ash@, bsh@)),
                c0 == old(c)@,
                c0.len() <= usize::MAX,
                c@.len() == c0.len(),
                0 <= k <= n,
                forall|m: int| 0 <= m < k ==> f.succeeds(ad@[0], #[trigger] bd@[m]),
                forall|m: int|
                    0 <= m < k ==> #[trigger] c@[start + m] == f.output(ad@[0], bd@[m]),
                forall|m: int| 0 <= m < start ==> #[trigger] c@[m] == c0[m],
                forall|m: int| start + k <= m < c0.len() ==> #[trigger] c@[m] == c0[m],
            decreases n - k,
        {
            match f.call(ad[0], bd[k], env) {
                Ok(v) => {
                    c[start + k] = v;
                },
                Err(e) => {
                    proof {
                        let aa = Seq::new(bd@.len(), |m: int| ad@[0]);
                        assert(!f.succeeds(aa[k as int], bd@[k as int]));
                        assert(forall|m: int|
                            0 <= m < k ==> f.succeeds(aa[m], #[trigger] bd@[m]));
                        lemma_zip_error_first(*f, aa, bd@, 0, k as int);
                    }
                    return Err(e);
                },
            }
            k += 1;
        }
        proof {
            let s = Seq::new(bd@.len(), |m: int| f.output(ad@[0], bd@[m]));
            let reg = c@.subrange(start as int, start + region);
            assert forall|m: int| 0 <= m < region implies reg[m] == s[m] by {
                assert(c@[start + m] == f.output(ad@[0], bd@[m]));
            }
            assert(reg =~= s);
        }
        Ok(())
    } else if bsh.len() == 0 {
        proof {
            assert(!spec_shape_lex_le(ash@, bsh@));
        }
        let n = ad.len();
        let mut k: usize = 0;
        while k < n
            invariant
                bsh@.len() == 0,
                ash@.len() >= 1,
                !(ash@ == bsh@),
                bd@.len() == 1,
                n == ad@.len(),
                n as int == region,
                start + region <= c0.len(),
                region == shape_product(spec_lex_max_shape(ash@, bsh@)),
                c0 == old(c)@,
                c0.len() <= usize::MAX,
                c@.len() == c0.len(),
                0 <= k <= n,
                forall|m: int| 0 <= m < k ==> f.succeeds(#[trigger] ad@[m], bd@[0]),
                forall|m: int|
                    0 <= m < k ==> #[trigger] c@[start + m] == f.output(ad@[m], bd@[0]),
                forall|m: int| 0 <= m < start ==> #[trigger] c@[m] == c0[m],
                forall|m: int| start + k <= m < c0.len() ==> #[trigger] c@[m] == c0[m],
            decreases n - k,
        {
            match f.call(ad[k], bd[0], env) {
                Ok(v) => {
                    c[start + k] = v;
                },
                Err(e) => {
                    proof {
                        let bb = Seq::new(ad@.len(), |m: int| bd@[0]);
                        assert(!f.succeeds(ad@[k as int], bb[k as int]));
                        assert(forall|m: int|
                            0 <= m < k ==> f.succeeds(#[trigger] ad@[m], bb[m]));
                        lemma_zip_error_first(*f, ad@, bb, 0, k as int);
                    }
                    return Err(e);
                },
            }
            k += 1;
        }
        proof {
            let s = Seq::new(ad@.len(), |m: int| f.output(ad@[m], bd@[0]));
            let reg = c@.subrange(start as int, start + region);
            assert forall|m: int| 0 <= m < region implies reg[m] == s[m] by {
                assert(c@[start + m] == f.output(ad@[m], bd@[0]));
            }
            assert(reg =~= s);
        }
        Ok(())
    } else if ash[0] != bsh[0] {
        Err(UiuaError::ShapeMismatch {
            a: crate::array::copy_data(ash),
            b: crate::array::copy_data(bsh),
            fill_eligible: false,
        })
    } else {
        proof {
            lemma_product_head(ash@);
            lemma_product_head(bsh@);
            assert(ash@.subrange(1, ash@.len() as int) =~= ash@.drop_first());
            assert(bsh@.subrange(1, bsh@.len() as int) =~= bsh@.drop_first());
            // The two shapes share their leading dimension, so the
            // lexicographic maximum is that dimension over the maximum of
            // the tails.
            assert(spec_shape_lex_le(ash@, bsh@) == spec_shape_lex_le(
                ash@.drop_first(),
                bsh@.drop_first(),
            ));
            if spec_shape_lex_le(ash@, bsh@) {
                assert(spec_lex_max_shape(ash@, bsh@).drop_first() =~= spec_lex_max_shape(
                    ash@.drop_first(),
                    bsh@.drop_first(),
                ));
            } else {
                assert(spec_lex_max_shape(ash@, bsh@).drop_first() =~= spec_lex_max_shape(
                    ash@.drop_first(),
                    bsh@.drop_first(),
                ));
            }
            lemma_product_head(spec_lex_max_shape(ash@, bsh@));
        }
        let rc = ash[0];
        if rc == 0 {
            proof {
                assert(spec_generic_rows(*f, ash@, ad@, bsh@, bd@, 0) == Ok::<
                    Seq<F::Output>,
                    GenericFailure,
                >(Seq::empty()));
                assert(spec_lex_max_shape(ash@, bsh@)[0] == 0);
                lemma_product_zero_dim(spec_lex_max_shape(ash@, bsh@), 0);
                assert(c@.subrange(start as int, start + region) =~= Seq::<F::Output>::empty());
            }
            return Ok(());
        }
        proof {
            assert(spec_row_count(ash@) * spec_row_len(ash@) >= spec_row_len(ash@))
                by (nonlinear_arith)
                requires
                    spec_row_count(ash@) >= 1,
                    spec_row_len(ash@) >= 0,
            ;
            assert(spec_row_count(bsh@) * spec_row_len(bsh@) >= spec_row_len(bsh@))
                by (nonlinear_arith)
                requires
                    spec_row_count(bsh@) >= 1,
                    spec_row_len(bsh@) >= 0,
            ;
        }
        let arl = slice_product(ash, 1);
        let brl = slice_product(bsh, 1);
        let ash_tail = vstd::slice::slice_subrange(ash, 1, ash.len());
        let bsh_tail = vstd::slice::slice_subrange(bsh, 1, bsh.len());
        let mtail = lex_max_shape(ash_tail, bsh_tail);
        proof {
            assert(mtail@.subrange(0, mtail@.len() as int) =~= mtail@);
            assert(spec_row_count(spec_lex_max_shape(ash@, bsh@)) * spec_row_len(
                spec_lex_max_shape(ash@, bsh@),
            ) >= spec_row_len(spec_lex_max_shape(ash@, bsh@))) by (nonlinear_arith)
                requires
                    spec_row_count(spec_lex_max_shape(ash@, bsh@)) >= 1,
                    spec_row_len(spec_lex_max_shape(ash@, bsh@)) >= 0,
            ;
        }
        let srl = slice_product(mtail, 0);
        let mut i: usize = 0;
        while i < rc
            invariant
                ad@.len() == shape_product(ash@),
                bd@.len() == shape_product(bsh@),
                shape_product(ash@) <= usize::MAX,
                shape_product(bsh@) <= usize::MAX,
                ash@.len() >= 1,
                bsh@.len() >= 1,
                !(ash@ == bsh@),
                ash@[0] == bsh@[0],
                rc == spec_row_count(ash@),
                rc == spec_row_count(bsh@),
                rc >= 1,
                arl == spec_row_len(ash@),
                brl == spec_row_len(bsh@),
                srl == spec_row_len(spec_lex_max_shape(ash@, bsh@)),
                srl == shape_product(spec_lex_max_shape(ash@.drop_first(), bsh@.drop_first())),
                ash_tail@ == ash@.drop_first(),
                bsh_tail@ == bsh@.drop_first(),
                shape_product(ash@) == spec_row_count(ash@) * spec_row_len(ash@),
                shape_product(bsh@) == spec_row_count(bsh@) * spec_row_len(bsh@),
                region == rc as int * (srl as int),
                start + region <= c0.len(),
                region == shape_product(spec_lex_max_shape(ash@, bsh@)),
                c0 == old(c)@,
                c0.len() <= usize::MAX,
                c@.len() == c0.len(),
                0 <= i <= rc,
                forall|m: int| 0 <= m < start ==> #[trigger] c@[m] == c0[m],
                forall|m: int|
                    start + i * (srl as int) <= m < c0.len() ==> #[trigger] c@[m] == c0[m],
                ({
                    let acc = c@.subrange(start as int, start + i * (srl as int));
                    forall|srest: Seq<F::Output>|
                        spec_generic_rows(*f, ash@, ad@, bsh@, bd@, i as int) == Ok::<
                            Seq<F::Output>,
                            GenericFailure,
                        >(srest) ==> spec_generic_rows(*f, ash@, ad@, bsh@, bd@, 0) == Ok::<
                            Seq<F::Output>,
                            GenericFailure,
                        >(acc + srest)
                }),
                (spec_generic_rows(*f, ash@, ad@, bsh@, bd@, i as int) is Err ==> spec_generic_rows(
                    *f,
                    ash@,
                    ad@,
                    bsh@,
                    bd@,
                    0,
                ) == spec_generic_rows(*f, ash@, ad@, bsh@, bd@, i as int)),
            decreases rc - i,
        {
            proof {
                assert((i as int) * (arl as int) + arl == (i as int + 1) * (arl as int))
                    by (nonlinear_arith);
                assert((i as int) * (brl as int) + brl == (i as int + 1) * (brl as int))
                    by (nonlinear_arith);
                assert((i as int) * (srl as int) + srl == (i as int + 1) * (srl as int))
                    by (nonlinear_arith);
                assert((i as int) * (arl as int) >= 0 && (i as int) * (brl as int) >= 0 && (
                i as int) * (srl as int) >= 0) by (nonlinear_arith)
                    requires
                        i as int >= 0,
                        arl as int >= 0,
                        brl as int >= 0,
                        srl as int >= 0,
                ;
                vstd::arithmetic::mul::lemma_mul_inequality(i as int + 1, rc as int, arl as int);
                vstd::arithmetic::mul::lemma_mul_inequality(i as int + 1, rc as int, brl as int);
                vstd::arithmetic::mul::lemma_mul_inequality(i as int + 1, rc as int, srl as int);
                assert(rc as int * (arl as int) == spec_row_count(ash@) * spec_row_len(ash@));
                assert(rc as int * (brl as int) == spec_row_count(bsh@) * spec_row_len(bsh@));
            }
            let arow = vstd::slice::slice_subrange(ad, i * arl, (i + 1) * arl);
            let brow = vstd::slice::slice_subrange(bd, i * brl, (i + 1) * brl);
            let ghost before = c@;
            let ghost sub_spec = spec_generic(
                *f,
                ash@.drop_first(),
                spec_row(ad@, arl as int, i as int),
                bsh@.drop_first(),
                spec_row(bd@, brl as int, i as int),
            );
            let res = bin_pervade_recursive_generic(f, ash_tail, arow, bsh_tail, brow, c, start + i * srl, env);
            proof {
                assert(spec_generic_rows(*f, ash@, ad@, bsh@, bd@, i as int) == (if sub_spec is Err {
                    sub_spec
                } else if spec_generic_rows(*f, ash@, ad@, bsh@, bd@, i as int + 1) is Err {
                    spec_generic_rows(*f, ash@, ad@, bsh@, bd@, i as int + 1)
                } else {
                    Ok(sub_spec->Ok_0 + spec_generic_rows(
                        *f,
                        ash@,
                        ad@,
                        bsh@,
                        bd@,
                        i as int + 1,
                    )->Ok_0)
                }));
            }
            match res {
                Ok(_) => {
                    proof {
                        let s_i = sub_spec->Ok_0;
                        assert(s_i.len() == srl);
                        assert forall|m: int| 0 <= m < start implies #[trigger] c@[m] == c0[m]
                            by {
                            assert(c@[m] == before[m]);
                        }
                        assert forall|m: int|
                            start + (i as int + 1) * (srl as int) <= m < c0.len() implies
                            #[trigger] c@[m] == c0[m] by {
                            assert(c@[m] == before[m]);
                        }
                        let acc_old = before.subrange(start as int, start + i * (srl as int));
                        assert(c@.subrange(start as int, start + (i as int + 1) * (srl as int))
                            =~= acc_old + s_i) by {
                            assert forall|m: int|
                                start <= m < start + i * (srl as int) implies c@[m] == before[m]
                                by {}
                        }
                        assert forall|srest: Seq<F::Output>|
                            spec_generic_rows(*f, ash@, ad@, bsh@, bd@, i as int + 1) == Ok::<
                                Seq<F::Output>,
                                GenericFailure,
                            >(srest) implies spec_generic_rows(*f, ash@, ad@, bsh@, bd@, 0) == Ok::<
                            Seq<F::Output>,
                            GenericFailure,
                        >((acc_old + s_i) + srest) by {
                            assert(spec_generic_rows(*f, ash@, ad@, bsh@, bd@, i as int) == Ok::<
                                Seq<F::Output>,
                                GenericFailure,
                            >(s_i + srest));
                            assert(acc_old + (s_i + srest) =~= (acc_old + s_i) + srest);
                        }
                    }
                },
                Err(e) => {
                    proof {
                        assert(spec_generic_rows(*f, ash@, ad@, bsh@, bd@, i as int) == sub_spec);
                    }
                    return Err(e);
                },
            }
            i += 1;
        }
        proof {
            assert(spec_generic_rows(*f, ash@, ad@, bsh@, bd@, rc as int) == Ok::<
                Seq<F::Output>,
                GenericFailure,
            >(Seq::empty()));
            let acc = c@.subrange(start as int, start + region);
            assert(acc + Seq::<F::Output>::empty() =~= acc);
        }
        Ok(())
    }
}

/// Broadcast a two-argument operation over two generic inputs: identical
/// shapes zip; a scalar side broadcasts across the other; equal leading
/// dimensions recurse into matching chunks; anything else is a hard shape
/// mismatch.  The output buffer is pre-sized to the result shape and
/// seeded with `init`, so an early failure never leaves uninitialised
/// reads; on success every slot is overwritten.
pub fn bin_pervade_generic<AIn, BIn, F: PervasiveFn>(
    a_shape: &[usize],
    a: AIn,
    b_shape: &[usize],
    b: BIn,
    env: &Uiua,
    f: &F,
    init: F::Output,
) -> (r: UiuaResult<(Vec<usize>, Vec<F::Output>)>) where
    AIn: PervasiveInput<Item = F::A>,
    BIn: PervasiveInput<Item = F::B>,
    F::Output: Copy,

    requires
        a.items().len() == shape_product(a_shape@),
        b.items().len() == shape_product(b_shape@),
    ensures
        match r {
            Ok(out) => {
                &&& out.0@ == spec_lex_max_shape(a_shape@, b_shape@)
                &&& spec_generic(*f, a_shape@, a.items(), b_shape@, b.items()) == Ok::<
                    Seq<F::Output>,
                    GenericFailure,
                >(out.1@)
                &&& out.1@.len() == shape_product(out.0@)
            },
            Err(e) => spec_generic(*f, a_shape@, a.items(), b_shape@, b.items()) matches Err(gf)
                && spec_failure_matches(gf, e),
        },
{
    let ghost a_items = a.items();
    let ghost b_items = b.items();
    let an = a.len();
    let bn = b.len();
    let mut av: Vec<F::A> = Vec::new();
    let mut i: usize = 0;
    while i < an
        invariant
            an == a_items.len(),
            a_items == a.items(),
            0 <= i <= an,
            av@ == a_items.subrange(0, i as int),
        decreases an - i,
    {
        av.push(a.item_at(i));
        proof {
            assert(a_items.subrange(0, i + 1) =~= a_items.subrange(0, i as int).push(
                a_items[i as int],
            ));
        }
        i += 1;
    }
    let mut bv: Vec<F::B> = Vec::new();
    let mut j: usize = 0;
    while j < bn
        invariant
            bn == b_items.len(),
            b_items == b.items(),
            0 <= j <= bn,
            bv@ == b_items.subrange(0, j as int),
        decreases bn - j,
    {
        bv.push(b.item_at(j));
        proof {
            assert(b_items.subrange(0, j + 1) =~= b_items.subrange(0, j as int).push(
                b_items[j as int],
            ));
        }
        j += 1;
    }
    proof {
        assert(av@ =~= a_items);
        assert(bv@ =~= b_items);
    }
    let csh = lex_max_shape(a_shape, b_shape);
    proof {
        assert(csh@.subrange(0, csh@.len() as int) =~= csh@);
        assert(spec_lex_max_shape(a_shape@, b_shape@) == a_shape@ || spec_lex_max_shape(
            a_shape@,
            b_shape@,
        ) == b_shape@);
    }
    let c_len = slice_product(csh, 0);
    let mut c: Vec<F::Output> = Vec::new();
    let mut k: usize = 0;
    while k < c_len
        invariant
            0 <= k <= c_len,
            c@.len() == k,
        decreases c_len - k,
    {
        c.push(init);
        k += 1;
    }
    let res = bin_pervade_recursive_generic(f, a_shape, av.as_slice(), b_shape, bv.as_slice(), &mut c, 0, env);
    match res {
        Ok(_) => {
            proof {
                assert(c@.subrange(0, c_len as int) =~= c@);
            }
            Ok((crate::array::copy_data(csh), c))
        },
        Err(e) => Err(e),
    }
}

} // verus!
