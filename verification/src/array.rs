//! The array representation: a shape and a flat, row-major data buffer,
//! together with the element-type interface (ordering and fill values) and
//! the view abstraction the recursive algorithms work on.

use vstd::prelude::*;

use crate::Uiua;

verus! {

/// The number of elements a shape describes: the product of its dimensions.
/// The product of the empty shape (a scalar) is 1.
pub open spec fn shape_product(s: Seq<usize>) -> nat
    decreases s.len(),
{
    if s.len() == 0 {
        1
    } else {
        (s[0] as nat) * shape_product(s.drop_first())
    }
}

/// The flat length of one row: the product of every dimension but the first.
pub open spec fn spec_row_len(s: Seq<usize>) -> nat {
    shape_product(s.drop_first())
}

/// The number of rows: the leading dimension, or 1 for a scalar.
pub open spec fn spec_row_count(s: Seq<usize>) -> nat {
    if s.len() == 0 {
        1
    } else {
        s[0] as nat
    }
}

/// Row `i` of a flat buffer whose rows have length `rl`.
pub open spec fn spec_row<T>(d: Seq<T>, rl: int, i: int) -> Seq<T> {
    d.subrange(i * rl, (i + 1) * rl)
}

/// Two shapes agree on every position of their common prefix.
pub open spec fn spec_prefixes_match(a: Seq<usize>, b: Seq<usize>) -> bool {
    forall|i: int|
        0 <= i < a.len() && i < b.len() ==> a[i] == b[i]
}

pub proof fn lemma_product_push(s: Seq<usize>, x: usize)
    ensures
        shape_product(s.push(x)) == shape_product(s) * x,
    decreases s.len(),
{
    if s.len() == 0 {
        assert(s.push(x).drop_first() =~= Seq::<usize>::empty());
        assert(s.push(x)[0] == x);
        assert(shape_product(s.push(x)) == (x as nat) * shape_product(Seq::<usize>::empty()));
    } else {
        assert(s.push(x).drop_first() =~= s.drop_first().push(x));
        lemma_product_push(s.drop_first(), x);
        let a = s[0] as nat;
        let p = shape_product(s.drop_first());
        assert(s.push(x)[0] == s[0]);
        assert(shape_product(s) == a * p);
        assert(shape_product(s.push(x)) == a * shape_product(s.push(x).drop_first()));
        assert(shape_product(s.push(x).drop_first()) == p * (x as nat));
        assert(a * (p * (x as nat)) == (a * p) * (x as nat)) by (nonlinear_arith);
        assert(shape_product(s.push(x)) == shape_product(s) * x);
    }
}

/// A shape with a zero dimension describes no elements.
pub proof fn lemma_product_zero_dim(s: Seq<usize>, i: int)
    requires
        0 <= i < s.len(),
        s[i] == 0,
    ensures
        shape_product(s) == 0,
    decreases s.len(),
{
    if i == 0 {
    } else {
        lemma_product_zero_dim(s.drop_first(), i - 1);
    }
}

/// If every dimension is nonzero, dropping leading dimensions cannot grow
/// the product.
pub proof fn lemma_suffix_product_le(s: Seq<usize>, i: int)
    requires
        0 <= i <= s.len(),
        forall|d: int| 0 <= d < s.len() ==> s[d] >= 1,
    ensures
        shape_product(s.subrange(i, s.len() as int)) <= shape_product(s),
    decreases i,
{
    if i == 0 {
        assert(s.subrange(0, s.len() as int) =~= s);
    } else {
        lemma_suffix_product_le(s, i - 1);
        let prev = s.subrange(i - 1, s.len() as int);
        assert(prev.drop_first() =~= s.subrange(i, s.len() as int));
        assert(shape_product(prev) == (s[i - 1] as nat) * shape_product(prev.drop_first()));
        assert((s[i - 1] as nat) * shape_product(prev.drop_first()) >= shape_product(
            prev.drop_first(),
        )) by (nonlinear_arith)
            requires
                s[i - 1] >= 1,
        ;
    }
}

/// A shape all of whose dimensions are nonzero describes at least one
/// element.
pub proof fn lemma_product_pos(s: Seq<usize>)
    requires
        forall|d: int| 0 <= d < s.len() ==> s[d] >= 1,
    ensures
        shape_product(s) >= 1,
    decreases s.len(),
{
    if s.len() > 0 {
        lemma_product_pos(s.drop_first());
        assert((s[0] as nat) * shape_product(s.drop_first()) >= 1) by (nonlinear_arith)
            requires
                s[0] >= 1,
                shape_product(s.drop_first()) >= 1,
        ;
    }
}

/// The product splits as leading dimension times row length.
pub proof fn lemma_product_head(s: Seq<usize>)
    requires
        s.len() >= 1,
    ensures
        shape_product(s) == spec_row_count(s) * spec_row_len(s),
{
}

/// The sole data entity of the engine: an N-dimensional array.  `shape`
/// lists the dimension sizes outermost first; `data` holds the elements in
/// row-major order.  The well-formedness invariant [`Array::valid`] ties the
/// two together and every operation preserves it.
#[derive(Debug)]
pub struct Array<T> {
    pub shape: Vec<usize>,
    pub data: Vec<T>,
}

impl<T> Array<T> {
    /// Well-formedness: the buffer holds exactly as many elements as the
    /// shape describes.
    pub open spec fn valid(&self) -> bool {
        self.data@.len() == shape_product(self.shape@)
    }

    pub open spec fn spec_rank(&self) -> nat {
        self.shape@.len()
    }

    /// Row `i` of this array, as a sequence of elements.
    pub open spec fn row(&self, i: int) -> Seq<T> {
        spec_row(self.data@, spec_row_len(self.shape@) as int, i)
    }

    pub fn new(shape: Vec<usize>, data: Vec<T>) -> (arr: Array<T>)
        requires
            data@.len() == shape_product(shape@),
        ensures
            arr.shape@ == shape@,
            arr.data@ == data@,
            arr.valid(),
    {
        Array { shape, data }
    }

    pub fn rank(&self) -> (r: usize)
        ensures
            r == self.spec_rank(),
    {
        self.shape.len()
    }

    pub fn flat_len(&self) -> (r: usize)
        ensures
            r == self.data@.len(),
    {
        self.data.len()
    }

    pub fn row_count(&self) -> (r: usize)
        ensures
            r == spec_row_count(self.shape@),
    {
        if self.shape.len() == 0 {
            1
        } else {
            self.shape[0]
        }
    }

    /// The length of one row.  A valid array with a nonzero leading
    /// dimension has a row length no larger than its buffer, so the product
    /// fits in memory.
    pub fn row_len(&self) -> (r: usize)
        requires
            self.valid(),
            self.spec_rank() >= 1,
            self.shape@[0] != 0,
        ensures
            r == spec_row_len(self.shape@),
    {
        // Reading the length brings its usize bound into scope.
        let _buffer_len = self.data.len();
        proof {
            self.lemma_row_len_fits();
            assert(self.shape@.subrange(1, self.shape@.len() as int) =~= self.shape@.drop_first());
        }
        let s = self.shape.as_slice();
        slice_product(s, 1)
    }

    pub proof fn lemma_row_len_fits(&self)
        requires
            self.valid(),
            self.spec_rank() >= 1,
            self.shape@[0] >= 1,
        ensures
            spec_row_len(self.shape@) <= self.data@.len(),
    {
        lemma_product_head(self.shape@);
        assert(spec_row_count(self.shape@) * spec_row_len(self.shape@) >= spec_row_len(
            self.shape@,
        )) by (nonlinear_arith)
            requires
                spec_row_count(self.shape@) >= 1,
        ;
    }
}

/// The product of `s[from..]`, for a shape whose tail product fits in
/// `usize`.
pub fn slice_product(s: &[usize], from: usize) -> (r: usize)
    requires
        from <= s@.len(),
        shape_product(s@.subrange(from as int, s@.len() as int)) <= usize::MAX,
    ensures
        r == shape_product(s@.subrange(from as int, s@.len() as int)),
{
    let n = s.len();
    // A zero dimension forces the whole product to zero; handling it first
    // keeps every intermediate product below the final one.
    let mut i = from;
    while i < n
        invariant
            from <= i <= n,
            n == s@.len(),
            forall|d: int| from <= d < i ==> s@[d] >= 1,
        decreases n - i,
    {
        if s[i] == 0 {
            proof {
                lemma_product_zero_dim(
                    s@.subrange(from as int, n as int),
                    i - from,
                );
            }
            return 0;
        }
        i += 1;
    }
    let ghost suffix = s@.subrange(from as int, n as int);
    let mut acc: usize = 1;
    let mut j = n;
    while j > from
        invariant
            from <= j <= n,
            n == s@.len(),
            forall|d: int| from <= d < n ==> s@[d] >= 1,
            suffix == s@.subrange(from as int, n as int),
            shape_product(suffix) <= usize::MAX,
            acc == shape_product(s@.subrange(j as int, n as int)),
        decreases j,
    {
        proof {
            let prev = s@.subrange(j - 1, n as int);
            assert(prev.drop_first() =~= s@.subrange(j as int, n as int));
            assert(forall|d: int| 0 <= d < suffix.len() ==> suffix[d] >= 1);
            lemma_suffix_product_le(suffix, j - from - 1);
            assert(suffix.subrange(j - from - 1, suffix.len() as int) =~= prev);
        }
        acc = s[j - 1] * acc;
        j -= 1;
    }
    proof {
        assert(s@.subrange(from as int, n as int) =~= suffix);
    }
    acc
}

/// Copy a buffer of elements.
pub fn copy_data<T: Copy>(d: &[T]) -> (r: Vec<T>)
    ensures
        r@ == d@,
{
    let mut out: Vec<T> = Vec::new();
    let mut i: usize = 0;
    while i < d.len()
        invariant
            0 <= i <= d@.len(),
            out@ == d@.subrange(0, i as int),
        decreases d@.len() - i,
    {
        out.push(d[i]);
        i += 1;
    }
    proof {
        assert(d@.subrange(0, d@.len() as int) =~= d@);
    }
    out
}

/// An element type of the engine: totally ordered, and optionally carrying
/// a context-supplied fill value for shape repair.
pub trait ArrayValue: Sized + Copy {
    /// The total order rows are compared by.
    spec fn le_spec(self, other: Self) -> bool;

    /// The fill value the evaluation context supplies for this element
    /// type, if any.
    spec fn spec_fill(env: Uiua) -> Option<Self>;

    proof fn lemma_le_total(a: Self, b: Self)
        ensures
            a.le_spec(b) || b.le_spec(a),
    ;

    proof fn lemma_le_antisymmetric(a: Self, b: Self)
        requires
            a.le_spec(b),
            b.le_spec(a),
        ensures
            a == b,
    ;

    proof fn lemma_le_transitive(a: Self, b: Self, c: Self)
        requires
            a.le_spec(b),
            b.le_spec(c),
        ensures
            a.le_spec(c),
    ;

    fn array_le(self, other: Self) -> (r: bool)
        ensures
            r == self.le_spec(other),
    ;

    fn get_fill(env: &Uiua) -> (r: Option<Self>)
        ensures
            r == Self::spec_fill(*env),
    ;
}

impl ArrayValue for u8 {
    open spec fn le_spec(self, other: Self) -> bool {
        self <= other
    }

    open spec fn spec_fill(env: Uiua) -> Option<Self> {
        env.byte_fill
    }

    proof fn lemma_le_total(a: Self, b: Self) {
    }

    proof fn lemma_le_antisymmetric(a: Self, b: Self) {
    }

    proof fn lemma_le_transitive(a: Self, b: Self, c: Self) {
    }

    fn array_le(self, other: Self) -> (r: bool) {
        self <= other
    }

    fn get_fill(env: &Uiua) -> (r: Option<Self>) {
        env.byte_fill
    }
}

impl ArrayValue for u64 {
    open spec fn le_spec(self, other: Self) -> bool {
        self <= other
    }

    open spec fn spec_fill(env: Uiua) -> Option<Self> {
        env.nat_fill
    }

    proof fn lemma_le_total(a: Self, b: Self) {
    }

    proof fn lemma_le_antisymmetric(a: Self, b: Self) {
    }

    proof fn lemma_le_transitive(a: Self, b: Self, c: Self) {
    }

    fn array_le(self, other: Self) -> (r: bool) {
        self <= other
    }

    fn get_fill(env: &Uiua) -> (r: Option<Self>) {
        env.nat_fill
    }
}

impl ArrayValue for char {
    /// Characters order by code point.
    open spec fn le_spec(self, other: Self) -> bool {
        (self as u32) <= (other as u32)
    }

    open spec fn spec_fill(env: Uiua) -> Option<Self> {
        env.char_fill
    }

    proof fn lemma_le_total(a: Self, b: Self) {
    }

    proof fn lemma_le_antisymmetric(a: Self, b: Self) {
        vstd::utf8::char_u32_cast(a, a as u32);
        vstd::utf8::char_u32_cast(b, b as u32);
    }

    proof fn lemma_le_transitive(a: Self, b: Self, c: Self) {
    }

    fn array_le(self, other: Self) -> (r: bool) {
        (self as u32) <= (other as u32)
    }

    fn get_fill(env: &Uiua) -> (r: Option<Self>) {
        env.char_fill
    }
}

/// A uniform view over "owned array" and "shape slice + data slice", so the
/// recursive broadcasting algorithm can walk sub-rows without copying.
pub trait Arrayish {
    type Value;

    spec fn spec_shape(&self) -> Seq<usize>;

    spec fn spec_data(&self) -> Seq<Self::Value>;

    fn shape(&self) -> (r: &[usize])
        ensures
            r@ == self.spec_shape(),
    ;

    fn data(&self) -> (r: &[Self::Value])
        ensures
            r@ == self.spec_data(),
    ;

    fn rank(&self) -> (r: usize)
        ensures
            r == self.spec_shape().len(),
    {
        self.shape().len()
    }

    fn flat_len(&self) -> (r: usize)
        ensures
            r == self.spec_data().len(),
    {
        self.data().len()
    }

}

/// True iff two shapes are identical.
pub fn shapes_equal(a: &[usize], b: &[usize]) -> (r: bool)
    ensures
        r == (a@ == b@),
{
    if a.len() != b.len() {
        proof {
            assert(a@.len() != b@.len());
        }
        return false;
    }
    let mut i: usize = 0;
    while i < a.len()
        invariant
            a@.len() == b@.len(),
            0 <= i <= a@.len(),
            forall|k: int| 0 <= k < i ==> a@[k] == b@[k],
        decreases a@.len() - i,
    {
        if a[i] != b[i] {
            return false;
        }
        i += 1;
    }
    proof {
        assert(a@ =~= b@);
    }
    true
}

/// True iff two shapes agree element-wise over their common prefix length.
pub fn shape_prefixes_match(a: &[usize], b: &[usize]) -> (r: bool)
    ensures
        r == spec_prefixes_match(a@, b@),
{
    let n = if a.len() < b.len() {
        a.len()
    } else {
        b.len()
    };
    let mut i: usize = 0;
    while i < n
        invariant
            0 <= i <= n,
            n <= a@.len(),
            n <= b@.len(),
            n == vstd::math::min(a@.len() as int, b@.len() as int),
            forall|k: int| 0 <= k < i ==> a@[k] == b@[k],
        decreases n - i,
    {
        if a[i] != b[i] {
            return false;
        }
        i += 1;
    }
    true
}

impl<T> Arrayish for Array<T> {
    type Value = T;

    open spec fn spec_shape(&self) -> Seq<usize> {
        self.shape@
    }

    open spec fn spec_data(&self) -> Seq<T> {
        self.data@
    }

    fn shape(&self) -> (r: &[usize]) {
        self.shape.as_slice()
    }

    fn data(&self) -> (r: &[T]) {
        self.data.as_slice()
    }
}

/// A borrowed `(shape, data)` pair: the sub-view the recursive walk hands to
/// itself.
pub struct ArrayView<'a, T> {
    pub shape: &'a [usize],
    pub data: &'a [T],
}

impl<'a, T> Arrayish for ArrayView<'a, T> {
    type Value = T;

    open spec fn spec_shape(&self) -> Seq<usize> {
        self.shape@
    }

    open spec fn spec_data(&self) -> Seq<T> {
        self.data@
    }

    fn shape(&self) -> (r: &[usize]) {
        self.shape
    }

    fn data(&self) -> (r: &[T]) {
        self.data
    }
}

} // verus!
