//! Bit packing and unpacking: each natural number becomes a trailing axis
//! of bits, least-significant bit at index 0, and back.

use vstd::arithmetic::div_mod::{
    lemma_div_basics, lemma_div_denominator, lemma_fundamental_div_mod, lemma_small_mod,
};
use vstd::arithmetic::power2::{lemma2_to64, lemma2_to64_rest, lemma_pow2_pos, lemma_pow2_unfold, pow2};
use vstd::bits::{lemma_u64_low_bits_mask_is_mod, lemma_u64_shr_is_div, low_bits_mask};
use vstd::prelude::*;

use crate::array::{
    copy_data, lemma_product_push, lemma_product_zero_dim, shape_product, spec_row, Array,
};
use crate::{Uiua, UiuaError, UiuaResult};

verus! {

/// Bit `i` of a natural number: `(n >> i) & 1`, stated arithmetically.
pub open spec fn spec_bit(n: u64, i: int) -> u8 {
    if ((n as nat) / pow2(i as nat)) % 2 == 1 {
        1u8
    } else {
        0u8
    }
}

/// The number of bits needed to represent a natural number; 0 needs 0 bits.
pub open spec fn spec_bit_width(n: u64) -> nat
    decreases n,
{
    if n == 0 {
        0
    } else {
        1 + spec_bit_width(n / 2)
    }
}

/// The largest value of a buffer of naturals; 0 for an empty buffer.
pub open spec fn spec_max_val(s: Seq<u64>) -> u64
    decreases s.len(),
{
    if s.len() == 0 {
        0
    } else {
        let m = spec_max_val(s.drop_first());
        if s[0] >= m {
            s[0]
        } else {
            m
        }
    }
}

/// The number a string of bits denotes, bit `i` weighted by `2^i`.
pub open spec fn spec_recon(bits: Seq<u8>) -> nat
    decreases bits.len(),
{
    if bits.len() == 0 {
        0
    } else {
        bits[0] as nat + 2 * spec_recon(bits.drop_first())
    }
}

pub proof fn lemma_max_val_push(s: Seq<u64>, x: u64)
    ensures
        spec_max_val(s.push(x)) == (if x >= spec_max_val(s) {
            x
        } else {
            spec_max_val(s)
        }),
    decreases s.len(),
{
    if s.len() == 0 {
        assert(s.push(x).drop_first() =~= Seq::<u64>::empty());
        assert(s.push(x)[0] == x);
        assert(spec_max_val(Seq::<u64>::empty()) == 0);
        assert(spec_max_val(s.push(x)) == (if s.push(x)[0] >= spec_max_val(
            s.push(x).drop_first(),
        ) {
            s.push(x)[0]
        } else {
            spec_max_val(s.push(x).drop_first())
        }));
    } else {
        assert(s.push(x).drop_first() =~= s.drop_first().push(x));
        lemma_max_val_push(s.drop_first(), x);
        assert(s.push(x)[0] == s[0]);
        assert(spec_max_val(s.push(x)) == (if s.push(x)[0] >= spec_max_val(
            s.push(x).drop_first(),
        ) {
            s.push(x)[0]
        } else {
            spec_max_val(s.push(x).drop_first())
        }));
        assert(spec_max_val(s) == (if s[0] >= spec_max_val(s.drop_first()) {
            s[0]
        } else {
            spec_max_val(s.drop_first())
        }));
    }
}

pub proof fn lemma_max_val_ge(s: Seq<u64>, i: int)
    requires
        0 <= i < s.len(),
    ensures
        s[i] <= spec_max_val(s),
    decreases s.len(),
{
    if i > 0 {
        lemma_max_val_ge(s.drop_first(), i - 1);
    }
}

/// Every value is below two to its bit width.
pub proof fn lemma_value_lt_pow2_bit_width(n: u64)
    ensures
        (n as nat) < pow2(spec_bit_width(n)),
    decreases n,
{
    if n == 0 {
        lemma2_to64();
    } else {
        lemma_value_lt_pow2_bit_width(n / 2);
        lemma_fundamental_div_mod(n as int, 2);
        lemma_pow2_unfold(spec_bit_width(n));
    }
}

/// Bit `i + 1` of `n` is bit `i` of `n / 2`.
pub proof fn lemma_bit_shift(n: u64, i: int)
    requires
        i >= 0,
    ensures
        spec_bit(n, i + 1) == spec_bit(n / 2, i),
{
    lemma_pow2_pos(i as nat);
    lemma_div_denominator(n as int, 2, pow2(i as nat) as int);
    lemma_pow2_unfold((i + 1) as nat);
}

/// Reading the bits of `n` back as a number gives `n`, provided the bit
/// string is wide enough.
pub proof fn lemma_recon_bits(n: u64, mb: nat)
    requires
        (n as nat) < pow2(mb),
    ensures
        spec_recon(Seq::new(mb, |i: int| spec_bit(n, i))) == n as nat,
    decreases mb,
{
    let s = Seq::new(mb, |i: int| spec_bit(n, i));
    if mb == 0 {
        lemma2_to64();
        assert(s =~= Seq::<u8>::empty());
    } else {
        lemma_pow2_unfold(mb);
        lemma_fundamental_div_mod(n as int, 2);
        assert(((n / 2) as nat) < pow2((mb - 1) as nat));
        lemma_recon_bits(n / 2, (mb - 1) as nat);
        let tail = Seq::new((mb - 1) as nat, |i: int| spec_bit(n / 2, i));
        assert forall|i: int| 0 <= i < mb - 1 implies s.drop_first()[i] == tail[i] by {
            lemma_bit_shift(n, i);
        }
        assert(s.drop_first() =~= tail);
        lemma2_to64();
        lemma_div_basics(n as int);
        assert(s[0] == spec_bit(n, 0));
        assert(pow2(0) == 1);
        assert((n as nat) / 1 == n as nat);
        assert(s[0] as nat == (n as nat) % 2);
        assert(spec_recon(s) == (n as nat) % 2 + 2 * ((n / 2) as nat));
    }
}

impl Array<u64> {
    /// Append a trailing axis of bits: the new last axis has the width of
    /// the largest value, and position `i` of each element's bit string
    /// holds `(n >> i) & 1`.  An empty array gains a trailing axis of 0.
    pub fn bits(&self, env: &Uiua) -> (out: Array<u8>)
        requires
            self.valid(),
            self.data@.len() * 64 <= usize::MAX,
        ensures
            ({
                let d = self.data@;
                let mb = spec_bit_width(spec_max_val(d)) as int;
                &&& out.valid()
                &&& out.shape@ == self.shape@.push(mb as usize)
                &&& out.data@.len() == d.len() * mb
                &&& forall|j: int, b: int|
                    0 <= j < d.len() && 0 <= b < mb ==> #[trigger] out.data@[j * mb + b]
                        == spec_bit(d[j], b)
            }),
    {
        let ghost d = self.data@;
        let n = self.data.len();
        let mut max: u64 = 0;
        let mut i: usize = 0;
        proof {
            assert(d.subrange(0, 0) =~= Seq::<u64>::empty());
        }
        while i < n
            invariant
                n == d.len(),
                d == self.data@,
                0 <= i <= n,
                max == spec_max_val(d.subrange(0, i as int)),
            decreases n - i,
        {
            proof {
                assert(d.subrange(0, i + 1) =~= d.subrange(0, i as int).push(d[i as int]));
                lemma_max_val_push(d.subrange(0, i as int), d[i as int]);
            }
            if self.data[i] > max {
                max = self.data[i];
            }
            i += 1;
        }
        proof {
            assert(d.subrange(0, n as int) =~= d);
        }
        // The width of the widest value.
        let ghost full_width = spec_bit_width(max);
        proof {
            lemma_width_le_64(max);
        }
        let mut mb: usize = 0;
        let mut m: u64 = max;
        while m != 0
            invariant
                mb + spec_bit_width(m) == full_width,
                mb <= full_width,
                full_width <= 64,
            decreases m,
        {
            proof {
                lemma_u64_shr_is_div(m, 1);
                lemma2_to64();
            }
            m = m >> 1;
            mb += 1;
        }
        proof {
            assert(d.len() * (mb as int) <= d.len() * 64) by (nonlinear_arith)
                requires
                    0 <= mb <= 64,
                    d.len() >= 0,
            ;
        }
        let mut out: Vec<u8> = Vec::new();
        let mut j: usize = 0;
        while j < n
            invariant
                n == d.len(),
                d == self.data@,
                d.len() * 64 <= usize::MAX,
                mb == spec_bit_width(spec_max_val(d)),
                mb <= 64,
                0 <= j <= n,
                out@.len() == j * mb,
                forall|jj: int, b: int|
                    0 <= jj < j && 0 <= b < mb ==> #[trigger] out@[jj * (mb as int) + b]
                        == spec_bit(d[jj], b),
            decreases n - j,
        {
            proof {
                assert((j + 1) * mb == j * mb + mb) by (nonlinear_arith);
                vstd::arithmetic::mul::lemma_mul_inequality(j as int + 1, n as int, mb as int);
                vstd::arithmetic::mul::lemma_mul_inequality(mb as int, 64, n as int);
                assert(n as int * (mb as int) == (mb as int) * (n as int)) by (nonlinear_arith);
                assert(n as int * 64 == 64 * (n as int)) by (nonlinear_arith);
                assert(pow2(0) == 1) by {
                    lemma2_to64();
                }
                lemma_div_basics(d[j as int] as int);
            }
            let x = self.data[j];
            let mut cur: u64 = x;
            let mut b: usize = 0;
            let ghost out_before = out@;
            while b < mb
                invariant
                    d == self.data@,
                    x == d[j as int],
                    0 <= j < n,
                    n == d.len(),
                    0 <= b <= mb,
                    cur as nat == (x as nat) / pow2(b as nat),
                    out@ == out_before + Seq::new(b as nat, |bb: int| spec_bit(x, bb)),
                    out_before.len() == j * mb,
                    out_before.len() + mb <= usize::MAX,
                decreases mb - b,
            {
                let bit = (cur & 1) as u8;
                proof {
                    lemma_u64_low_bits_mask_is_mod(cur, 1);
                    vstd::bits::lemma_low_bits_mask_values();
                    lemma2_to64();
                    assert(bit == spec_bit(x, b as int));
                    lemma_u64_shr_is_div(cur, 1);
                    lemma_pow2_pos(b as nat);
                    lemma_div_denominator(x as int, pow2(b as nat) as int, 2);
                    lemma_pow2_unfold((b + 1) as nat);
                    assert(pow2(b as nat) * 2 == 2 * pow2(b as nat)) by (nonlinear_arith);
                    assert(Seq::new(b as nat, |bb: int| spec_bit(x, bb)).push(spec_bit(x, b as int))
                        =~= Seq::new((b + 1) as nat, |bb: int| spec_bit(x, bb)));
                }
                out.push(bit);
                cur = cur >> 1;
                b += 1;
            }
            proof {
                assert forall|jj: int, bb: int|
                    0 <= jj < j + 1 && 0 <= bb < mb implies #[trigger] out@[jj * (mb as int) + bb]
                    == spec_bit(d[jj], bb) by {
                    if jj == j as int {
                        assert(out@[jj * (mb as int) + bb] == Seq::new(
                            mb as nat,
                            |x2: int| spec_bit(x, x2),
                        )[bb]);
                    } else {
                        assert((jj + 1) * mb <= j * mb) by (nonlinear_arith)
                            requires
                                0 <= jj < j as int,
                                mb >= 0,
                        ;
                        assert(jj * mb + bb < j * mb) by (nonlinear_arith)
                            requires
                                0 <= jj,
                                0 <= bb < mb,
                                (jj + 1) * (mb as int) <= (j as int) * (mb as int),
                        ;
                        assert(out@[jj * (mb as int) + bb] == out_before[jj * (mb as int) + bb]);
                    }
                }
            }
            j += 1;
        }
        let mut shape = copy_data(self.shape.as_slice());
        shape.push(mb);
        proof {
            lemma_product_push(self.shape@, mb);
        }
        Array::new(shape, out)
    }
}

/// No value needs more than 64 bits.
pub proof fn lemma_width_le_64(n: u64)
    ensures
        spec_bit_width(n) <= 64,
{
    lemma2_to64_rest();
    assert((n as nat) < pow2(64));
    lemma_pow2_bounds_width(n, 64);
}

/// A value below `2^k` needs at most `k` bits.
pub proof fn lemma_pow2_bounds_width(n: u64, k: nat)
    requires
        (n as nat) < pow2(k),
    ensures
        spec_bit_width(n) <= k,
    decreases n,
{
    if n == 0 {
    } else {
        if k == 0 {
            lemma2_to64();
        } else {
            lemma_pow2_unfold(k);
            lemma_fundamental_div_mod(n as int, 2);
            lemma_pow2_bounds_width(n / 2, (k - 1) as nat);
        }
    }
}

impl Array<u8> {
    /// Read the trailing axis as bit strings and rebuild each number:
    /// the inverse of [`Array::bits`].  Every element must be 0 or 1.  A
    /// scalar bit becomes the one-element array of its value; values wider
    /// than 64 bits wrap modulo `2^64`.
    pub fn inverse_bits(&self, env: &Uiua) -> (r: UiuaResult<Array<u64>>)
        requires
            self.valid(),
            self.spec_rank() >= 1 ==> shape_product(self.shape@.drop_last()) <= usize::MAX,
        ensures
            ({
                let d = self.data@;
                match r {
                    Ok(out) => {
                        &&& (forall|i: int| 0 <= i < d.len() ==> #[trigger] d[i] <= 1)
                        &&& out.valid()
                        &&& (self.spec_rank() == 0 ==> out.shape@ =~= Seq::<usize>::empty()
                            && out.data@ =~= seq![d[0] as u64])
                        &&& (self.spec_rank() >= 1 ==> {
                            let bsl = self.shape@.last() as int;
                            let cnt = shape_product(self.shape@.drop_last()) as int;
                            &&& out.shape@ == self.shape@.drop_last()
                            &&& out.data@.len() == cnt
                            &&& forall|c: int|
                                0 <= c < cnt ==> #[trigger] out.data@[c] as nat == spec_recon(
                                    spec_row(d, bsl, c),
                                ) % pow2(64)
                        })
                    },
                    Err(e) => {
                        &&& exists|i: int| 0 <= i < d.len() && #[trigger] d[i] > 1
                        &&& e == (UiuaError::DomainError {
                            message: "Array must be a list of booleans",
                        })
                    },
                }
            }),
    {
        let ghost d = self.data@;
        let n = self.data.len();
        let mut i: usize = 0;
        while i < n
            invariant
                n == d.len(),
                d == self.data@,
                0 <= i <= n,
                forall|k: int| 0 <= k < i ==> #[trigger] d[k] <= 1,
            decreases n - i,
        {
            if self.data[i] > 1 {
                return Err(UiuaError::DomainError { message: "Array must be a list of booleans" });
            }
            i += 1;
        }
        if self.shape.len() == 0 {
            let out_shape: Vec<usize> = Vec::new();
            let mut out: Vec<u64> = Vec::new();
            out.push(self.data[0] as u64);
            return Ok(Array::new(out_shape, out));
        }
        let ghost s = self.shape@;
        proof {
            assert(s =~= s.drop_last().push(s.last()));
            lemma_product_push(s.drop_last(), s.last());
        }
        let bsl = self.shape[self.shape.len() - 1];
        let new_shape = copy_data(vstd::slice::slice_subrange(
            self.shape.as_slice(),
            0,
            self.shape.len() - 1,
        ));
        proof {
            assert(new_shape@ =~= s.drop_last());
        }
        let cnt: usize = if bsl > 0 {
            proof {
                crate::monadic::lemma_index_decompose(
                    shape_product(s.drop_last()) as int,
                    0,
                    bsl as int,
                );
            }
            n / bsl
        } else {
            proof {
                lemma_product_zero_dim(s, s.len() - 1);
                assert(new_shape@.subrange(0, new_shape@.len() as int) =~= new_shape@);
            }
            crate::array::slice_product(new_shape.as_slice(), 0)
        };
        proof {
            assert(new_shape@.subrange(0, new_shape@.len() as int) =~= new_shape@);
            assert(cnt as nat == shape_product(s.drop_last()));
            assert forall|c: int| 0 <= c < cnt implies #[trigger] ((c + 1) * (bsl as int))
                <= d.len() by {
                vstd::arithmetic::mul::lemma_mul_inequality(c + 1, cnt as int, bsl as int);
                assert(cnt as int * (bsl as int) == d.len());
            }
        }
        let mut out: Vec<u64> = Vec::new();
        let mut c: usize = 0;
        while c < cnt
            invariant
                n == d.len(),
                d == self.data@,
                forall|k: int| 0 <= k < n ==> #[trigger] d[k] <= 1,
                forall|cc: int| 0 <= cc < cnt ==> #[trigger] ((cc + 1) * (bsl as int)) <= d.len(),
                0 <= c <= cnt,
                out@.len() == c,
                forall|cc: int|
                    0 <= cc < c ==> #[trigger] out@[cc] as nat == spec_recon(
                        spec_row(d, bsl as int, cc),
                    ) % pow2(64),
            decreases cnt - c,
    {
            proof {
                assert((c as int) * (bsl as int) >= 0) by (nonlinear_arith)
                    requires
                        c as int >= 0,
                        bsl as int >= 0,
                ;
                assert((c as int) * (bsl as int) + bsl as int == (c as int + 1) * (bsl as int))
                    by (nonlinear_arith);
            }
            let base = c * bsl;
            let ghost chunk = spec_row(d, bsl as int, c as int);
            let mut acc: u64 = 0;
            let mut t: usize = bsl;
            proof {
                lemma2_to64_rest();
                lemma_pow2_pos(64);
                assert(chunk.subrange(bsl as int, bsl as int) =~= Seq::<u8>::empty());
                lemma_small_mod(0, pow2(64));
            }
            while t > 0
                invariant
                    n == d.len(),
                    d == self.data@,
                    forall|k: int| 0 <= k < n ==> #[trigger] d[k] <= 1,
                    0 <= t <= bsl,
                    base == (c as int) * (bsl as int),
                    base + bsl == (c as int + 1) * (bsl as int),
                    base + bsl <= d.len(),
                    chunk == spec_row(d, bsl as int, c as int),
                    chunk.len() == bsl,
                    pow2(64) == 0x10000000000000000,
                    acc as nat == spec_recon(chunk.subrange(t as int, bsl as int)) % pow2(64),
                decreases t,
            {
                t -= 1;
                let bit = self.data[base + t];
                let ghost acc_prev = acc;
                let ghost rest = spec_recon(chunk.subrange(t + 1, bsl as int));
                let doubled = acc.wrapping_mul(2);
                acc = doubled.wrapping_add(bit as u64);
                proof {
                    assert(chunk[t as int] == d[base + t]);
                    let prev = chunk.subrange(t + 1, bsl as int);
                    let curs = chunk.subrange(t as int, bsl as int);
                    assert(curs.drop_first() =~= prev);
                    assert(spec_recon(curs) == curs[0] as nat + 2 * spec_recon(prev));
                    let m = pow2(64) as int;
                    assert(doubled as int == (acc_prev as int * 2) % m);
                    if doubled as int + bit as int > u64::MAX as int {
                        // The sum wraps: it is exactly 2^64, whose remainder
                        // is zero.
                        vstd::arithmetic::div_mod::lemma_mod_bound(acc_prev as int * 2, m);
                        assert(doubled as int + bit as int == m);
                        vstd::arithmetic::div_mod::lemma_mod_self_0(m);
                        assert(acc as int == 0);
                        assert((doubled as int + bit as int) % m == 0);
                    } else {
                        lemma_small_mod((doubled as int + bit as int) as nat, pow2(64));
                    }
                    assert(acc as int == (doubled as int + bit as int) % m);
                    lemma_wrap_step(acc_prev, bit, rest);
                    assert(acc as nat == spec_recon(curs) % pow2(64));
                }
            }
            proof {
                assert(chunk.subrange(0, bsl as int) =~= chunk);
            }
            out.push(acc);
            c += 1;
        }
        Ok(Array::new(new_shape, out))
    }
}

/// Unpacking packed bits restores every value: for any buffer of naturals,
/// a bit buffer laid out as [`Array::bits`] lays it out — bit `b` of value
/// `j` at position `j * width + b`, with the width of the largest value —
/// reads back, chunk by chunk, as the original values.  Together with the
/// contracts of `bits` and `inverse_bits` (whose result is the chunk value
/// modulo `2^64`), unpacking the output of packing reproduces the input
/// array, shape and data alike, for any shape.
pub proof fn lemma_bits_round_trip(d: Seq<u64>, packed: Seq<u8>, mb: int)
    requires
        mb == spec_bit_width(spec_max_val(d)) as int,
        packed.len() == d.len() * mb,
        forall|j: int, b: int|
            0 <= j < d.len() && 0 <= b < mb ==> #[trigger] packed[j * mb + b] == spec_bit(d[j], b),
    ensures
        forall|k: int| 0 <= k < packed.len() ==> #[trigger] packed[k] <= 1,
        forall|c: int|
            0 <= c < d.len() ==> spec_recon(#[trigger] spec_row(packed, mb, c)) % pow2(64) == d[c]
                as nat,
{
    lemma2_to64_rest();
    lemma_pow2_pos(64);
    assert forall|k: int| 0 <= k < packed.len() implies #[trigger] packed[k] <= 1 by {
        if mb > 0 {
            crate::monadic::lemma_index_in_rows(k, d.len() as int, mb);
            assert(packed[(k / mb) * mb + (k % mb)] == spec_bit(d[k / mb], k % mb));
        } else {
            assert(d.len() * 0 == 0) by (nonlinear_arith);
        }
    }
    assert forall|c: int| 0 <= c < d.len() implies spec_recon(#[trigger] spec_row(packed, mb, c))
        % pow2(64) == d[c] as nat by {
        lemma_max_val_ge(d, c);
        lemma_value_lt_pow2_bit_width(spec_max_val(d));
        assert((d[c] as nat) < pow2(mb as nat));
        let row = spec_row(packed, mb, c);
        let bits_of = Seq::new(mb as nat, |i: int| spec_bit(d[c], i));
        assert(c * mb + mb == (c + 1) * mb) by (nonlinear_arith);
        assert(c * mb >= 0) by (nonlinear_arith)
            requires
                c >= 0,
                mb >= 0,
        ;
        vstd::arithmetic::mul::lemma_mul_inequality(c + 1, d.len() as int, mb);
        assert forall|i: int| 0 <= i < mb implies row[i] == bits_of[i] by {
            assert(row[i] == packed[c * mb + i]);
            assert(packed[c * mb + i] == spec_bit(d[c], i));
        }
        assert(row =~= bits_of);
        lemma_recon_bits(d[c], mb as nat);
        lemma_small_mod(d[c] as nat, pow2(64));
    }
}

/// One step of the wrapped bit-string accumulation: doubling modulo `2^64`
/// and adding the next bit tracks the mathematical value modulo `2^64`.
proof fn lemma_wrap_step(acc: u64, bit: u8, rest: nat)
    requires
        acc as nat == rest % pow2(64),
        pow2(64) == 0x10000000000000000,
    ensures
        ((acc as int * 2) % (pow2(64) as int) + bit as int) % (pow2(64) as int) == (bit as nat + 2
            * rest) % pow2(64),
{
    let m = pow2(64) as int;
    vstd::arithmetic::div_mod::lemma_mul_mod_noop_right(2, rest as int, m);
    vstd::arithmetic::div_mod::lemma_add_mod_noop(2 * (rest as int), bit as int, m);
    vstd::arithmetic::div_mod::lemma_add_mod_noop((2 * (rest as int)) % m, bit as int, m);
    lemma_small_mod(bit as nat, pow2(64));
    vstd::arithmetic::div_mod::lemma_mod_twice((2 * (rest as int)) % m + bit as int, m);
}

} // verus!
