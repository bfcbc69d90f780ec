//! Bit sequences, most significant bit first, and their link to the
//! 64-bit register that holds them.
use vstd::arithmetic::div_mod::lemma_fundamental_div_mod_converse;
use vstd::arithmetic::mul::lemma_mul_strict_inequality;
use vstd::arithmetic::power2::{lemma2_to64, lemma2_to64_rest, lemma_pow2_adds, lemma_pow2_pos, lemma_pow2_unfold, pow2};
use vstd::bits::{low_bits_mask, lemma_u64_low_bits_mask_is_mod, lemma_u64_pow2_no_overflow, lemma_u64_shl_is_mul, lemma_u64_shr_is_div};
use vstd::prelude::*;

verus! {

/// The number that a sequence of bits spells, most significant bit first.
pub open spec fn value_of(s: Seq<bool>) -> nat
    decreases s.len(),
{
    if s.len() == 0 {
        0
    } else {
        2 * value_of(s.drop_last()) + (if s.last() { 1nat } else { 0nat })
    }
}

/// The low `n` bits of `x`, most significant first.
pub open spec fn bits_of(x: nat, n: nat) -> Seq<bool>
    decreases n,
{
    if n == 0 {
        Seq::empty()
    } else {
        bits_of(x / 2, (n - 1) as nat).push(x % 2 == 1)
    }
}

/// `n` zero bits.
pub open spec fn zeros(n: nat) -> Seq<bool> {
    Seq::new(n, |i: int| false)
}

pub broadcast proof fn lemma_bits_of_len(x: nat, n: nat)
    ensures
        #[trigger] bits_of(x, n).len() == n,
    decreases n,
{
    if n > 0 {
        lemma_bits_of_len(x / 2, (n - 1) as nat);
    }
}

pub proof fn lemma_value_bound(s: Seq<bool>)
    ensures
        value_of(s) < pow2(s.len()),
    decreases s.len(),
{
    if s.len() > 0 {
        lemma_value_bound(s.drop_last());
        lemma_pow2_unfold(s.len());
    } else {
        lemma2_to64();
    }
}

pub proof fn lemma_value_concat(s1: Seq<bool>, s2: Seq<bool>)
    ensures
        value_of(s1 + s2) == value_of(s1) * pow2(s2.len()) + value_of(s2),
    decreases s2.len(),
{
    if s2.len() == 0 {
        assert(s1 + s2 =~= s1);
        lemma2_to64();
    } else {
        let t = s2.drop_last();
        assert((s1 + s2).drop_last() =~= s1 + t);
        assert((s1 + s2).last() == s2.last());
        lemma_value_concat(s1, t);
        lemma_pow2_unfold(s2.len());
        let a = value_of(s1);
        let p = pow2(t.len());
        assert(2 * (a * p + value_of(t)) == a * (2 * p) + 2 * value_of(t)) by (nonlinear_arith);
    }
}

pub proof fn lemma_zeros_value(n: nat)
    ensures
        value_of(zeros(n)) == 0,
    decreases n,
{
    if n > 0 {
        assert(zeros(n).drop_last() =~= zeros((n - 1) as nat));
        lemma_zeros_value((n - 1) as nat);
    }
}

pub proof fn lemma_bits_value(x: nat, n: nat)
    requires
        x < pow2(n),
    ensures
        value_of(bits_of(x, n)) == x,
        bits_of(x, n).len() == n,
    decreases n,
{
    lemma_bits_of_len(x, n);
    if n == 0 {
        lemma2_to64();
    } else {
        lemma_pow2_unfold(n);
        let m = (n - 1) as nat;
        assert(x / 2 < pow2(m));
        lemma_bits_value(x / 2, m);
        let b = bits_of(x, n);
        assert(b.drop_last() =~= bits_of(x / 2, m));
    }
}

/// Bits determine the number: the sequence of `n` bits spelling `value_of(s)` is `s`.
pub proof fn lemma_value_bits(s: Seq<bool>)
    ensures
        bits_of(value_of(s), s.len()) =~= s,
    decreases s.len(),
{
    if s.len() > 0 {
        let t = s.drop_last();
        lemma_value_bits(t);
        let v = value_of(s);
        assert(v / 2 == value_of(t));
        assert(v % 2 == 1 <==> s.last());
        assert(s =~= t.push(s.last()));
    }
}

pub proof fn lemma_bits_concat(x: nat, a: nat, y: nat, b: nat)
    requires
        x < pow2(a),
        y < pow2(b),
    ensures
        bits_of(x * pow2(b) + y, a + b) =~= bits_of(x, a) + bits_of(y, b),
{
    lemma_bits_value(x, a);
    lemma_bits_value(y, b);
    lemma_value_concat(bits_of(x, a), bits_of(y, b));
    lemma_value_bits(bits_of(x, a) + bits_of(y, b));
}

/// The top `n` bits of a 64-bit register spelling `w`.
pub proof fn lemma_window_top(x: u64, w: Seq<bool>, n: nat)
    requires
        w.len() == 64,
        value_of(w) == x,
        1 <= n <= 64,
    ensures
        n < 64 ==> (x >> ((64 - n) as u64)) == value_of(w.take(n as int)),
        n == 64 ==> x == value_of(w.take(n as int)),
        value_of(w.skip(n as int)) == x as nat % pow2((64 - n) as nat),
{
    let hi = w.take(n as int);
    let lo = w.skip(n as int);
    assert(w =~= hi + lo);
    lemma_value_concat(hi, lo);
    lemma_value_bound(lo);
    lemma_pow2_pos(lo.len());
    lemma_fundamental_div_mod_converse(
        x as int,
        pow2(lo.len()) as int,
        value_of(hi) as int,
        value_of(lo) as int,
    );
    if n < 64 {
        lemma_u64_shr_is_div(x, (64 - n) as u64);
    } else {
        assert(lo.len() == 0);
        lemma2_to64();
    }
}

/// Shifting a 64-bit register spelling `w` left by `n` drops the top `n` bits
/// and brings zeros in at the bottom.
pub proof fn lemma_window_shift(x: u64, w: Seq<bool>, n: u64)
    requires
        w.len() == 64,
        value_of(w) == x,
        1 <= n < 64,
    ensures
        (x << n) == value_of(w.skip(n as int) + zeros(n as nat)),
{
    lemma_window_top(x, w, n as nat);
    let lo = w.skip(n as int);
    let k = (64 - n) as u64;
    lemma_u64_pow2_no_overflow(k as nat);
    lemma_u64_pow2_no_overflow(n as nat);
    lemma_u64_shl_is_mul(1, k);
    lemma_u64_shl_is_mul(1, n);
    assert((x << n) == ((x & vstd::prelude::sub(1u64 << k, 1)) << n)) by (bit_vector)
        requires
            k == 64 - n,
            1 <= n < 64,
    ;
    lemma_u64_low_bits_mask_is_mod(x, k as nat);
    assert(low_bits_mask(k as nat) as u64 == vstd::prelude::sub(1u64 << k, 1));
    let r = (x % (pow2(k as nat) as u64)) as u64;
    assert(r == value_of(lo));
    lemma_value_bound(lo);
    lemma_pow2_adds(k as nat, n as nat);
    lemma2_to64_rest();
    lemma_pow2_pos(n as nat);
    lemma_mul_strict_inequality(r as int, pow2(k as nat) as int, pow2(n as nat) as int);
    lemma_u64_shl_is_mul(r, n);
    lemma_value_concat(lo, zeros(n as nat));
    lemma_zeros_value(n as nat);
}

/// Appending `n` bits of `v` to a register holding `len` bits.
pub proof fn lemma_append(out: u64, len: nat, v: u64, n: u64)
    requires
        1 <= n < 64,
        len + n <= 64,
        out < pow2(len),
        v < pow2(n as nat),
    ensures
        ((out << n) | v) == out * pow2(n as nat) + v,
        out * pow2(n as nat) + v < pow2(len + n as nat),
{
    lemma_pow2_adds(len, n as nat);
    lemma_pow2_pos(n as nat);
    lemma_mul_strict_inequality(out as int, pow2(len) as int, pow2(n as nat) as int);
    assert(out * pow2(n as nat) + v < pow2(len + n as nat)) by (nonlinear_arith)
        requires
            out + 1 <= pow2(len),
            v < pow2(n as nat),
            pow2(len + n as nat) == pow2(len) * pow2(n as nat),
    ;
    if len + n < 64 {
        vstd::arithmetic::power2::lemma_pow2_strictly_increases(len + n as nat, 64);
    }
    lemma2_to64_rest();
    lemma_u64_shl_is_mul(out, n);
    lemma_u64_pow2_no_overflow(n as nat);
    lemma_u64_shl_is_mul(1, n);
    let a = (out << n) as u64;
    assert(a == (a >> n) << n) by {
        lemma_u64_shr_is_div(a, n);
        vstd::arithmetic::div_mod::lemma_div_multiples_vanish(out as int, pow2(n as nat) as int);
        assert(a == pow2(n as nat) * out) by (nonlinear_arith)
            requires
                a == out * pow2(n as nat),
        ;
        assert(a as nat / pow2(n as nat) == out);
    }
    assert(((a) | v) == a + v) by (bit_vector)
        requires
            a == (a >> n) << n,
            v < (1u64 << n),
            n < 64,
    ;
}

} // verus!
