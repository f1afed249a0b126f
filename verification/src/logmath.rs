//! Exact integer logarithms and roots over big-integer powers.
//!
//! The logarithmic controller's two conversions are
//! `floor(100 * log(raw) / log(max))` and `trunc(max^(value/100))`.  Both
//! are integers pinned down by comparisons of huge powers — the first is
//! the integer logarithm, base `max`, of `raw^100`, and the second is the
//! largest raw whose hundredth power does not exceed `max^value` — so the
//! library computes them exactly with a small base-2^32 big-integer
//! arithmetic: scalar multiplication, comparison and powers, each verified
//! against the mathematical value of its limb vector.

use vstd::prelude::*;
use vstd::arithmetic::div_mod::{lemma_div_by_multiple, lemma_div_by_self, lemma_div_decreases,
    lemma_div_is_ordered, lemma_fundamental_div_mod, lemma_mod_division_less_than_divisor};
use vstd::arithmetic::logarithm::{log, lemma_log0, lemma_log_s, lemma_log_nonnegative,
    lemma_log_is_ordered, lemma_log_pow};
use vstd::arithmetic::mul::lemma_mul_inequality;
use vstd::arithmetic::power::{pow, lemma1_pow, lemma_pow0, lemma_pow1, lemma_pow_adds,
    lemma_pow_increases, lemma_pow_positive, lemma_pow_strictly_increases};
use vstd::arithmetic::power2::{pow2, lemma_pow2_adds, lemma_pow2_pos,
    lemma_pow2_strictly_increases, lemma2_to64};

verus! {

/// The integer a little-endian vector of 32-bit limbs denotes.
pub open spec fn big_value(s: Seq<u32>) -> int
    decreases s.len(),
{
    if s.len() == 0 {
        0
    } else {
        s[0] + 0x1_0000_0000 * big_value(s.drop_first())
    }
}

/// A limb vector never denotes a negative number.
proof fn lemma_big_value_nonneg(s: Seq<u32>)
    ensures
        big_value(s) >= 0,
    decreases s.len(),
{
    if s.len() > 0 {
        lemma_big_value_nonneg(s.drop_first());
        assert(0x1_0000_0000 * big_value(s.drop_first()) >= 0) by (nonlinear_arith)
            requires
                big_value(s.drop_first()) >= 0,
        ;
    }
}

/// Appending a limb adds its value at the vector's current weight.
proof fn lemma_big_value_push(s: Seq<u32>, x: u32)
    ensures
        big_value(s.push(x)) == big_value(s) + pow2(32 * s.len()) * x,
    decreases s.len(),
{
    lemma2_to64();
    if s.len() == 0 {
        assert(s.push(x).drop_first() =~= Seq::<u32>::empty());
        assert(s.push(x)[0] == x);
        assert(big_value(Seq::<u32>::empty()) == 0);
        assert(big_value(s.push(x)) == x + 0x1_0000_0000 * 0);
        assert(pow2(0) * x == x) by (nonlinear_arith)
            requires
                pow2(0) == 1,
        ;
    } else {
        let t = s.drop_first();
        assert(s.push(x).drop_first() =~= t.push(x));
        assert(s.push(x)[0] == s[0]);
        lemma_big_value_push(t, x);
        lemma_pow2_adds(32, 32 * t.len());
        assert(0x1_0000_0000 * (big_value(t) + pow2(32 * t.len()) * x)
            == 0x1_0000_0000 * big_value(t) + (0x1_0000_0000 * pow2(32 * t.len())) * x)
            by (nonlinear_arith);
        assert(0x1_0000_0000 * pow2(32 * t.len()) == pow2(32 * s.len()));
        assert(big_value(s.push(x)) == s[0] + 0x1_0000_0000 * big_value(t.push(x)));
        assert(big_value(s) == s[0] + 0x1_0000_0000 * big_value(t));
    }
}

/// The denoted value stays below the weight of the next limb.
proof fn lemma_big_value_bound(s: Seq<u32>)
    ensures
        0 <= big_value(s) < pow2(32 * s.len()),
    decreases s.len(),
{
    lemma2_to64();
    if s.len() == 0 {
        assert(big_value(s) == 0);
    } else {
        let t = s.drop_first();
        lemma_big_value_bound(t);
        lemma_pow2_adds(32, 32 * t.len());
        assert(0x1_0000_0000 * big_value(t) <= 0x1_0000_0000 * (pow2(32 * t.len()) - 1));
        assert(0x1_0000_0000 * pow2(32 * t.len()) == pow2(32 * s.len()));
    }
}

/// The vector splits at any position into a low part and a weighted high
/// part.
proof fn lemma_big_value_split(s: Seq<u32>, j: int)
    requires
        0 <= j <= s.len(),
    ensures
        big_value(s) == big_value(s.take(j)) + pow2((32 * j) as nat) * big_value(s.skip(j)),
    decreases j,
{
    lemma2_to64();
    if j == 0 {
        assert(s.take(0) =~= Seq::<u32>::empty());
        assert(big_value(s.take(0)) == 0);
        assert(s.skip(0) =~= s);
        assert(pow2(0) * big_value(s.skip(0)) == big_value(s.skip(0))) by (nonlinear_arith)
            requires
                pow2(0) == 1,
        ;
    } else {
        let t = s.drop_first();
        lemma_big_value_split(t, j - 1);
        assert(s.take(j).drop_first() =~= t.take(j - 1));
        assert(s.take(j)[0] == s[0]);
        assert(s.skip(j) =~= t.skip(j - 1));
        lemma_pow2_adds(32, (32 * (j - 1)) as nat);
        assert(0x1_0000_0000 * (big_value(t.take(j - 1))
                + pow2((32 * (j - 1)) as nat) * big_value(t.skip(j - 1)))
            == 0x1_0000_0000 * big_value(t.take(j - 1))
                + (0x1_0000_0000 * pow2((32 * (j - 1)) as nat)) * big_value(t.skip(j - 1)))
            by (nonlinear_arith);
        assert(0x1_0000_0000 * pow2((32 * (j - 1)) as nat) == pow2((32 * j) as nat));
        assert(big_value(s) == s[0] + 0x1_0000_0000 * big_value(t));
        assert(big_value(s.take(j)) == s[0] + 0x1_0000_0000 * big_value(t.take(j - 1)));
    }
}

/// Zero limbs above a position leave the denoted value untouched.
proof fn lemma_big_value_drop_zeros(s: Seq<u32>, n: int)
    requires
        0 <= n <= s.len(),
        forall |k: int| n <= k < s.len() ==> s[k] == 0,
    ensures
        big_value(s) == big_value(s.take(n)),
    decreases s.len() - n,
{
    if n == s.len() {
        assert(s.take(n) =~= s);
    } else {
        let t = s.drop_last();
        assert(s =~= t.push(s.last()));
        lemma_big_value_push(t, s.last());
        assert(s.last() == 0);
        assert(pow2(32 * t.len()) * 0 == 0) by (nonlinear_arith);
        assert(forall |k: int| n <= k < t.len() ==> t[k] == 0);
        lemma_big_value_drop_zeros(t, n);
        assert(t.take(n) =~= s.take(n));
    }
}

/// Two equally long vectors that agree above a position where one limb is
/// smaller denote ordered values.
proof fn lemma_big_value_lt(a: Seq<u32>, b: Seq<u32>, j: int)
    requires
        a.len() == b.len(),
        0 <= j < a.len(),
        a[j] < b[j],
        forall |k: int| j < k < a.len() ==> a[k] == b[k],
    ensures
        big_value(a) < big_value(b),
{
    lemma_big_value_split(a, j);
    lemma_big_value_split(b, j);
    let sa = a.skip(j);
    let sb = b.skip(j);
    assert(sa.drop_first() =~= sb.drop_first());
    assert(sa[0] == a[j] && sb[0] == b[j]);
    let t = big_value(sa.drop_first());
    lemma_big_value_nonneg(sa.drop_first());
    assert(big_value(sb) >= big_value(sa) + 1);
    lemma_big_value_bound(a.take(j));
    lemma_big_value_nonneg(b.take(j));
    let p = pow2((32 * j) as nat);
    lemma_pow2_pos((32 * j) as nat);
    assert(p * big_value(sa) + p < p * big_value(sb)
        || p * (big_value(sa) + 1) == p * big_value(sb)) by (nonlinear_arith)
        requires
            big_value(sb) >= big_value(sa) + 1,
            p > 0,
    ;
    assert(p * (big_value(sa) + 1) == p * big_value(sa) + p) by (nonlinear_arith);
    lemma_mul_inequality(big_value(sa) + 1, big_value(sb), p as int);
    assert((big_value(sa) + 1) * p == p * (big_value(sa) + 1)) by (nonlinear_arith);
    assert(big_value(sb) * p == p * big_value(sb)) by (nonlinear_arith);
}

/// Multiplies a big integer by a 32-bit scalar.
fn big_mul_small(a: &Vec<u32>, m: u32) -> (r: Vec<u32>)
    ensures
        big_value(r@) == big_value(a@) * (m as int),
{
    let mut out: Vec<u32> = Vec::new();
    let mut carry: u32 = 0;
    let mut i: usize = 0;
    proof {
        assert(a@.take(0) =~= Seq::<u32>::empty());
        assert(big_value(Seq::<u32>::empty()) * (m as int) == 0) by (nonlinear_arith)
            requires
                big_value(Seq::<u32>::empty()) == 0,
        ;
        lemma2_to64();
    }
    while i < a.len()
        invariant
            i <= a@.len(),
            out@.len() == i,
            big_value(out@) + (carry as int) * pow2(32 * (i as nat))
                == big_value(a@.take(i as int)) * (m as int),
        decreases a@.len() - i,
    {
        let ghost prev_out = out@;
        let ghost c_old: int = carry as int;
        proof {
            assert((a@[i as int] as int) * (m as int) <= 0xffff_ffff * 0xffff_ffff
                && (a@[i as int] as int) * (m as int) >= 0) by (nonlinear_arith)
                requires
                    0 <= (a@[i as int] as int) <= 0xffff_ffff,
                    0 <= (m as int) <= 0xffff_ffff,
            ;
        }
        let t: u64 = (a[i] as u64) * (m as u64) + (carry as u64);
        let lo: u64 = t % 0x1_0000_0000;
        let hi: u64 = t / 0x1_0000_0000;
        proof {
            lemma_mod_division_less_than_divisor(t as int, 0x1_0000_0000);
            lemma_div_is_ordered(t as int, 0xffff_ffffint * 0x1_0000_0000, 0x1_0000_0000);
            lemma_div_by_multiple(0xffff_ffffint, 0x1_0000_0000);
            assert(lo < 0x1_0000_0000);
            assert(hi <= 0xffff_ffff);
        }
        out.push(lo as u32);
        carry = hi as u32;
        i = i + 1;
        proof {
            assert(out@ =~= prev_out.push(lo as u32));
            lemma_big_value_push(prev_out, lo as u32);
            lemma_pow2_adds(32 * ((i - 1) as nat), 32);
            lemma2_to64();
            lemma_fundamental_div_mod(t as int, 0x1_0000_0000);
            assert(a@.take(i as int) =~= a@.take((i - 1) as int).push(a@[i - 1]));
            lemma_big_value_push(a@.take((i - 1) as int), a@[i - 1]);
            let p = pow2(32 * ((i - 1) as nat));
            let av: int = a@[i - 1] as int;
            let mm: int = m as int;
            let aa: int = big_value(a@.take((i - 1) as int));
            assert(big_value(prev_out) + (lo as int) * p + (hi as int) * (p * 0x1_0000_0000)
                == (aa + p * av) * mm) by (nonlinear_arith)
                requires
                    big_value(prev_out) + c_old * p == aa * mm,
                    (t as int) == av * mm + c_old,
                    (t as int) == 0x1_0000_0000 * (hi as int) + (lo as int),
            ;
            assert(p * (lo as int) == (lo as int) * p) by (nonlinear_arith);
            assert(big_value(out@) == big_value(prev_out) + (lo as int) * p);
            assert(p * 0x1_0000_0000 == pow2(32 * (i as nat)));
            assert((carry as int) * pow2(32 * (i as nat))
                == (hi as int) * (p * 0x1_0000_0000));
            assert(big_value(a@.take(i as int)) == aa + p * av);
            assert(big_value(out@) + (carry as int) * pow2(32 * (i as nat))
                == big_value(a@.take(i as int)) * mm);
        }
    }
    proof {
        assert(a@.take(a@.len() as int) =~= a@);
    }
    if carry > 0 {
        let ghost pre = out@;
        proof {
            lemma_big_value_push(pre, carry);
            assert(pow2(32 * pre.len()) * (carry as int)
                == (carry as int) * pow2(32 * pre.len())) by (nonlinear_arith);
        }
        out.push(carry);
        proof {
            assert(out@ =~= pre.push(carry));
        }
    } else {
        proof {
            assert((carry as int) * pow2(32 * (a@.len() as nat)) == 0) by (nonlinear_arith)
                requires
                    carry as int == 0,
            ;
        }
    }
    out
}

/// Whether one big integer is at most another, decided limb-wise from the
/// top after ignoring leading zero limbs.
fn big_le(a: &Vec<u32>, b: &Vec<u32>) -> (r: bool)
    ensures
        r == (big_value(a@) <= big_value(b@)),
{
    let mut na: usize = a.len();
    while na > 0 && a[na - 1] == 0
        invariant
            na <= a@.len(),
            forall |k: int| na <= k < a@.len() ==> a@[k] == 0,
        decreases na,
    {
        na = na - 1;
    }
    let mut nb: usize = b.len();
    while nb > 0 && b[nb - 1] == 0
        invariant
            nb <= b@.len(),
            forall |k: int| nb <= k < b@.len() ==> b@[k] == 0,
        decreases nb,
    {
        nb = nb - 1;
    }
    proof {
        lemma_big_value_drop_zeros(a@, na as int);
        lemma_big_value_drop_zeros(b@, nb as int);
    }
    if na != nb {
        proof {
            if na < nb {
                lemma_big_value_bound(a@.take(na as int));
                lemma_big_value_split(b@.take(nb as int), nb - 1);
                lemma_big_value_nonneg(b@.take(nb as int).take(nb - 1));
                let single: Seq<u32> = seq![b@[nb - 1]];
                assert(b@.take(nb as int).skip(nb - 1) =~= single);
                assert(single.drop_first() =~= Seq::<u32>::empty());
                assert(big_value(Seq::<u32>::empty()) == 0);
                assert(single[0] == b@[nb - 1]);
                assert(big_value(single) == b@[nb - 1] + 0x1_0000_0000 * 0);
                let p = pow2((32 * (nb - 1)) as nat);
                lemma_pow2_pos((32 * (nb - 1)) as nat);
                assert(p * big_value(single) >= p * 1) by (nonlinear_arith)
                    requires
                        p > 0,
                        big_value(single) >= 1,
                ;
                assert(p * 1 == p) by (nonlinear_arith);
                if 32 * (na as nat) < (32 * (nb - 1)) as nat {
                    lemma_pow2_strictly_increases(32 * (na as nat), (32 * (nb - 1)) as nat);
                }
            } else {
                lemma_big_value_bound(b@.take(nb as int));
                lemma_big_value_split(a@.take(na as int), na - 1);
                lemma_big_value_nonneg(a@.take(na as int).take(na - 1));
                let single: Seq<u32> = seq![a@[na - 1]];
                assert(a@.take(na as int).skip(na - 1) =~= single);
                assert(single.drop_first() =~= Seq::<u32>::empty());
                assert(big_value(Seq::<u32>::empty()) == 0);
                assert(single[0] == a@[na - 1]);
                assert(big_value(single) == a@[na - 1] + 0x1_0000_0000 * 0);
                let p = pow2((32 * (na - 1)) as nat);
                lemma_pow2_pos((32 * (na - 1)) as nat);
                assert(p * big_value(single) >= p * 1) by (nonlinear_arith)
                    requires
                        p > 0,
                        big_value(single) >= 1,
                ;
                assert(p * 1 == p) by (nonlinear_arith);
                if 32 * (nb as nat) < (32 * (na - 1)) as nat {
                    lemma_pow2_strictly_increases(32 * (nb as nat), (32 * (na - 1)) as nat);
                }
            }
        }
        return na < nb;
    }
    let mut j: usize = na;
    while j > 0
        invariant
            j <= na,
            na == nb,
            na <= a@.len(),
            nb <= b@.len(),
            forall |k: int| j <= k < na ==> a@[k] == b@[k],
            big_value(a@) == big_value(a@.take(na as int)),
            big_value(b@) == big_value(b@.take(nb as int)),
        decreases j,
    {
        j = j - 1;
        if a[j] < b[j] {
            proof {
                assert forall |k: int| j < k < na
                    implies a@.take(na as int)[k] == b@.take(nb as int)[k] by {
                    assert(a@[k] == b@[k]);
                }
                lemma_big_value_lt(a@.take(na as int), b@.take(nb as int), j as int);
            }
            return true;
        }
        if a[j] > b[j] {
            proof {
                assert forall |k: int| j < k < na
                    implies b@.take(nb as int)[k] == a@.take(na as int)[k] by {
                    assert(a@[k] == b@[k]);
                }
                lemma_big_value_lt(b@.take(nb as int), a@.take(na as int), j as int);
            }
            return false;
        }
    }
    proof {
        assert(a@.take(na as int) =~= b@.take(nb as int));
    }
    true
}

/// Raises a 32-bit base to a 32-bit exponent as a big integer.
fn big_pow(x: u32, e: u32) -> (r: Vec<u32>)
    ensures
        big_value(r@) == pow(x as int, e as nat),
{
    let mut r: Vec<u32> = Vec::new();
    r.push(1);
    proof {
        assert(r@.drop_first() =~= Seq::<u32>::empty());
        assert(big_value(Seq::<u32>::empty()) == 0);
        assert(r@[0] == 1);
        assert(big_value(r@) == 1 + 0x1_0000_0000 * 0);
        lemma_pow0(x as int);
    }
    let mut i: u32 = 0;
    while i < e
        invariant
            i <= e,
            big_value(r@) == pow(x as int, i as nat),
        decreases e - i,
    {
        r = big_mul_small(&r, x);
        proof {
            lemma_pow_adds(x as int, i as nat, 1);
            lemma_pow1(x as int);
        }
        i = i + 1;
    }
    r
}

/// A non-negative base keeps every power non-negative.
pub proof fn lemma_pow_nonneg(a: int, e: nat)
    requires
        0 <= a,
    ensures
        0 <= pow(a, e),
    decreases e,
{
    if e == 0 {
        lemma_pow0(a);
    } else {
        lemma_pow_nonneg(a, (e - 1) as nat);
        lemma_pow_adds(a, 1, (e - 1) as nat);
        lemma_pow1(a);
        assert(a * pow(a, (e - 1) as nat) >= 0) by (nonlinear_arith)
            requires
                a >= 0,
                pow(a, (e - 1) as nat) >= 0,
        ;
    }
}

/// Raising a larger base to the same exponent never yields less.
pub proof fn lemma_pow_base_le(a: int, b: int, e: nat)
    requires
        0 <= a <= b,
    ensures
        pow(a, e) <= pow(b, e),
    decreases e,
{
    if e == 0 {
        lemma_pow0(a);
        lemma_pow0(b);
    } else {
        lemma_pow_base_le(a, b, (e - 1) as nat);
        lemma_pow_nonneg(a, (e - 1) as nat);
        lemma_pow_adds(a, 1, (e - 1) as nat);
        lemma_pow1(a);
        lemma_pow_adds(b, 1, (e - 1) as nat);
        lemma_pow1(b);
        assert(a * pow(a, (e - 1) as nat) <= b * pow(b, (e - 1) as nat)) by (nonlinear_arith)
            requires
                0 <= a <= b,
                0 <= pow(a, (e - 1) as nat) <= pow(b, (e - 1) as nat),
        ;
    }
}

/// A strictly larger base strictly enlarges any positive power.
pub proof fn lemma_pow_base_lt(a: int, b: int, e: nat)
    requires
        0 <= a < b,
        1 <= e,
    ensures
        pow(a, e) < pow(b, e),
{
    lemma_pow_base_le(a, b, (e - 1) as nat);
    lemma_pow_nonneg(a, (e - 1) as nat);
    lemma_pow_positive(b, (e - 1) as nat);
    lemma_pow_adds(a, 1, (e - 1) as nat);
    lemma_pow1(a);
    lemma_pow_adds(b, 1, (e - 1) as nat);
    lemma_pow1(b);
    assert(a * pow(a, (e - 1) as nat) < b * pow(b, (e - 1) as nat)) by (nonlinear_arith)
        requires
            0 <= a,
            a < b,
            0 <= pow(a, (e - 1) as nat) <= pow(b, (e - 1) as nat),
            1 <= pow(b, (e - 1) as nat),
    ;
}

/// The integer logarithm never overshoots: its power stays at or below the
/// argument.
proof fn lemma_log_lower(base: int, x: int)
    requires
        2 <= base,
        1 <= x,
    ensures
        0 <= log(base, x),
        pow(base, log(base, x) as nat) <= x,
    decreases x,
{
    lemma_log_nonnegative(base, x);
    if x < base {
        lemma_log0(base, x);
        lemma_pow0(base);
    } else {
        lemma_log_s(base, x);
        lemma_div_is_ordered(base, x, base);
        lemma_div_by_self(base);
        lemma_div_decreases(x, base);
        lemma_log_lower(base, x / base);
        let l = log(base, x / base);
        lemma_pow_adds(base, 1, l as nat);
        lemma_pow1(base);
        lemma_mul_inequality(pow(base, l as nat), x / base, base);
        lemma_fundamental_div_mod(x, base);
        lemma_mod_division_less_than_divisor(x, base);
        assert(pow(base, l as nat) * base == base * pow(base, l as nat)) by (nonlinear_arith);
        assert((x / base) * base == base * (x / base)) by (nonlinear_arith);
    }
}

/// The next power above the integer logarithm exceeds the argument.
proof fn lemma_log_upper(base: int, x: int)
    requires
        2 <= base,
        1 <= x,
    ensures
        x < pow(base, (log(base, x) + 1) as nat),
    decreases x,
{
    lemma_log_nonnegative(base, x);
    if x < base {
        lemma_log0(base, x);
        lemma_pow1(base);
    } else {
        lemma_log_s(base, x);
        lemma_div_is_ordered(base, x, base);
        lemma_div_by_self(base);
        lemma_div_decreases(x, base);
        lemma_log_upper(base, x / base);
        let l = log(base, x / base);
        lemma_pow_adds(base, 1, (l + 1) as nat);
        lemma_pow1(base);
        lemma_mul_inequality(x / base, pow(base, (l + 1) as nat) - 1, base);
        lemma_fundamental_div_mod(x, base);
        lemma_mod_division_less_than_divisor(x, base);
        assert((x / base) * base == base * (x / base)) by (nonlinear_arith);
        assert((pow(base, (l + 1) as nat) - 1) * base
            == base * pow(base, (l + 1) as nat) - base) by (nonlinear_arith);
    }
}

/// Power bounds on both sides pin the integer logarithm down exactly.
proof fn lemma_log_unique(base: int, x: int, n: nat)
    requires
        2 <= base,
        pow(base, n) <= x,
        x < pow(base, n + 1),
    ensures
        log(base, x) == n,
{
    lemma_pow_positive(base, n);
    lemma_log_lower(base, x);
    lemma_log_upper(base, x);
    let l = log(base, x) as nat;
    if l < n {
        lemma_pow_increases(base as nat, l + 1, n);
        assert(pow(base, l + 1) <= pow(base, n));
    } else if l > n {
        lemma_pow_increases(base as nat, n + 1, l);
        assert(pow(base, n + 1) <= pow(base, l));
    }
}

/// The percentage the logarithmic scale shows for a raw value:
/// `floor(100 * log(brightness) / log(max))`, written without fractions as
/// the integer logarithm, base `max`, of `brightness^100`.
///
/// A raw value of 0 has no logarithm; it is pinned to 0 rather than left to
/// an undefined cast.  A value at or above the ceiling shows 100.
pub open spec fn log_from_raw(brightness: int, max: int) -> int {
    if brightness <= 0 {
        0
    } else if brightness >= max {
        100
    } else {
        log(max, pow(brightness, 100))
    }
}

/// The raw value the logarithmic scale writes for a percentage:
/// `trunc(max^(value/100))`, characterized without fractions as the largest
/// raw whose hundredth power does not exceed `max^value`.  An empty raw
/// range (ceiling 0) pins the target to 0.
pub open spec fn is_log_raw_target(w: int, value: int, max: int) -> bool {
    if max <= 0 {
        w == 0
    } else {
        &&& 1 <= w <= max
        &&& pow(w, 100) <= pow(max, value as nat)
        &&& forall |r2: int| w < r2 ==> pow(r2, 100) > pow(max, value as nat)
    }
}

/// The logarithmic percentage always lies in `[0, 100]`.
pub proof fn lemma_log_from_raw_bounds(b: int, max: int)
    ensures
        0 <= log_from_raw(b, max) <= 100,
{
    if b <= 0 || b >= max {
    } else {
        lemma_pow_positive(b, 100);
        lemma_log_nonnegative(max, pow(b, 100));
        lemma_pow_base_le(b, max, 100);
        lemma_pow_nonneg(b, 100);
        lemma_log_is_ordered(max, pow(b, 100), pow(max, 100));
        lemma_log_pow(max, 100);
    }
}

/// The logarithmic percentage never falls as the raw value rises.
pub proof fn lemma_log_from_raw_mono(b1: int, b2: int, max: int)
    requires
        b1 <= b2,
    ensures
        log_from_raw(b1, max) <= log_from_raw(b2, max),
{
    lemma_log_from_raw_bounds(b1, max);
    lemma_log_from_raw_bounds(b2, max);
    if b1 <= 0 || b2 >= max {
    } else {
        lemma_pow_base_le(b1, b2, 100);
        lemma_pow_positive(b1, 100);
        lemma_log_is_ordered(max, pow(b1, 100), pow(b2, 100));
    }
}

/// The integer logarithm, base `max`, of `raw^100`, found by growing the
/// tracked power of `max` while it stays within `raw^100`.
pub fn log_percent(raw: u32, max: u32) -> (r: u32)
    requires
        1 <= raw,
        raw < max,
    ensures
        r as int == log(max as int, pow(raw as int, 100)),
        r <= 100,
{
    let target = big_pow(raw, 100);
    let mut p: Vec<u32> = Vec::new();
    p.push(1);
    proof {
        assert(p@.drop_first() =~= Seq::<u32>::empty());
        assert(big_value(Seq::<u32>::empty()) == 0);
        assert(p@[0] == 1);
        assert(big_value(p@) == 1 + 0x1_0000_0000 * 0);
        lemma_pow0(max as int);
        lemma_pow_positive(raw as int, 100);
        lemma_pow_base_lt(raw as int, max as int, 100);
    }
    let mut k: u32 = 0;
    let mut done = false;
    while !done && k < 100
        invariant
            1 <= raw < max,
            big_value(target@) == pow(raw as int, 100),
            big_value(p@) == pow(max as int, k as nat),
            pow(max as int, k as nat) <= pow(raw as int, 100),
            pow(raw as int, 100) < pow(max as int, 100),
            k <= 100,
            done ==> pow(raw as int, 100) < pow(max as int, (k + 1) as nat),
        decreases 100 - k + (if done { 0int } else { 1 }),
    {
        let p2 = big_mul_small(&p, max);
        proof {
            lemma_pow_adds(max as int, k as nat, 1);
            lemma_pow1(max as int);
        }
        if big_le(&p2, &target) {
            p = p2;
            k = k + 1;
        } else {
            done = true;
        }
    }
    proof {
        if !done {
            assert(k == 100);
            assert(false);
        }
        lemma_pow_positive(raw as int, 100);
        lemma_log_unique(max as int, pow(raw as int, 100), k as nat);
    }
    k
}

/// The truncated hundredth root of `max^value`: the largest raw whose
/// hundredth power does not exceed it, found by binary search.
pub fn log_raw_target(value: u32, max: u32) -> (r: u32)
    requires
        value <= 100,
        1 <= max,
    ensures
        is_log_raw_target(r as int, value as int, max as int),
        r <= max,
{
    if value == 100 {
        proof {
            assert forall |r2: int| max < r2
                implies pow(r2, 100) > pow(max as int, 100) by {
                lemma_pow_base_lt(max as int, r2, 100);
            }
        }
        return max;
    }
    if max == 1 {
        proof {
            lemma1_pow(100);
            lemma1_pow(value as nat);
            assert forall |r2: int| 1 < r2
                implies pow(r2, 100) > pow(1int, value as nat) by {
                lemma_pow_base_lt(1, r2, 100);
            }
        }
        return 1;
    }
    let target = big_pow(max, value);
    let mut lo: u32 = 1;
    let mut hi: u32 = max;
    proof {
        lemma_pow_positive(max as int, value as nat);
        lemma1_pow(100);
        lemma_pow_strictly_increases(max as nat, value as nat, 100);
    }
    while lo + 1 < hi
        invariant
            1 <= lo < hi <= max,
            2 <= max,
            value < 100,
            big_value(target@) == pow(max as int, value as nat),
            pow(lo as int, 100) <= pow(max as int, value as nat),
            pow(hi as int, 100) > pow(max as int, value as nat),
        decreases hi - lo,
    {
        let mid = lo + (hi - lo) / 2;
        let pm = big_pow(mid, 100);
        if big_le(&pm, &target) {
            lo = mid;
        } else {
            hi = mid;
        }
    }
    proof {
        assert forall |r2: int| lo < r2
            implies pow(r2, 100) > pow(max as int, value as nat) by {
            lemma_pow_base_le(hi as int, r2, 100);
        }
    }
    lo
}

} // verus!
