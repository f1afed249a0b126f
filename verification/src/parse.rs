//! The text form of a brightness value: parsing the decimal contents of a
//! device attribute file, and producing the decimal bytes a write puts
//! there.
//!
//! A device file holds an ASCII decimal integer, possibly wrapped in
//! whitespace (a trailing newline in particular).  Parsing follows the
//! usual decimal rules: optional surrounding whitespace, an optional sign,
//! one or more digits, and a value that fits a 32-bit signed integer;
//! anything else is a parse error, which callers treat as an unrecoverable
//! environment error.

use vstd::prelude::*;

verus! {

/// ASCII whitespace: the space byte and the five ASCII control blanks.
/// Device attribute files hold ASCII text, so no other blank can occur.
pub open spec fn is_ascii_space(b: u8) -> bool {
    b == 32 || b == 9 || b == 10 || b == 11 || b == 12 || b == 13
}

/// An ASCII decimal digit.
pub open spec fn is_ascii_digit(b: u8) -> bool {
    48 <= b <= 57
}

/// Every byte of the run is a digit.
pub open spec fn all_digits(s: Seq<u8>) -> bool {
    forall |i: int| 0 <= i < s.len() ==> is_ascii_digit(#[trigger] s[i])
}

/// The value of a most-significant-first digit run.
pub open spec fn digits_value(s: Seq<u8>) -> int
    decreases s.len(),
{
    if s.len() == 0 {
        0
    } else {
        digits_value(s.drop_last()) * 10 + (s.last() - 48)
    }
}

/// The run with its leading whitespace removed.
pub open spec fn trim_front(s: Seq<u8>) -> Seq<u8>
    decreases s.len(),
{
    if s.len() > 0 && is_ascii_space(s[0]) {
        trim_front(s.drop_first())
    } else {
        s
    }
}

/// The run with its trailing whitespace removed.
pub open spec fn trim_back(s: Seq<u8>) -> Seq<u8>
    decreases s.len(),
{
    if s.len() > 0 && is_ascii_space(s.last()) {
        trim_back(s.drop_last())
    } else {
        s
    }
}

/// The run with whitespace removed from both ends.
pub open spec fn trimmed(s: Seq<u8>) -> Seq<u8> {
    trim_back(trim_front(s))
}

/// The trimmed run behind its optional sign byte.
pub open spec fn unsigned_part(t: Seq<u8>) -> Seq<u8> {
    if t.len() > 0 && (t[0] == 43 || t[0] == 45) {
        t.drop_first()
    } else {
        t
    }
}

/// The sign the optional sign byte denotes: `-1` for a leading minus.
pub open spec fn sign_of(t: Seq<u8>) -> int {
    if t.len() > 0 && t[0] == 45 {
        -1
    } else {
        1
    }
}

/// A well-formed numeral: an optional sign followed by at least one digit.
pub open spec fn is_numeral(t: Seq<u8>) -> bool {
    unsigned_part(t).len() > 0 && all_digits(unsigned_part(t))
}

/// The integer a well-formed numeral denotes.
pub open spec fn numeral_value(t: Seq<u8>) -> int {
    sign_of(t) * digits_value(unsigned_part(t))
}

/// Whether the raw file contents parse as a 32-bit signed integer.
pub open spec fn parses_to_i32(s: Seq<u8>) -> bool {
    is_numeral(trimmed(s)) && -0x8000_0000 <= numeral_value(trimmed(s)) <= 0x7fff_ffff
}

/// A digit run's value is never negative.
pub proof fn lemma_digits_value_nonneg(s: Seq<u8>)
    requires
        all_digits(s),
    ensures
        digits_value(s) >= 0,
    decreases s.len(),
{
    if s.len() > 0 {
        assert(all_digits(s.drop_last())) by {
            assert forall |i: int| 0 <= i < s.len() - 1
                implies is_ascii_digit(#[trigger] s.drop_last()[i]) by {
                assert(is_ascii_digit(s[i]));
            }
        }
        lemma_digits_value_nonneg(s.drop_last());
    }
}

/// Skipping a run of leading whitespace is what `trim_front` does.
proof fn lemma_trim_front_skip(s: Seq<u8>, a: int)
    requires
        0 <= a <= s.len(),
        forall |k: int| 0 <= k < a ==> is_ascii_space(#[trigger] s[k]),
        a == s.len() || !is_ascii_space(s[a]),
    ensures
        trim_front(s) == s.skip(a),
    decreases a,
{
    if a == 0 {
        assert(s.skip(0) =~= s);
    } else {
        assert(is_ascii_space(s[0]));
        let t = s.drop_first();
        assert forall |k: int| 0 <= k < a - 1
            implies is_ascii_space(#[trigger] t[k]) by {
            assert(is_ascii_space(s[k + 1]));
        }
        lemma_trim_front_skip(t, a - 1);
        assert(t.skip(a - 1) =~= s.skip(a));
    }
}

/// Dropping a run of trailing whitespace is what `trim_back` does.
proof fn lemma_trim_back_take(t: Seq<u8>, b: int)
    requires
        0 <= b <= t.len(),
        forall |k: int| b <= k < t.len() ==> is_ascii_space(#[trigger] t[k]),
        b == 0 || !is_ascii_space(t[b - 1]),
    ensures
        trim_back(t) == t.take(b),
    decreases t.len(),
{
    if b == t.len() {
        if t.len() == 0 {
            assert(t.take(0) =~= t);
        } else {
            assert(!is_ascii_space(t.last()));
            assert(t.take(b) =~= t);
        }
    } else {
        assert(is_ascii_space(t.last()));
        let u = t.drop_last();
        assert forall |k: int| b <= k < u.len()
            implies is_ascii_space(#[trigger] u[k]) by {
            assert(is_ascii_space(t[k]));
        }
        lemma_trim_back_take(u, b);
        assert(u.take(b) =~= t.take(b));
    }
}

/// Ten to the `n`th power.
pub open spec fn pow10(n: nat) -> int
    decreases n,
{
    if n == 0 {
        1
    } else {
        10 * pow10((n - 1) as nat)
    }
}

/// The value of a least-significant-first digit run.
pub open spec fn rev_value(s: Seq<u8>) -> int
    decreases s.len(),
{
    if s.len() == 0 {
        0
    } else {
        (s[0] - 48) + 10 * rev_value(s.drop_first())
    }
}

/// Appending a digit at the high end adds its weighted value.
proof fn lemma_rev_push(s: Seq<u8>, x: u8)
    ensures
        rev_value(s.push(x)) == rev_value(s) + (x - 48) * pow10(s.len()),
    decreases s.len(),
{
    if s.len() == 0 {
        assert(s.push(x).drop_first() =~= Seq::<u8>::empty());
        assert(s.push(x)[0] == x);
        assert(rev_value(Seq::<u8>::empty()) == 0);
        assert(pow10(0) == 1);
        assert((x - 48) * 1 == x - 48) by (nonlinear_arith);
    } else {
        let t = s.drop_first();
        assert(s.push(x).drop_first() =~= t.push(x));
        assert(s.push(x)[0] == s[0]);
        lemma_rev_push(t, x);
        assert(rev_value(s.push(x)) == (s[0] - 48) + 10 * rev_value(t.push(x)));
        assert(rev_value(t.push(x)) == rev_value(t) + (x - 48) * pow10(t.len()));
        assert(pow10(s.len()) == 10 * pow10(t.len()));
        assert(rev_value(s) == (s[0] - 48) + 10 * rev_value(t));
        assert(10 * ((x - 48) * pow10(t.len()))
            == (x - 48) * (10 * pow10(t.len()))) by (nonlinear_arith);
    }
}

/// Reading a least-significant-first run backwards gives the usual value.
proof fn lemma_digits_reverse(s: Seq<u8>)
    ensures
        digits_value(s.reverse()) == rev_value(s),
    decreases s.len(),
{
    if s.len() == 0 {
        assert(s.reverse() =~= s);
    } else {
        assert(s.reverse().drop_last() =~= s.drop_first().reverse());
        assert(s.reverse().last() == s[0]);
        lemma_digits_reverse(s.drop_first());
    }
}

/// The canonical decimal bytes of a non-negative raw value: exactly what a
/// successful set operation writes into the `brightness` file.
pub fn format_raw_value(v: i32) -> (r: Vec<u8>)
    requires
        v >= 0,
    ensures
        all_digits(r@),
        r@.len() > 0,
        digits_value(r@) == v as int,
        r@.len() > 1 ==> r@[0] != 48,
{
    let mut tmp: Vec<u8> = Vec::new();
    let mut n: u32 = v as u32;
    if n == 0 {
        let mut out: Vec<u8> = Vec::new();
        out.push(48);
        proof {
            assert(out@.drop_last() =~= Seq::<u8>::empty());
            assert(digits_value(Seq::<u8>::empty()) == 0);
            assert(out@.last() == 48);
        }
        return out;
    }
    while n > 0
        invariant
            v as int == n * pow10(tmp@.len()) + rev_value(tmp@),
            forall |k: int| 0 <= k < tmp@.len() ==> is_ascii_digit(#[trigger] tmp@[k]),
            n == 0 && tmp@.len() > 0 ==> tmp@.last() != 48,
        decreases n,
    {
        let ghost old_tmp = tmp@;
        let ghost old_n = n as int;
        let d: u32 = n % 10;
        let c: u8 = 48 + (d as u8);
        tmp.push(c);
        n = n / 10;
        proof {
            lemma_rev_push(old_tmp, c);
            assert((10 * (old_n / 10) + old_n % 10) * pow10(old_tmp.len())
                == (old_n / 10) * (10 * pow10(old_tmp.len()))
                    + (old_n % 10) * pow10(old_tmp.len())) by (nonlinear_arith);
            assert(old_n == 10 * (old_n / 10) + old_n % 10);
            assert(rev_value(tmp@) == rev_value(old_tmp) + (c - 48) * pow10(old_tmp.len()));
        }
    }
    let mut out: Vec<u8> = Vec::new();
    let mut j: usize = tmp.len();
    while j > 0
        invariant
            j <= tmp@.len(),
            out@.len() == tmp@.len() - j,
            forall |k: int| 0 <= k < out@.len()
                ==> out@[k] == tmp@[tmp@.len() - 1 - k],
        decreases j,
    {
        j = j - 1;
        out.push(tmp[j]);
    }
    proof {
        assert(out@ =~= tmp@.reverse());
        lemma_digits_reverse(tmp@);
        assert(out@[0] == tmp@.last());
        assert forall |k: int| 0 <= k < out@.len()
            implies is_ascii_digit(#[trigger] out@[k]) by {
            assert(is_ascii_digit(tmp@[tmp@.len() - 1 - k]));
        }
    }
    out
}

/// A bare digit run, as the formatter writes it, parses back to its own
/// value: no byte of it is whitespace or a sign, so trimming and sign
/// splitting leave it whole.
pub proof fn lemma_digits_parse(s: Seq<u8>)
    requires
        all_digits(s),
        s.len() > 0,
        digits_value(s) <= 0x7fff_ffff,
    ensures
        parses_to_i32(s),
        numeral_value(trimmed(s)) == digits_value(s),
{
    assert(!is_ascii_space(s[0]));
    assert(!is_ascii_space(s.last()));
    assert(trim_front(s) == s);
    assert(trim_back(s) == s);
    assert(s[0] != 43 && s[0] != 45);
    assert(unsigned_part(s) == s);
    lemma_digits_value_nonneg(s);
}

/// Parses the contents of a device attribute file as a 32-bit integer.
///
/// Succeeds on exactly the byte runs that hold a well-formed decimal
/// numeral in range once surrounding whitespace is removed, and then
/// returns the value that numeral denotes.
pub fn parse_raw_value(s: &[u8]) -> (r: Option<i32>)
    ensures
        r is Some <==> parses_to_i32(s@),
        r is Some ==> r->0 as int == numeral_value(trimmed(s@)),
{
    let n: usize = s.len();
    let mut a: usize = 0;
    while a < n && (s[a] == 32 || (9 <= s[a] && s[a] <= 13))
        invariant
            n == s@.len(),
            a <= n,
            forall |k: int| 0 <= k < a ==> is_ascii_space(#[trigger] s@[k]),
        decreases n - a,
    {
        a = a + 1;
    }
    let mut b: usize = n;
    while b > a && (s[b - 1] == 32 || (9 <= s[b - 1] && s[b - 1] <= 13))
        invariant
            n == s@.len(),
            a <= b <= n,
            forall |k: int| 0 <= k < a ==> is_ascii_space(#[trigger] s@[k]),
            a == n || !is_ascii_space(s@[a as int]),
            forall |k: int| b <= k < n ==> is_ascii_space(#[trigger] s@[k]),
        decreases b,
    {
        b = b - 1;
    }
    proof {
        lemma_trim_front_skip(s@, a as int);
        if b == a {
            lemma_trim_back_take(s@.skip(a as int), 0);
        } else {
            assert forall |k: int| b - a <= k < s@.skip(a as int).len()
                implies is_ascii_space(#[trigger] s@.skip(a as int)[k]) by {
                assert(is_ascii_space(s@[k + a]));
            }
            assert(s@.skip(a as int)[b - a - 1] == s@[b - 1]);
            lemma_trim_back_take(s@.skip(a as int), b - a);
        }
        assert(s@.skip(a as int).take(b - a) =~= s@.subrange(a as int, b as int));
    }
    let ghost core = trimmed(s@);
    proof {
        assert(core =~= s@.subrange(a as int, b as int));
    }
    if a == b {
        // nothing but whitespace: no numeral at all
        return None;
    }
    let mut neg: bool = false;
    let mut d0: usize = a;
    if s[a] == 43 || s[a] == 45 {
        neg = s[a] == 45;
        d0 = a + 1;
    }
    let ghost digits = s@.subrange(d0 as int, b as int);
    proof {
        assert(unsigned_part(core) =~= digits);
        assert(sign_of(core) == if neg { -1int } else { 1int });
    }
    if d0 == b {
        // a sign with no digits behind it
        return None;
    }
    let mut acc: u64 = 0;
    let mut i: usize = d0;
    // the accumulator saturates at 2^32, safely above both i32 bounds
    while i < b
        invariant
            n == s@.len(),
            d0 <= i <= b <= n,
            digits == s@.subrange(d0 as int, b as int),
            digits == unsigned_part(trimmed(s@)),
            sign_of(trimmed(s@)) == if neg { -1int } else { 1int },
            digits.len() > 0,
            forall |k: int| d0 <= k < i ==> is_ascii_digit(#[trigger] s@[k]),
            acc <= 0x1_0000_0000,
            ({
                let v = digits_value(s@.subrange(d0 as int, i as int));
                acc == if v <= 0x1_0000_0000 { v } else { 0x1_0000_0000int }
            }),
        decreases b - i,
    {
        let c = s[i];
        if !(48 <= c && c <= 57) {
            proof {
                assert(digits[i - d0] == s@[i as int]);
                assert(!is_ascii_digit(digits[i - d0]));
                assert(!all_digits(digits));
                assert(unsigned_part(trimmed(s@)) == digits);
                assert(!parses_to_i32(s@));
            }
            return None;
        }
        let ghost prev = s@.subrange(d0 as int, i as int);
        let ghost v = digits_value(prev);
        proof {
            assert(s@.subrange(d0 as int, i + 1).drop_last() =~= prev);
            assert(s@.subrange(d0 as int, i + 1).last() == s@[i as int]);
            assert(all_digits(prev));
            lemma_digits_value_nonneg(prev);
        }
        let next: u64 = acc * 10 + ((c - 48) as u64);
        if next > 0x1_0000_0000 {
            acc = 0x1_0000_0000;
        } else {
            acc = next;
        }
        proof {
            let v1 = digits_value(s@.subrange(d0 as int, i + 1));
            assert(v1 == v * 10 + (s@[i as int] - 48));
            if v > 0x1_0000_0000 {
                assert(v * 10 + (s@[i as int] - 48) > 0x1_0000_0000);
            }
        }
        i = i + 1;
    }
    proof {
        assert(s@.subrange(d0 as int, b as int) =~= digits);
        assert(all_digits(digits));
        lemma_digits_value_nonneg(digits);
        assert(is_numeral(core));
    }
    let ghost mag = digits_value(digits);
    if neg {
        if acc > 0x8000_0000 {
            proof {
                assert(numeral_value(core) == -1 * mag);
                assert(mag > 0x8000_0000);
            }
            None
        } else {
            proof {
                assert(numeral_value(core) == -1 * mag);
                assert(mag == acc as int);
            }
            Some((-(acc as i64)) as i32)
        }
    } else {
        if acc > 0x7fff_ffff {
            proof {
                assert(numeral_value(core) == 1 * mag);
            }
            None
        } else {
            proof {
                assert(numeral_value(core) == 1 * mag);
            }
            Some(acc as i32)
        }
    }
}

} // verus!
