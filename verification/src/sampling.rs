//! The sampling decision for sampled counters.
//!
//! The rate travels as decimal text. A uniform random draw from
//! `[0, 2^32)` stands for the real number `draw / 2^32` in `[0, 1)`, and
//! a counter is emitted exactly when that number falls below the rate:
//! rate `1` (or more) always emits, rate `0` (or less) never does.

use crate::text::{
    all_digits, digit_val, digits_int, find_from, first_ix, is_digit, is_value,
    lemma_digits_int_bounds, lemma_digits_int_snoc, lemma_digits_int_split, lemma_first_ix,
    lemma_first_ix_unique, lemma_pow10_pos, pow10,
};
use vstd::arithmetic::div_mod::lemma_fundamental_div_mod;
use vstd::prelude::*;

verus! {

/// Whether the rate text denotes a negative number.
pub open spec fn val_negative(s: Seq<char>) -> bool {
    s.len() > 0 && s[0] == '-'
}

/// The rate text with its sign stripped.
pub open spec fn val_body(s: Seq<char>) -> Seq<char> {
    if val_negative(s) {
        s.subrange(1, s.len() as int)
    } else {
        s
    }
}

/// The digits before the dot.
pub open spec fn val_int_part(s: Seq<char>) -> Seq<char> {
    val_body(s).subrange(0, first_ix(val_body(s), '.'))
}

/// The digits after the dot, empty when there is no dot.
pub open spec fn val_frac_part(s: Seq<char>) -> Seq<char> {
    let b = val_body(s);
    let d = first_ix(b, '.');
    if d < b.len() {
        b.subrange(d + 1, b.len() as int)
    } else {
        Seq::empty()
    }
}

/// Whether a uniform draw from `[0, 2^32)`, read as the real number
/// `draw / 2^32`, falls strictly below the rate that `s` denotes:
/// `draw / 2^32 < int.frac`, cross-multiplied into integers.
pub open spec fn sample_accepted(draw: u32, s: Seq<char>) -> bool {
    let f = val_frac_part(s).len();
    !val_negative(s) && (draw as int) * pow10(f) < (digits_int(val_int_part(s)) * pow10(f)
        + digits_int(val_frac_part(s))) * 0x1_0000_0000
}

/// A valid value splits into a non-empty digit string before the dot and
/// a digit string after it.
pub proof fn lemma_value_parts(s: Seq<char>)
    requires
        is_value(s),
    ensures
        val_int_part(s).len() >= 1,
        all_digits(val_int_part(s)),
        all_digits(val_frac_part(s)),
{
    let b = val_body(s);
    let ip = val_int_part(s);
    let fp = val_frac_part(s);
    if b.len() > 0 && all_digits(b) {
        lemma_first_ix(b, '.');
        if first_ix(b, '.') < b.len() {
            assert(is_digit(b[first_ix(b, '.')]));
            assert(false);
        }
        assert(ip =~= b);
    } else {
        let k = choose|k: int|
            1 <= k <= b.len() - 2 && #[trigger] b[k] == '.' && all_digits(b.subrange(0, k))
                && all_digits(b.subrange(k + 1, b.len() as int));
        assert forall|j: int| 0 <= j < k implies b[j] != '.' by {
            assert(b.subrange(0, k)[j] == b[j]);
            assert(is_digit(b[j]));
        }
        lemma_first_ix_unique(b, '.', k);
        assert(ip == b.subrange(0, k));
        assert(fp == b.subrange(k + 1, b.len() as int));
    }
}

/// Ten to a sum is the product of the powers.
pub proof fn lemma_pow10_add(a: nat, b: nat)
    ensures
        pow10(a + b) == pow10(a) * pow10(b),
    decreases a,
{
    if a == 0 {
    } else {
        lemma_pow10_add((a - 1) as nat, b);
        let p = pow10((a - 1) as nat);
        let q = pow10(b);
        assert(pow10((a + b - 1) as nat) == p * q);
        assert(10 * (p * q) == (10 * p) * q) by (nonlinear_arith);
    }
}

/// A string of digits that all denote zero denotes zero.
proof fn lemma_digits_zeros(s: Seq<char>)
    requires
        forall|i: int| 0 <= i < s.len() ==> digit_val(#[trigger] s[i]) == 0,
    ensures
        digits_int(s) == 0,
    decreases s.len(),
{
    if s.len() > 0 {
        assert(forall|i: int| 0 <= i < s.len() - 1 ==> #[trigger] s.drop_last()[i] == s[i]);
        lemma_digits_zeros(s.drop_last());
        assert(s.last() == s[s.len() - 1]);
    }
}

/// A digit string with any digit other than zero denotes at least one.
proof fn lemma_digits_nonzero(s: Seq<char>, j: int)
    requires
        all_digits(s),
        0 <= j < s.len(),
        digit_val(s[j]) >= 1,
    ensures
        digits_int(s) >= 1,
{
    lemma_digits_int_split(s, j + 1);
    lemma_digits_int_snoc(s, j);
    let head = s.subrange(0, j);
    let tail = s.subrange(j + 1, s.len() as int);
    assert(all_digits(head)) by {
        assert(forall|i: int| 0 <= i < head.len() ==> #[trigger] head[i] == s[i]);
    }
    assert(all_digits(tail)) by {
        assert(forall|i: int| 0 <= i < tail.len() ==> #[trigger] tail[i] == s[j + 1 + i]);
    }
    lemma_digits_int_bounds(head);
    lemma_digits_int_bounds(tail);
    let a = digits_int(s.subrange(0, j + 1));
    assert(a >= 1) by {
        assert(10 * digits_int(head) >= 0);
    }
    let p = pow10((s.len() - j - 1) as nat);
    lemma_pow10_pos((s.len() - j - 1) as nat);
    assert(a * p >= 1) by (nonlinear_arith)
        requires
            a >= 1,
            p >= 1,
    ;
}

/// Once the matched digits already put the draw strictly below the rate's
/// prefix, the full rate is larger still.
proof fn lemma_div_step_accept(draw: u32, fp: Seq<char>, m: int)
    requires
        all_digits(fp),
        0 <= m < fp.len(),
        (draw as int) * pow10((m + 1) as nat) < digits_int(fp.subrange(0, m + 1)) * 0x1_0000_0000,
    ensures
        (draw as int) * pow10(fp.len()) < digits_int(fp) * 0x1_0000_0000,
{
    let f = fp.len() as int;
    let rest = (f - m - 1) as nat;
    let d1 = digits_int(fp.subrange(0, m + 1));
    let r = digits_int(fp.subrange(m + 1, f));
    lemma_pow10_add((m + 1) as nat, rest);
    lemma_digits_int_split(fp, m + 1);
    assert(all_digits(fp.subrange(m + 1, f))) by {
        assert(forall|i: int|
            0 <= i < f - m - 1 ==> #[trigger] fp.subrange(m + 1, f)[i] == fp[m + 1 + i]);
    }
    lemma_digits_int_bounds(fp.subrange(m + 1, f));
    lemma_pow10_pos(rest);
    let p = pow10(rest);
    let x = (draw as int) * pow10((m + 1) as nat);
    assert((draw as int) * pow10(fp.len()) == x * p) by (nonlinear_arith)
        requires
            pow10(fp.len()) == pow10((m + 1) as nat) * p,
            x == (draw as int) * pow10((m + 1) as nat),
    ;
    assert(x * p < (d1 * 0x1_0000_0000) * p) by (nonlinear_arith)
        requires
            x < d1 * 0x1_0000_0000,
            p >= 1,
    ;
    assert((d1 * 0x1_0000_0000) * p == (d1 * p) * 0x1_0000_0000) by (nonlinear_arith);
    assert(digits_int(fp) == d1 * p + r);
    assert((d1 * p) * 0x1_0000_0000 <= digits_int(fp) * 0x1_0000_0000);
}

/// Once the matched digits already put the draw at or above the rate's
/// prefix rounded up, the full rate cannot reach the draw.
proof fn lemma_div_step_reject(draw: u32, fp: Seq<char>, m: int)
    requires
        all_digits(fp),
        0 <= m < fp.len(),
        (draw as int) * pow10((m + 1) as nat) >= (digits_int(fp.subrange(0, m + 1)) + 1)
            * 0x1_0000_0000,
    ensures
        (draw as int) * pow10(fp.len()) >= digits_int(fp) * 0x1_0000_0000,
{
    let f = fp.len() as int;
    let rest = (f - m - 1) as nat;
    let d1 = digits_int(fp.subrange(0, m + 1));
    let r = digits_int(fp.subrange(m + 1, f));
    lemma_pow10_add((m + 1) as nat, rest);
    lemma_digits_int_split(fp, m + 1);
    assert(all_digits(fp.subrange(m + 1, f))) by {
        assert(forall|i: int|
            0 <= i < f - m - 1 ==> #[trigger] fp.subrange(m + 1, f)[i] == fp[m + 1 + i]);
    }
    lemma_digits_int_bounds(fp.subrange(m + 1, f));
    lemma_pow10_pos(rest);
    let p = pow10(rest);
    let x = (draw as int) * pow10((m + 1) as nat);
    assert((draw as int) * pow10(fp.len()) == x * p) by (nonlinear_arith)
        requires
            pow10(fp.len()) == pow10((m + 1) as nat) * p,
            x == (draw as int) * pow10((m + 1) as nat),
    ;
    assert(x * p >= ((d1 + 1) * 0x1_0000_0000) * p) by (nonlinear_arith)
        requires
            x >= (d1 + 1) * 0x1_0000_0000,
            p >= 1,
    ;
    assert(((d1 + 1) * 0x1_0000_0000) * p == ((d1 + 1) * p) * 0x1_0000_0000) by (nonlinear_arith);
    assert((d1 + 1) * p == d1 * p + p) by (nonlinear_arith);
    assert(digits_int(fp) == d1 * p + r);
    assert(r < p);
    assert(((d1 + 1) * p) * 0x1_0000_0000 >= (digits_int(fp) + 1) * 0x1_0000_0000);
}

/// A nonpositive rate accepts no draw: with rate `0` a sampled counter is
/// never queued.
pub proof fn lemma_sample_never(s: Seq<char>, draw: u32)
    requires
        is_value(s),
        val_negative(s) || (digits_int(val_int_part(s)) == 0 && digits_int(val_frac_part(s))
            == 0),
    ensures
        !sample_accepted(draw, s),
{
    if !val_negative(s) {
        let f = val_frac_part(s).len();
        lemma_pow10_pos(f);
        assert((draw as int) * pow10(f) >= 0) by (nonlinear_arith)
            requires
                (draw as int) >= 0,
                pow10(f) >= 1,
        ;
        assert(digits_int(val_int_part(s)) * pow10(f) == 0);
    }
}

/// A rate of one or more accepts every draw: with rate `1` a sampled
/// counter is always queued.
pub proof fn lemma_sample_always(s: Seq<char>, draw: u32)
    requires
        is_value(s),
        !val_negative(s),
        digits_int(val_int_part(s)) >= 1,
    ensures
        sample_accepted(draw, s),
{
    let f = val_frac_part(s).len();
    let ii = digits_int(val_int_part(s));
    let ff = digits_int(val_frac_part(s));
    lemma_value_parts(s);
    lemma_digits_int_bounds(val_frac_part(s));
    lemma_pow10_pos(f);
    assert((draw as int) * pow10(f) < 0x1_0000_0000 * pow10(f)) by (nonlinear_arith)
        requires
            0 <= (draw as int) && (draw as int) < 0x1_0000_0000,
            pow10(f) >= 1,
    ;
    assert(0x1_0000_0000 * pow10(f) <= (ii * pow10(f)) * 0x1_0000_0000) by (nonlinear_arith)
        requires
            ii >= 1,
            pow10(f) >= 1,
    ;
    assert((ii * pow10(f)) * 0x1_0000_0000 <= (ii * pow10(f) + ff) * 0x1_0000_0000);
}

/// Decide whether a draw from `[0, 2^32)` falls below the rate `s`
/// denotes, by scanning the rate's digits: sign, then the digits before
/// the dot, then long division of `draw / 2^32` into decimal places
/// compared digit by digit against the fraction.
pub fn accept_sample(draw: u32, rate: &str) -> (b: bool)
    requires
        is_value(rate@),
    ensures
        b == sample_accepted(draw, rate@),
{
    proof {
        if rate@.len() == 0 {
            assert(!is_value(rate@));
        }
    }
    let n = rate.unicode_len();
    if rate.get_char(0) == '-' {
        return false;
    }
    proof {
        lemma_value_parts(rate@);
        assert(val_body(rate@) == rate@);
    }
    let dot = match find_from(rate, '.', 0) {
        Some(d) => d,
        None => n,
    };
    let ghost ip = val_int_part(rate@);
    let ghost fp = val_frac_part(rate@);
    proof {
        lemma_first_ix(rate@, '.');
        assert(ip == rate@.subrange(0, dot as int));
    }
    let mut i: usize = 0;
    while i < dot
        invariant
            0 <= i <= dot <= n,
            n == rate@.len(),
            is_value(rate@),
            !val_negative(rate@),
            ip == val_int_part(rate@),
            all_digits(ip),
            ip == rate@.subrange(0, dot as int),
            forall|j: int| 0 <= j < i ==> digit_val(#[trigger] rate@[j]) == 0,
        decreases dot - i,
    {
        let c = rate.get_char(i);
        if c as u32 != '0' as u32 {
            proof {
                assert(ip[i as int] == rate@[i as int]);
                assert(is_digit(ip[i as int]));
                assert(digit_val(ip[i as int]) >= 1);
                lemma_digits_nonzero(ip, i as int);
                lemma_sample_always(rate@, draw);
            }
            return true;
        }
        i += 1;
    }
    proof {
        assert forall|j: int| 0 <= j < ip.len() implies digit_val(#[trigger] ip[j]) == 0 by {
            assert(ip[j] == rate@[j]);
        }
        lemma_digits_zeros(ip);
    }
    if dot == n {
        proof {
            lemma_sample_never(rate@, draw);
        }
        return false;
    }
    let ghost f = fp.len();
    proof {
        assert(fp == rate@.subrange(dot + 1, n as int));
        assert(f == n - dot - 1);
    }
    let mut r: u64 = draw as u64;
    let mut j = dot + 1;
    proof {
        assert(fp.subrange(0, 0) =~= Seq::<char>::empty());
        assert((draw as int) * pow10(0) == digits_int(fp.subrange(0, 0)) * 0x1_0000_0000
            + r as int);
    }
    while j < n
        invariant
            dot + 1 <= j <= n,
            n == rate@.len(),
            dot == first_ix(rate@, '.'),
            dot < n,
            !val_negative(rate@),
            is_value(rate@),
            fp == val_frac_part(rate@),
            fp == rate@.subrange(dot + 1, n as int),
            all_digits(fp),
            digits_int(val_int_part(rate@)) == 0,
            r < 0x1_0000_0000,
            (draw as int) * pow10((j - dot - 1) as nat) == digits_int(
                fp.subrange(0, j - dot - 1),
            ) * 0x1_0000_0000 + r as int,
        decreases n - j,
    {
        let ghost m = j - dot - 1;
        let c = rate.get_char(j);
        proof {
            assert(fp[m] == rate@[j as int]);
            assert(is_digit(fp[m]));
        }
        let dv = c as u32 - '0' as u32;
        let r10 = r * 10;
        let q = r10 / 0x1_0000_0000u64;
        let rem = r10 % 0x1_0000_0000u64;
        proof {
            lemma_fundamental_div_mod(r10 as int, 0x1_0000_0000);
            lemma_digits_int_snoc(fp, m);
            let dm = digits_int(fp.subrange(0, m));
            let dm1 = digits_int(fp.subrange(0, m + 1));
            assert(dm1 == 10 * dm + digit_val(fp[m]));
            assert(digit_val(fp[m]) == dv as int);
            assert(pow10((m + 1) as nat) == 10 * pow10(m as nat));
            assert((draw as int) * (10 * pow10(m as nat)) == 10 * ((draw as int) * pow10(
                m as nat,
            ))) by (nonlinear_arith);
            assert((draw as int) * pow10((m + 1) as nat) == (10 * dm) * 0x1_0000_0000
                + r10 as int);
            assert(r10 as int == (q as int) * 0x1_0000_0000 + rem as int);
            assert(q < 10);
            assert((draw as int) * pow10((m + 1) as nat) == (10 * dm + q as int) * 0x1_0000_0000
                + rem as int);
        }
        if q < dv as u64 {
            proof {
                let dm = digits_int(fp.subrange(0, m));
                let dm1 = digits_int(fp.subrange(0, m + 1));
                assert((draw as int) * pow10((m + 1) as nat) < (10 * dm + q as int + 1)
                    * 0x1_0000_0000);
                assert(10 * dm + q as int + 1 <= dm1);
                lemma_div_step_accept(draw, fp, m);
                assert(digits_int(val_int_part(rate@)) * pow10(fp.len()) == 0);
            }
            return true;
        }
        if q > dv as u64 {
            proof {
                let dm = digits_int(fp.subrange(0, m));
                let dm1 = digits_int(fp.subrange(0, m + 1));
                assert((draw as int) * pow10((m + 1) as nat) >= (10 * dm + q as int)
                    * 0x1_0000_0000);
                assert(10 * dm + q as int >= dm1 + 1);
                lemma_div_step_reject(draw, fp, m);
                assert(digits_int(val_int_part(rate@)) * pow10(fp.len()) == 0);
            }
            return false;
        }
        r = rem;
        j += 1;
    }
    proof {
        assert(fp.subrange(0, f as int) =~= fp);
        assert((draw as int) * pow10(f) >= digits_int(fp) * 0x1_0000_0000);
        assert(digits_int(val_int_part(rate@)) * pow10(f) == 0);
    }
    false
}

/// With the rate written `0`, no draw is accepted: a counter sampled at
/// rate zero is never queued.
pub proof fn lemma_rate_zero_never(d: u32)
    ensures
        !sample_accepted(d, "0"@),
{
    reveal_strlit("0");
    assert("0"@ =~= seq!['0']);
    let s = "0"@;
    assert(is_digit(s[0]));
    assert(is_value(s));
    lemma_first_ix(s, '.');
    if first_ix(s, '.') < 1 {
        assert(s[first_ix(s, '.')] == '.');
        assert(false);
    }
    assert(val_int_part(s) =~= s);
    assert(val_frac_part(s) == Seq::<char>::empty());
    assert(s.drop_last() =~= Seq::<char>::empty());
    assert(digits_int(Seq::<char>::empty()) == 0);
    assert(s.last() == '0');
    assert(digits_int(s) == 0);
    lemma_sample_never(s, d);
}

/// With the rate written `1`, every draw is accepted: a counter sampled
/// at rate one is always queued.
pub proof fn lemma_rate_one_always(d: u32)
    ensures
        sample_accepted(d, "1"@),
{
    reveal_strlit("1");
    assert("1"@ =~= seq!['1']);
    let s = "1"@;
    assert(is_digit(s[0]));
    assert(is_value(s));
    lemma_first_ix(s, '.');
    if first_ix(s, '.') < 1 {
        assert(s[first_ix(s, '.')] == '.');
        assert(false);
    }
    assert(val_int_part(s) =~= s);
    assert(s.drop_last() =~= Seq::<char>::empty());
    assert(digits_int(Seq::<char>::empty()) == 0);
    assert(s.last() == '1');
    assert(digits_int(s) == 1);
    lemma_sample_always(s, d);
}

/// Relies on `rand::random` with the `StandardUniform` distribution,
/// which draws a `u32` uniformly from the thread-local generator; nothing
/// is assumed of the value drawn.
#[verifier::external_body]
fn random_u32() -> u32 {
    rand::random::<u32>()
}

/// Draw once and decide whether a sampled counter fires. The outcome of
/// an individual draw is chance; what is promised is what holds of every
/// draw: a rate no draw accepts (such as `0`) never fires, a rate every
/// draw accepts (such as `1`) always fires.
pub fn sample_decision(rate: &str) -> (b: bool)
    requires
        is_value(rate@),
    ensures
        (forall|d: u32| !sample_accepted(d, rate@)) ==> !b,
        (forall|d: u32| sample_accepted(d, rate@)) ==> b,
{
    let draw = random_u32();
    accept_sample(draw, rate)
}

} // verus!
