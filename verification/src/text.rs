//! Character-level helpers shared by the codec and the batcher:
//! locating separators and the decimal-number grammar of metric values.

use vstd::prelude::*;

verus! {

/// Index of the first occurrence of `c` in `s`, or `s.len()` when `c`
/// does not occur.
pub open spec fn first_ix(s: Seq<char>, c: char) -> int
    decreases s.len(),
{
    if s.len() == 0 {
        0
    } else if s[0] == c {
        0
    } else {
        1 + first_ix(s.drop_first(), c)
    }
}

/// `first_ix` names the first occurrence: nothing before it matches, and
/// it points at a match unless `c` is absent altogether.
pub proof fn lemma_first_ix(s: Seq<char>, c: char)
    ensures
        0 <= first_ix(s, c) <= s.len(),
        first_ix(s, c) < s.len() ==> s[first_ix(s, c)] == c,
        forall|j: int| 0 <= j < first_ix(s, c) ==> s[j] != c,
    decreases s.len(),
{
    if s.len() > 0 && s[0] != c {
        lemma_first_ix(s.drop_first(), c);
        let t = s.drop_first();
        assert forall|j: int| 0 <= j < first_ix(s, c) implies s[j] != c by {
            if j > 0 {
                assert(s[j] == t[j - 1]);
            }
        }
    }
}

/// Any index that matches and has no match before it is `first_ix`.
pub proof fn lemma_first_ix_unique(s: Seq<char>, c: char, i: int)
    requires
        0 <= i < s.len(),
        s[i] == c,
        forall|j: int| 0 <= j < i ==> s[j] != c,
    ensures
        first_ix(s, c) == i,
{
    lemma_first_ix(s, c);
    if first_ix(s, c) < i {
        assert(s[first_ix(s, c)] != c);
    }
}

/// Whether `c` occurs anywhere in `s`.
pub open spec fn has_char(s: Seq<char>, c: char) -> bool {
    first_ix(s, c) < s.len()
}

/// A decimal digit.
pub open spec fn is_digit(c: char) -> bool {
    '0' as u32 <= c as u32 && c as u32 <= '9' as u32
}

/// Every character of `s` is a decimal digit.
pub open spec fn all_digits(s: Seq<char>) -> bool {
    forall|i: int| 0 <= i < s.len() ==> is_digit(#[trigger] s[i])
}

/// The body of a decimal number: one or more digits, optionally followed
/// by a dot and one or more digits.
pub open spec fn unsigned_value(s: Seq<char>) -> bool {
    ||| (s.len() > 0 && all_digits(s))
    ||| (exists|k: int|
        1 <= k <= s.len() - 2 && #[trigger] s[k] == '.' && all_digits(s.subrange(0, k))
            && all_digits(s.subrange(k + 1, s.len() as int)))
}

/// The grammar of a metric value or sample rate as it appears on the
/// wire: an optional minus sign, digits, and an optional fractional part.
pub open spec fn is_value(s: Seq<char>) -> bool {
    if s.len() > 0 && s[0] == '-' {
        unsigned_value(s.subrange(1, s.len() as int))
    } else {
        unsigned_value(s)
    }
}

/// Scan `s` for the first occurrence of `c` at or after `from`.
pub fn find_from(s: &str, c: char, from: usize) -> (r: Option<usize>)
    requires
        from <= s@.len(),
        forall|j: int| 0 <= j < from ==> s@[j] != c,
    ensures
        match r {
            Some(i) => from <= i < s@.len() && i == first_ix(s@, c),
            None => first_ix(s@, c) == s@.len(),
        },
{
    let n = s.unicode_len();
    let mut i = from;
    while i < n
        invariant
            from <= i <= n,
            n == s@.len(),
            forall|j: int| 0 <= j < i ==> s@[j] != c,
        decreases n - i,
    {
        if s.get_char(i) == c {
            proof {
                lemma_first_ix_unique(s@, c, i as int);
            }
            return Some(i);
        }
        i += 1;
    }
    proof {
        lemma_first_ix(s@, c);
        if first_ix(s@, c) < s@.len() {
            assert(s@[first_ix(s@, c)] == c);
        }
    }
    None
}

/// The numeric value of a digit character.
pub open spec fn digit_val(c: char) -> int {
    c as u32 - '0' as u32
}

/// The integer denoted by a string of digits (0 for the empty string).
pub open spec fn digits_int(s: Seq<char>) -> int
    decreases s.len(),
{
    if s.len() == 0 {
        0
    } else {
        10 * digits_int(s.drop_last()) + digit_val(s.last())
    }
}

/// Ten to the `n`.
pub open spec fn pow10(n: nat) -> int
    decreases n,
{
    if n == 0 {
        1
    } else {
        10 * pow10((n - 1) as nat)
    }
}

pub proof fn lemma_pow10_pos(n: nat)
    ensures
        pow10(n) >= 1,
    decreases n,
{
    if n > 0 {
        lemma_pow10_pos((n - 1) as nat);
    }
}

/// A digit string of length `n` denotes a value in `[0, 10^n)`.
pub proof fn lemma_digits_int_bounds(s: Seq<char>)
    requires
        all_digits(s),
    ensures
        0 <= digits_int(s) < pow10(s.len()),
    decreases s.len(),
{
    if s.len() > 0 {
        assert(all_digits(s.drop_last())) by {
            assert(forall|i: int|
                0 <= i < s.len() - 1 ==> #[trigger] s.drop_last()[i] == s[i]);
        }
        lemma_digits_int_bounds(s.drop_last());
        assert(is_digit(s.last()));
        assert(0 <= digit_val(s.last()) <= 9);
    }
}

/// Extending a digit string by one digit multiplies its value by ten and
/// adds the new digit.
pub proof fn lemma_digits_int_snoc(s: Seq<char>, j: int)
    requires
        0 <= j < s.len(),
    ensures
        digits_int(s.subrange(0, j + 1)) == 10 * digits_int(s.subrange(0, j)) + digit_val(s[j]),
{
    let p = s.subrange(0, j + 1);
    assert(p.drop_last() =~= s.subrange(0, j));
    assert(p.last() == s[j]);
}

/// A digit string splits at any point into a prefix scaled by a power of
/// ten plus the remaining digits.
pub proof fn lemma_digits_int_split(s: Seq<char>, m: int)
    requires
        0 <= m <= s.len(),
    ensures
        digits_int(s) == digits_int(s.subrange(0, m)) * pow10((s.len() - m) as nat) + digits_int(
            s.subrange(m, s.len() as int),
        ),
    decreases s.len() - m,
{
    if m == s.len() {
        assert(s.subrange(0, m) =~= s);
        assert(digits_int(s.subrange(m, s.len() as int)) == 0);
    } else {
        let t = s.drop_last();
        lemma_digits_int_split(t, m);
        assert(t.subrange(0, m) =~= s.subrange(0, m));
        let a = digits_int(s.subrange(0, m));
        let dt = digits_int(t.subrange(m, t.len() as int));
        let p = pow10((s.len() - 1 - m) as nat);
        let dv = digit_val(s.last());
        assert(digits_int(t) == a * p + dt);
        let tail = s.subrange(m, s.len() as int);
        assert(tail.drop_last() =~= t.subrange(m, t.len() as int));
        assert(tail.last() == s.last());
        assert(digits_int(tail) == 10 * dt + dv);
        assert(digits_int(s) == 10 * digits_int(t) + dv);
        assert(pow10((s.len() - m) as nat) == 10 * p);
        assert(10 * (a * p + dt) + dv == a * (10 * p) + (10 * dt + dv)) by (nonlinear_arith);
        assert(digits_int(s) == a * pow10((s.len() - m) as nat) + digits_int(tail));
    }
}

/// A valid value consists only of digits, dots and minus signs.
pub proof fn lemma_value_chars(s: Seq<char>)
    requires
        is_value(s),
    ensures
        forall|i: int|
            0 <= i < s.len() ==> (is_digit(#[trigger] s[i]) || s[i] == '.' || s[i] == '-'),
{
    let t = if s.len() > 0 && s[0] == '-' {
        s.subrange(1, s.len() as int)
    } else {
        s
    };
    let off = if s.len() > 0 && s[0] == '-' {
        1int
    } else {
        0int
    };
    assert forall|i: int| 0 <= i < s.len() implies (is_digit(#[trigger] s[i]) || s[i] == '.'
        || s[i] == '-') by {
        if i >= off {
            assert(t[i - off] == s[i]);
            if all_digits(t) {
            } else {
                let k = choose|k: int|
                    1 <= k <= t.len() - 2 && #[trigger] t[k] == '.' && all_digits(
                        t.subrange(0, k),
                    ) && all_digits(t.subrange(k + 1, t.len() as int));
                if i - off < k {
                    assert(t.subrange(0, k)[i - off] == t[i - off]);
                } else if i - off > k {
                    assert(t.subrange(k + 1, t.len() as int)[i - off - k - 1] == t[i - off]);
                }
            }
        }
    }
}

/// The decimal rendering of a nonnegative integer, most significant digit
/// first, with no leading zeros (a single zero for 0).
pub open spec fn dec_digits(n: int) -> Seq<char>
    decreases n,
{
    if n < 10 {
        seq![digit_char(n)]
    } else {
        dec_digits(n / 10).push(digit_char(n % 10))
    }
}

/// The character for a single digit.
pub open spec fn digit_char(d: int) -> char {
    if d == 0 {
        '0'
    } else if d == 1 {
        '1'
    } else if d == 2 {
        '2'
    } else if d == 3 {
        '3'
    } else if d == 4 {
        '4'
    } else if d == 5 {
        '5'
    } else if d == 6 {
        '6'
    } else if d == 7 {
        '7'
    } else if d == 8 {
        '8'
    } else {
        '9'
    }
}

/// The decimal rendering of a nonnegative integer is a valid value.
pub proof fn lemma_dec_digits_value(n: int)
    requires
        n >= 0,
    ensures
        dec_digits(n).len() >= 1,
        all_digits(dec_digits(n)),
        is_value(dec_digits(n)),
    decreases n,
{
    if n < 10 {
        assert(is_digit(dec_digits(n)[0]));
    } else {
        lemma_dec_digits_value(n / 10);
        let s = dec_digits(n);
        assert forall|i: int| 0 <= i < s.len() implies is_digit(#[trigger] s[i]) by {
            if i < s.len() - 1 {
                assert(s[i] == dec_digits(n / 10)[i]);
            } else {
                assert(0 <= n % 10 <= 9);
            }
        }
    }
    assert(is_digit(dec_digits(n)[0]));
    assert(dec_digits(n)[0] != '-');
}

/// The string literal for a single digit.
fn digit_lit(d: u128) -> (r: &'static str)
    requires
        d < 10,
    ensures
        r@ =~= seq![digit_char(d as int)],
{
    proof {
        reveal_strlit("0");
        reveal_strlit("1");
        reveal_strlit("2");
        reveal_strlit("3");
        reveal_strlit("4");
        reveal_strlit("5");
        reveal_strlit("6");
        reveal_strlit("7");
        reveal_strlit("8");
        reveal_strlit("9");
    }
    match d {
        0 => "0",
        1 => "1",
        2 => "2",
        3 => "3",
        4 => "4",
        5 => "5",
        6 => "6",
        7 => "7",
        8 => "8",
        _ => "9",
    }
}

/// Render a nonnegative integer in decimal.
pub fn dec_str(n: u128) -> (r: String)
    ensures
        r@ == dec_digits(n as int),
    decreases n,
{
    if n < 10 {
        let r = digit_lit(n).to_owned();
        assert(r@ =~= dec_digits(n as int));
        r
    } else {
        let mut r = dec_str(n / 10);
        r.append(digit_lit(n % 10));
        assert(r@ =~= dec_digits(n as int));
        r
    }
}

/// Decide whether `c` is a decimal digit.
pub fn digit_check(c: char) -> (b: bool)
    ensures
        b == is_digit(c),
{
    let u = c as u32;
    ('0' as u32) <= u && u <= ('9' as u32)
}

/// Decide whether `s` matches the wire grammar of a metric value.
#[verifier::rlimit(50)]
#[verifier::spinoff_prover]
pub fn check_value(s: &str) -> (b: bool)
    ensures
        b == is_value(s@),
{
    let n = s.unicode_len();
    let start: usize = if n > 0 && s.get_char(0) == '-' {
        1
    } else {
        0
    };
    let ghost t = s@.subrange(start as int, n as int);
    proof {
        assert(s@ =~= s@.subrange(0, n as int));
        assert(is_value(s@) == unsigned_value(t));
    }
    let mut i = start;
    while i < n && digit_check(s.get_char(i))
        invariant
            start <= i <= n,
            n == s@.len(),
            forall|j: int| start <= j < i ==> is_digit(#[trigger] s@[j]),
        decreases n - i,
    {
        i += 1;
    }
    if i == start {
        // No leading digit: either the string (past a sign) is empty, or
        // its first character is not a digit, so no reading fits.
        proof {
            if t.len() > 0 {
                assert(t[0] == s@[start as int]);
                assert(!is_digit(t[0]));
                assert forall|k: int|
                    1 <= k <= t.len() - 2 && t[k] == '.' implies !(all_digits(t.subrange(0, k))
                    && all_digits(t.subrange(k + 1, t.len() as int))) by {
                    assert(t.subrange(0, k)[0] == t[0]);
                }
            }
            assert(!unsigned_value(t));
        }
        return false;
    }
    if i == n {
        // Digits all the way to the end.
        proof {
            assert forall|m: int| 0 <= m < t.len() implies is_digit(#[trigger] t[m]) by {
                assert(t[m] == s@[start + m]);
            }
            assert(unsigned_value(t));
        }
        return true;
    }
    if s.get_char(i) != '.' {
        // A character that is neither a digit nor the one permitted dot.
        proof {
            let p = i - start;
            assert(t[p] == s@[i as int]);
            assert forall|k: int|
                1 <= k <= t.len() - 2 && t[k] == '.' implies !(all_digits(t.subrange(0, k))
                && all_digits(t.subrange(k + 1, t.len() as int))) by {
                if k > p {
                    assert(t.subrange(0, k)[p] == t[p]);
                } else {
                    assert(t.subrange(k + 1, t.len() as int)[p - k - 1] == t[p]);
                }
            }
            assert(!unsigned_value(t));
        }
        return false;
    }
    let dot = i;
    let mut j = dot + 1;
    while j < n && digit_check(s.get_char(j))
        invariant
            dot < j <= n,
            n == s@.len(),
            forall|k: int| dot + 1 <= k < j ==> is_digit(#[trigger] s@[k]),
        decreases n - j,
    {
        j += 1;
    }
    let ghost d = dot - start;
    proof {
        assert(t[d] == s@[dot as int]);
        assert(!is_digit(t[d]));
    }
    if j < n {
        // A second dot or another stray character after the fraction.
        proof {
            let q = j - start;
            assert(t[q] == s@[j as int]);
            assert forall|k: int|
                1 <= k <= t.len() - 2 && t[k] == '.' implies !(all_digits(t.subrange(0, k))
                && all_digits(t.subrange(k + 1, t.len() as int))) by {
                if k == d {
                    assert(t.subrange(k + 1, t.len() as int)[q - k - 1] == t[q]);
                } else if k > d {
                    assert(t.subrange(0, k)[d] == t[d]);
                } else {
                    assert(t.subrange(k + 1, t.len() as int)[d - k - 1] == t[d]);
                }
            }
            assert(!unsigned_value(t));
        }
        return false;
    }
    if dot + 1 == n {
        // A trailing dot with no fraction digits.
        proof {
            assert(d == t.len() - 1);
            assert forall|k: int|
                1 <= k <= t.len() - 2 && t[k] == '.' implies !(all_digits(t.subrange(0, k))
                && all_digits(t.subrange(k + 1, t.len() as int))) by {
                assert(t.subrange(k + 1, t.len() as int)[d - k - 1] == t[d]);
            }
            assert(!unsigned_value(t));
        }
        return false;
    }
    proof {
        // Digits, one dot, digits: the fractional reading fits at `d`.
        assert(1 <= d <= t.len() - 2);
        assert(t[d] == '.');
        assert forall|m: int| 0 <= m < d implies is_digit(#[trigger] t.subrange(0, d)[m]) by {
            assert(t.subrange(0, d)[m] == s@[start + m]);
        }
        assert forall|m: int| 0 <= m < t.len() - d - 1 implies is_digit(
            #[trigger] t.subrange(d + 1, t.len() as int)[m],
        ) by {
            assert(t.subrange(d + 1, t.len() as int)[m] == s@[dot + 1 + m]);
        }
        assert(all_digits(t.subrange(0, d)));
        assert(all_digits(t.subrange(d + 1, t.len() as int)));
        assert(unsigned_value(t));
    }
    true
}

} // verus!
