//! Numeric literal parsing: the decimal scientific form (integral and
//! floating), with the policy that a value is accepted only when it denotes
//! an integer exactly — no truncation loss — and fits the target type.

use vstd::prelude::*;

verus! {

/// Whether `c` is a decimal digit.
pub open spec fn is_digit_char(c: char) -> bool {
    '0' <= c <= '9'
}

/// The numeric value of one decimal digit.
pub open spec fn digit_val(c: char) -> int {
    c as int - '0' as int
}

/// Whether every character of `s` is a decimal digit.
pub open spec fn all_digits(s: Seq<char>) -> bool {
    forall|i: int| 0 <= i < s.len() ==> is_digit_char(#[trigger] s[i])
}

/// Whether every character of `s` is the digit zero.
pub open spec fn all_zeros(s: Seq<char>) -> bool {
    forall|i: int| 0 <= i < s.len() ==> #[trigger] s[i] == '0'
}

/// The number a sequence of decimal digits denotes, most significant first.
pub open spec fn digits_val(s: Seq<char>) -> int
    decreases s.len(),
{
    if s.len() == 0 {
        0
    } else {
        10 * digits_val(s.drop_last()) + digit_val(s.last())
    }
}

/// Ten to the `k`.
pub open spec fn pow10(k: nat) -> int
    decreases k,
{
    if k == 0 {
        1
    } else {
        10 * pow10((k - 1) as nat)
    }
}

pub proof fn lemma_pow10_pos(k: nat)
    ensures
        pow10(k) >= 1,
    decreases k,
{
    if k > 0 {
        lemma_pow10_pos((k - 1) as nat);
    }
}

pub proof fn lemma_pow10_mono(a: nat, b: nat)
    requires
        a <= b,
    ensures
        pow10(a) <= pow10(b),
    decreases b,
{
    if a < b {
        lemma_pow10_mono(a, (b - 1) as nat);
        lemma_pow10_pos((b - 1) as nat);
    }
}

/// Ten to the nineteenth does not fit a signed 64-bit integer, and ten to
/// the twentieth not even an unsigned one.
pub proof fn lemma_pow10_large()
    ensures
        pow10(19) == 10_000_000_000_000_000_000,
        pow10(20) == 100_000_000_000_000_000_000,
{
    reveal_with_fuel(pow10, 21);
}

/// A digit sequence denotes a value below ten to its length.
pub proof fn lemma_digits_val_bounds(s: Seq<char>)
    requires
        all_digits(s),
    ensures
        0 <= digits_val(s) < pow10(s.len()),
    decreases s.len(),
{
    if s.len() > 0 {
        assert(all_digits(s.drop_last())) by {
            assert(forall|i: int| 0 <= i < s.len() - 1 ==> s.drop_last()[i] == s[i]);
        }
        lemma_digits_val_bounds(s.drop_last());
        assert(0 <= digit_val(s.last()) <= 9);
    }
}

/// Concatenation splits the denoted value by place value.
pub proof fn lemma_digits_val_append(a: Seq<char>, b: Seq<char>)
    ensures
        digits_val(a + b) == digits_val(a) * pow10(b.len()) + digits_val(b),
    decreases b.len(),
{
    if b.len() == 0 {
        assert(a + b =~= a);
    } else {
        lemma_digits_val_append(a, b.drop_last());
        assert((a + b).drop_last() =~= a + b.drop_last());
        assert((a + b).last() == b.last());
        assert(digits_val(a + b) == 10 * (digits_val(a) * pow10(b.drop_last().len())
            + digits_val(b.drop_last())) + digit_val(b.last()));
        assert(10 * (digits_val(a) * pow10((b.len() - 1) as nat)) == digits_val(a) * (10 * pow10(
            (b.len() - 1) as nat,
        ))) by (nonlinear_arith);
    }
}

/// A digit sequence denotes zero exactly when all its digits are zero.
pub proof fn lemma_digits_val_zeros(s: Seq<char>)
    requires
        all_digits(s),
    ensures
        (digits_val(s) == 0) <==> all_zeros(s),
    decreases s.len(),
{
    if s.len() > 0 {
        assert(all_digits(s.drop_last())) by {
            assert(forall|i: int| 0 <= i < s.len() - 1 ==> s.drop_last()[i] == s[i]);
        }
        lemma_digits_val_zeros(s.drop_last());
        lemma_digits_val_bounds(s.drop_last());
        if digits_val(s) == 0 {
            assert(all_zeros(s.drop_last()));
            assert(forall|i: int| 0 <= i < s.len() - 1 ==> s[i] == s.drop_last()[i]);
        } else {
            if all_zeros(s) {
                assert(all_zeros(s.drop_last()));
                assert(digit_val(s.last()) == 0);
            }
        }
    }
}

/// How many decimal digits `s` starts with.
pub open spec fn count_digits(s: Seq<char>) -> int
    decreases s.len(),
{
    if s.len() == 0 || !is_digit_char(s[0]) {
        0
    } else {
        1 + count_digits(s.skip(1))
    }
}

/// `count_digits` is the position of the first non-digit (or the length).
pub proof fn lemma_count_digits_at(s: Seq<char>, k: int)
    requires
        0 <= k <= s.len(),
        forall|j: int| 0 <= j < k ==> is_digit_char(#[trigger] s[j]),
        k == s.len() || !is_digit_char(s[k]),
    ensures
        count_digits(s) == k,
    decreases k,
{
    if s.len() == 0 || k == 0 {
    } else {
        assert(forall|j: int| 0 <= j < k - 1 ==> is_digit_char(#[trigger] s.skip(1)[j]) && s.skip(
            1,
        )[j] == s[j + 1]);
        if k < s.len() {
            assert(s.skip(1)[k - 1] == s[k]);
        }
        lemma_count_digits_at(s.skip(1), k - 1);
    }
}

/// The split of a decimal scientific literal into its parts: sign, integral
/// digits, fractional digits, and a signed exponent.
pub ghost struct Dec {
    /// Whether a leading minus sign is present.
    pub neg: bool,
    /// The digits before the decimal point.
    pub int_digits: Seq<char>,
    /// The digits after the decimal point.
    pub frac_digits: Seq<char>,
    /// Whether the exponent carries a minus sign.
    pub exp_neg: bool,
    /// The exponent digits; empty when the literal has no exponent.
    pub exp_digits: Seq<char>,
}

/// Splits `s` as a decimal scientific literal:
/// an optional minus sign, a mantissa with at least one digit and at most
/// one point, and an optional exponent part introduced by `e` or `E` with
/// an optional minus sign and at least one digit.  Nothing may follow.
pub open spec fn spec_decimal(s: Seq<char>) -> Option<Dec> {
    let i0: int = if s.len() > 0 && s[0] == '-' {
        1
    } else {
        0
    };
    let ie: int = i0 + count_digits(s.skip(i0));
    let hp: bool = ie < s.len() && s[ie] == '.';
    let f0: int = if hp {
        ie + 1
    } else {
        ie
    };
    let fe: int = if hp {
        f0 + count_digits(s.skip(f0))
    } else {
        f0
    };
    if ie - i0 == 0 && fe - f0 == 0 {
        None
    } else if fe == s.len() {
        Some(
            Dec {
                neg: i0 == 1,
                int_digits: s.subrange(i0, ie),
                frac_digits: s.subrange(f0, fe),
                exp_neg: false,
                exp_digits: Seq::empty(),
            },
        )
    } else if s[fe] == 'e' || s[fe] == 'E' {
        let x0: int = if fe + 1 < s.len() && s[fe + 1] == '-' {
            fe + 2
        } else {
            fe + 1
        };
        let xe: int = x0 + count_digits(s.skip(x0));
        if xe == x0 || xe < s.len() {
            None
        } else {
            Some(
                Dec {
                    neg: i0 == 1,
                    int_digits: s.subrange(i0, ie),
                    frac_digits: s.subrange(f0, fe),
                    exp_neg: x0 == fe + 2,
                    exp_digits: s.subrange(x0, xe),
                },
            )
        }
    } else {
        None
    }
}

/// The signed exponent of a split literal.
pub open spec fn dec_exp(d: Dec) -> int {
    if d.exp_neg {
        -digits_val(d.exp_digits)
    } else {
        digits_val(d.exp_digits)
    }
}

/// The exact integer a decimal scientific literal denotes, or `None` when
/// it is malformed or its value is not an integer.  With `digits` the
/// mantissa digits and `below = |frac| - exp` the number of them that end
/// up below the decimal point, the value is an integer exactly when those
/// low digits are all zero (or the whole mantissa is), and the value is
/// then the remaining digits shifted by whatever exponent is left.
pub open spec fn spec_decimal_int(s: Seq<char>) -> Option<int> {
    match spec_decimal(s) {
        None => None,
        Some(d) => {
            let digits = d.int_digits + d.frac_digits;
            let sign = if d.neg {
                -1int
            } else {
                1int
            };
            let below = d.frac_digits.len() - dec_exp(d);
            if below <= 0 {
                Some(sign * digits_val(digits) * pow10((-below) as nat))
            } else if below <= digits.len() && all_zeros(digits.skip(digits.len() - below)) {
                Some(sign * digits_val(digits.take(digits.len() - below)))
            } else if all_zeros(digits) {
                Some(0)
            } else {
                None
            }
        },
    }
}

/// Splitting off a prefix splits the denoted value by place value, so the
/// whole denotes at least what any prefix denotes.
pub proof fn lemma_digits_val_prefix(s: Seq<char>, k: int)
    requires
        all_digits(s),
        0 <= k <= s.len(),
    ensures
        0 <= digits_val(s.take(k)) <= digits_val(s),
{
    assert(all_digits(s.take(k)) && all_digits(s.skip(k))) by {
        assert(forall|i: int| 0 <= i < k ==> s.take(k)[i] == s[i]);
        assert(forall|i: int| 0 <= i < s.len() - k ==> s.skip(k)[i] == s[i + k]);
    }
    lemma_digits_val_bounds(s.take(k));
    lemma_digits_val_bounds(s.skip(k));
    lemma_digits_val_append(s.take(k), s.skip(k));
    assert(s.take(k) + s.skip(k) =~= s);
    lemma_pow10_pos(s.skip(k).len());
    assert(digits_val(s.take(k)) * pow10(s.skip(k).len()) >= digits_val(s.take(k))) by (nonlinear_arith)
        requires
            digits_val(s.take(k)) >= 0,
            pow10(s.skip(k).len()) >= 1,
    ;
}

/// One more digit multiplies the prefix value by ten and adds the digit.
proof fn lemma_digits_val_step(s: Seq<char>, j: int)
    requires
        0 <= j < s.len(),
    ensures
        digits_val(s.take(j + 1)) == 10 * digits_val(s.take(j)) + digit_val(s[j]),
{
    assert(s.take(j + 1).drop_last() =~= s.take(j));
    assert(s.take(j + 1).last() == s[j]);
}

/// Whether `c` is a decimal digit, decided.
fn digit_exec(c: char) -> (r: bool)
    ensures
        r == is_digit_char(c),
{
    '0' <= c && c <= '9'
}

/// The exec-side split of a decimal scientific literal: index bounds into
/// the scanned text for each part of [`Dec`].
pub struct DecSplit {
    /// Whether a leading minus sign is present.
    pub neg: bool,
    /// Where the integral digits start.
    pub int_start: usize,
    /// Where the integral digits end.
    pub int_end: usize,
    /// Where the fractional digits start.
    pub frac_start: usize,
    /// Where the fractional digits end.
    pub frac_end: usize,
    /// Whether the exponent carries a minus sign.
    pub exp_neg: bool,
    /// Where the exponent digits start.
    pub exp_start: usize,
    /// Where the exponent digits end.
    pub exp_end: usize,
}

impl DecSplit {
    /// The split of `s` this value points into.
    pub open spec fn dec_of(&self, s: Seq<char>) -> Dec {
        Dec {
            neg: self.neg,
            int_digits: s.subrange(self.int_start as int, self.int_end as int),
            frac_digits: s.subrange(self.frac_start as int, self.frac_end as int),
            exp_neg: self.exp_neg,
            exp_digits: s.subrange(self.exp_start as int, self.exp_end as int),
        }
    }

    /// The index bounds are ordered and inside `s`.
    pub open spec fn wf(&self, s: Seq<char>) -> bool {
        &&& self.int_start <= self.int_end <= self.frac_start <= self.frac_end <= self.exp_start
            <= self.exp_end <= s.len()
    }
}

/// Scan forward from `from` over decimal digits and return where they end.
fn scan_digits(v: &Vec<char>, from: usize) -> (end: usize)
    requires
        from <= v@.len(),
    ensures
        from <= end <= v@.len(),
        count_digits(v@.skip(from as int)) == end - from,
        forall|j: int| from <= j < end ==> is_digit_char(#[trigger] v@[j]),
        end < v@.len() ==> !is_digit_char(v@[end as int]),
{
    let n = v.len();
    let ghost s = v@;
    let mut i: usize = from;
    while i < n && digit_exec(v[i])
        invariant
            from <= i <= n == v@.len(),
            s == v@,
            forall|j: int| from <= j < i ==> is_digit_char(#[trigger] s[j]),
        decreases n - i,
    {
        i = i + 1;
    }
    proof {
        assert(forall|j: int| 0 <= j < i - from ==> s.skip(from as int)[j] == s[j + from]);
        if (i as int) < s.len() {
            assert(s.skip(from as int)[i - from] == s[i as int]);
        }
        lemma_count_digits_at(s.skip(from as int), i - from);
    }
    i
}

/// Scan `v` as a decimal scientific literal and return where its parts
/// stand, or nothing when the text is not such a literal.
#[verifier::rlimit(50)]
fn split_decimal(v: &Vec<char>) -> (r: Option<DecSplit>)
    ensures
        match r {
            Some(d) => d.wf(v@) && spec_decimal(v@) == Some(d.dec_of(v@)) && all_digits(
                v@.subrange(d.int_start as int, d.int_end as int),
            ) && all_digits(v@.subrange(d.frac_start as int, d.frac_end as int)) && all_digits(
                v@.subrange(d.exp_start as int, d.exp_end as int),
            ),
            None => spec_decimal(v@) is None,
        },
{
    let n = v.len();
    let mut i: usize = 0;
    let neg = n > 0 && v[0] == '-';
    if neg {
        i = 1;
    }
    let int_start = i;
    let int_end = scan_digits(v, i);
    i = int_end;
    let has_point = i < n && v[i] == '.';
    let frac_start = if has_point {
        i + 1
    } else {
        i
    };
    let frac_end = if has_point {
        scan_digits(v, frac_start)
    } else {
        frac_start
    };
    i = frac_end;
    if int_end - int_start == 0 && frac_end - frac_start == 0 {
        return None;
    }
    if i == n {
        let d = DecSplit {
            neg,
            int_start,
            int_end,
            frac_start,
            frac_end,
            exp_neg: false,
            exp_start: i,
            exp_end: i,
        };
        proof {
            assert(v@.subrange(i as int, i as int) =~= Seq::<char>::empty());
            assert(forall|j: int| int_start <= j < int_end ==> is_digit_char(#[trigger] v@[j]));
            assert(forall|j: int| 0 <= j < int_end - int_start ==> v@.subrange(
                int_start as int,
                int_end as int,
            )[j] == v@[j + int_start]);
            assert(forall|j: int| 0 <= j < frac_end - frac_start ==> v@.subrange(
                frac_start as int,
                frac_end as int,
            )[j] == v@[j + frac_start]);
        }
        return Some(d);
    }
    if !(v[i] == 'e' || v[i] == 'E') {
        return None;
    }
    let exp_neg = i + 1 < n && v[i + 1] == '-';
    let exp_start = if exp_neg {
        i + 2
    } else {
        i + 1
    };
    let exp_end = scan_digits(v, exp_start);
    if exp_end - exp_start == 0 || exp_end < n {
        return None;
    }
    proof {
        assert(forall|j: int| 0 <= j < int_end - int_start ==> v@.subrange(
            int_start as int,
            int_end as int,
        )[j] == v@[j + int_start]);
        assert(forall|j: int| 0 <= j < frac_end - frac_start ==> v@.subrange(
            frac_start as int,
            frac_end as int,
        )[j] == v@[j + frac_start]);
        assert(forall|j: int| 0 <= j < exp_end - exp_start ==> v@.subrange(
            exp_start as int,
            exp_end as int,
        )[j] == v@[j + exp_start]);
    }
    Some(DecSplit { neg, int_start, int_end, frac_start, frac_end, exp_neg, exp_start, exp_end })
}

/// Accumulate the number a span of digits denotes.  `None` means it
/// exceeds every unsigned 64-bit value.
fn accumulate_mag(v: &Vec<char>, start: usize, end: usize) -> (r: Option<u64>)
    requires
        start <= end <= v@.len(),
        all_digits(v@.subrange(start as int, end as int)),
    ensures
        match r {
            Some(a) => a == digits_val(v@.subrange(start as int, end as int)),
            None => digits_val(v@.subrange(start as int, end as int)) > u64::MAX,
        },
{
    let ghost ds = v@.subrange(start as int, end as int);
    let mut acc: u64 = 0;
    let mut i: usize = start;
    while i < end
        invariant
            start <= i <= end <= v@.len(),
            ds == v@.subrange(start as int, end as int),
            all_digits(ds),
            acc == digits_val(ds.take(i - start)),
        decreases end - i,
    {
        let c = v[i];
        proof {
            assert(ds[i - start] == v@[i as int]);
            assert(is_digit_char(c));
        }
        let d = (c as u32 - '0' as u32) as u64;
        proof {
            lemma_digits_val_step(ds, i - start);
            assert(ds.take(i + 1 - start).take(i - start) =~= ds.take(i - start));
            lemma_digits_val_prefix(ds, i + 1 - start);
        }
        let t = match acc.checked_mul(10) {
            Some(t) => t,
            None => {
                proof {
                    assert(digits_val(ds.take(i + 1 - start)) > u64::MAX);
                    assert(ds.take(ds.len() as int) =~= ds);
                }
                return None;
            },
        };
        acc = match t.checked_add(d) {
            Some(u) => u,
            None => {
                proof {
                    assert(digits_val(ds.take(i + 1 - start)) > u64::MAX);
                    assert(ds.take(ds.len() as int) =~= ds);
                }
                return None;
            },
        };
        i = i + 1;
    }
    proof {
        assert(ds.take(ds.len() as int) =~= ds);
    }
    Some(acc)
}

/// Ten to the twentieth: farther than any in-memory input reaches, and more
/// than any 64-bit value.
const EXP_CAP: u128 = 100_000_000_000_000_000_000;

/// Convert a decimal scientific literal to the integer it denotes exactly,
/// as a sign and a magnitude.  `None` means the literal is malformed, its
/// value is not an integer, or the magnitude exceeds every 64-bit value.
#[verifier::rlimit(100)]
fn decimal_to_mag(v: &Vec<char>) -> (r: Option<(bool, u64)>)
    ensures
        match r {
            Some((neg, mag)) => spec_decimal_int(v@) == Some(
                if neg {
                    -(mag as int)
                } else {
                    mag as int
                },
            ),
            None => (match spec_decimal_int(v@) {
                Some(x) => x > u64::MAX || x < -(u64::MAX as int),
                None => true,
            }),
        },
{
    let ghost s = v@;
    let d = match split_decimal(v) {
        Some(d) => d,
        None => {
            return None;
        },
    };
    let ghost dec = d.dec_of(s);
    let ghost digits = dec.int_digits + dec.frac_digits;
    let ghost sign: int = if dec.neg {
        -1
    } else {
        1
    };

    // the mantissa digits, integral and fractional parts in one row
    let mut ds: Vec<char> = Vec::new();
    let mut j: usize = d.int_start;
    while j < d.int_end
        invariant
            d.int_start <= j <= d.int_end,
            d.wf(s),
            s == v@,
            ds@ == s.subrange(d.int_start as int, j as int),
        decreases d.int_end - j,
    {
        let c = v[j];
        ds.push(c);
        proof {
            assert(s.subrange(d.int_start as int, j + 1) =~= s.subrange(
                d.int_start as int,
                j as int,
            ).push(s[j as int]));
        }
        j = j + 1;
    }
    let mut j: usize = d.frac_start;
    while j < d.frac_end
        invariant
            d.frac_start <= j <= d.frac_end,
            d.wf(s),
            s == v@,
            ds@ == s.subrange(d.int_start as int, d.int_end as int) + s.subrange(
                d.frac_start as int,
                j as int,
            ),
        decreases d.frac_end - j,
    {
        let c = v[j];
        ds.push(c);
        proof {
            assert(s.subrange(d.frac_start as int, j + 1) =~= s.subrange(
                d.frac_start as int,
                j as int,
            ).push(s[j as int]));
            assert(s.subrange(d.int_start as int, d.int_end as int) + s.subrange(
                d.frac_start as int,
                j + 1,
            ) =~= (s.subrange(d.int_start as int, d.int_end as int) + s.subrange(
                d.frac_start as int,
                j as int,
            )).push(s[j as int]));
        }
        j = j + 1;
    }
    proof {
        assert(ds@ == digits);
        assert(all_digits(digits)) by {
            assert(forall|i: int|
                0 <= i < dec.int_digits.len() ==> digits[i] == dec.int_digits[i]);
            assert(forall|i: int|
                0 <= i < dec.frac_digits.len() ==> digits[dec.int_digits.len() + i]
                    == dec.frac_digits[i]);
        }
    }
    let m = ds.len();

    // a mantissa of zeros denotes zero, whatever the exponent
    let mut z: usize = 0;
    while z < m && ds[z] == '0'
        invariant
            z <= m == ds@.len(),
            ds@ == digits,
            forall|i: int| 0 <= i < z ==> #[trigger] digits[i] == '0',
        decreases m - z,
    {
        z = z + 1;
    }
    if z == m {
        proof {
            assert(all_zeros(digits));
            lemma_digits_val_zeros(digits);
            let below = dec.frac_digits.len() - dec_exp(dec);
            if below <= 0 {
                assert(sign * digits_val(digits) * pow10((-below) as nat) == 0) by (nonlinear_arith)
                    requires
                        digits_val(digits) == 0,
                ;
            } else if below <= digits.len() {
                let kept = digits.take(digits.len() - below);
                assert(all_zeros(kept) && all_digits(kept)) by {
                    assert(forall|i: int| 0 <= i < kept.len() ==> kept[i] == digits[i]);
                }
                lemma_digits_val_zeros(kept);
                assert(all_zeros(digits.skip(digits.len() - below))) by {
                    assert(forall|i: int|
                        0 <= i < below ==> #[trigger] digits.skip(digits.len() - below)[i]
                            == digits[i + (digits.len() - below)]);
                }
                assert(sign * digits_val(kept) == 0) by (nonlinear_arith)
                    requires
                        digits_val(kept) == 0,
                ;
            }
        }
        return Some((false, 0));
    }
    proof {
        assert(digits[z as int] != '0');
        assert(!all_zeros(digits));
        lemma_digits_val_zeros(digits);
        lemma_digits_val_bounds(digits);
        assert(digits_val(digits) >= 1);
    }

    // the exponent's magnitude, saturated far beyond every reachable value
    let ghost expd = dec.exp_digits;
    let mut e_acc: u128 = 0;
    let mut j: usize = d.exp_start;
    while j < d.exp_end
        invariant
            d.exp_start <= j <= d.exp_end,
            d.wf(s),
            s == v@,
            expd == s.subrange(d.exp_start as int, d.exp_end as int),
            all_digits(expd),
            e_acc <= EXP_CAP,
            (if digits_val(expd.take(j - d.exp_start)) >= EXP_CAP {
                e_acc == EXP_CAP
            } else {
                e_acc == digits_val(expd.take(j - d.exp_start))
            }),
        decreases d.exp_end - j,
    {
        let c = v[j];
        proof {
            assert(expd[j - d.exp_start] == s[j as int]);
            lemma_digits_val_step(expd, j - d.exp_start);
            lemma_digits_val_prefix(expd.take(j + 1 - d.exp_start), j - d.exp_start);
            assert(expd.take(j + 1 - d.exp_start).take(j - d.exp_start) =~= expd.take(
                j - d.exp_start,
            ));
            assert(all_digits(expd.take(j + 1 - d.exp_start))) by {
                assert(forall|i: int|
                    0 <= i < j + 1 - d.exp_start ==> expd.take(j + 1 - d.exp_start)[i] == expd[i]);
            }
            lemma_digits_val_bounds(expd.take(j - d.exp_start));
        }
        let dg = (c as u32 - '0' as u32) as u128;
        let t = e_acc * 10 + dg;
        e_acc = if t >= EXP_CAP {
            EXP_CAP
        } else {
            t
        };
        j = j + 1;
    }
    proof {
        assert(expd.take(d.exp_end - d.exp_start) =~= expd);
        assert(digits_val(expd) >= 0) by {
            lemma_digits_val_bounds(expd);
        }
    }
    let ghost exp_val = digits_val(expd);
    let ghost below_spec = dec.frac_digits.len() - dec_exp(dec);

    if e_acc == EXP_CAP {
        // the exponent reaches past anything an in-memory literal can mean
        proof {
            lemma_pow10_large();
        }
        if d.exp_neg {
            proof {
                assert(below_spec == dec.frac_digits.len() + exp_val);
                assert(below_spec > digits.len());
            }
            return None;
        } else {
            proof {
                assert(below_spec == dec.frac_digits.len() - exp_val);
                assert(dec.frac_digits.len() < EXP_CAP);
                assert(below_spec <= 0);
                assert((-below_spec) as nat >= 20);
                lemma_pow10_mono(20, (-below_spec) as nat);
                assert(sign * digits_val(digits) * pow10((-below_spec) as nat) > u64::MAX || sign
                    * digits_val(digits) * pow10((-below_spec) as nat) < -(u64::MAX as int))
                    by (nonlinear_arith)
                    requires
                        digits_val(digits) >= 1,
                        pow10((-below_spec) as nat) >= 100_000_000_000_000_000_000,
                        sign == 1 || sign == -1,
                ;
            }
            return None;
        }
    }

    // the exponent is exact; place the decimal point
    let frac_len = d.frac_end - d.frac_start;
    let below: i128 = if d.exp_neg {
        frac_len as i128 + e_acc as i128
    } else {
        frac_len as i128 - e_acc as i128
    };
    proof {
        assert(below == below_spec);
    }

    if below <= 0 {
        // every mantissa digit stays above the point
        let shift_amt = -below;
        if shift_amt > 19 {
            proof {
                lemma_pow10_large();
                lemma_pow10_mono(20, (-below_spec) as nat);
                assert(sign * digits_val(digits) * pow10((-below_spec) as nat) > u64::MAX || sign
                    * digits_val(digits) * pow10((-below_spec) as nat) < -(u64::MAX as int))
                    by (nonlinear_arith)
                    requires
                        digits_val(digits) >= 1,
                        pow10((-below_spec) as nat) >= 100_000_000_000_000_000_000,
                        sign == 1 || sign == -1,
                ;
            }
            return None;
        }
        let shift = shift_amt as usize;
        let acc0 = match accumulate_mag(&ds, 0, m) {
            Some(a) => a,
            None => {
                proof {
                    assert(ds@.subrange(0, m as int) =~= digits);
                    lemma_pow10_pos((-below_spec) as nat);
                    assert(sign * digits_val(digits) * pow10((-below_spec) as nat) > u64::MAX
                        || sign * digits_val(digits) * pow10((-below_spec) as nat) < -(u64::MAX
                        as int)) by (nonlinear_arith)
                        requires
                            digits_val(digits) > u64::MAX,
                            pow10((-below_spec) as nat) >= 1,
                            sign == 1 || sign == -1,
                    ;
                }
                return None;
            },
        };
        proof {
            assert(ds@.subrange(0, m as int) =~= digits);
        }
        let mut acc = acc0;
        let mut k: usize = 0;
        while k < shift
            invariant
                k <= shift <= 19,
                s == v@,
                spec_decimal(s) == Some(dec),
                digits == dec.int_digits + dec.frac_digits,
                below_spec == dec.frac_digits.len() - dec_exp(dec),
                below_spec <= 0,
                sign == (if dec.neg { -1int } else { 1int }),
                digits_val(digits) >= 1,
                shift == -below_spec,
                acc == digits_val(digits) * pow10(k as nat),
            decreases shift - k,
        {
            proof {
                lemma_pow10_pos(k as nat);
            }
            acc = match acc.checked_mul(10) {
                Some(t) => t,
                None => {
                    proof {
                        lemma_pow10_mono((k + 1) as nat, (-below_spec) as nat);
                        assert(sign * digits_val(digits) * pow10((-below_spec) as nat) > u64::MAX
                            || sign * digits_val(digits) * pow10((-below_spec) as nat) < -(
                        u64::MAX as int)) by (nonlinear_arith)
                            requires
                                10 * (digits_val(digits) * pow10(k as nat)) > u64::MAX,
                                pow10((k + 1) as nat) == 10 * pow10(k as nat),
                                pow10((-below_spec) as nat) >= pow10((k + 1) as nat),
                                digits_val(digits) >= 1,
                                pow10(k as nat) >= 1,
                                sign == 1 || sign == -1,
                        ;
                    }
                    return None;
                },
            };
            proof {
                assert(10 * (digits_val(digits) * pow10(k as nat)) == digits_val(digits) * pow10(
                    (k + 1) as nat,
                )) by (nonlinear_arith)
                    requires
                        pow10((k + 1) as nat) == 10 * pow10(k as nat),
                ;
            }
            k = k + 1;
        }
        // acc is the magnitude of the denoted integer
        proof {
            assert(spec_decimal_int(s) == Some(sign * digits_val(digits) * pow10(
                (-below_spec) as nat,
            )));
            assert(sign * digits_val(digits) * pow10((-below_spec) as nat) == sign * (digits_val(
                digits,
            ) * pow10((-below_spec) as nat))) by (nonlinear_arith);
        }
        return Some((d.neg, acc));
    } else {
        // `below` mantissa digits end up under the point: they must be zeros
        if below > m as i128 {
            return None;
        }
        let cut = m - (below as usize);
        let mut k: usize = cut;
        while k < m
            invariant
                cut <= k <= m == ds@.len(),
                s == v@,
                spec_decimal(s) == Some(dec),
                digits == dec.int_digits + dec.frac_digits,
                below_spec == dec.frac_digits.len() - dec_exp(dec),
                !all_zeros(digits),
                ds@ == digits,
                cut == digits.len() - below_spec,
                0 < below_spec <= digits.len(),
                forall|i: int| cut <= i < k ==> #[trigger] digits[i] == '0',
            decreases m - k,
        {
            if ds[k] != '0' {
                proof {
                    assert(digits.skip(digits.len() - below_spec)[k - cut] == digits[k as int]);
                    assert(!all_zeros(digits.skip(digits.len() - below_spec)));
                }
                return None;
            }
            k = k + 1;
        }
        proof {
            assert(all_zeros(digits.skip(digits.len() - below_spec))) by {
                assert(forall|i: int|
                    0 <= i < below_spec ==> #[trigger] digits.skip(digits.len() - below_spec)[i]
                        == digits[i + (digits.len() - below_spec)]);
            }
        }
        let acc = match accumulate_mag(&ds, 0, cut) {
            Some(a) => a,
            None => {
                proof {
                    assert(ds@.subrange(0, cut as int) =~= digits.take(cut as int));
                    assert(sign * digits_val(digits.take(cut as int)) > u64::MAX || sign
                        * digits_val(digits.take(cut as int)) < -(u64::MAX as int))
                        by (nonlinear_arith)
                        requires
                            digits_val(digits.take(cut as int)) > u64::MAX,
                            sign == 1 || sign == -1,
                    ;
                }
                return None;
            },
        };
        proof {
            assert(ds@.subrange(0, cut as int) =~= digits.take(cut as int));
            assert(spec_decimal_int(s) == Some(sign * digits_val(digits.take(cut as int))));
        }
        return Some((d.neg, acc));
    }
}

/// The integer a plain decimal literal denotes: an optional minus sign and
/// then digits only.  This is the strict integer-only form, with no point
/// and no exponent.
pub open spec fn spec_plain_int(s: Seq<char>) -> Option<int> {
    let neg = s.len() > 0 && s[0] == '-';
    let d = if neg {
        s.skip(1)
    } else {
        s
    };
    if d.len() == 0 || !all_digits(d) {
        None
    } else if neg {
        Some(-digits_val(d))
    } else {
        Some(digits_val(d))
    }
}

/// Convert a plain integer literal to a sign and a magnitude.  `None` means
/// the literal is malformed or the magnitude exceeds every unsigned 64-bit
/// value.
fn plain_to_mag(v: &Vec<char>) -> (r: Option<(bool, u64)>)
    ensures
        match r {
            Some((neg, mag)) => spec_plain_int(v@) == Some(
                if neg {
                    -(mag as int)
                } else {
                    mag as int
                },
            ),
            None => (match spec_plain_int(v@) {
                Some(x) => x > u64::MAX || x < -(u64::MAX as int),
                None => true,
            }),
        },
{
    let ghost s = v@;
    let n = v.len();
    let neg = n > 0 && v[0] == '-';
    let start: usize = if neg {
        1
    } else {
        0
    };
    let ghost d = if neg { s.skip(1) } else { s };
    proof {
        assert(d =~= s.subrange(start as int, n as int));
    }
    if n - start == 0 {
        return None;
    }
    let mut i: usize = start;
    while i < n
        invariant
            start <= i <= n == v@.len(),
            s == v@,
            start == (if s.len() > 0 && s[0] == '-' { 1int } else { 0int }),
            d == (if s.len() > 0 && s[0] == '-' { s.skip(1) } else { s }),
            d == s.subrange(start as int, n as int),
            forall|j: int| start <= j < i ==> is_digit_char(#[trigger] s[j]),
        decreases n - i,
    {
        if !digit_exec(v[i]) {
            proof {
                assert(d[i - start] == s[i as int]);
                assert(!all_digits(d));
            }
            return None;
        }
        i = i + 1;
    }
    proof {
        assert(all_digits(d)) by {
            assert(forall|j: int| 0 <= j < d.len() ==> d[j] == s[j + start]);
        }
    }
    match accumulate_mag(v, start, n) {
        Some(mag) => Some((neg, mag)),
        None => {
            proof {
                lemma_digits_val_bounds(d);
            }
            None
        },
    }
}

/// Squeeze a sign and a magnitude into a signed 64-bit value, when the
/// signed value fits.
fn mag_to_i64(neg: bool, mag: u64) -> (r: Option<i64>)
    ensures
        ({
            let x: int = if neg {
                -(mag as int)
            } else {
                mag as int
            };
            r == (if i64::MIN <= x <= i64::MAX {
                Some(x as i64)
            } else {
                None::<i64>
            })
        }),
{
    if neg {
        if mag <= i64::MAX as u64 {
            Some(-(mag as i64))
        } else if mag == (i64::MAX as u64) + 1 {
            Some(i64::MIN)
        } else {
            None
        }
    } else {
        if mag <= i64::MAX as u64 {
            Some(mag as i64)
        } else {
            None
        }
    }
}

/// Squeeze a sign and a magnitude into a `usize`, when the signed value
/// fits one.
fn mag_to_usize(neg: bool, mag: u64) -> (r: Option<usize>)
    ensures
        ({
            let x: int = if neg {
                -(mag as int)
            } else {
                mag as int
            };
            r == (if 0 <= x <= usize::MAX {
                Some(x as usize)
            } else {
                None::<usize>
            })
        }),
{
    if neg {
        if mag == 0 {
            Some(0)
        } else {
            None
        }
    } else {
        if mag <= usize::MAX as u64 {
            Some(mag as usize)
        } else {
            None
        }
    }
}

/// Accepts a decimal scientific literal only when it denotes an integer
/// exactly — no truncation loss — and that integer fits a signed 64-bit
/// value.
pub struct DecimalI64;

impl crate::ValidateFn for DecimalI64 {
    type In = Vec<char>;

    type Out = i64;

    open spec fn spec_validate(&self, s: Seq<char>) -> Option<i64> {
        match spec_decimal_int(s) {
            Some(x) => if i64::MIN <= x <= i64::MAX {
                Some(x as i64)
            } else {
                None
            },
            None => None,
        }
    }

    fn call(&self, v: Vec<char>) -> (r: Option<i64>) {
        proof {
            assert(v.deep_view() =~= v@);
        }
        match decimal_to_mag(&v) {
            Some((neg, mag)) => mag_to_i64(neg, mag),
            None => None,
        }
    }
}

/// Accepts a decimal scientific literal only when it denotes an integer
/// exactly and that integer fits a `usize`.
pub struct DecimalUsize;

impl crate::ValidateFn for DecimalUsize {
    type In = Vec<char>;

    type Out = usize;

    open spec fn spec_validate(&self, s: Seq<char>) -> Option<usize> {
        match spec_decimal_int(s) {
            Some(x) => if 0 <= x <= usize::MAX {
                Some(x as usize)
            } else {
                None
            },
            None => None,
        }
    }

    fn call(&self, v: Vec<char>) -> (r: Option<usize>) {
        proof {
            assert(v.deep_view() =~= v@);
        }
        match decimal_to_mag(&v) {
            Some((neg, mag)) => mag_to_usize(neg, mag),
            None => None,
        }
    }
}

/// Accepts a plain integer literal — an optional minus sign, then digits —
/// that fits a signed 64-bit value.
pub struct PlainI64;

impl crate::ValidateFn for PlainI64 {
    type In = Vec<char>;

    type Out = i64;

    open spec fn spec_validate(&self, s: Seq<char>) -> Option<i64> {
        match spec_plain_int(s) {
            Some(x) => if i64::MIN <= x <= i64::MAX {
                Some(x as i64)
            } else {
                None
            },
            None => None,
        }
    }

    fn call(&self, v: Vec<char>) -> (r: Option<i64>) {
        proof {
            assert(v.deep_view() =~= v@);
        }
        match plain_to_mag(&v) {
            Some((neg, mag)) => mag_to_i64(neg, mag),
            None => None,
        }
    }
}

/// Accepts a plain integer literal that fits a `usize`.
pub struct PlainUsize;

impl crate::ValidateFn for PlainUsize {
    type In = Vec<char>;

    type Out = usize;

    open spec fn spec_validate(&self, s: Seq<char>) -> Option<usize> {
        match spec_plain_int(s) {
            Some(x) => if 0 <= x <= usize::MAX {
                Some(x as usize)
            } else {
                None
            },
            None => None,
        }
    }

    fn call(&self, v: Vec<char>) -> (r: Option<usize>) {
        proof {
            assert(v.deep_view() =~= v@);
        }
        match plain_to_mag(&v) {
            Some((neg, mag)) => mag_to_usize(neg, mag),
            None => None,
        }
    }
}

} // verus!
