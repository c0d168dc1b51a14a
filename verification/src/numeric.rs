//! Numeric cells: a field is numeric when it is an optional minus sign
//! followed by one to eighteen decimal digits.  Eighteen digits keep every
//! numeric value well inside `i64`, so comparison never overflows; a longer
//! run of digits is treated as text.

use vstd::prelude::*;

verus! {

/// A decimal digit byte.
pub open spec fn is_digit(b: u8) -> bool {
    48 <= b <= 57
}

/// Every byte of `f` is a decimal digit.
pub open spec fn all_digits(f: Seq<u8>) -> bool {
    forall|k: int| 0 <= k < f.len() ==> is_digit(#[trigger] f[k])
}

/// The value of a digit run, most significant digit first.
pub open spec fn digits_value(f: Seq<u8>) -> int
    decreases f.len(),
{
    if f.len() == 0 {
        0
    } else {
        digits_value(f.drop_last()) * 10 + (f.last() - 48)
    }
}

/// Ten to the `n`th power.
pub open spec fn pow10(n: nat) -> int
    decreases n,
{
    if n == 0 {
        1
    } else {
        10 * pow10((n - 1) as nat)
    }
}

/// A digit run's value is at least zero and under ten to its length.
pub proof fn lemma_digits_bound(f: Seq<u8>)
    requires
        all_digits(f),
    ensures
        0 <= digits_value(f) < pow10(f.len()),
    decreases f.len(),
{
    if f.len() > 0 {
        assert(all_digits(f.drop_last())) by {
            assert(forall|k: int|
                0 <= k < f.len() - 1 ==> #[trigger] f.drop_last()[k] == f[k]);
        }
        lemma_digits_bound(f.drop_last());
        assert(is_digit(f.last()));
    }
}

/// `pow10` grows with its argument.
pub proof fn lemma_pow10_mono(a: nat, b: nat)
    requires
        a <= b,
    ensures
        0 < pow10(a) <= pow10(b),
    decreases b,
{
    if b > 0 {
        if a == b {
            lemma_pow10_mono((a - 1) as nat, (b - 1) as nat);
        } else {
            lemma_pow10_mono(a, (b - 1) as nat);
        }
    }
}

/// Whether `f` is a numeric field: an optional minus sign, then one to
/// eighteen digits.
pub open spec fn is_numeric_field(f: Seq<u8>) -> bool {
    if f.len() > 0 && f[0] == 45 {
        1 <= f.drop_first().len() <= 18 && all_digits(f.drop_first())
    } else {
        1 <= f.len() <= 18 && all_digits(f)
    }
}

/// The value of a numeric field.
pub open spec fn field_value(f: Seq<u8>) -> int {
    if f.len() > 0 && f[0] == 45 {
        -digits_value(f.drop_first())
    } else {
        digits_value(f)
    }
}

/// Parses a field as a numeric cell: returns its value exactly when the
/// field is numeric.
pub fn parse_numeric_field(f: &Vec<u8>) -> (r: Option<i64>)
    ensures
        match r {
            Some(v) => is_numeric_field(f@) && v as int == field_value(f@),
            None => !is_numeric_field(f@),
        },
{
    let n = f.len();
    if n == 0 {
        return None;
    }
    let neg = f[0] == 45u8;
    let start: usize = if neg {
        1
    } else {
        0
    };
    proof {
        if neg {
            assert(f@.drop_first() =~= f@.subrange(1, n as int));
        } else {
            assert(f@ =~= f@.subrange(0, n as int));
        }
    }
    if n - start < 1 || n - start > 18 {
        return None;
    }
    let mut v: i64 = 0;
    let mut k: usize = start;
    proof {
        assert(f@.subrange(start as int, start as int).len() == 0);
        reveal_with_fuel(pow10, 19);
    }
    while k < n
        invariant
            start <= k <= n == f@.len(),
            1 <= n - start <= 18,
            neg == (f@.len() > 0 && f@[0] == 45),
            start == if neg { 1int } else { 0int },
            all_digits(f@.subrange(start as int, k as int)),
            v as int == digits_value(f@.subrange(start as int, k as int)),
            0 <= v as int,
            (v as int) < pow10((k - start) as nat),
        decreases n - k,
    {
        let b = f[k];
        if b < 48u8 || b > 57u8 {
            proof {
                assert(!is_digit(f@[k as int]));
                if neg {
                    assert(f@.drop_first()[k as int - 1] == f@[k as int]);
                }
            }
            return None;
        }
        let ghost pre = f@.subrange(start as int, k as int);
        proof {
            assert(f@.subrange(start as int, k as int + 1).drop_last() =~= pre);
            assert(f@.subrange(start as int, k as int + 1).last() == f@[k as int]);
            lemma_pow10_mono((k - start) as nat, 17);
            reveal_with_fuel(pow10, 19);
            assert(pow10(17) == 100000000000000000);
            assert(pow10(((k + 1) - start) as nat) == 10 * pow10((k - start) as nat));
        }
        v = v * 10 + ((b - 48u8) as i64);
        k = k + 1;
        proof {
            assert(all_digits(f@.subrange(start as int, k as int))) by {
                assert(forall|t: int|
                    0 <= t < k - start ==> #[trigger] f@.subrange(start as int, k as int)[t]
                        == f@[start + t]);
            }
        }
    }
    proof {
        if neg {
            assert(f@.subrange(1, n as int) =~= f@.drop_first());
        } else {
            assert(f@.subrange(0, n as int) =~= f@);
        }
    }
    if neg {
        Some(-v)
    } else {
        Some(v)
    }
}

} // verus!
