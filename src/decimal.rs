//! ASCII decimal numerals and the self-describing length of pax records.

use vstd::prelude::*;

verus! {

/// `10` raised to `n`.
pub open spec fn pow10(n: nat) -> nat
    decreases n,
{
    if n == 0 {
        1
    } else {
        10 * pow10((n - 1) as nat)
    }
}

/// The ASCII decimal numeral of `n`, without leading zeros.
pub open spec fn decimal(n: nat) -> Seq<u8>
    decreases n,
{
    if n < 10 {
        seq![(48 + n) as u8]
    } else {
        decimal(n / 10).push((48 + n % 10) as u8)
    }
}

/// The value of a sequence of ASCII decimal digits.
pub open spec fn digits_value(s: Seq<u8>) -> nat
    decreases s.len(),
{
    if s.len() == 0 {
        0
    } else {
        digits_value(s.drop_last()) * 10 + (s.last() - 48) as nat
    }
}

/// Whether every byte of `s` is an ASCII decimal digit.
pub open spec fn all_digits(s: Seq<u8>) -> bool {
    forall|i: int| 0 <= i < s.len() ==> 48 <= #[trigger] s[i] <= 57
}

/// The least width `w`, starting the search at `from`, such that a numeral of
/// `w` digits can hold `rest + w`.
pub open spec fn width_from(rest: nat, from: nat) -> nat
    decreases rest + 2 - from,
{
    if rest + from < pow10(from) || from > rest + 1 {
        from
    } else {
        width_from(rest, from + 1)
    }
}

/// The length of a record whose other parts take `rest` bytes: the least width
/// for its own numeral, plus `rest`.
pub open spec fn record_len(rest: nat) -> nat {
    rest + width_from(rest, 1)
}

pub proof fn lemma_pow10_grows(n: nat)
    ensures
        pow10(n) >= 9 * n + 1,
        pow10(n) >= 1,
    decreases n,
{
    if n > 0 {
        lemma_pow10_grows((n - 1) as nat);
    }
}

/// A number between `10^(w-1)` and `10^w` has a numeral of `w` digits.
pub proof fn lemma_decimal_len(n: nat, w: nat)
    requires
        w >= 1,
        n < pow10(w),
        w == 1 || n >= pow10((w - 1) as nat),
    ensures
        decimal(n).len() == w,
    decreases n,
{
    if n < 10 {
        if w > 1 {
            lemma_pow10_grows((w - 2) as nat);
            assert(pow10((w - 1) as nat) == 10 * pow10((w - 2) as nat));
        }
    } else {
        if w == 1 {
            assert(pow10(1) == 10) by {
                assert(pow10(0) == 1);
            }
        }
        let p = pow10((w - 1) as nat);
        assert(pow10(w) == 10 * p);
        assert(n / 10 < p) by (nonlinear_arith)
            requires
                n < 10 * p,
        ;
        if w > 2 {
            let q = pow10((w - 2) as nat);
            assert(p == 10 * q);
            assert(n / 10 >= q) by (nonlinear_arith)
                requires
                    n >= 10 * q,
            ;
        }
        lemma_decimal_len(n / 10, (w - 1) as nat);
    }
}

/// A numeral holds only digits and reads back as the number it was made from.
pub proof fn lemma_decimal_round_trip(n: nat)
    ensures
        all_digits(decimal(n)),
        digits_value(decimal(n)) == n,
        decimal(n).len() >= 1,
    decreases n,
{
    if n < 10 {
        let d = decimal(n);
        assert(d.drop_last() =~= Seq::<u8>::empty());
        assert(digits_value(Seq::<u8>::empty()) == 0);
        assert(digits_value(d) == digits_value(d.drop_last()) * 10 + (d.last() - 48) as nat);
    } else {
        lemma_decimal_round_trip(n / 10);
        let d = decimal(n);
        assert(d.drop_last() =~= decimal(n / 10));
        assert(d.last() == (48 + n % 10) as u8);
        assert((d.last() - 48) as nat == n % 10);
        assert(n == (n / 10) * 10 + n % 10);
        assert(digits_value(d) == digits_value(d.drop_last()) * 10 + (d.last() - 48) as nat);
        assert forall|i: int| 0 <= i < d.len() implies 48 <= #[trigger] d[i] <= 57 by {
            if i < d.len() - 1 {
                assert(d[i] == decimal(n / 10)[i]);
            }
        }
    }
}

/// The width found by the search holds its own length, and no smaller one does.
pub proof fn lemma_width_from(rest: nat, from: nat)
    requires
        from >= 1,
        from == 1 || rest + from - 1 >= pow10((from - 1) as nat),
    ensures
        width_from(rest, from) >= from,
        rest + width_from(rest, from) < pow10(width_from(rest, from)),
        width_from(rest, from) == 1 || rest + width_from(rest, from) - 1 >= pow10(
            (width_from(rest, from) - 1) as nat,
        ),
    decreases rest + 2 - from,
{
    lemma_pow10_grows(from);
    if rest + from < pow10(from) {
    } else {
        assert(from <= rest + 1);
        lemma_width_from(rest, from + 1);
    }
}

/// The numeral of a record's length is exactly as wide as the search says.
pub proof fn lemma_record_len(rest: nat)
    ensures
        decimal(record_len(rest)).len() + rest == record_len(rest),
{
    lemma_width_from(rest, 1);
    let w = width_from(rest, 1);
    if w > 1 {
        assert(rest + w >= pow10((w - 1) as nat));
    } else {
        lemma_pow10_grows(0);
    }
    lemma_decimal_len(record_len(rest), w);
}

/// Below the width the search finds, no width holds its own length.
pub proof fn lemma_width_below(rest: nat, from: nat, w: nat)
    requires
        from <= w < width_from(rest, from),
    ensures
        rest + w >= pow10(w),
    decreases rest + 2 - from,
{
    if rest + from < pow10(from) || from > rest + 1 {
    } else if w > from {
        lemma_width_below(rest, from + 1, w);
    }
}

/// A number of at least `10^k` has a numeral of more than `k` digits.
pub proof fn lemma_decimal_len_ge(n: nat, k: nat)
    requires
        n >= pow10(k),
    ensures
        decimal(n).len() >= k + 1,
    decreases k,
{
    lemma_decimal_round_trip(n);
    if k > 0 {
        let p = pow10((k - 1) as nat);
        lemma_pow10_grows((k - 1) as nat);
        assert(pow10(k) == 10 * p);
        assert(n / 10 >= p) by (nonlinear_arith)
            requires
                n >= 10 * p,
        ;
        lemma_decimal_len_ge(n / 10, (k - 1) as nat);
        assert(decimal(n) == decimal(n / 10).push((48 + n % 10) as u8));
    }
}

/// The record length is the least that states itself: no shorter length `l`
/// has a numeral that, with the other `rest` bytes, makes up `l` bytes.
pub proof fn lemma_record_len_least(rest: nat, l: nat)
    requires
        l < record_len(rest),
    ensures
        decimal(l).len() + rest != l,
{
    lemma_decimal_round_trip(l);
    let d = decimal(l).len();
    if d + rest == l {
        assert(1 <= d < width_from(rest, 1));
        lemma_width_below(rest, 1, d);
        lemma_decimal_len_ge(l, d);
    }
}

/// Appends the decimal numeral of `n` to `buf`.
pub fn push_decimal(buf: &mut Vec<u8>, n: usize)
    ensures
        final(buf)@ == old(buf)@ + decimal(n as nat),
    decreases n,
{
    if n >= 10 {
        push_decimal(buf, n / 10);
    }
    buf.push((48 + n % 10) as u8);
    assert(buf@ =~= old(buf)@ + decimal(n as nat));
}

/// The least width `w` for which `rest + w` has a numeral of `w` digits.
pub fn length_width(rest: usize) -> (w: usize)
    requires
        rest + 64 <= usize::MAX,
    ensures
        w as nat == width_from(rest as nat, 1),
        w <= 20,
{
    let mut w: usize = 1;
    let mut p: u128 = 10;
    proof {
        assert(pow10(1) == 10) by {
            assert(pow10(0) == 1);
        }
    }
    while (rest as u128) + (w as u128) >= p
        invariant
            1 <= w <= rest + 1,
            p as nat == pow10(w as nat),
            w == 1 || rest + w - 1 >= pow10((w - 1) as nat),
            width_from(rest as nat, w as nat) == width_from(rest as nat, 1),
            rest + 64 <= usize::MAX,
            w <= 20,
        decreases rest + 1 - w,
    {
        proof {
            if w == 20 {
                assert(pow10(20) == 100000000000000000000nat) by {
                    reveal_with_fuel(pow10, 21);
                }
            }
            lemma_pow10_grows(w as nat);
            assert(pow10((w + 1) as nat) == 10 * pow10(w as nat));
        }
        w = w + 1;
        p = p * 10;
    }
    w
}

} // verus!
