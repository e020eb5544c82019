//! Decimal rendering and strict decimal parsing, over bytes and over chars.
//!
//! The wire format writes every integer, length and count as its minimal
//! ASCII decimal representation; the decoder accepts strict ASCII digits with
//! an optional leading `-`.

use vstd::prelude::*;

verus! {

/// Whether `b` is an ASCII decimal digit.
pub open spec fn is_digit(b: u8) -> bool {
    48 <= b <= 57
}

/// Whether every byte of `s` is an ASCII decimal digit.
pub open spec fn all_digits(s: Seq<u8>) -> bool {
    forall|i: int| 0 <= i < s.len() ==> is_digit(#[trigger] s[i])
}

/// The non-negative value of a digit string, most significant digit first.
pub open spec fn digits_val(s: Seq<u8>) -> int
    decreases s.len(),
{
    if s.len() == 0 {
        0
    } else {
        digits_val(s.drop_last()) * 10 + (s.last() - 48)
    }
}

/// The minimal decimal digit string of `n`: no leading zeros except for `0`.
pub open spec fn dec_digits(n: nat) -> Seq<u8>
    decreases n,
{
    if n < 10 {
        seq![(48 + n) as u8]
    } else {
        dec_digits(n / 10).push((48 + n % 10) as u8)
    }
}

/// The minimal decimal representation of `i`, with a single leading `-` when
/// `i` is negative.
pub open spec fn dec_int(i: int) -> Seq<u8> {
    if i < 0 {
        seq![45u8] + dec_digits((-i) as nat)
    } else {
        dec_digits(i as nat)
    }
}

/// Strict decimal parse of a whole line, as the decoder performs it: an
/// optional leading `-`, then one or more ASCII digits and nothing else.
/// A value outside the signed 64-bit range is a parse failure.
pub open spec fn dec_parse_i64(s: Seq<u8>) -> Option<int> {
    let neg = s.len() > 0 && s[0] == 45;
    let digs = if neg {
        s.drop_first()
    } else {
        s
    };
    if digs.len() > 0 && all_digits(digs) {
        let v = if neg {
            -digits_val(digs)
        } else {
            digits_val(digs)
        };
        if i64::MIN <= v <= i64::MAX {
            Some(v)
        } else {
            None
        }
    } else {
        None
    }
}

/// The value of a digit string is non-negative.
pub proof fn lemma_digits_val_nonneg(s: Seq<u8>)
    requires
        all_digits(s),
    ensures
        digits_val(s) >= 0,
    decreases s.len(),
{
    if s.len() > 0 {
        assert(all_digits(s.drop_last())) by {
            assert(forall|i: int|
                0 <= i < s.len() - 1 ==> #[trigger] s.drop_last()[i] == s[i]);
        }
        lemma_digits_val_nonneg(s.drop_last());
    }
}

/// The minimal digit string of `n` consists of digits and reads back as `n`.
pub proof fn lemma_dec_digits_val(n: nat)
    ensures
        all_digits(dec_digits(n)),
        digits_val(dec_digits(n)) == n,
        dec_digits(n).len() >= 1,
    decreases n,
{
    if n < 10 {
        let s = dec_digits(n);
        assert(s.last() == (48 + n) as u8);
        assert(s.drop_last() =~= Seq::<u8>::empty());
        assert(digits_val(Seq::<u8>::empty()) == 0);
        assert(digits_val(s) == digits_val(s.drop_last()) * 10 + (s.last() - 48));
        assert(digits_val(s) == n);
    } else {
        lemma_dec_digits_val(n / 10);
        let s = dec_digits(n);
        assert(s.drop_last() =~= dec_digits(n / 10));
        assert(s.last() == (48 + n % 10) as u8);
        assert(digits_val(s) == (n / 10) * 10 + n % 10);
        assert((n / 10) * 10 + n % 10 == n) by (nonlinear_arith);
    }
}

/// No byte of a decimal rendering is a carriage return or line feed.
pub proof fn lemma_dec_digits_no_cr_lf(n: nat)
    ensures
        forall|i: int|
            0 <= i < dec_digits(n).len() ==> #[trigger] dec_digits(n)[i] != 13
                && dec_digits(n)[i] != 10,
    decreases n,
{
    if n < 10 {
        assert(dec_digits(n)[0] == (48 + n) as u8);
    } else {
        lemma_dec_digits_no_cr_lf(n / 10);
        let s = dec_digits(n);
        assert forall|i: int| 0 <= i < s.len() implies s[i] != 13 && s[i] != 10 by {
            if i < s.len() - 1 {
                assert(s[i] == dec_digits(n / 10)[i]);
            } else {
                assert(s[i] == (48 + n % 10) as u8);
            }
        }
    }
}

/// Parsing the minimal rendering of an integer recovers the integer.
pub proof fn lemma_dec_int_round_trip(i: int)
    requires
        i64::MIN <= i <= i64::MAX,
    ensures
        dec_parse_i64(dec_int(i)) == Some(i),
{
    if i < 0 {
        let s = dec_int(i);
        lemma_dec_digits_val((-i) as nat);
        assert(s[0] == 45);
        assert(s.drop_first() =~= dec_digits((-i) as nat));
    } else {
        let s = dec_int(i);
        lemma_dec_digits_val(i as nat);
        assert(s[0] != 45);
    }
}

/// Appends the minimal decimal digit string of `n` to `out`.
pub fn push_digits(out: &mut Vec<u8>, n: u64)
    ensures
        final(out)@ == old(out)@ + dec_digits(n as nat),
    decreases n,
{
    if n < 10 {
        out.push(48 + n as u8);
        assert(out@ =~= old(out)@ + dec_digits(n as nat));
    } else {
        push_digits(out, n / 10);
        out.push(48 + (n % 10) as u8);
        assert(out@ =~= old(out)@ + dec_digits(n as nat));
    }
}

/// Appends the minimal decimal rendering of `i`, sign included, to `out`.
pub fn push_decimal_i64(out: &mut Vec<u8>, i: i64)
    ensures
        final(out)@ == old(out)@ + dec_int(i as int),
{
    if i < 0 {
        out.push(45);
        // Compute the magnitude without overflowing on i64::MIN.
        let mag: u64 = ((-(i + 1)) as u64) + 1;
        assert(mag == -(i as int));
        push_digits(out, mag);
        assert(out@ =~= old(out)@ + dec_int(i as int));
    } else {
        push_digits(out, i as u64);
        assert(out@ =~= old(out)@ + dec_int(i as int));
    }
}

/// Strict decimal parse of `line`, exactly as [`dec_parse_i64`] describes it.
pub fn parse_decimal_i64(line: &[u8]) -> (r: Option<i64>)
    ensures
        match dec_parse_i64(line@) {
            Some(v) => r is Some && r->0 == v,
            None => r is None,
        },
{
    let len = line.len();
    let neg = len > 0 && line[0] == 45;
    let start: usize = if neg {
        1
    } else {
        0
    };
    let ghost digs: Seq<u8> = if neg {
        line@.drop_first()
    } else {
        line@
    };
    proof {
        assert(digs.len() == len - start);
        assert(forall|k: int| 0 <= k < digs.len() ==> digs[k] == line@[start + k]);
    }
    if start >= len {
        return None;
    }
    let mut i: usize = start;
    let mut mag: u128 = 0;
    let mut over: bool = false;
    while i < len
        invariant
            start <= i <= len,
            len == line@.len(),
            start <= 1,
            neg == (line@.len() > 0 && line@[0] == 45),
            neg ==> start == 1,
            !neg ==> start == 0,
            digs == (if neg { line@.drop_first() } else { line@ }),
            digs.len() == len - start,
            forall|k: int| 0 <= k < digs.len() ==> digs[k] == line@[start + k],
            all_digits(digs.take(i - start)),
            !over ==> mag == digits_val(digs.take(i - start)) && mag <= 9223372036854775808u128,
            over ==> digits_val(digs.take(i - start)) > 9223372036854775808u128,
        decreases len - i,
    {
        let b = line[i];
        if b < 48 || b > 57 {
            proof {
                assert(digs[i - start] == b);
                assert(!is_digit(digs[i - start]));
                assert(!all_digits(digs));
            }
            return None;
        }
        let d = (b - 48) as u128;
        proof {
            assert(digs.take(i + 1 - start).drop_last() =~= digs.take(i - start));
            assert(digs.take(i + 1 - start).last() == b);
            lemma_digits_val_nonneg(digs.take(i - start));
        }
        if over {
            proof {
                assert(digits_val(digs.take(i + 1 - start))
                    == digits_val(digs.take(i - start)) * 10 + d);
                assert(digits_val(digs.take(i - start)) * 10
                    >= digits_val(digs.take(i - start))) by (nonlinear_arith)
                    requires digits_val(digs.take(i - start)) > 0;
            }
        } else {
            mag = mag * 10 + d;
            if mag > 9223372036854775808u128 {
                over = true;
            }
        }
        i += 1;
        proof {
            assert(all_digits(digs.take(i - start))) by {
                assert(forall|k: int|
                    0 <= k < i - start ==> digs.take((i - start) as int)[k] == digs[k]);
            }
        }
    }
    proof {
        assert(digs.take((len - start) as int) =~= digs);
    }
    if over {
        return None;
    }
    if neg {
        if mag > 9223372036854775808u128 {
            return None;
        }
        if mag == 9223372036854775808u128 {
            return Some(i64::MIN);
        }
        let v = -(mag as i64);
        assert(v == -digits_val(digs));
        Some(v)
    } else {
        if mag > 9223372036854775807u128 {
            return None;
        }
        Some(mag as i64)
    }
}


/// Ten to the power `k`.
pub open spec fn pow10(k: nat) -> nat
    decreases k,
{
    if k == 0 {
        1
    } else {
        10 * pow10((k - 1) as nat)
    }
}

/// Powers of ten are positive.
pub proof fn lemma_pow10_pos(k: nat)
    ensures
        pow10(k) >= 1,
    decreases k,
{
    if k > 0 {
        lemma_pow10_pos((k - 1) as nat);
    }
}

/// Powers of ten grow with the exponent.
pub proof fn lemma_pow10_mono(a: nat, b: nat)
    requires
        a <= b,
    ensures
        pow10(a) <= pow10(b),
    decreases b,
{
    if a < b {
        lemma_pow10_mono(a, (b - 1) as nat);
        lemma_pow10_pos((b - 1) as nat);
    }
}

/// A number is at least the power of ten of one less than its digit count.
pub proof fn lemma_dec_digits_len(n: nat)
    ensures
        dec_digits(n).len() >= 1,
        dec_digits(n).len() == 1 || n >= pow10((dec_digits(n).len() - 1) as nat),
    decreases n,
{
    if n >= 10 {
        lemma_dec_digits_len(n / 10);
        let l = dec_digits(n).len();
        assert(l == dec_digits(n / 10).len() + 1);
        assert(n >= 10 * (n / 10)) by (nonlinear_arith)
            requires
                n >= 10,
        ;
        if dec_digits(n / 10).len() == 1 {
            assert(pow10(0) == 1);
            assert(pow10((l - 1) as nat) == 10);
        } else {
            assert(n / 10 >= pow10((l - 2) as nat));
            assert(n >= 10 * pow10((l - 2) as nat)) by (nonlinear_arith)
                requires
                    n >= 10 * (n / 10) && n / 10 >= pow10((l - 2) as nat),
            ;
            assert(pow10((l - 1) as nat) == 10 * pow10((l - 2) as nat));
        }
    }
}

/// A number below `10^k` has at most `k` digits.
pub proof fn lemma_dec_digits_len_le(n: nat, k: nat)
    requires
        k >= 1,
        n < pow10(k),
    ensures
        dec_digits(n).len() <= k,
{
    lemma_dec_digits_len(n);
    let l = dec_digits(n).len();
    if l > k {
        lemma_pow10_mono(k, (l - 1) as nat);
    }
}

/// The number of decimal digits in `d`: the length of [`dec_digits`].
pub fn digits_in_u64(d: u64) -> (r: usize)
    ensures
        r == dec_digits(d as nat).len(),
        r <= 20,
{
    proof {
        reveal_with_fuel(pow10, 21);
        assert(pow10(20) == 100000000000000000000);
        lemma_dec_digits_len_le(d as nat, 20);
    }
    let mut n = d;
    let mut count: usize = 1;
    while n >= 10
        invariant
            1 <= count,
            dec_digits(d as nat).len() == dec_digits(n as nat).len() + count - 1,
            dec_digits(d as nat).len() <= 20,
        decreases n,
    {
        proof {
            lemma_dec_digits_len(n as nat);
            assert(dec_digits(n as nat).len() == dec_digits((n / 10) as nat).len() + 1);
            lemma_dec_digits_len((n / 10) as nat);
        }
        n = n / 10;
        count += 1;
    }
    count
}

} // verus!
