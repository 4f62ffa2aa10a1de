//! Verified decimal conversions: reading a signed 64-bit integer from its
//! lexeme, and writing integers back out as decimal text.

use vstd::prelude::*;
use crate::lexer::is_digit_char;

verus! {

broadcast use {vstd::std_specs::vec::group_vec_axioms, vstd::seq::axiom_seq_index_decreases};

pub open spec fn spec_digit_val(c: char) -> int {
    (c as u32) - 48
}

/// Value of a run of decimal digits, most significant first.
pub open spec fn spec_dec_val(s: Seq<char>) -> int
    decreases s.len(),
{
    if s.len() == 0 {
        0
    } else {
        spec_dec_val(s.drop_last()) * 10 + spec_digit_val(s.last())
    }
}

pub open spec fn all_digits(s: Seq<char>) -> bool {
    forall|i: int| 0 <= i < s.len() ==> is_digit_char(#[trigger] s[i])
}

/// An integer lexeme: a nonempty digit run with an optional leading minus.
pub open spec fn spec_int_lexeme(s: Seq<char>) -> bool {
    if s.len() > 0 && s[0] == '-' {
        s.len() >= 2 && all_digits(s.skip(1))
    } else {
        s.len() >= 1 && all_digits(s)
    }
}

/// The signed value an integer lexeme denotes.
pub open spec fn spec_int_val(s: Seq<char>) -> int {
    if s.len() > 0 && s[0] == '-' {
        -spec_dec_val(s.skip(1))
    } else {
        spec_dec_val(s)
    }
}

pub proof fn lemma_dec_val_nonneg(s: Seq<char>)
    requires
        all_digits(s),
    ensures
        spec_dec_val(s) >= 0,
    decreases s.len(),
{
    if s.len() > 0 {
        assert(is_digit_char(s[s.len() - 1]));
        assert(all_digits(s.drop_last())) by {
            assert forall|i: int| 0 <= i < s.drop_last().len() implies is_digit_char(
                #[trigger] s.drop_last()[i],
            ) by {
                assert(s.drop_last()[i] == s[i]);
            }
        }
        lemma_dec_val_nonneg(s.drop_last());
    }
}

/// Appending digits never shrinks the value a digit run denotes.
pub proof fn lemma_dec_val_prefix(s: Seq<char>, k: int)
    requires
        all_digits(s),
        0 <= k <= s.len(),
    ensures
        spec_dec_val(s.take(k)) <= spec_dec_val(s),
    decreases s.len() - k,
{
    if k < s.len() {
        lemma_dec_val_prefix(s, k + 1);
        let t = s.take(k + 1);
        assert(t.drop_last() =~= s.take(k));
        assert(is_digit_char(s[k]));
        assert(all_digits(s.take(k))) by {
            assert forall|i: int| 0 <= i < s.take(k).len() implies is_digit_char(
                #[trigger] s.take(k)[i],
            ) by {
                assert(s.take(k)[i] == s[i]);
            }
        }
        lemma_dec_val_nonneg(s.take(k));
        assert(spec_dec_val(t) == spec_dec_val(s.take(k)) * 10 + spec_digit_val(s[k]));
    } else {
        assert(s.take(k) =~= s);
    }
}

/// Read a signed 64-bit integer from decimal text.  Returns `Some` exactly
/// when the text is an integer lexeme whose value fits in `i64`, and then
/// returns that exact value.
pub fn parse_i64(text: &str) -> (r: Option<i64>)
    ensures
        match r {
            Option::Some(v) => spec_int_lexeme(text@) && i64::MIN <= spec_int_val(text@)
                <= i64::MAX && v as int == spec_int_val(text@),
            Option::None => !(spec_int_lexeme(text@) && i64::MIN <= spec_int_val(text@)
                <= i64::MAX),
        },
{
    let n = text.unicode_len();
    if n == 0 {
        return None;
    }
    let neg = text.get_char(0) == '-';
    let start: usize = if neg {
        1
    } else {
        0
    };
    if n <= start {
        return None;
    }
    let limit: u64 = if neg {
        9223372036854775808
    } else {
        9223372036854775807
    };
    let ghost digits: Seq<char> = if neg {
        text@.skip(1)
    } else {
        text@
    };
    proof {
        assert(digits =~= text@.subrange(start as int, n as int));
    }
    let mut acc: u64 = 0;
    let mut i: usize = start;
    while i < n
        invariant
            start <= i <= n,
            n == text@.len(),
            start == if neg { 1int } else { 0int },
            neg == (text@.len() > 0 && text@[0] == '-'),
            limit == if neg { 9223372036854775808u64 } else { 9223372036854775807u64 },
            digits == text@.subrange(start as int, n as int),
            all_digits(text@.subrange(start as int, i as int)),
            acc as int == spec_dec_val(text@.subrange(start as int, i as int)),
            acc <= limit,
        decreases n - i,
    {
        let c = text.get_char(i);
        let u = c as u32;
        if !(48 <= u && u <= 57) {
            proof {
                assert(!is_digit_char(text@[i as int]));
                if spec_int_lexeme(text@) {
                    assert(is_digit_char(digits[i - start]));
                    assert(false);
                }
            }
            return None;
        }
        let d: u64 = (u - 48) as u64;
        let ghost pre = text@.subrange(start as int, i as int);
        let ghost pre2 = text@.subrange(start as int, i + 1 as int);
        proof {
            assert(pre2.drop_last() =~= pre);
            assert(pre2.last() == text@[i as int]);
            assert(all_digits(pre2)) by {
                assert forall|j: int| 0 <= j < pre2.len() implies is_digit_char(
                    #[trigger] pre2[j],
                ) by {
                    if j < pre.len() {
                        assert(pre2[j] == pre[j]);
                    }
                }
            }
            assert(spec_dec_val(pre2) == acc * 10 + d);
        }
        if acc > (limit - d) / 10 {
            proof {
                vstd::arithmetic::div_mod::lemma_fundamental_div_mod((limit - d) as int, 10);
                assert(acc * 10 + d > limit);
                if spec_int_lexeme(text@) {
                    assert(digits =~= text@.subrange(start as int, n as int));
                    assert(all_digits(digits));
                    lemma_dec_val_prefix(digits, i + 1 - start);
                    assert(digits.take(i + 1 - start) =~= pre2);
                    assert(spec_dec_val(digits) >= spec_dec_val(pre2));
                    if neg {
                        assert(digits =~= text@.skip(1));
                        assert(spec_int_val(text@) == -spec_dec_val(digits));
                        assert(spec_int_val(text@) < i64::MIN);
                    } else {
                        assert(digits =~= text@);
                        assert(spec_int_val(text@) == spec_dec_val(digits));
                        assert(spec_int_val(text@) > i64::MAX);
                    }
                }
            }
            return None;
        }
        proof {
            vstd::arithmetic::div_mod::lemma_fundamental_div_mod((limit - d) as int, 10);
            assert(acc * 10 + d <= limit);
        }
        acc = acc * 10 + d;
        i = i + 1;
    }
    proof {
        assert(text@.subrange(start as int, n as int) =~= digits);
        assert(spec_int_lexeme(text@));
        assert(acc as int == spec_dec_val(digits));
        if neg {
            assert(digits =~= text@.skip(1));
            assert(spec_int_val(text@) == -(acc as int));
        } else {
            assert(digits =~= text@);
            assert(spec_int_val(text@) == acc as int);
        }
    }
    if neg {
        if acc == 9223372036854775808 {
            Some(i64::MIN)
        } else {
            Some(-(acc as i64))
        }
    } else {
        Some(acc as i64)
    }
}

pub open spec fn spec_digit_char(d: int) -> char {
    ((48 + d) as u8) as char
}

/// Decimal text of a nonnegative integer, without sign or leading zeros
/// (a single `0` for zero).
pub open spec fn spec_udec(n: int) -> Seq<char>
    decreases n,
{
    if n <= 9 {
        seq![spec_digit_char(if n < 0 { 0int } else { n })]
    } else {
        spec_udec(n / 10) + seq![spec_digit_char(n % 10)]
    }
}

/// Decimal text of a signed integer.
pub open spec fn spec_int_str(i: int) -> Seq<char> {
    if i < 0 {
        seq!['-'] + spec_udec(-i)
    } else {
        spec_udec(i)
    }
}

fn u64_to_digits(n: u64) -> (r: Vec<char>)
    ensures
        r@ == spec_udec(n as int),
    decreases n,
{
    if n <= 9 {
        let d: u8 = 48 + (n as u8);
        let mut v: Vec<char> = Vec::new();
        v.push(d as char);
        proof {
            assert(v@ =~= spec_udec(n as int));
        }
        v
    } else {
        let mut v = u64_to_digits(n / 10);
        let d: u8 = 48 + ((n % 10) as u8);
        v.push(d as char);
        proof {
            assert(v@ =~= spec_udec(n as int));
        }
        v
    }
}

/// Decimal digits of a signed 64-bit integer, sign included.
pub fn i64_to_digits(i: i64) -> (r: Vec<char>)
    ensures
        r@ == spec_int_str(i as int),
{
    if i >= 0 {
        u64_to_digits(i as u64)
    } else {
        let m: u64 = ((-(i + 1)) as u64) + 1;
        proof {
            assert(m as int == -(i as int));
        }
        let digits = u64_to_digits(m);
        let mut v: Vec<char> = Vec::new();
        v.push('-');
        let mut k: usize = 0;
        while k < digits.len()
            invariant
                k <= digits@.len(),
                v@ == seq!['-'] + digits@.take(k as int),
            decreases digits@.len() - k,
        {
            v.push(digits[k]);
            proof {
                assert(v@ =~= seq!['-'] + digits@.take(k + 1 as int));
            }
            k = k + 1;
        }
        proof {
            assert(digits@.take(digits@.len() as int) =~= digits@);
        }
        v
    }
}

/// Decimal digits of a usize, used for row and column numbers.
pub fn usize_to_digits(n: usize) -> (r: Vec<char>)
    ensures
        r@ == spec_udec(n as int),
{
    u64_to_digits(n as u64)
}

} // verus!
