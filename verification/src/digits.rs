//! Decimal text for ids and money amounts.
//!
//! Event payloads carry ids as ASCII decimal text. This module gives the
//! decimal representation an exact mathematical meaning: `dec_digits` and
//! `int_to_seq` say what a number looks like, `parse_i64_spec` says what a
//! piece of text means, and the executable functions are proved against
//! those definitions, including the round trip between them.

use vstd::prelude::*;
use vstd::string::StrSliceExecFns;
use vstd::string::StringExecFns;

verus! {

/// An ASCII decimal digit.
pub open spec fn is_digit(c: char) -> bool {
    48 <= c as u32 && c as u32 <= 57
}

/// The numeric value of a digit character.
pub open spec fn digit_val(c: char) -> nat {
    (c as u32 - 48) as nat
}

/// Every character of `s` is a decimal digit.
pub open spec fn all_digits(s: Seq<char>) -> bool {
    forall|i: int| 0 <= i < s.len() ==> is_digit(#[trigger] s[i])
}

/// The value of a digit string, most significant digit first.
pub open spec fn digits_val(s: Seq<char>) -> nat
    decreases s.len(),
{
    if s.len() == 0 {
        0
    } else {
        digits_val(s.drop_last()) * 10 + digit_val(s.last())
    }
}

/// The digit character for a value below ten.
pub open spec fn digit_char(d: nat) -> char {
    if d == 0 {
        '0'
    } else if d == 1 {
        '1'
    } else if d == 2 {
        '2'
    } else if d == 3 {
        '3'
    } else if d == 4 {
        '4'
    } else if d == 5 {
        '5'
    } else if d == 6 {
        '6'
    } else if d == 7 {
        '7'
    } else if d == 8 {
        '8'
    } else {
        '9'
    }
}

/// The decimal representation of a natural number, without leading zeros
/// (a single zero for zero itself).
pub open spec fn dec_digits(n: nat) -> Seq<char>
    decreases n,
{
    if n < 10 {
        seq![digit_char(n)]
    } else {
        dec_digits(n / 10).push(digit_char(n % 10))
    }
}

/// The decimal representation of an integer: a minus sign for negative
/// values, then the digits of the magnitude.
pub open spec fn int_to_seq(i: int) -> Seq<char> {
    if i < 0 {
        seq!['-'] + dec_digits((-i) as nat)
    } else {
        dec_digits(i as nat)
    }
}

/// What parsing text as a signed 64-bit decimal yields: an optional single
/// leading sign, then at least one digit and nothing else, with the value in
/// range; anything else is rejected.
pub open spec fn parse_i64_spec(s: Seq<char>) -> Option<i64> {
    let signed = s.len() > 0 && (s[0] == '-' || s[0] == '+');
    let body = if signed {
        s.drop_first()
    } else {
        s
    };
    let neg = s.len() > 0 && s[0] == '-';
    if body.len() == 0 || !all_digits(body) {
        None
    } else {
        let v = digits_val(body) as int;
        if neg {
            if -v >= i64::MIN {
                Some((-v) as i64)
            } else {
                None
            }
        } else {
            if v <= i64::MAX {
                Some(v as i64)
            } else {
                None
            }
        }
    }
}

/// The decimal representation is made of digits, is never empty, and means
/// the number it was made from.
proof fn lemma_dec_digits_props(n: nat)
    ensures
        dec_digits(n).len() >= 1,
        all_digits(dec_digits(n)),
        digits_val(dec_digits(n)) == n,
    decreases n,
{
    if n < 10 {
        let s = dec_digits(n);
        assert(s =~= seq![digit_char(n)]);
        assert(s.drop_last() =~= Seq::<char>::empty());
        assert(digits_val(Seq::<char>::empty()) == 0);
        assert(s.last() == digit_char(n));
        assert(digit_val(digit_char(n)) == n);
        assert(digits_val(s) == digits_val(s.drop_last()) * 10 + digit_val(s.last()));
    } else {
        lemma_dec_digits_props(n / 10);
        let prefix = dec_digits(n / 10);
        let s = dec_digits(n);
        assert(s =~= prefix.push(digit_char(n % 10)));
        assert(s.drop_last() =~= prefix);
        assert(digits_val(s) == (n / 10) * 10 + n % 10);
    }
}

/// Formatting then parsing gives the number back.
pub proof fn lemma_parse_int_to_seq(v: i64)
    ensures
        parse_i64_spec(int_to_seq(v as int)) == Some(v),
{
    if v >= 0 {
        let s = dec_digits(v as nat);
        lemma_dec_digits_props(v as nat);
        assert(is_digit(s[0]));
        assert(s[0] != '-' && s[0] != '+') by {
            if s[0] == '-' || s[0] == '+' {
                assert(s[0] as u32 == 45 || s[0] as u32 == 43);
            }
        }
    } else {
        let mag = (-(v as int)) as nat;
        let s = int_to_seq(v as int);
        lemma_dec_digits_props(mag);
        assert(s[0] == '-');
        assert(s.drop_first() =~= dec_digits(mag));
    }
}

/// No comma ever appears in a formatted integer, so comma-joined lists of
/// ids can be split again unambiguously.
pub proof fn lemma_int_to_seq_no_comma(i: int)
    ensures
        forall|j: int|
            0 <= j < int_to_seq(i).len() ==> #[trigger] int_to_seq(i)[j] != ',',
{
    if i < 0 {
        lemma_dec_digits_props((-i) as nat);
        assert(forall|j: int|
            0 <= j < int_to_seq(i).len() ==> #[trigger] int_to_seq(i)[j] as u32 != 44) by {
            assert(',' as u32 == 44);
            assert('-' as u32 == 45);
        }
    } else {
        lemma_dec_digits_props(i as nat);
        assert(forall|j: int|
            0 <= j < int_to_seq(i).len() ==> is_digit(#[trigger] int_to_seq(i)[j]));
    }
    assert(',' as u32 == 44);
}

/// Appends the decimal digits of `n`.
fn push_dec_digits(n: u64, out: &mut String)
    ensures
        final(out)@ == old(out)@ + dec_digits(n as nat),
    decreases n,
{
    let ghost entry = out@;
    if n >= 10 {
        push_dec_digits(n / 10, out);
    }
    let d = n % 10;
    let digit: &str = if d == 0 {
        "0"
    } else if d == 1 {
        "1"
    } else if d == 2 {
        "2"
    } else if d == 3 {
        "3"
    } else if d == 4 {
        "4"
    } else if d == 5 {
        "5"
    } else if d == 6 {
        "6"
    } else if d == 7 {
        "7"
    } else if d == 8 {
        "8"
    } else {
        "9"
    };
    proof {
        reveal_strlit("0");
        reveal_strlit("1");
        reveal_strlit("2");
        reveal_strlit("3");
        reveal_strlit("4");
        reveal_strlit("5");
        reveal_strlit("6");
        reveal_strlit("7");
        reveal_strlit("8");
        reveal_strlit("9");
        assert(digit@ =~= seq![digit_char((n % 10) as nat)]);
    }
    out.append(digit);
    proof {
        if n < 10 {
            assert(dec_digits(n as nat) =~= seq![digit_char(n as nat)]);
            assert(out@ =~= entry + dec_digits(n as nat));
        } else {
            assert(out@ =~= entry + dec_digits((n / 10) as nat).push(
                digit_char((n % 10) as nat),
            ));
            assert(dec_digits(n as nat) =~= dec_digits((n / 10) as nat).push(
                digit_char((n % 10) as nat),
            ));
        }
    }
}

/// The decimal text of a signed id, exactly as `int_to_seq` describes it.
pub fn i64_to_string(n: i64) -> (r: String)
    ensures
        r@ == int_to_seq(n as int),
{
    let mut out = String::new();
    if n < 0 {
        out.append("-");
        let mag: u64 = if n == i64::MIN {
            9223372036854775808u64
        } else {
            (-n) as u64
        };
        push_dec_digits(mag, &mut out);
        proof {
            reveal_strlit("-");
            assert(out@ =~= seq!['-'] + dec_digits((-(n as int)) as nat));
        }
    } else {
        push_dec_digits(n as u64, &mut out);
        proof {
            assert(out@ =~= dec_digits(n as nat));
        }
    }
    out
}

/// Parses text as a signed 64-bit decimal, exactly as `parse_i64_spec`
/// describes it; malformed or out-of-range text yields `None`.
pub fn parse_i64(s: &str) -> (r: Option<i64>)
    ensures
        r == parse_i64_spec(s@),
{
    let n = s.unicode_len();
    if n == 0 {
        return None;
    }
    let first = s.get_char(0);
    let neg = first == '-';
    let start: usize = if first == '-' || first == '+' {
        1
    } else {
        0
    };
    if n == start {
        return None;
    }
    let ghost body = s@.subrange(start as int, n as int);
    let mut i: usize = start;
    let mut val: u64 = 0;
    let mut too_big = false;
    while i < n
        invariant
            start <= i <= n,
            n == s@.len(),
            1 <= n,
            start <= 1,
            (start == 1) == (s@[0] == '-' || s@[0] == '+'),
            body == s@.subrange(start as int, n as int),
            all_digits(s@.subrange(start as int, i as int)),
            !too_big ==> val == digits_val(s@.subrange(start as int, i as int))
                && val <= 9223372036854775808u64,
            too_big ==> digits_val(s@.subrange(start as int, i as int))
                > 9223372036854775808,
        decreases n - i,
    {
        let ghost prefix = s@.subrange(start as int, i as int);
        let c = s.get_char(i);
        let cv = c as u32;
        if cv < 48 || cv > 57 {
            proof {
                assert(!is_digit(c));
                assert(body[i - start] == c);
                assert(!all_digits(body));
                if start == 1 {
                    assert(s@.drop_first() =~= body);
                } else {
                    assert(body =~= s@);
                }
            }
            return None;
        }
        let d = (cv - 48) as u64;
        proof {
            assert(s@.subrange(start as int, i + 1).drop_last() =~= prefix);
            assert(digits_val(s@.subrange(start as int, i + 1)) == digits_val(prefix) * 10
                + digit_val(c));
        }
        if too_big {
        } else if val > 1844674407370955160u64 {
            too_big = true;
        } else {
            let nv = val * 10 + d;
            if nv > 9223372036854775808u64 {
                too_big = true;
            } else {
                val = nv;
            }
        }
        i = i + 1;
    }
    proof {
        if start == 1 {
            assert(s@.drop_first() =~= body);
        } else {
            assert(body =~= s@);
        }
    }
    if too_big {
        return None;
    }
    if neg {
        if val == 9223372036854775808u64 {
            Some(i64::MIN)
        } else {
            Some(-(val as i64))
        }
    } else {
        if val > 9223372036854775807u64 {
            None
        } else {
            Some(val as i64)
        }
    }
}

} // verus!
