//! Character-level helpers: string comparison and canonical decimal numbers.

use vstd::prelude::*;
use vstd::string::*;

verus! {

/// Whether two strings hold the same characters.
pub fn str_eq(a: &str, b: &str) -> (r: bool)
    ensures
        r == (a@ == b@),
{
    let n = a.unicode_len();
    if n != b.unicode_len() {
        return false;
    }
    let mut i: usize = 0;
    while i < n
        invariant
            n == a@.len(),
            n == b@.len(),
            i <= n,
            forall|j: int| 0 <= j < i ==> a@[j] == b@[j],
        decreases n - i,
    {
        if a.get_char(i) != b.get_char(i) {
            return false;
        }
        i += 1;
    }
    assert(a@ =~= b@);
    true
}

/// The character of a decimal digit.
pub open spec fn digit_char(d: int) -> char {
    if d == 0 {
        '0'
    } else if d == 1 {
        '1'
    } else if d == 2 {
        '2'
    } else if d == 3 {
        '3'
    } else if d == 4 {
        '4'
    } else if d == 5 {
        '5'
    } else if d == 6 {
        '6'
    } else if d == 7 {
        '7'
    } else if d == 8 {
        '8'
    } else {
        '9'
    }
}

/// The canonical decimal text of `n`: no sign, no leading zeros.
pub open spec fn dec_digits(n: nat) -> Seq<char>
    decreases n,
{
    if n < 10 {
        seq![digit_char(n as int)]
    } else {
        dec_digits(n / 10).push(digit_char((n % 10) as int))
    }
}

fn digit_str(d: u32) -> (r: &'static str)
    requires
        d < 10,
    ensures
        r@ == seq![digit_char(d as int)],
{
    if d == 0 {
        proof { reveal_strlit("0"); }
        "0"
    } else if d == 1 {
        proof { reveal_strlit("1"); }
        "1"
    } else if d == 2 {
        proof { reveal_strlit("2"); }
        "2"
    } else if d == 3 {
        proof { reveal_strlit("3"); }
        "3"
    } else if d == 4 {
        proof { reveal_strlit("4"); }
        "4"
    } else if d == 5 {
        proof { reveal_strlit("5"); }
        "5"
    } else if d == 6 {
        proof { reveal_strlit("6"); }
        "6"
    } else if d == 7 {
        proof { reveal_strlit("7"); }
        "7"
    } else if d == 8 {
        proof { reveal_strlit("8"); }
        "8"
    } else {
        proof { reveal_strlit("9"); }
        "9"
    }
}

/// Appends the decimal text of `n` to `s`.
pub fn append_decimal(s: &mut String, n: u64)
    ensures
        final(s)@ == old(s)@ + dec_digits(n as nat),
    decreases n,
{
    if n >= 10 {
        append_decimal(s, n / 10);
    }
    s.append(digit_str((n % 10) as u32));
    proof {
        assert(final(s)@ =~= old(s)@ + dec_digits(n as nat));
    }
}

/// `prefix` followed by the decimal text of `n`.
pub fn with_decimal(prefix: &str, n: u32) -> (r: String)
    ensures
        r@ == prefix@ + dec_digits(n as nat),
{
    let mut s = String::from_str(prefix);
    append_decimal(&mut s, n as u64);
    s
}

/// `prefix` followed by the decimal text of the position `n`.
pub fn with_index(prefix: &str, n: usize) -> (r: String)
    ensures
        r@ == prefix@ + dec_digits(n as nat),
{
    let mut s = String::from_str(prefix);
    append_decimal(&mut s, n as u64);
    s
}

/// Whether `c` is a decimal digit.
pub open spec fn is_digit(c: char) -> bool {
    '0' <= c <= '9'
}

/// The value of a decimal digit character.
pub open spec fn digit_value(c: char) -> int {
    (c as int) - ('0' as int)
}

/// The value of a string of decimal digits.
pub open spec fn dec_value(s: Seq<char>) -> int
    decreases s.len(),
{
    if s.len() == 0 {
        0
    } else {
        dec_value(s.drop_last()) * 10 + digit_value(s.last())
    }
}

proof fn lemma_digit_char(d: int)
    requires
        0 <= d < 10,
    ensures
        is_digit(digit_char(d)),
        digit_value(digit_char(d)) == d,
{
}

/// Decimal text is digits only, and reads back as the number written.
pub proof fn lemma_dec_digits(n: nat)
    ensures
        dec_digits(n).len() >= 1,
        forall|i: int| 0 <= i < dec_digits(n).len() ==> is_digit(#[trigger] dec_digits(n)[i]),
        dec_value(dec_digits(n)) == n,
    decreases n,
{
    lemma_digit_char((n % 10) as int);
    if n >= 10 {
        lemma_dec_digits(n / 10);
        let d = dec_digits(n);
        assert(d.drop_last() =~= dec_digits(n / 10));
        assert(d.last() == digit_char((n % 10) as int));
        assert(dec_value(d) == dec_value(d.drop_last()) * 10 + digit_value(d.last()));
        assert((n / 10) * 10 + n % 10 == n) by (nonlinear_arith);
    } else {
        assert(n % 10 == n);
        let d = dec_digits(n);
        assert(d.drop_last() =~= Seq::<char>::empty());
        assert(dec_value(d) == dec_value(d.drop_last()) * 10 + digit_value(d.last()));
    }
}

/// Different numbers have different decimal texts.
pub proof fn lemma_dec_digits_injective(a: nat, b: nat)
    requires
        dec_digits(a) == dec_digits(b),
    ensures
        a == b,
{
    lemma_dec_digits(a);
    lemma_dec_digits(b);
}

proof fn lemma_dec_value_prefix(s: Seq<char>, i: int)
    requires
        0 <= i <= s.len(),
        forall|j: int| 0 <= j < s.len() ==> is_digit(#[trigger] s[j]),
    ensures
        0 <= dec_value(s.subrange(0, i)) <= dec_value(s),
    decreases s.len(),
{
    if s.len() > 0 {
        let t = s.drop_last();
        assert forall|j: int| 0 <= j < t.len() implies is_digit(#[trigger] t[j]) by {
            assert(t[j] == s[j]);
        }
        if i == s.len() {
            assert(s.subrange(0, i) =~= s);
            lemma_dec_value_prefix(t, 0);
        } else {
            lemma_dec_value_prefix(t, i);
            assert(t.subrange(0, i) =~= s.subrange(0, i));
        }
        lemma_dec_value_prefix(t, t.len() as int);
        assert(t.subrange(0, t.len() as int) =~= t);
    } else {
        assert(s.subrange(0, i) =~= s);
    }
}

/// The number whose canonical decimal text is `s`, if there is one that
/// fits in a `u32`.
pub fn parse_decimal(s: &str) -> (r: Option<u32>)
    ensures
        r is Some ==> s@ == dec_digits(r->0 as nat),
        r is None ==> forall|n: u32| s@ != dec_digits(n as nat),
{
    let n = s.unicode_len();
    let mut v: u64 = 0;
    let mut i: usize = 0;
    while i < n
        invariant
            n == s@.len(),
            i <= n,
            v == dec_value(s@.subrange(0, i as int)),
            v <= 0xffff_ffff,
            forall|j: int| 0 <= j < i ==> is_digit(#[trigger] s@[j]),
        decreases n - i,
    {
        let c = s.get_char(i);
        if !('0' <= c && c <= '9') {
            proof {
                assert forall|m: u32| s@ != dec_digits(m as nat) by {
                    lemma_dec_digits(m as nat);
                    if s@ == dec_digits(m as nat) {
                        assert(is_digit(s@[i as int]));
                    }
                }
            }
            return None;
        }
        let d = (c as u64) - ('0' as u64);
        let next = v * 10 + d;
        proof {
            let t = s@.subrange(0, i as int + 1);
            assert(t.drop_last() =~= s@.subrange(0, i as int));
            assert(t.last() == c);
        }
        if next > 0xffff_ffff {
            proof {
                assert forall|m: u32| s@ != dec_digits(m as nat) by {
                    lemma_dec_digits(m as nat);
                    if s@ == dec_digits(m as nat) {
                        lemma_dec_value_prefix(s@, i as int + 1);
                    }
                }
            }
            return None;
        }
        v = next;
        i += 1;
    }
    if n == 0 {
        proof {
            assert forall|m: u32| s@ != dec_digits(m as nat) by {
                lemma_dec_digits(m as nat);
            }
        }
        return None;
    }
    let value = v as u32;
    proof {
        reveal_strlit("");
    }
    let text = with_decimal("", value);
    assert(text@ =~= dec_digits(value as nat));
    if str_eq(text.as_str(), s) {
        Some(value)
    } else {
        proof {
            assert forall|m: u32| s@ != dec_digits(m as nat) by {
                lemma_dec_digits(m as nat);
                if s@ == dec_digits(m as nat) {
                    assert(s@.subrange(0, n as int) =~= s@);
                }
            }
        }
        None
    }
}

} // verus!
