//! Reading a `maxspeed` tag value.
//!
//! A speed is an unsigned decimal number: digits, optionally followed by a
//! dot and more digits, with at least one digit in all.
use vstd::prelude::*;

verus! {

pub open spec fn is_digit(c: char) -> bool {
    48 <= (c as u32) <= 57
}

pub open spec fn all_digits(s: Seq<char>) -> bool {
    forall|i: int| 0 <= i < s.len() ==> is_digit(#[trigger] s[i])
}

/// The number that a string of digits spells.
pub open spec fn digits_value(s: Seq<char>) -> nat
    decreases s.len(),
{
    if s.len() == 0 {
        0
    } else {
        digits_value(s.drop_last()) * 10 + ((s.last() as u32) - 48) as nat
    }
}

/// Position of the first `.` in `s` at or after `i`, or the length of `s`.
pub open spec fn dot_from(s: Seq<char>, i: int) -> int
    decreases s.len() - i,
{
    if i < 0 || i >= s.len() {
        s.len() as int
    } else if s[i] == '.' {
        i
    } else {
        dot_from(s, i + 1)
    }
}

pub open spec fn int_part(s: Seq<char>) -> Seq<char> {
    s.take(dot_from(s, 0))
}

pub open spec fn frac_part(s: Seq<char>) -> Seq<char> {
    if dot_from(s, 0) < s.len() {
        s.skip(dot_from(s, 0) + 1)
    } else {
        Seq::empty()
    }
}

/// Whether `s` is a well-formed unsigned decimal number.
pub open spec fn is_decimal(s: Seq<char>) -> bool {
    &&& all_digits(int_part(s))
    &&& all_digits(frac_part(s))
    &&& int_part(s).len() + frac_part(s).len() > 0
}

/// Whether the decimal number `s` is strictly greater than 50.
pub open spec fn speed_above_50(s: Seq<char>) -> bool {
    &&& is_decimal(s)
    &&& (digits_value(int_part(s)) > 50 || (digits_value(int_part(s)) == 50 && exists|i: int|
        0 <= i < frac_part(s).len() && #[trigger] frac_part(s)[i] != '0'))
}

proof fn lemma_dot_from_bounds(s: Seq<char>, i: int)
    requires
        0 <= i <= s.len(),
    ensures
        i <= dot_from(s, i) <= s.len(),
        dot_from(s, i) < s.len() ==> s[dot_from(s, i)] == '.',
        forall|j: int| i <= j < dot_from(s, i) ==> s[j] != '.',
    decreases s.len() - i,
{
    if i < s.len() && s[i] != '.' {
        lemma_dot_from_bounds(s, i + 1);
    }
}

/// Whether a speed limit is above 50; `false` when `s` is no decimal number.
pub fn exceeds_50(s: &str) -> (r: bool)
    ensures
        r == speed_above_50(s@),
{
    let n = s.unicode_len();
    let mut p: usize = 0;
    while p < n && s.get_char(p) != '.'
        invariant
            n == s@.len(),
            p <= n,
            dot_from(s@, 0) == dot_from(s@, p as int),
        decreases n - p,
    {
        p = p + 1;
    }
    proof {
        lemma_dot_from_bounds(s@, 0);
    }
    assert(dot_from(s@, 0) == p);
    // integer part: its value, capped at 51
    let mut value: u32 = 0;
    let mut i: usize = 0;
    while i < p
        invariant
            n == s@.len(),
            p <= n,
            dot_from(s@, 0) == p,
            i <= p,
            all_digits(s@.take(i as int)),
            value == if digits_value(s@.take(i as int)) > 51 {
                51
            } else {
                digits_value(s@.take(i as int))
            },
        decreases p - i,
    {
        let c = s.get_char(i);
        let d = c as u32;
        if d < 48 || d > 57 {
            assert(int_part(s@)[i as int] == c);
            return false;
        }
        assert(s@.take(i + 1).drop_last() =~= s@.take(i as int));
        assert(s@.take(i + 1).last() == c);
        let next = value * 10 + (d - 48);
        value = if next > 51 {
            51
        } else {
            next
        };
        assert forall|j: int| 0 <= j < i + 1 implies is_digit(#[trigger] s@.take(i + 1)[j]) by {
            if j < i {
                assert(s@.take(i + 1)[j] == s@.take(i as int)[j]);
            }
        }
        i = i + 1;
    }
    assert(s@.take(i as int) =~= int_part(s@));
    // fractional part: digits only, and whether one is not zero
    let mut nonzero = false;
    let begin: usize = if p < n {
        p + 1
    } else {
        n
    };
    let mut k: usize = begin;
    let ghost start = begin as int;
    assert(frac_part(s@) =~= s@.subrange(start, n as int));
    while k < n
        invariant
            n == s@.len(),
            p <= n,
            start == begin,
            begin == (if p < n {
                p + 1
            } else {
                n as int
            }),
            start <= k <= n,
            frac_part(s@) =~= s@.subrange(start, n as int),
            all_digits(s@.subrange(start, k as int)),
            nonzero == exists|j: int| start <= j < k && s@[j] != '0',
        decreases n - k,
    {
        let c = s.get_char(k);
        let d = c as u32;
        if d < 48 || d > 57 {
            assert(frac_part(s@)[k - start] == c);
            return false;
        }
        if d != 48 {
            nonzero = true;
        }
        assert forall|j: int| 0 <= j < k + 1 - start implies is_digit(
            #[trigger] s@.subrange(start, k + 1)[j],
        ) by {
            if j < k - start {
                assert(s@.subrange(start, k + 1)[j] == s@.subrange(start, k as int)[j]);
            }
        }
        k = k + 1;
    }
    assert(s@.subrange(start, k as int) =~= frac_part(s@));
    if p == 0 && begin == n {
        return false;
    }
    if nonzero {
        let ghost j = choose|j: int| start <= j < k && s@[j] != '0';
        assert(frac_part(s@)[j - start] != '0');
    } else {
        assert forall|j: int| 0 <= j < frac_part(s@).len() implies #[trigger] frac_part(s@)[j]
            == '0' by {
            assert(frac_part(s@)[j] == s@[j + start]);
        }
    }
    value > 50 || (value == 50 && nonzero)
}

} // verus!
