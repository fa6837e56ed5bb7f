//! Integers as decimal text: an optional sign and one or more digits.
use vstd::prelude::*;
use crate::text::{chars_of, Key, Text};

verus! {

/// Whether `c` is one of the ten decimal digits.
pub open spec fn is_digit(c: char) -> bool {
    '0' <= c && c <= '9'
}

/// The number that the digit `c` stands for.
pub open spec fn digit_value(c: char) -> int {
    c as int - '0' as int
}

/// The digit that stands for `d`, a number below ten.
pub open spec fn digit(d: int) -> char {
    if d == 0 {
        '0'
    } else if d == 1 {
        '1'
    } else if d == 2 {
        '2'
    } else if d == 3 {
        '3'
    } else if d == 4 {
        '4'
    } else if d == 5 {
        '5'
    } else if d == 6 {
        '6'
    } else if d == 7 {
        '7'
    } else if d == 8 {
        '8'
    } else {
        '9'
    }
}

/// The digits of `n`, the most significant first, without leading zeros.
pub open spec fn digits(n: nat) -> Seq<char>
    decreases n,
{
    if n < 10 {
        seq![digit(n as int)]
    } else {
        digits(n / 10).push(digit((n % 10) as int))
    }
}

/// Whether every character of `s` is a digit.
pub open spec fn all_digits(s: Seq<char>) -> bool {
    forall|i: int| 0 <= i < s.len() ==> is_digit(#[trigger] s[i])
}

/// The number that a sequence of digits stands for.
pub open spec fn number(s: Seq<char>) -> nat
    decreases s.len(),
{
    if s.len() == 0 {
        0
    } else {
        (number(s.drop_last()) * 10 + digit_value(s.last())) as nat
    }
}

/// The number written in `s`: one or more digits, nothing else.
pub open spec fn unsigned_number(s: Seq<char>) -> Option<nat> {
    if s.len() > 0 && all_digits(s) {
        Some(number(s))
    } else {
        None
    }
}

/// The number written in `s` after an optional plus sign.
pub open spec fn plain_number(s: Seq<char>) -> Option<nat> {
    if s.len() > 0 && s[0] == '+' {
        unsigned_number(s.skip(1))
    } else {
        unsigned_number(s)
    }
}

/// The number written in `s` after an optional plus or minus sign.
pub open spec fn signed_number(s: Seq<char>) -> Option<int> {
    if s.len() > 0 && s[0] == '-' {
        match unsigned_number(s.skip(1)) {
            Some(n) => Some(-(n as int)),
            None => None,
        }
    } else {
        match plain_number(s) {
            Some(n) => Some(n as int),
            None => None,
        }
    }
}

/// An integer as text: its digits, after a minus sign where it is negative.
pub open spec fn decimal(i: int) -> Seq<char> {
    if i < 0 {
        seq!['-'] + digits((-i) as nat)
    } else {
        digits(i as nat)
    }
}

/// The digits of a number are digits, at least one, and stand for it.
pub proof fn lemma_digits(n: nat)
    ensures
        digits(n).len() > 0,
        all_digits(digits(n)),
        number(digits(n)) == n,
    decreases n,
{
    let s = digits(n);
    if n < 10 {
        assert(s.drop_last() =~= Seq::<char>::empty());
        assert(number(s.drop_last()) == 0);
    } else {
        lemma_digits(n / 10);
        let front = digits(n / 10);
        assert(s.drop_last() =~= front);
        assert(s.last() == digit((n % 10) as int));
        assert forall|i: int| 0 <= i < s.len() implies is_digit(#[trigger] s[i]) by {
            if i < front.len() {
                assert(s[i] == front[i]);
            }
        }
    }
}

/// Reading an integer's text gives the integer back.
pub proof fn lemma_signed_number_decimal(i: int)
    ensures
        signed_number(decimal(i)) == Some(i),
{
    let s = decimal(i);
    if i < 0 {
        lemma_digits((-i) as nat);
        assert(s.skip(1) =~= digits((-i) as nat));
    } else {
        lemma_digits(i as nat);
        assert(is_digit(s[0]));
    }
}

/// Reading a natural number's text gives the number back.
pub proof fn lemma_plain_number_decimal(n: nat)
    ensures
        plain_number(decimal(n as int)) == Some(n),
{
    lemma_digits(n);
    assert(is_digit(decimal(n as int)[0]));
}

/// The digits read so far never stand for more than all of them do.
pub proof fn lemma_number_prefix(s: Seq<char>, k: int)
    requires
        all_digits(s),
        0 <= k <= s.len(),
    ensures
        number(s.take(k)) <= number(s),
    decreases s.len(),
{
    if k == s.len() {
        assert(s.take(k) =~= s);
    } else {
        let front = s.drop_last();
        assert(is_digit(s.last()));
        assert forall|i: int| 0 <= i < front.len() implies is_digit(#[trigger] front[i]) by {
            assert(front[i] == s[i]);
        }
        lemma_number_prefix(front, k);
        assert(front.take(k) =~= s.take(k));
    }
}

/// Reads the digits of `s` from `start` to its end as a number of at most
/// `limit`.
pub fn parse_number(s: &Vec<char>, start: usize, limit: u64) -> (r: Option<u64>)
    requires
        start <= s.len(),
    ensures
        r == match unsigned_number(s@.skip(start as int)) {
            Some(n) => if n <= limit {
                Some(n as u64)
            } else {
                None
            },
            None => None,
        },
{
    let ghost all = s@.skip(start as int);
    if start == s.len() {
        return None;
    }
    let mut acc: u64 = 0;
    let mut j: usize = start;
    assert(all.take(0) =~= Seq::<char>::empty());
    while j < s.len()
        invariant
            start <= j <= s.len(),
            all == s@.skip(start as int),
            all_digits(all.take(j - start)),
            acc == number(all.take(j - start)),
            acc <= limit,
        decreases s.len() - j,
    {
        let c = s[j];
        let ghost seen = all.take(j - start);
        let ghost now = all.take(j - start + 1);
        assert(all[j - start] == c);
        if !(c >= '0' && c <= '9') {
            return None;
        }
        let d: u64 = (c as u32 - '0' as u32) as u64;
        proof {
            assert(now.drop_last() =~= seen);
            assert(now.last() == c);
            assert forall|i: int| 0 <= i < now.len() implies is_digit(#[trigger] now[i]) by {
                if i < seen.len() {
                    assert(now[i] == seen[i]);
                }
            }
        }
        let next: u128 = acc as u128 * 10 + d as u128;
        if next > limit as u128 {
            proof {
                if all_digits(all) {
                    lemma_number_prefix(all, j - start + 1);
                }
            }
            return None;
        }
        acc = next as u64;
        j += 1;
    }
    assert(all.take(j - start) =~= all);
    Some(acc)
}

/// Appends the digits of `n` to `out`.
pub fn push_digits(out: &mut String, n: u64)
    ensures
        final(out)@ == old(out)@ + digits(n as nat),
    decreases n,
{
    if n >= 10 {
        push_digits(out, n / 10);
    }
    let d: u8 = (n % 10) as u8;
    let c: char = (d + 48u8) as char;
    assert(c == digit(d as int));
    out.push(c);
    assert(out@ =~= old(out)@ + digits(n as nat));
}

/// Reads a number of at most `max` from text: one or more digits, after an
/// optional plus sign.
pub fn parse_unsigned(s: &str, max: u64) -> (r: Option<u64>)
    ensures
        r == match plain_number(s@) {
            Some(n) => if n <= max {
                Some(n as u64)
            } else {
                None
            },
            None => None,
        },
{
    let chars = chars_of(s);
    if chars.len() > 0 && chars[0] == '+' {
        parse_number(&chars, 1, max)
    } else {
        assert(chars@.skip(0) =~= chars@);
        parse_number(&chars, 0, max)
    }
}

/// Reads an integer from `min` to `max` from text: one or more digits, after
/// an optional plus or minus sign.
pub fn parse_signed(s: &str, min: i64, max: i64) -> (r: Option<i64>)
    requires
        min <= 0 <= max,
    ensures
        r == match signed_number(s@) {
            Some(i) => if min <= i <= max {
                Some(i as i64)
            } else {
                None
            },
            None => None,
        },
{
    let chars = chars_of(s);
    if chars.len() > 0 && chars[0] == '-' {
        let below: u64 = if min == 0 {
            0
        } else {
            (-(min + 1)) as u64 + 1
        };
        assert(below == -min);
        match parse_number(&chars, 1, below) {
            Some(n) => if n == 0 {
                Some(0)
            } else {
                Some(-((n - 1) as i64) - 1)
            },
            None => None,
        }
    } else {
        match parse_unsigned(s, max as u64) {
            Some(n) => Some(n as i64),
            None => None,
        }
    }
}

/// Writes a natural number as text.
pub fn render_unsigned(n: u64) -> (s: String)
    ensures
        s@ == decimal(n as int),
{
    let mut s = String::new();
    push_digits(&mut s, n);
    assert(s@ =~= decimal(n as int));
    s
}

/// Writes an integer as text.
pub fn render_signed(i: i64) -> (s: String)
    ensures
        s@ == decimal(i as int),
{
    let mut s = String::new();
    if i < 0 {
        s.push('-');
        push_digits(&mut s, (-(i + 1)) as u64 + 1);
    } else {
        push_digits(&mut s, i as u64);
    }
    assert(s@ =~= decimal(i as int));
    s
}

impl Key for i32 {
    fn same(&self, other: &Self) -> (b: bool) {
        *self == *other
    }
}

impl Text for i32 {
    open spec fn text(v: i32) -> Seq<char> {
        decimal(v as int)
    }

    open spec fn read(s: Seq<char>) -> Option<i32> {
        match signed_number(s) {
            Some(i) => if i32::MIN <= i <= i32::MAX {
                Some(i as i32)
            } else {
                None
            },
            None => None,
        }
    }

    proof fn lemma_read_text(v: i32) {
        lemma_signed_number_decimal(v as int);
    }

    fn to_text(&self) -> (s: String) {
        render_signed(*self as i64)
    }

    fn from_text(s: &str) -> (r: Option<Self>) {
        match parse_signed(s, i32::MIN as i64, i32::MAX as i64) {
            Some(i) => Some(i as i32),
            None => None,
        }
    }
}

impl Key for i64 {
    fn same(&self, other: &Self) -> (b: bool) {
        *self == *other
    }
}

impl Text for i64 {
    open spec fn text(v: i64) -> Seq<char> {
        decimal(v as int)
    }

    open spec fn read(s: Seq<char>) -> Option<i64> {
        match signed_number(s) {
            Some(i) => if i64::MIN <= i <= i64::MAX {
                Some(i as i64)
            } else {
                None
            },
            None => None,
        }
    }

    proof fn lemma_read_text(v: i64) {
        lemma_signed_number_decimal(v as int);
    }

    fn to_text(&self) -> (s: String) {
        render_signed(*self)
    }

    fn from_text(s: &str) -> (r: Option<Self>) {
        parse_signed(s, i64::MIN, i64::MAX)
    }
}

impl Key for u32 {
    fn same(&self, other: &Self) -> (b: bool) {
        *self == *other
    }
}

impl Text for u32 {
    open spec fn text(v: u32) -> Seq<char> {
        decimal(v as int)
    }

    open spec fn read(s: Seq<char>) -> Option<u32> {
        match plain_number(s) {
            Some(n) => if n <= u32::MAX {
                Some(n as u32)
            } else {
                None
            },
            None => None,
        }
    }

    proof fn lemma_read_text(v: u32) {
        lemma_plain_number_decimal(v as nat);
    }

    fn to_text(&self) -> (s: String) {
        render_unsigned(*self as u64)
    }

    fn from_text(s: &str) -> (r: Option<Self>) {
        match parse_unsigned(s, u32::MAX as u64) {
            Some(n) => Some(n as u32),
            None => None,
        }
    }
}

impl Key for u64 {
    fn same(&self, other: &Self) -> (b: bool) {
        *self == *other
    }
}

impl Text for u64 {
    open spec fn text(v: u64) -> Seq<char> {
        decimal(v as int)
    }

    open spec fn read(s: Seq<char>) -> Option<u64> {
        match plain_number(s) {
            Some(n) => if n <= u64::MAX {
                Some(n as u64)
            } else {
                None
            },
            None => None,
        }
    }

    proof fn lemma_read_text(v: u64) {
        lemma_plain_number_decimal(v as nat);
    }

    fn to_text(&self) -> (s: String) {
        render_unsigned(*self)
    }

    fn from_text(s: &str) -> (r: Option<Self>) {
        parse_unsigned(s, u64::MAX)
    }
}

} // verus!
