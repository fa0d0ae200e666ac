//! Numbers as text.

use vstd::prelude::*;

verus! {

/// The character of a digit.
pub open spec fn digit_char(d: int) -> char {
    if d < 10 {
        ((48 + d) as u8) as char
    } else {
        ((55 + d) as u8) as char
    }
}

/// The value of a digit, of any base up to sixteen.
pub open spec fn digit_value(c: char) -> Option<int> {
    let v = c as u32 as int;
    if 48 <= v <= 57 {
        Some(v - 48)
    } else if 65 <= v <= 70 {
        Some(v - 55)
    } else if 97 <= v <= 102 {
        Some(v - 87)
    } else {
        None
    }
}

/// A number in a base, without leading zeros.
pub open spec fn digits(n: int, base: int) -> Seq<char>
    decreases n,
    via digits_shrink
{
    if n < base || base < 2 {
        seq![digit_char(n)]
    } else {
        digits(n / base, base).push(digit_char(n % base))
    }
}

#[via_fn]
proof fn digits_shrink(n: int, base: int) {
    if !(n < base || base < 2) {
        assert(0 <= n / base < n) by (nonlinear_arith)
            requires
                n >= base,
                base >= 2,
        ;
    }
}

/// What digits come to in a base, if all of them are digits of it.
pub open spec fn value(s: Seq<char>, base: int) -> Option<int>
    decreases s.len(),
{
    if s.len() == 0 {
        Some(0)
    } else {
        match (value(s.drop_last(), base), digit_value(s.last())) {
            (Some(v), Some(d)) => if d < base {
                Some(v * base + d)
            } else {
                None
            },
            _ => None,
        }
    }
}

/// What follows a plus sign, if there is one.
pub open spec fn unsigned(s: Seq<char>) -> Seq<char> {
    if s.len() > 0 && s[0] == '+' {
        s.skip(1)
    } else {
        s
    }
}

/// The number that text stands for: one or more digits, perhaps after a plus
/// sign, that come to no more than 32 bits hold.
pub open spec fn number(s: Seq<char>, base: int) -> Option<u32> {
    let t = unsigned(s);
    match value(t, base) {
        Some(v) => if t.len() > 0 && v <= u32::MAX {
            Some(v as u32)
        } else {
            None
        },
        None => None,
    }
}

fn read_digit(c: char) -> (r: Option<u64>)
    ensures
        r is Some <==> digit_value(c) is Some,
        r matches Some(d) ==> digit_value(c) == Some(d as int) && d < 16,
{
    let v: u32 = c as u32;
    if 48 <= v && v <= 57 {
        Some((v - 48) as u64)
    } else if 65 <= v && v <= 70 {
        Some((v - 55) as u64)
    } else if 97 <= v && v <= 102 {
        Some((v - 87) as u64)
    } else {
        None
    }
}

/// Text without its last characters does not come to more.
proof fn lemma_value_grows(s: Seq<char>, n: int, base: int)
    requires
        base >= 2,
        0 <= n <= s.len(),
    ensures
        value(s, base) matches Some(v) ==> v >= 0 && value(s.take(n), base) is Some && value(
            s.take(n),
            base,
        )->0 <= v,
    decreases s.len(),
{
    if n == s.len() {
        assert(s.take(n) =~= s);
        lemma_value_nonnegative(s, base);
    } else {
        assert(s.drop_last().take(n) =~= s.take(n));
        lemma_value_grows(s.drop_last(), n, base);
        if let Some(v) = value(s, base) {
            let w = value(s.drop_last(), base)->0;
            assert(w * base >= w) by (nonlinear_arith)
                requires
                    w >= 0,
                    base >= 2,
            ;
        }
    }
}

proof fn lemma_value_nonnegative(s: Seq<char>, base: int)
    requires
        base >= 2,
    ensures
        value(s, base) matches Some(v) ==> v >= 0,
    decreases s.len(),
{
    if s.len() > 0 {
        lemma_value_nonnegative(s.drop_last(), base);
        if let Some(w) = value(s.drop_last(), base) {
            assert(w * base >= 0) by (nonlinear_arith)
                requires
                    w >= 0,
                    base >= 2,
            ;
        }
    }
}

/// The number that text stands for.
pub fn parse_number(s: &[char], base: u64) -> (r: Option<u32>)
    requires
        2 <= base <= 16,
    ensures
        r == number(s@, base as int),
{
    let from: usize = if s.len() > 0 && s[0] == '+' {
        1
    } else {
        0
    };
    let ghost t = unsigned(s@);
    assert(t =~= s@.skip(from as int));
    if s.len() == from {
        return None;
    }
    let mut v: u64 = 0;
    let mut i: usize = from;
    assert(t.take(0) =~= seq![]);
    while i < s.len()
        invariant
            from <= i <= s@.len(),
            t == s@.skip(from as int),
            t == unsigned(s@),
            t.len() > 0,
            2 <= base <= 16,
            v <= u32::MAX,
            value(t.take(i - from), base as int) == Some(v as int),
        decreases s@.len() - i,
    {
        proof {
            assert(t.take(i - from + 1).drop_last() =~= t.take(i - from));
            assert(t.take(i - from + 1).last() == s@[i as int]);
            lemma_value_grows(t, i - from + 1, base as int);
        }
        let d: u64 = match read_digit(s[i]) {
            Some(d) => d,
            None => return None,
        };
        if d >= base {
            return None;
        }
        assert(v * base <= 0xffff_ffff * 16) by (nonlinear_arith)
            requires
                v <= 0xffff_ffff,
                base <= 16,
        ;
        v = v * base + d;
        if v > u32::MAX as u64 {
            return None;
        }
        i += 1;
    }
    assert(t.take(i - from) =~= t);
    Some(v as u32)
}

/// Add a number in a base.
pub fn push_number(out: &mut Vec<char>, n: u64, base: u64)
    requires
        2 <= base <= 16,
    ensures
        final(out)@ == old(out)@ + digits(n as int, base as int),
    decreases n,
{
    let ghost before = out@;
    let d: u8 = (n % base) as u8;
    if n >= base {
        proof {
            assert(n / base < n) by (nonlinear_arith)
                requires
                    n >= base,
                    base >= 2,
            ;
        }
        push_number(out, n / base, base);
    }
    let c: char = if d < 10 {
        (48 + d) as char
    } else {
        (55 + d) as char
    };
    out.push(c);
    assert(n < base ==> n % base == n) by (nonlinear_arith)
        requires
            base >= 2,
            n >= 0,
    ;
    assert(out@ =~= before + digits(n as int, base as int));
}

/// A digit reads back.
proof fn lemma_digit_reads_back(d: int)
    requires
        0 <= d < 16,
    ensures
        digit_value(digit_char(d)) == Some(d),
        digit_char(d) != '+',
{
}

/// The digits of a number are digits, and there is at least one.
pub proof fn lemma_digits(n: int, base: int, i: int)
    requires
        n >= 0,
        2 <= base <= 16,
        0 <= i < digits(n, base).len(),
    ensures
        digits(n, base).len() >= 1,
        digit_value(digits(n, base)[i]) is Some,
    decreases n,
{
    if n < base {
        lemma_digit_reads_back(n);
    } else {
        assert(0 <= n / base < n && 0 <= n % base < base) by (nonlinear_arith)
            requires
                n >= base,
                base >= 2,
        ;
        lemma_digit_reads_back(n % base);
        if i < digits(n / base, base).len() {
            lemma_digits(n / base, base, i);
        }
    }
}

/// The digits of a number come to it.
pub proof fn lemma_digits_value(n: int, base: int)
    requires
        n >= 0,
        2 <= base <= 16,
    ensures
        digits(n, base).len() >= 1,
        value(digits(n, base), base) == Some(n),
    decreases n,
{
    if n < base {
        lemma_digit_reads_back(n);
        let s = digits(n, base);
        assert(s == seq![digit_char(n)]);
        assert(s.drop_last() =~= seq![]);
        assert(value(s.drop_last(), base) == Some(0int));
        assert(0 * base == 0);
    } else {
        assert(0 <= n / base < n && 0 <= n % base < base) by (nonlinear_arith)
            requires
                n >= base,
                base >= 2,
        ;
        lemma_digits_value(n / base, base);
        lemma_digit_reads_back(n % base);
        assert(digits(n, base).drop_last() =~= digits(n / base, base));
        assert((n / base) * base + n % base == n) by (nonlinear_arith)
            requires
                base >= 2,
                n >= 0,
        ;
    }
}

/// Zeros in front change nothing.
pub proof fn lemma_leading_zeros(zeros: nat, s: Seq<char>, base: int)
    requires
        2 <= base <= 16,
    ensures
        value(Seq::new(zeros, |i: int| '0') + s, base) == value(s, base),
    decreases s.len(), zeros,
{
    let padded = Seq::new(zeros, |i: int| '0') + s;
    if s.len() > 0 {
        lemma_leading_zeros(zeros, s.drop_last(), base);
        assert(padded.drop_last() =~= Seq::new(zeros, |i: int| '0') + s.drop_last());
    } else if zeros > 0 {
        lemma_leading_zeros((zeros - 1) as nat, s, base);
        assert(padded.drop_last() =~= Seq::new((zeros - 1) as nat, |i: int| '0') + s);
        lemma_digit_reads_back(0);
        assert(padded.last() == '0');
        assert(value(s, base) == Some(0int));
        assert(0 * base == 0);
    } else {
        assert(padded =~= s);
    }
}

/// A number that is written reads back.
pub proof fn a_written_number_reads_back(n: u32, base: int)
    requires
        2 <= base <= 16,
    ensures
        number(digits(n as int, base), base) == Some(n),
{
    let s = digits(n as int, base);
    lemma_digits_value(n as int, base);
    lemma_digits(n as int, base, 0);
    assert(unsigned(s) == s);
}

/// A number is read digit by digit: one more digit makes it its base times as
/// much and the digit more, in either case of the letters past nine; one more
/// character that is no digit of the base makes it no number. A plus sign before
/// it changes nothing.
pub proof fn a_number_is_read_digit_by_digit(
    s: &[char],
    longer: &[char],
    signed: &[char],
    base: u64,
    c: char,
    r: Option<u32>,
    l: Option<u32>,
    p: Option<u32>,
)
    requires
        2 <= base <= 16,
        s@.len() > 0,
        s@[0] != '+',
        longer@ == s@.push(c),
        signed@ == seq!['+'] + s@,
        call_ensures(parse_number, (s, base), r),
        call_ensures(parse_number, (longer, base), l),
        call_ensures(parse_number, (signed, base), p),
    ensures
        p == r,
        ({
            let v = c as u32 as int;
            let d = if 0x30 <= v <= 0x39 {
                v - 0x30
            } else if 0x41 <= v <= 0x46 {
                10 + v - 0x41
            } else if 0x61 <= v <= 0x66 {
                10 + v - 0x61
            } else {
                16
            };
            &&& d >= base ==> l is None
            &&& r is Some && d < base && r->0 * base + d <= u32::MAX ==> l is Some && l->0 == r->0 * base + d
            &&& r is Some && d < base && r->0 * base + d > u32::MAX ==> l is None
        }),
{
    assert(unsigned(s@) == s@);
    assert(unsigned(longer@) == longer@);
    assert(signed@.skip(1) =~= s@);
    assert(unsigned(signed@) == s@);
    assert(longer@.drop_last() =~= s@);
    assert(longer@.last() == c);
    let before = value(s@, base as int);
    lemma_value_nonnegative(s@, base as int);
    lemma_value_nonnegative(longer@, base as int);
    if r is Some {
        assert(before == Some(r->0 as int));
    }
    if before is Some && digit_value(c) is Some && digit_value(c)->0 < base {
        assert(value(longer@, base as int) == Some(before->0 * base + digit_value(c)->0));
    }
}

/// One digit is a number, and no text is none.
pub proof fn a_digit_is_a_number(s: &[char], base: u64, r: Option<u32>)
    requires
        2 <= base <= 16,
        call_ensures(parse_number, (s, base), r),
    ensures
        s@.len() == 0 ==> r is None,
        s@.len() == 1 ==> ({
            let d = (s@[0] as u32) - 0x30;
            0 <= d < base && d < 10 ==> r is Some && r->0 == d
        }),
        s@.len() == 1 && s@[0] == '+' ==> r is None,
{
    if s@.len() == 1 {
        assert(s@.drop_last() =~= seq![]);
        assert(value(s@.drop_last(), base as int) == Some(0int));
        let d = (s@[0] as u32) - 0x30;
        if 0 <= d < base && d < 10 {
            assert(s@[0] != '+');
            assert(unsigned(s@) == s@);
            assert(s@.last() == s@[0]);
            assert(value(s@, base as int) == Some(0 * base + d));
        }
        if s@[0] == '+' {
            assert(s@.skip(1) =~= seq![]);
        }
    }
}

} // verus!
