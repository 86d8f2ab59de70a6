//! Numbers written in decimal and hexadecimal digits.

use vstd::prelude::*;

verus! {

/// The value of the digit `c` in base `radix`, which is 10 or 16. Base 16
/// takes the letters in either case.
pub open spec fn digit_value(c: char, radix: int) -> Option<int> {
    let n = c as int;
    if '0' as int <= n <= '9' as int {
        Some(n - '0' as int)
    } else if radix == 16 && 'a' as int <= n <= 'f' as int {
        Some(n - 'a' as int + 10)
    } else if radix == 16 && 'A' as int <= n <= 'F' as int {
        Some(n - 'A' as int + 10)
    } else {
        None
    }
}

/// The digit that stands for `d`, a number below 16; letters in upper case.
pub open spec fn digit_char(d: int) -> char {
    if 0 <= d < 10 {
        ('0' as int + d) as char
    } else {
        ('A' as int + d - 10) as char
    }
}

/// The number that the digits `s` spell in base `radix`, if each of them is
/// a digit of that base. No digits spell 0.
pub open spec fn digits_value(s: Seq<char>, radix: int) -> Option<int>
    decreases s.len(),
{
    if s.len() == 0 {
        Some(0)
    } else {
        match (digits_value(s.drop_last(), radix), digit_value(s.last(), radix)) {
            (Some(high), Some(low)) => Some(high * radix + low),
            _ => None,
        }
    }
}

/// The digits of `s`: all of `s` but a plus sign that stands before at
/// least one more character.
pub open spec fn unsigned_part(s: Seq<char>) -> Seq<char> {
    if s.len() > 1 && s[0] == '+' {
        s.skip(1)
    } else {
        s
    }
}

/// The number that `s` spells in base `radix`: one or more digits of that
/// base, after an optional plus sign.
pub open spec fn natural(s: Seq<char>, radix: int) -> Option<int> {
    let digits = unsigned_part(s);
    if digits.len() > 0 {
        digits_value(digits, radix)
    } else {
        None
    }
}

/// The 32-bit number that `s` spells in base `radix`: the number that it
/// spells, if that fits in 32 bits.
pub open spec fn number(s: Seq<char>, radix: int) -> Option<u32> {
    match natural(s, radix) {
        Some(v) => if v <= u32::MAX {
            Some(v as u32)
        } else {
            None
        },
        None => None,
    }
}

/// `n` written in base `radix` without leading zeros, with upper-case
/// letters for the digits above 9.
pub open spec fn numeral(n: nat, radix: nat) -> Seq<char>
    decreases n,
    via numeral_decreases
{
    if n < radix || radix < 2 {
        seq![digit_char(n as int)]
    } else {
        numeral(n / radix, radix).push(digit_char((n % radix) as int))
    }
}

#[via_fn]
proof fn numeral_decreases(n: nat, radix: nat) {
    assert(n >= radix && radix >= 2 ==> n / radix < n) by (nonlinear_arith);
}

/// `n` in decimal digits.
pub open spec fn decimal(n: nat) -> Seq<char> {
    numeral(n, 10)
}

/// `n` in upper-case hexadecimal digits.
pub open spec fn hex(n: nat) -> Seq<char> {
    numeral(n, 16)
}

/// `count` zeros.
pub open spec fn zeros(count: nat) -> Seq<char> {
    Seq::new(count, |i: int| '0')
}

/// `n` in upper-case hexadecimal digits, with zeros before them where
/// they are fewer than six.
pub open spec fn hex6(n: nat) -> Seq<char> {
    let digits = hex(n);
    if digits.len() < 6 {
        zeros((6 - digits.len()) as nat) + digits
    } else {
        digits
    }
}

/// The value of the digit `c` in base `radix`.
pub fn digit_of(c: char, radix: u32) -> (d: Option<u32>)
    requires
        radix == 10 || radix == 16,
    ensures
        match d {
            Some(v) => digit_value(c, radix as int) == Some(v as int) && v < radix,
            None => digit_value(c, radix as int) is None,
        },
{
    let n: u32 = c as u32;
    if '0' as u32 <= n && n <= '9' as u32 {
        Some(n - '0' as u32)
    } else if radix == 16 && 'a' as u32 <= n && n <= 'f' as u32 {
        Some(n - 'a' as u32 + 10)
    } else if radix == 16 && 'A' as u32 <= n && n <= 'F' as u32 {
        Some(n - 'A' as u32 + 10)
    } else {
        None
    }
}

/// The digit that stands for `d`.
pub fn digit_for(d: u32) -> (c: char)
    requires
        d < 16,
    ensures
        c == digit_char(d as int),
{
    if d < 10 {
        ('0' as u8 + d as u8) as char
    } else {
        ('A' as u8 + (d - 10) as u8) as char
    }
}

/// The digits of a numeral spell its number.
pub proof fn lemma_numeral_value(n: nat, radix: nat)
    requires
        radix == 10 || radix == 16,
    ensures
        digits_value(numeral(n, radix), radix as int) == Some(n as int),
        numeral(n, radix).len() >= 1,
        forall|i: int|
            0 <= i < numeral(n, radix).len() ==> digit_value(
                #[trigger] numeral(n, radix)[i],
                radix as int,
            ) is Some,
    decreases n,
{
    let s = numeral(n, radix);
    if n < radix {
        assert(s.drop_last() == Seq::<char>::empty());
        assert(digits_value(s.drop_last(), radix as int) == Some(0int));
    } else {
        let high = numeral(n / radix, radix);
        lemma_numeral_value(n / radix, radix);
        assert(s.drop_last() == high);
        assert(s.last() == digit_char((n % radix) as int));
        assert forall|i: int| 0 <= i < s.len() implies digit_value(
            #[trigger] s[i],
            radix as int,
        ) is Some by {
            if i < high.len() {
                assert(s[i] == high[i]);
            }
        }
    }
}

/// A numeral is the number that it spells: it has no sign, at least one
/// digit, and the value it was written for.
pub proof fn lemma_number_of_numeral(n: u32, radix: nat)
    requires
        radix == 10 || radix == 16,
    ensures
        number(numeral(n as nat, radix), radix as int) == Some(n),
{
    lemma_numeral_value(n as nat, radix);
    let s = numeral(n as nat, radix);
    assert(digit_value(s[0], radix as int) is Some);
    assert(unsigned_part(s) == s);
}

/// What a run of digits spells is at least what any of its beginnings
/// spells, and every beginning of it is a run of digits too.
pub proof fn lemma_digits_value_prefix(s: Seq<char>, radix: int, k: int)
    requires
        radix == 10 || radix == 16,
        0 <= k <= s.len(),
        digits_value(s, radix) is Some,
    ensures
        digits_value(s.take(k), radix) is Some,
        0 <= digits_value(s.take(k), radix)->0 <= digits_value(s, radix)->0,
    decreases s.len(),
{
    if k == s.len() {
        assert(s.take(k) == s);
        if s.len() > 0 {
            lemma_digits_value_prefix(s.drop_last(), radix, k - 1);
            assert(s.drop_last().take(k - 1) == s.drop_last());
        }
    } else {
        lemma_digits_value_prefix(s.drop_last(), radix, k);
        assert(s.drop_last().take(k) == s.take(k));
    }
}

/// The number that `s` spells in base `radix`, if it spells one, but no
/// more than `limit`: a number above `limit` is given as `limit`.
pub fn parse_natural(s: &Vec<char>, radix: u32, limit: u64) -> (parsed: Option<u64>)
    requires
        radix == 10 || radix == 16,
        limit <= 0x1_0000_0000,
    ensures
        match natural(s@, radix as int) {
            Some(v) => parsed == Some(if v <= limit {
                v as u64
            } else {
                limit
            }),
            None => parsed is None,
        },
{
    let start: usize = if s.len() > 1 && s[0] == '+' {
        1
    } else {
        0
    };
    let ghost digits = unsigned_part(s@);
    proof {
        assert(digits == s@.skip(start as int));
    }
    if start >= s.len() {
        return None;
    }
    let mut acc: u64 = 0;
    let mut i: usize = start;
    proof {
        assert(digits.take(0) == Seq::<char>::empty());
    }
    while i < s.len()
        invariant
            radix == 10 || radix == 16,
            limit <= 0x1_0000_0000,
            start <= i <= s.len(),
            digits == s@.skip(start as int),
            digits == unsigned_part(s@),
            digits_value(digits.take(i - start), radix as int) is Some,
            acc <= limit,
            acc == (if digits_value(digits.take(i - start), radix as int)->0 <= limit {
                digits_value(digits.take(i - start), radix as int)->0
            } else {
                limit as int
            }),
        decreases s.len() - i,
    {
        let ghost before = digits_value(digits.take(i - start), radix as int)->0;
        let ghost next_part = digits.take(i - start + 1);
        proof {
            assert(next_part.drop_last() == digits.take(i - start));
            assert(next_part.last() == s@[i as int]);
            lemma_digits_value_prefix(digits.take(i - start), radix as int, 0);
            assert(acc * radix <= 16 * 0x1_0000_0000) by (nonlinear_arith)
                requires
                    acc <= 0x1_0000_0000,
                    radix <= 16,
            ;
            assert(before * radix >= before) by (nonlinear_arith)
                requires
                    before >= 0,
                    radix >= 1,
            ;
        }
        match digit_of(s[i], radix) {
            None => {
                proof {
                    assert(digits_value(next_part, radix as int) is None);
                    if digits_value(digits, radix as int) is Some {
                        lemma_digits_value_prefix(digits, radix as int, i - start + 1);
                    }
                }
                return None;
            },
            Some(d) => {
                let next: u64 = acc * (radix as u64) + (d as u64);
                proof {
                    assert(digits_value(next_part, radix as int) == Some(before * radix + d));
                    if before > limit {
                        assert(acc * radix >= acc) by (nonlinear_arith)
                            requires
                                acc >= 0,
                                radix >= 1,
                        ;
                    }
                }
                acc = if next > limit {
                    limit
                } else {
                    next
                };
            },
        }
        i = i + 1;
    }
    proof {
        assert(digits.take(i - start) == digits);
    }
    Some(acc)
}

/// The 32-bit number that `s` spells in base `radix`, if it spells one.
pub fn parse_number(s: &Vec<char>, radix: u32) -> (parsed: Option<u32>)
    requires
        radix == 10 || radix == 16,
    ensures
        parsed == number(s@, radix as int),
{
    proof {
        if natural(s@, radix as int) is Some {
            lemma_digits_value_prefix(unsigned_part(s@), radix as int, 0);
        }
    }
    match parse_natural(s, radix, 0x1_0000_0000) {
        Some(v) => if v <= u32::MAX as u64 {
            Some(v as u32)
        } else {
            None
        },
        None => None,
    }
}

/// Adds `n`, written in base `radix`, to the end of `out`.
pub fn push_numeral(out: &mut Vec<char>, n: u32, radix: u32)
    requires
        radix == 10 || radix == 16,
    ensures
        final(out)@ == old(out)@ + numeral(n as nat, radix as nat),
    decreases n,
{
    if n >= radix {
        push_numeral(out, n / radix, radix);
    }
    out.push(digit_for(n % radix));
    proof {
        let high = numeral((n / radix) as nat, radix as nat);
        let low = digit_char((n % radix) as int);
        if n >= radix {
            assert((old(out)@ + high).push(low) == old(out)@ + high.push(low));
        } else {
            assert(old(out)@.push(low) == old(out)@ + seq![low]);
        }
    }
}

/// `n` in decimal digits.
pub fn decimal_of(n: u32) -> (out: Vec<char>)
    ensures
        out@ == decimal(n as nat),
{
    let mut out: Vec<char> = Vec::new();
    push_numeral(&mut out, n, 10);
    proof {
        assert(Seq::<char>::empty() + decimal(n as nat) == decimal(n as nat));
    }
    out
}

/// `n` in upper-case hexadecimal digits, at least six of them.
pub fn hex6_of(n: u32) -> (out: Vec<char>)
    ensures
        out@ == hex6(n as nat),
{
    let mut digits: Vec<char> = Vec::new();
    push_numeral(&mut digits, n, 16);
    proof {
        assert(Seq::<char>::empty() + hex(n as nat) == hex(n as nat));
    }
    let mut out: Vec<char> = Vec::new();
    let mut width: usize = digits.len();
    while width < 6
        invariant
            digits.len() <= width,
            digits.len() < 6 ==> width <= 6,
            digits.len() >= 6 ==> width == digits.len(),
            out@ == zeros((width - digits.len()) as nat),
        decreases 6 - width,
    {
        out.push('0');
        width = width + 1;
    }
    crate::text::append(&mut out, &digits);
    proof {
        assert(zeros(0) + digits@ == digits@);
    }
    out
}

} // verus!
