//! Unsigned numerals in decimal and hexadecimal: reading and writing.

use vstd::prelude::*;

verus! {

/// The value of a digit character, in any radix up to 16; `-1` for any other
/// character.
pub open spec fn digit_value(c: char) -> int {
    if '0' <= c <= '9' {
        c as u32 - '0' as u32
    } else if 'a' <= c <= 'f' {
        c as u32 - 'a' as u32 + 10
    } else if 'A' <= c <= 'F' {
        c as u32 - 'A' as u32 + 10
    } else {
        -1
    }
}

/// Whether every character of `s` is a digit of the radix.
pub open spec fn all_digits(s: Seq<char>, radix: int) -> bool {
    forall|i: int| 0 <= i < s.len() ==> 0 <= #[trigger] digit_value(s[i]) < radix
}

/// The number that the digits of `s` write, most significant first.
pub open spec fn number_of(s: Seq<char>, radix: int) -> int
    decreases s.len(),
{
    if s.len() == 0 {
        0
    } else {
        number_of(s.drop_last(), radix) * radix + digit_value(s.last())
    }
}

/// The digits of a numeral: `s` after one optional leading `+`.
pub open spec fn unsigned_part(s: Seq<char>) -> Seq<char> {
    if s.len() > 0 && s.first() == '+' {
        s.drop_first()
    } else {
        s
    }
}

/// What the numeral `s` stands for: an optional `+`, then at least one digit
/// of the radix, with a value of at most `max`. Anything else is no numeral.
pub open spec fn parse_number(s: Seq<char>, radix: int, max: int) -> Option<int> {
    let d = unsigned_part(s);
    if d.len() > 0 && all_digits(d, radix) && number_of(d, radix) <= max {
        Some(number_of(d, radix))
    } else {
        None
    }
}

/// The upper-case hexadecimal digit for a value below 16.
pub open spec fn hex_char(d: int) -> char {
    if 0 <= d < 10 {
        ('0' as u32 + d) as char
    } else {
        ('A' as u32 + d - 10) as char
    }
}

/// The upper-case hexadecimal digits of `n`, without leading zeros; `0` is
/// written `0`.
pub open spec fn hex_digits(n: nat) -> Seq<char>
    decreases n,
{
    if n < 16 {
        seq![hex_char(n as int)]
    } else {
        hex_digits(n / 16).push(hex_char((n % 16) as int))
    }
}

/// The digits of a longer numeral write a number that is at least as large.
pub proof fn lemma_number_of_prefix(s: Seq<char>, radix: int, k: int)
    requires
        radix >= 2,
        all_digits(s, radix),
        0 <= k <= s.len(),
    ensures
        0 <= number_of(s.take(k), radix) <= number_of(s, radix),
    decreases s.len(),
{
    if s.len() == 0 {
        assert(s.take(k) == s);
    } else if k == s.len() {
        assert(s.take(k) == s);
        lemma_number_of_prefix(s.drop_last(), radix, k - 1);
        assert(s.drop_last().take(k - 1) == s.drop_last());
        assert(0 <= digit_value(s[s.len() - 1]));
        assert(number_of(s.drop_last(), radix) * radix >= 0) by (nonlinear_arith)
            requires
                number_of(s.drop_last(), radix) >= 0,
                radix >= 2,
        ;
    } else {
        let t = s.drop_last();
        assert(all_digits(t, radix)) by {
            assert forall|i: int| 0 <= i < t.len() implies 0 <= #[trigger] digit_value(t[i])
                < radix by {
                assert(t[i] == s[i]);
            }
        }
        lemma_number_of_prefix(t, radix, k);
        lemma_number_of_prefix(t, radix, t.len() as int);
        assert(t.take(t.len() as int) == t);
        assert(t.take(k) == s.take(k));
        assert(0 <= digit_value(s[s.len() - 1]));
        assert(number_of(t, radix) * radix >= number_of(t, radix)) by (nonlinear_arith)
            requires
                number_of(t, radix) >= 0,
                radix >= 2,
        ;
    }
}

/// Reading back the hexadecimal digits of a number gives the number.
pub proof fn lemma_hex_digits(n: nat)
    ensures
        hex_digits(n).len() > 0,
        all_digits(hex_digits(n), 16),
        number_of(hex_digits(n), 16) == n,
        hex_digits(n).first() != '+',
    decreases n,
{
    let s = hex_digits(n);
    if n < 16 {
        assert(s.drop_last() =~= Seq::<char>::empty());
        assert(digit_value(hex_char(n as int)) == n);
        assert(number_of(s, 16) == number_of(s.drop_last(), 16) * 16 + digit_value(s.last()));
    } else {
        let t = hex_digits(n / 16);
        lemma_hex_digits(n / 16);
        let d = (n % 16) as int;
        assert(s.drop_last() =~= t);
        assert(digit_value(hex_char(d)) == d);
        assert(s.first() == t.first());
        assert(number_of(s, 16) == number_of(s.drop_last(), 16) * 16 + digit_value(s.last()));
        assert forall|i: int| 0 <= i < s.len() implies 0 <= #[trigger] digit_value(s[i]) < 16 by {
            if i < t.len() {
                assert(s[i] == t[i]);
            }
        }
    }
}

/// The value of `c` as a digit of the radix, if it is one.
pub fn digit_of(c: char, radix: u64) -> (r: Option<u64>)
    requires
        2 <= radix <= 16,
    ensures
        r is Some <==> 0 <= digit_value(c) < radix,
        r is Some ==> r->0 == digit_value(c),
{
    let d: u32 = if '0' <= c && c <= '9' {
        c as u32 - '0' as u32
    } else if 'a' <= c && c <= 'f' {
        c as u32 - 'a' as u32 + 10
    } else if 'A' <= c && c <= 'F' {
        c as u32 - 'A' as u32 + 10
    } else {
        return None;
    };
    if (d as u64) < radix {
        Some(d as u64)
    } else {
        None
    }
}

/// Reads `v` as an unsigned numeral of the radix that fits in 64 bits.
pub fn parse_u64(v: &Vec<char>, radix: u64) -> (r: Option<u64>)
    requires
        2 <= radix <= 16,
    ensures
        r is Some <==> parse_number(v@, radix as int, u64::MAX as int) is Some,
        r is Some ==> r->0 == parse_number(v@, radix as int, u64::MAX as int)->0,
{
    let start: usize = if v.len() > 0 && v[0] == '+' { 1 } else { 0 };
    let ghost d = unsigned_part(v@);
    proof {
        assert(d == v@.subrange(start as int, v.len() as int));
    }
    if start == v.len() {
        return None;
    }
    let mut acc: u64 = 0;
    let mut i: usize = start;
    while i < v.len()
        invariant
            2 <= radix <= 16,
            start <= i <= v.len(),
            d == v@.subrange(start as int, v.len() as int),
            d == unsigned_part(v@),
            all_digits(d.take(i - start), radix as int),
            acc == number_of(d.take(i - start), radix as int),
        decreases v.len() - i,
    {
        let ghost seen = d.take(i - start + 1);
        proof {
            assert(seen.drop_last() == d.take(i - start));
            assert(seen.last() == v@[i as int]);
        }
        match digit_of(v[i], radix) {
            None => {
                proof {
                    assert(d[i - start] == v@[i as int]);
                    assert(!(0 <= digit_value(d[i - start]) < radix));
                }
                return None;
            },
            Some(digit) => {
                if acc > (u64::MAX - digit) / radix {
                    proof {
                        assert(acc * radix + digit > u64::MAX) by (nonlinear_arith)
                            requires
                                acc > (u64::MAX - digit) / (radix as int),
                                radix >= 2,
                                0 <= digit < radix,
                        ;
                        assert(number_of(seen, radix as int) == acc * radix + digit);
                        if all_digits(d, radix as int) {
                            lemma_number_of_prefix(d, radix as int, i - start + 1);
                        }
                    }
                    return None;
                }
                proof {
                    assert(acc * radix + digit <= u64::MAX) by (nonlinear_arith)
                        requires
                            acc <= (u64::MAX - digit) / (radix as int),
                            radix >= 2,
                            0 <= digit < radix,
                    ;
                    assert forall|j: int| 0 <= j < seen.len() implies 0 <= #[trigger] digit_value(
                        seen[j],
                    ) < radix by {
                        if j < seen.len() - 1 {
                            assert(seen[j] == d.take(i - start)[j]);
                        }
                    }
                }
                acc = acc * radix + digit;
            },
        }
        i += 1;
    }
    proof {
        assert(d.take(i - start) == d);
    }
    Some(acc)
}

/// Reads `v` as an unsigned decimal numeral that fits in 16 bits.
pub fn parse_u16(v: &Vec<char>) -> (r: Option<u16>)
    ensures
        r is Some <==> parse_number(v@, 10, u16::MAX as int) is Some,
        r is Some ==> r->0 == parse_number(v@, 10, u16::MAX as int)->0,
{
    match parse_u64(v, 10) {
        Some(n) => if n <= 0xFFFF {
            Some(n as u16)
        } else {
            None
        },
        None => None,
    }
}

/// The upper-case hexadecimal digit for `d`.
fn hex_char_of(d: u64) -> (r: char)
    requires
        d < 16,
    ensures
        r == hex_char(d as int),
{
    if d < 10 {
        (('0' as u32 + d as u32) as u8) as char
    } else {
        (('A' as u32 + d as u32 - 10) as u8) as char
    }
}

/// Appends the upper-case hexadecimal digits of `n` to `out`.
pub fn push_hex(out: &mut Vec<char>, n: u64)
    ensures
        final(out)@ == old(out)@ + hex_digits(n as nat),
    decreases n,
{
    if n >= 16 {
        push_hex(out, n / 16);
    }
    out.push(hex_char_of(n % 16));
}

} // verus!
