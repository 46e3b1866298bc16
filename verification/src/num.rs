//! Numbers as text: reading them, and writing them down.

use vstd::prelude::*;
use vstd::string::*;

use crate::text::chars_of;

verus! {

/// The value of a digit in a radix of at most sixteen.
pub open spec fn digit_value(c: char, radix: nat) -> Option<nat> {
    let v = if '0' <= c <= '9' {
        Some((c as u32 - '0' as u32) as nat)
    } else if 'a' <= c <= 'f' {
        Some((c as u32 - 'a' as u32 + 10) as nat)
    } else if 'A' <= c <= 'F' {
        Some((c as u32 - 'A' as u32 + 10) as nat)
    } else {
        None
    };
    match v {
        Some(d) if d < radix => Some(d),
        _ => None,
    }
}

/// The value of a row of digits, where every character is one.
pub open spec fn digits_value(s: Seq<char>, radix: nat) -> Option<nat>
    decreases s.len(),
{
    if s.len() == 0 {
        Some(0)
    } else {
        match (digits_value(s.drop_last(), radix), digit_value(s.last(), radix)) {
            (Some(v), Some(d)) => Some(v * radix + d),
            _ => None,
        }
    }
}

/// The digits of a number that may carry a plus sign in front.
pub open spec fn without_plus(s: Seq<char>) -> Seq<char> {
    if s.len() > 0 && s[0] == '+' {
        s.skip(1)
    } else {
        s
    }
}

/// An unsigned number as text: at least one digit, nothing but digits behind
/// an optional plus sign, and no more than `max`.
pub open spec fn unsigned(s: Seq<char>, radix: nat, max: nat) -> Option<nat> {
    let t = without_plus(s);
    match digits_value(t, radix) {
        Some(n) if t.len() > 0 && n <= max => Some(n),
        _ => None,
    }
}

/// A decimal number of at most `max`.
pub open spec fn decimal(s: Seq<char>, max: nat) -> Option<nat> {
    unsigned(s, 10, max)
}

/// A hexadecimal number of at most `max`.
pub open spec fn hexadecimal(s: Seq<char>, max: nat) -> Option<nat> {
    unsigned(s, 16, max)
}

/// The digit for a value below sixteen.
pub open spec fn digit_char(d: nat) -> char {
    if d == 0 { '0' } else if d == 1 { '1' } else if d == 2 { '2' } else if d == 3 { '3' }
    else if d == 4 { '4' } else if d == 5 { '5' } else if d == 6 { '6' } else if d == 7 { '7' }
    else if d == 8 { '8' } else if d == 9 { '9' } else if d == 10 { 'a' } else if d == 11 { 'b' }
    else if d == 12 { 'c' } else if d == 13 { 'd' } else if d == 14 { 'e' } else { 'f' }
}

/// A number in decimal, without leading zeros.
pub open spec fn dec(n: nat) -> Seq<char>
    decreases n,
{
    if n < 10 {
        seq![digit_char(n)]
    } else {
        dec(n / 10).push(digit_char(n % 10))
    }
}

/// A number in lower-case hexadecimal, without leading zeros.
pub open spec fn hex(n: nat) -> Seq<char>
    decreases n,
{
    if n < 16 {
        seq![digit_char(n)]
    } else {
        hex(n / 16).push(digit_char(n % 16))
    }
}

/// A number below 256 as two hexadecimal digits.
pub open spec fn hex2(n: nat) -> Seq<char> {
    seq![digit_char(n / 16 % 16), digit_char(n % 16)]
}

/// A number below 65536 as four hexadecimal digits.
pub open spec fn hex4(n: nat) -> Seq<char> {
    seq![
        digit_char(n / 4096 % 16),
        digit_char(n / 256 % 16),
        digit_char(n / 16 % 16),
        digit_char(n % 16),
    ]
}

/// A truth value, as `true` or `false`.
pub open spec fn truth(b: bool) -> Seq<char> {
    if b {
        "true"@
    } else {
        "false"@
    }
}

pub fn digit(c: char, radix: u32) -> (r: Option<u32>)
    requires
        radix <= 16,
    ensures
        match r {
            Some(d) => digit_value(c, radix as nat) == Some(d as nat) && d < radix,
            None => digit_value(c, radix as nat) is None,
        },
{
    let v: u32 = if '0' <= c && c <= '9' {
        c as u32 - 48
    } else if 'a' <= c && c <= 'f' {
        c as u32 - 97 + 10
    } else if 'A' <= c && c <= 'F' {
        c as u32 - 65 + 10
    } else {
        return None;
    };
    if v < radix {
        Some(v)
    } else {
        None
    }
}

/// More digits never make a number smaller.
proof fn lemma_digits_grow(s: Seq<char>, radix: nat, i: int)
    requires
        0 <= i <= s.len(),
        radix >= 1,
        digits_value(s, radix) is Some,
    ensures
        digits_value(s.take(i), radix) is Some,
        digits_value(s.take(i), radix)->0 <= digits_value(s, radix)->0,
    decreases s.len(),
{
    if i == s.len() {
        assert(s.take(i) =~= s);
    } else {
        let t = s.drop_last();
        lemma_digits_grow(t, radix, i);
        assert(t.take(i) =~= s.take(i));
        let v = digits_value(t, radix)->0;
        assert(v <= v * radix) by (nonlinear_arith)
            requires
                radix >= 1,
        ;
    }
}

fn number(s: &str, radix: u32, max: u64) -> (r: Option<u64>)
    requires
        radix == 10 || radix == 16,
    ensures
        match r {
            Some(n) => unsigned(s@, radix as nat, max as nat) == Some(n as nat) && n <= max,
            None => unsigned(s@, radix as nat, max as nat) is None,
        },
{
    let v: Vec<char> = chars_of(s);
    let start: usize = if v.len() > 0 && v[0] == '+' {
        1
    } else {
        0
    };
    let ghost t = without_plus(s@);
    assert(t =~= v@.skip(start as int));
    if start == v.len() {
        return None;
    }
    let mut i: usize = start;
    let mut n: u64 = 0;
    assert(t.take(0) =~= Seq::<char>::empty());
    while i < v.len()
        invariant
            start <= i <= v@.len(),
            start <= 1,
            v@ == s@,
            t == v@.skip(start as int),
            t == without_plus(s@),
            t.len() > 0,
            radix == 10 || radix == 16,
            digits_value(t.take(i - start), radix as nat) == Some(n as nat),
            n <= max,
        decreases v@.len() - i,
    {
        let ghost k = i - start;
        assert(t.take(k + 1).drop_last() =~= t.take(k));
        assert(t.take(k + 1).last() == v@[i as int]);
        match digit(v[i], radix) {
            Some(d) => {
                let m: u128 = if radix == 10 {
                    (n as u128) * 10 + d as u128
                } else {
                    (n as u128) * 16 + d as u128
                };
                assert(digits_value(t.take(k + 1), radix as nat) == Some(m as nat));
                if m > max as u128 {
                    proof {
                        if digits_value(t, radix as nat) is Some {
                            lemma_digits_grow(t, radix as nat, k + 1);
                        }
                    }
                    return None;
                }
                n = m as u64;
            },
            None => {
                proof {
                    if digits_value(t, radix as nat) is Some {
                        lemma_digits_grow(t, radix as nat, k + 1);
                    }
                }
                return None;
            },
        }
        i += 1;
    }
    assert(t.take(i - start) =~= t);
    Some(n)
}

/// Read a decimal number of at most `max`.
pub fn read_decimal(s: &str, max: u64) -> (r: Option<u64>)
    ensures
        match r {
            Some(n) => decimal(s@, max as nat) == Some(n as nat) && n <= max,
            None => decimal(s@, max as nat) is None,
        },
{
    number(s, 10, max)
}

/// Read a hexadecimal number of at most `max`.
pub fn read_hexadecimal(s: &str, max: u64) -> (r: Option<u64>)
    ensures
        match r {
            Some(n) => hexadecimal(s@, max as nat) == Some(n as nat) && n <= max,
            None => hexadecimal(s@, max as nat) is None,
        },
{
    number(s, 16, max)
}

pub fn digit_of(d: u64) -> (c: char)
    requires
        d < 16,
    ensures
        c == digit_char(d as nat),
{
    match d {
        0 => '0', 1 => '1', 2 => '2', 3 => '3', 4 => '4', 5 => '5', 6 => '6', 7 => '7',
        8 => '8', 9 => '9', 10 => 'a', 11 => 'b', 12 => 'c', 13 => 'd', 14 => 'e', _ => 'f',
    }
}

/// Write a number in decimal behind a text.
pub fn push_dec(out: &mut String, n: u64)
    ensures
        final(out)@ == old(out)@ + dec(n as nat),
    decreases n,
{
    let ghost before = out@;
    if n >= 10 {
        push_dec(out, n / 10);
    }
    out.push(digit_of(n % 10));
    assert(out@ =~= before + dec(n as nat));
}

/// Write a number in hexadecimal behind a text.
pub fn push_hex(out: &mut String, n: u64)
    ensures
        final(out)@ == old(out)@ + hex(n as nat),
    decreases n,
{
    let ghost before = out@;
    if n >= 16 {
        push_hex(out, n / 16);
    }
    out.push(digit_of(n % 16));
    assert(out@ =~= before + hex(n as nat));
}

/// Write a byte as two hexadecimal digits behind a text.
pub fn push_hex2(out: &mut String, n: u8)
    ensures
        final(out)@ == old(out)@ + hex2(n as nat),
{
    let ghost before = out@;
    let m: u64 = n as u64;
    out.push(digit_of(m / 16 % 16));
    out.push(digit_of(m % 16));
    assert(out@ =~= before + hex2(n as nat));
}

/// Write a number below 65536 as four hexadecimal digits behind a text.
pub fn push_hex4(out: &mut String, n: u16)
    ensures
        final(out)@ == old(out)@ + hex4(n as nat),
{
    let ghost before = out@;
    let m: u64 = n as u64;
    out.push(digit_of(m / 4096 % 16));
    out.push(digit_of(m / 256 % 16));
    out.push(digit_of(m / 16 % 16));
    out.push(digit_of(m % 16));
    assert(out@ =~= before + hex4(n as nat));
}

/// Write a truth value behind a text.
pub fn push_truth(out: &mut String, b: bool)
    ensures
        final(out)@ == old(out)@ + truth(b),
{
    if b {
        out.append("true");
    } else {
        out.append("false");
    }
}

/// A number in decimal.
pub fn dec_of(n: u64) -> (r: String)
    ensures
        r@ == dec(n as nat),
{
    let mut s: String = String::new();
    push_dec(&mut s, n);
    assert(s@ =~= dec(n as nat));
    s
}

/// Decimal digits stand for themselves.
pub proof fn lemma_digit_char(d: nat)
    requires
        d < 16,
    ensures
        digit_value(digit_char(d), 16) == Some(d),
        d < 10 ==> digit_value(digit_char(d), 10) == Some(d),
        digit_char(d) != '+',
{
}

pub proof fn lemma_dec_digits(n: nat)
    ensures
        dec(n).len() > 0,
        n >= 10 ==> dec(n)[0] != '0',
        n < 10 ==> dec(n).len() == 1,
        n < 100 ==> dec(n).len() <= 2,
        n < 1000 ==> dec(n).len() <= 3,
        forall|i: int| 0 <= i < dec(n).len() ==> '0' <= #[trigger] dec(n)[i] <= '9',
        digits_value(dec(n), 10) == Some(n),
    decreases n,
{
    lemma_digit_char(n % 10);
    if n < 10 {
        lemma_digit_char(n);
        let s = dec(n);
        assert(s.drop_last() =~= Seq::<char>::empty());
        assert(digits_value(s.drop_last(), 10) == Some(0nat));
    } else {
        lemma_dec_digits(n / 10);
        assert(dec(n).drop_last() =~= dec(n / 10));
        assert(dec(n).last() == digit_char(n % 10));
        assert((n / 10) * 10 + n % 10 == n);
        assert forall|i: int| 0 <= i < dec(n).len() implies '0' <= #[trigger] dec(n)[i] <= '9' by {
            if i < dec(n).len() - 1 {
                assert(dec(n)[i] == dec(n / 10)[i]);
            }
        }
        assert(dec(n)[0] == dec(n / 10)[0]);
        if n / 10 < 10 {
            assert(dec(n / 10)[0] == digit_char(n / 10));
        }
    }
}

/// Whether a character is a digit of a lower-case hexadecimal number.
pub open spec fn hex_digit(c: char) -> bool {
    '0' <= c <= '9' || 'a' <= c <= 'f'
}

pub proof fn lemma_hex_digits(n: nat)
    ensures
        hex(n).len() > 0,
        n < 16 ==> hex(n).len() == 1,
        n < 0x100 ==> hex(n).len() <= 2,
        n < 0x1000 ==> hex(n).len() <= 3,
        n < 0x10000 ==> hex(n).len() <= 4,
        forall|i: int| 0 <= i < hex(n).len() ==> hex_digit(#[trigger] hex(n)[i]),
        digits_value(hex(n), 16) == Some(n),
    decreases n,
{
    lemma_digit_char(n % 16);
    if n < 16 {
        lemma_digit_char(n);
        let s = hex(n);
        assert(s.drop_last() =~= Seq::<char>::empty());
        assert(digits_value(s.drop_last(), 16) == Some(0nat));
    } else {
        lemma_hex_digits(n / 16);
        assert(hex(n).drop_last() =~= hex(n / 16));
        assert(hex(n).last() == digit_char(n % 16));
        assert((n / 16) * 16 + n % 16 == n);
        assert forall|i: int| 0 <= i < hex(n).len() implies hex_digit(#[trigger] hex(n)[i]) by {
            if i < hex(n).len() - 1 {
                assert(hex(n)[i] == hex(n / 16)[i]);
            }
        }
    }
}

/// A number written in decimal reads back as itself.
pub proof fn dec_reads_back(n: nat, max: nat)
    requires
        n <= max,
    ensures
        decimal(dec(n), max) == Some(n),
{
    lemma_dec_digits(n);
    assert(dec(n)[0] != '+');
}

/// Two numbers are written alike only where they are one number.
pub proof fn dec_is_injective(m: nat, n: nat)
    requires
        dec(m) == dec(n),
    ensures
        m == n,
{
    lemma_dec_digits(m);
    lemma_dec_digits(n);
}

/// One more digit behind a number makes it ten times as large and adds the digit.
pub proof fn one_more_digit_is_ten_times_as_much(s: Seq<char>, n: nat, d: nat, max: nat)
    requires
        decimal(s, max) == Some(n),
        d < 10,
    ensures
        decimal(s.push(digit_char(d)), max) == (if n * 10 + d <= max {
            Some((n * 10 + d) as nat)
        } else {
            None
        }),
{
    lemma_digit_char(d);
    let t = s.push(digit_char(d));
    assert(s.len() > 0);
    assert(t[0] == s[0]);
    assert(without_plus(t) =~= without_plus(s).push(digit_char(d)));
    assert(without_plus(t).drop_last() =~= without_plus(s));
}

proof fn lemma_zero_in_front(s: Seq<char>)
    ensures
        digits_value(seq!['0'] + s, 10) == digits_value(s, 10),
    decreases s.len(),
{
    let t = seq!['0'] + s;
    if s.len() == 0 {
        assert(t.drop_last() =~= seq![]);
        assert(digits_value(Seq::<char>::empty(), 10) == Some(0nat));
        assert(t.last() == '0');
    } else {
        lemma_zero_in_front(s.drop_last());
        assert(t.drop_last() =~= seq!['0'] + s.drop_last());
    }
}

proof fn lemma_only_digits(s: Seq<char>, i: int)
    requires
        digits_value(s, 10) is Some,
        0 <= i < s.len(),
    ensures
        '0' <= s[i] <= '9',
    decreases s.len(),
{
    if i < s.len() - 1 {
        lemma_only_digits(s.drop_last(), i);
    }
}

/// A number may have zeros or a plus sign in front, but it is not negative, not
/// empty, not larger than it may be, and nothing but digits.
pub proof fn a_number_is_digits(n: nat, max: nat, s: Seq<char>)
    ensures
        n <= max ==> decimal(seq!['0'] + dec(n), max) == Some(n),
        n <= max ==> decimal(seq!['+'] + dec(n), max) == Some(n),
        n > max ==> decimal(dec(n), max) is None,
        decimal(seq!['-'] + s, max) is None,
        decimal(seq![], max) is None,
        decimal(seq!['+'], max) is None,
        decimal(seq!['+', '+'] + s, max) is None,
        decimal(s, max) is Some ==> s.len() > 0 && ('0' <= s[0] <= '9' || s[0] == '+' && s.len() > 1)
            && forall|i: int| 1 <= i < s.len() ==> '0' <= #[trigger] s[i] <= '9',
{
    lemma_dec_digits(n);
    lemma_zero_in_front(dec(n));
    let z = seq!['0'] + dec(n);
    let p = seq!['+'] + dec(n);
    assert(z[0] == '0' && dec(n)[0] != '+');
    assert(p.skip(1) =~= dec(n));
    let m = seq!['-'] + s;
    let q = seq!['+', '+'] + s;
    assert(m[0] == '-');
    assert(q[0] == '+' && q.skip(1)[0] == '+');
    if digits_value(m, 10) is Some {
        lemma_only_digits(m, 0);
    }
    if digits_value(q.skip(1), 10) is Some {
        lemma_only_digits(q.skip(1), 0);
    }
    if decimal(s, max) is Some {
        let t = without_plus(s);
        lemma_only_digits(t, 0);
        assert forall|i: int| 1 <= i < s.len() implies '0' <= #[trigger] s[i] <= '9' by {
            lemma_only_digits(t, i - (s.len() - t.len()));
        }
    }
}

/// A hexadecimal digit means the same in either case, and a letter behind `f`
/// means nothing.
pub proof fn a_digit_means_the_same_in_either_case(c: char, upper: char)
    requires
        'a' <= c <= 'z',
        upper as u32 + 32 == c as u32,
    ensures
        digit_value(c, 16) == digit_value(upper, 16),
        digit_value(c, 16) is Some <==> c <= 'f',
        digit_value(c, 10) is None,
        c <= 'f' ==> digit_value(c, 16) == Some((10 + (c as u32 - 'a' as u32)) as nat),
{
}

/// A number written in hexadecimal reads back as itself, and so does one that is
/// written with all its digits.
pub proof fn hex_reads_back(n: nat, max: nat)
    requires
        n <= max,
    ensures
        hexadecimal(hex(n), max) == Some(n),
        n < 256 ==> hexadecimal(hex2(n), max) == Some(n),
        n < 65536 ==> hexadecimal(hex4(n), max) == Some(n),
{
    lemma_hex_digits(n);
    assert(hex_digit(hex(n)[0]));
    let none = Seq::<char>::empty();
    lemma_digit_char(n / 4096 % 16);
    lemma_digit_char(n / 256 % 16);
    lemma_digit_char(n / 16 % 16);
    lemma_digit_char(n % 16);
    let h = hex2(n);
    let h1 = h.drop_last();
    assert(h1.drop_last() =~= none);
    let g = hex4(n);
    let g3 = g.drop_last();
    let g2 = g3.drop_last();
    let g1 = g2.drop_last();
    assert(g1.drop_last() =~= none);
    assert(digits_value(none, 16) == Some(0nat));
    assert(h1.last() == digit_char(n / 16 % 16) && h.last() == digit_char(n % 16));
    assert(g1.last() == digit_char(n / 4096 % 16));
    assert(g2.last() == digit_char(n / 256 % 16));
    assert(g3.last() == digit_char(n / 16 % 16));
    assert(g.last() == digit_char(n % 16));
    assert(digits_value(h1, 16) == Some(n / 16 % 16));
    assert(digits_value(g1, 16) == Some(n / 4096 % 16));
    assert(digits_value(g2, 16) == Some((n / 4096 % 16) * 16 + n / 256 % 16));
    assert(digits_value(g3, 16) == Some(
        ((n / 4096 % 16) * 16 + n / 256 % 16) * 16 + n / 16 % 16,
    ));
    assert(without_plus(h) == h && without_plus(g) == g);
}

} // verus!
