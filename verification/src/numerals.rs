//! Decimal and hexadecimal numerals: writing integers as text and reading them
//! back.
use crate::chars::{push_chars, string_of};
use vstd::prelude::*;
use vstd::slice::slice_subrange;

verus! {

/// The sixteen digits, each at the position of its value.
pub open spec fn digits() -> Seq<char> {
    seq!['0', '1', '2', '3', '4', '5', '6', '7', '8', '9', 'a', 'b', 'c', 'd', 'e', 'f']
}

/// Whether `c` is one of the ten decimal digits.
pub open spec fn is_digit(c: char) -> bool {
    '0' <= c <= '9'
}

/// The value of a decimal digit.
pub open spec fn digit_value(c: char) -> int {
    c as int - '0' as int
}

/// The digit whose value is `d`.
pub fn digit_char(d: u8) -> (r: char)
    requires
        d < 16,
    ensures
        r == digits()[d as int],
        d < 10 ==> is_digit(r) && digit_value(r) == d,
{
    match d {
        0 => '0',
        1 => '1',
        2 => '2',
        3 => '3',
        4 => '4',
        5 => '5',
        6 => '6',
        7 => '7',
        8 => '8',
        9 => '9',
        10 => 'a',
        11 => 'b',
        12 => 'c',
        13 => 'd',
        14 => 'e',
        _ => 'f',
    }
}

/// The decimal numeral of `n`, without leading zeros.
pub open spec fn decimal(n: nat) -> Seq<char>
    decreases n,
{
    if n < 10 {
        seq![digits()[n as int]]
    } else {
        decimal(n / 10).push(digits()[(n % 10) as int])
    }
}

/// The decimal numeral of an integer, with a minus sign where it is negative.
pub open spec fn decimal_int(i: int) -> Seq<char> {
    if i < 0 {
        seq!['-'] + decimal((-i) as nat)
    } else {
        decimal(i as nat)
    }
}

/// The number that a string of decimal digits stands for.
pub open spec fn numeral_value(s: Seq<char>) -> int
    decreases s.len(),
{
    if s.len() == 0 {
        0
    } else {
        numeral_value(s.drop_last()) * 10 + digit_value(s.last())
    }
}

/// Whether `s` consists of decimal digits.
pub open spec fn all_digits(s: Seq<char>) -> bool {
    forall|i: int| 0 <= i < s.len() ==> is_digit(#[trigger] s[i])
}

/// Whether `s` starts with a sign.
pub open spec fn has_sign(s: Seq<char>) -> bool {
    s.len() > 0 && (s[0] == '-' || s[0] == '+')
}

/// `s` without its sign.
pub open spec fn magnitude(s: Seq<char>) -> Seq<char> {
    if has_sign(s) {
        s.skip(1)
    } else {
        s
    }
}

/// The integer that `s` spells: an optional sign, then at least one digit and
/// nothing else.
pub open spec fn spelled(s: Seq<char>) -> Option<int> {
    let m = magnitude(s);
    if m.len() == 0 || !all_digits(m) {
        None
    } else if s[0] == '-' {
        Some(-numeral_value(m))
    } else {
        Some(numeral_value(m))
    }
}

/// A decimal numeral is made of digits, and is at least one digit long.
pub proof fn lemma_decimal_digits(n: nat)
    ensures
        decimal(n).len() > 0,
        all_digits(decimal(n)),
    decreases n,
{
    if n >= 10 {
        lemma_decimal_digits(n / 10);
    }
}

/// Reading a decimal numeral gives the number that was written.
pub proof fn lemma_decimal_value(n: nat)
    ensures
        numeral_value(decimal(n)) == n,
    decreases n,
{
    if n >= 10 {
        lemma_decimal_value(n / 10);
        assert(decimal(n).drop_last() =~= decimal(n / 10));
    } else {
        assert(decimal(n).drop_last() =~= Seq::<char>::empty());
        assert(numeral_value(Seq::<char>::empty()) == 0);
    }
}

/// Writing an integer and reading it back gives the integer.
pub proof fn lemma_spelled_decimal(i: int)
    ensures
        spelled(decimal_int(i)) == Some(i),
{
    if i < 0 {
        let d = decimal((-i) as nat);
        lemma_decimal_digits((-i) as nat);
        lemma_decimal_value((-i) as nat);
        assert(decimal_int(i).skip(1) =~= d);
    } else {
        lemma_decimal_digits(i as nat);
        lemma_decimal_value(i as nat);
        assert(is_digit(decimal_int(i)[0]));
    }
}

/// A longer numeral stands for no smaller a number.
proof fn lemma_numeral_monotone(s: Seq<char>, k: int)
    requires
        0 <= k <= s.len(),
        all_digits(s),
    ensures
        0 <= numeral_value(s.take(k)) <= numeral_value(s),
    decreases s.len(),
{
    if k == s.len() {
        assert(s.take(k) =~= s);
        if s.len() > 0 {
            lemma_numeral_monotone(s.drop_last(), s.len() - 1);
            assert(is_digit(s[s.len() - 1]));
            assert(s.drop_last().take(s.len() - 1) =~= s.drop_last());
        }
    } else {
        assert(s.drop_last().take(k) =~= s.take(k));
        lemma_numeral_monotone(s.drop_last(), k);
        lemma_numeral_monotone(s.drop_last(), s.len() - 1);
        assert(is_digit(s[s.len() - 1]));
    }
}

/// The decimal numeral of `n`.
pub fn decimal_chars(n: u64) -> (r: Vec<char>)
    ensures
        r@ == decimal(n as nat),
    decreases n,
{
    if n < 10 {
        let mut out: Vec<char> = Vec::new();
        out.push(digit_char(n as u8));
        assert(out@ =~= decimal(n as nat));
        out
    } else {
        let mut out = decimal_chars(n / 10);
        out.push(digit_char((n % 10) as u8));
        out
    }
}

/// The decimal numeral of `i`.
pub fn decimal_int_chars(i: i64) -> (r: Vec<char>)
    ensures
        r@ == decimal_int(i as int),
{
    if i < 0 {
        let m: u64 = (-(i as i128)) as u64;
        let mut out: Vec<char> = Vec::new();
        out.push('-');
        let d = decimal_chars(m);
        push_chars(&mut out, d.as_slice());
        assert(out@ =~= decimal_int(i as int));
        out
    } else {
        decimal_chars(i as u64)
    }
}

/// The 64-bit integer that `s` spells, where it spells one that fits.
pub open spec fn spelled_i64(s: Seq<char>) -> Option<i64> {
    match spelled(s) {
        Some(v) => if i64::MIN <= v <= i64::MAX {
            Some(v as i64)
        } else {
            None
        },
        None => None,
    }
}

/// The 64-bit integer that `s` spells, where it spells one that fits.
pub fn parse_i64(s: &[char]) -> (r: Option<i64>)
    ensures
        r == spelled_i64(s@),
{
    if s.len() == 0 {
        return None;
    }
    let negative = s[0] == '-';
    let from: usize = if negative || s[0] == '+' {
        1
    } else {
        0
    };
    let m = slice_subrange(s, from, s.len());
    assert(m@ =~= magnitude(s@));
    if m.len() == 0 {
        return None;
    }
    let mut v: u64 = 0;
    let mut i: usize = 0;
    while i < m.len()
        invariant
            i <= m.len(),
            0 < m.len(),
            m@ == magnitude(s@),
            s@.len() > 0,
            all_digits(m@.take(i as int)),
            v == numeral_value(m@.take(i as int)),
            v <= 0x8000_0000_0000_0001,
        decreases m.len() - i,
    {
        let c = m[i];
        assert(m@.take(i + 1).drop_last() =~= m@.take(i as int));
        if c < '0' || c > '9' {
            assert(!is_digit(m@[i as int]));
            return None;
        }
        if v > 922337203685477580 {
            proof {
                if all_digits(m@) {
                    lemma_numeral_monotone(m@, i + 1);
                    assert(m@.take(i + 1).last() == m@[i as int]);
                    assert(is_digit(m@[i as int]));
                }
            }
            return None;
        }
        v = v * 10 + (c as u64 - '0' as u64);
        assert forall|j: int| 0 <= j < i + 1 implies is_digit(#[trigger] m@.take(i + 1)[j]) by {
            if j < i {
                assert(m@.take(i as int)[j] == m@[j]);
            }
        }
        i += 1;
    }
    assert(m@.take(m@.len() as int) =~= m@);
    if negative {
        if v > 0x8000_0000_0000_0000 {
            None
        } else {
            Some((-(v as i128)) as i64)
        }
    } else if v > 0x7fff_ffff_ffff_ffff {
        None
    } else {
        Some(v as i64)
    }
}

/// `s` filled up on the left with `fill` to at least `width` characters.
pub open spec fn padded(s: Seq<char>, width: nat, fill: char) -> Seq<char> {
    if s.len() >= width {
        s
    } else {
        Seq::new((width - s.len()) as nat, |i: int| fill) + s
    }
}

/// `s` filled up on the left with `fill` to at least `width` characters.
pub fn pad_left(s: &[char], width: usize, fill: char) -> (r: Vec<char>)
    ensures
        r@ == padded(s@, width as nat, fill),
{
    let mut out: Vec<char> = Vec::new();
    if s.len() < width {
        let gap: usize = width - s.len();
        let mut i: usize = 0;
        while i < gap
            invariant
                i <= gap,
                out@ == Seq::new(i as nat, |j: int| fill),
            decreases gap - i,
        {
            out.push(fill);
            i += 1;
            assert(out@ =~= Seq::new(i as nat, |j: int| fill));
        }
    }
    push_chars(&mut out, s);
    assert(out@ =~= padded(s@, width as nat, fill));
    out
}

/// Two hexadecimal digits for each byte.
pub open spec fn hex(bytes: Seq<u8>) -> Seq<char>
    decreases bytes.len(),
{
    if bytes.len() == 0 {
        Seq::empty()
    } else {
        hex(bytes.drop_last()) + seq![
            digits()[bytes.last() as int / 16],
            digits()[bytes.last() as int % 16],
        ]
    }
}

/// Two hexadecimal digits for each byte.
pub fn hex_text(bytes: &[u8]) -> (r: String)
    ensures
        r@ == hex(bytes@),
{
    let mut out: Vec<char> = Vec::new();
    let mut i: usize = 0;
    while i < bytes.len()
        invariant
            i <= bytes.len(),
            out@ == hex(bytes@.take(i as int)),
        decreases bytes.len() - i,
    {
        assert(bytes@.take(i + 1).drop_last() =~= bytes@.take(i as int));
        let ghost before = out@;
        out.push(digit_char(bytes[i] / 16));
        out.push(digit_char(bytes[i] % 16));
        assert(out@ =~= hex(bytes@.take(i + 1)));
        i += 1;
    }
    assert(bytes@.take(bytes@.len() as int) =~= bytes@);
    string_of(out.as_slice())
}

/// A 32-bit number as eight hexadecimal digits.
pub open spec fn hex32(n: u32) -> Seq<char> {
    hex(
        seq![
            (n / 0x1000000) as u8,
            (n / 0x10000 % 0x100) as u8,
            (n / 0x100 % 0x100) as u8,
            (n % 0x100) as u8,
        ],
    )
}

/// A 32-bit number as eight hexadecimal digits.
pub fn hex32_text(n: u32) -> (r: String)
    ensures
        r@ == hex32(n),
        r@.len() == 8,
{
    let mut b: Vec<u8> = Vec::new();
    b.push((n / 0x1000000) as u8);
    b.push((n / 0x10000 % 0x100) as u8);
    b.push((n / 0x100 % 0x100) as u8);
    b.push((n % 0x100) as u8);
    assert(b@ =~= seq![
        (n / 0x1000000) as u8,
        (n / 0x10000 % 0x100) as u8,
        (n / 0x100 % 0x100) as u8,
        (n % 0x100) as u8,
    ]);
    proof {
        lemma_unhex_hex(b@);
    }
    hex_text(b.as_slice())
}

/// The value of a hexadecimal digit, in either case.
pub open spec fn hex_value(c: char) -> Option<int> {
    if '0' <= c <= '9' {
        Some(c as int - '0' as int)
    } else if 'a' <= c <= 'f' {
        Some(c as int - 'a' as int + 10)
    } else if 'A' <= c <= 'F' {
        Some(c as int - 'A' as int + 10)
    } else {
        None
    }
}

/// The value of a hexadecimal digit, in either case.
pub fn hex_digit(c: char) -> (r: Option<u8>)
    ensures
        r is Some <==> hex_value(c) is Some,
        r matches Some(v) ==> hex_value(c) == Some(v as int) && v < 16,
{
    if '0' <= c && c <= '9' {
        Some((c as u32 - '0' as u32) as u8)
    } else if 'a' <= c && c <= 'f' {
        Some((c as u32 - 'a' as u32 + 10) as u8)
    } else if 'A' <= c && c <= 'F' {
        Some((c as u32 - 'A' as u32 + 10) as u8)
    } else {
        None
    }
}

/// The bytes that a string of hexadecimal digit pairs stands for.
pub open spec fn unhex(s: Seq<char>) -> Option<Seq<u8>>
    decreases s.len(),
{
    if s.len() == 0 {
        Some(Seq::empty())
    } else if s.len() == 1 {
        None
    } else {
        match (unhex(s.take(s.len() - 2)), hex_value(s[s.len() - 2]), hex_value(s[s.len() - 1])) {
            (Some(front), Some(hi), Some(lo)) => Some(front.push((hi * 16 + lo) as u8)),
            _ => None,
        }
    }
}

/// A text that has no bytes in front has none as a whole.
proof fn lemma_unhex_prefix(s: Seq<char>, k: int)
    requires
        0 <= k,
        2 * k <= s.len(),
        s.len() % 2 == 0,
        unhex(s.take(2 * k)) is None,
    ensures
        unhex(s) is None,
    decreases s.len(),
{
    if 2 * k == s.len() {
        assert(s.take(2 * k) =~= s);
    } else {
        assert(s.take(s.len() - 2).take(2 * k) =~= s.take(2 * k));
        lemma_unhex_prefix(s.take(s.len() - 2), k);
    }
}

/// An odd number of digits stands for no bytes.
proof fn lemma_unhex_odd(s: Seq<char>)
    requires
        s.len() % 2 == 1,
    ensures
        unhex(s) is None,
    decreases s.len(),
{
    if s.len() > 1 {
        lemma_unhex_odd(s.take(s.len() - 2));
    }
}

/// The bytes that a string of hexadecimal digit pairs stands for.
pub fn parse_hex(s: &[char]) -> (r: Option<Vec<u8>>)
    ensures
        match r {
            Some(b) => unhex(s@) == Some(b@),
            None => unhex(s@) is None,
        },
{
    if s.len() % 2 != 0 {
        proof {
            lemma_unhex_odd(s@);
        }
        return None;
    }
    let mut out: Vec<u8> = Vec::new();
    let n: usize = s.len() / 2;
    let mut i: usize = 0;
    assert(s@.take(0) =~= Seq::<char>::empty());
    while i < n
        invariant
            i <= n,
            s.len() == 2 * n,
            unhex(s@.take(2 * i)) == Some(out@),
        decreases n - i,
    {
        let ghost t = s@.take(2 * (i + 1));
        assert(t.take(t.len() - 2) =~= s@.take(2 * i));
        match (hex_digit(s[2 * i]), hex_digit(s[2 * i + 1])) {
            (Some(hi), Some(lo)) => {
                out.push(hi * 16 + lo);
            },
            _ => {
                proof {
                    lemma_unhex_prefix(s@, i + 1);
                }
                return None;
            },
        }
        i += 1;
    }
    assert(s@.take(2 * n) =~= s@);
    Some(out)
}

/// Hexadecimal text reads back as the bytes it was made of.
pub proof fn lemma_unhex_hex(b: Seq<u8>)
    ensures
        unhex(hex(b)) == Some(b),
        hex(b).len() == 2 * b.len(),
    decreases b.len(),
{
    if b.len() > 0 {
        lemma_unhex_hex(b.drop_last());
        let s = hex(b);
        let n = b.last() as int;
        assert(s.take(s.len() - 2) =~= hex(b.drop_last()));
        assert(hex_value(digits()[n / 16]) == Some(n / 16));
        assert(hex_value(digits()[n % 16]) == Some(n % 16));
        assert((n / 16) * 16 + n % 16 == n);
        assert(b.drop_last().push(b.last()) =~= b);
    }
}

/// Filling a text up puts the fill in front until the width is reached, and leaves a text
/// that is as wide alone.
pub proof fn law_padding_goes_in_front(s: Seq<char>, width: nat, fill: char, i: int)
    ensures
        s.len() >= width ==> padded(s, width, fill) == s,
        s.len() < width ==> padded(s, width, fill).len() == width && s.is_suffix_of(
            padded(s, width, fill),
        ),
        s.len() < width && 0 <= i < width - s.len() ==> padded(s, width, fill)[i] == fill,
{
    if s.len() < width {
        let t = padded(s, width, fill);
        assert(t.subrange(t.len() - s.len(), t.len() as int) =~= s);
    }
}

/// A number that is filled up with zeros still spells the number.
pub proof fn law_zeros_in_front_do_not_count(n: nat, width: nat)
    requires
        decimal(n).len() <= width,
    ensures
        padded(decimal(n), width, '0').len() == width,
        all_digits(padded(decimal(n), width, '0')),
        numeral_value(padded(decimal(n), width, '0')) == n,
{
    lemma_decimal_digits(n);
    lemma_decimal_value(n);
    let d = decimal(n);
    let zeros = Seq::new((width - d.len()) as nat, |i: int| '0');
    if d.len() < width {
        lemma_zeros(zeros, d);
    }
    assert forall|i: int| 0 <= i < padded(d, width, '0').len() implies is_digit(
        #[trigger] padded(d, width, '0')[i],
    ) by {
        if d.len() < width && i >= zeros.len() {
            assert(padded(d, width, '0')[i] == d[i - zeros.len()]);
        }
    }
}

proof fn lemma_zeros(zeros: Seq<char>, s: Seq<char>)
    requires
        forall|i: int| 0 <= i < zeros.len() ==> #[trigger] zeros[i] == '0',
    ensures
        numeral_value(zeros + s) == numeral_value(s),
    decreases s.len(), zeros.len(),
{
    if s.len() > 0 {
        lemma_zeros(zeros, s.drop_last());
        assert((zeros + s).drop_last() =~= zeros + s.drop_last());
        assert((zeros + s).last() == s.last());
    } else if zeros.len() > 0 {
        let front = zeros.drop_last();
        assert forall|i: int| 0 <= i < front.len() implies #[trigger] front[i] == '0' by {
            assert(front[i] == zeros[i]);
        }
        lemma_zeros(front, s);
        assert(zeros + s =~= zeros);
        assert(front + s =~= front);
        assert(s =~= Seq::<char>::empty());
        assert(zeros[zeros.len() - 1] == '0');
    } else {
        assert(zeros + s =~= s);
    }
}

/// A number has as many digits as it takes.
pub proof fn law_small_numbers_are_short(n: nat)
    ensures
        n < 10 ==> decimal(n).len() == 1,
        10 <= n < 100 ==> decimal(n).len() == 2,
        100 <= n < 1000 ==> decimal(n).len() == 3,
        1000 <= n < 10000 ==> decimal(n).len() == 4,
{
    reveal_with_fuel(decimal, 5);
}

} // verus!
