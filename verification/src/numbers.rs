//! Integers written as text, and read from it.

use vstd::prelude::*;

use crate::text::chars_of;

verus! {

/// The decimal digit `d`.
pub open spec fn digit(d: int) -> char {
    (48 + d) as char
}

/// `c` is an ASCII decimal digit.
pub open spec fn is_digit(c: char) -> bool {
    '0' <= c && c <= '9'
}

/// The decimal digits of `n`, without leading zeros.
pub open spec fn decimal(n: nat) -> Seq<char>
    decreases n,
{
    if n < 10 {
        seq![digit(n as int)]
    } else {
        decimal(n / 10).push(digit((n % 10) as int))
    }
}

/// The decimal digits of `n`, after a minus sign where it is negative.
pub open spec fn signed_decimal(n: int) -> Seq<char> {
    if n < 0 {
        seq!['-'] + decimal((-n) as nat)
    } else {
        decimal(n as nat)
    }
}

/// The number that a text of decimal digits stands for.
pub open spec fn digits_value(s: Seq<char>) -> nat
    decreases s.len(),
{
    if s.len() == 0 {
        0
    } else {
        (digits_value(s.drop_last()) * 10 + (s.last() as int - 48)) as nat
    }
}

/// Every character of `s` is a decimal digit.
pub open spec fn all_digits(s: Seq<char>) -> bool {
    forall|i: int| 0 <= i < s.len() ==> is_digit(#[trigger] s[i])
}

/// The text without one leading plus sign.
pub open spec fn strip_plus(s: Seq<char>) -> Seq<char> {
    if s.len() > 0 && s[0] == '+' {
        s.drop_first()
    } else {
        s
    }
}

/// The number that `s` writes in decimal, if it is one and is at most `max`:
/// an optional plus sign and at least one digit, with nothing around them.
pub open spec fn unsigned_value(s: Seq<char>, max: nat) -> Option<nat> {
    let d = strip_plus(s);
    if d.len() > 0 && all_digits(d) && digits_value(d) <= max {
        Some(digits_value(d))
    } else {
        None
    }
}

/// The character of a decimal digit.
pub fn digit_char(d: u8) -> (c: char)
    requires
        d < 10,
    ensures
        c == digit(d as int),
{
    (48 + d) as char
}

/// Writes `n` in decimal.
pub fn decimal_text(n: u64) -> (s: String)
    ensures
        s@ == decimal(n as nat),
    decreases n,
{
    if n < 10 {
        let mut s = String::new();
        s.push(digit_char(n as u8));
        assert(s@ =~= decimal(n as nat));
        s
    } else {
        let mut s = decimal_text(n / 10);
        s.push(digit_char((n % 10) as u8));
        s
    }
}

/// Writes `n` in decimal, with its sign.
pub fn signed_decimal_text(n: i64) -> (s: String)
    ensures
        s@ == signed_decimal(n as int),
{
    if n < 0 {
        let m: u64 = (-(n + 1)) as u64 + 1;
        let mut s = String::new();
        s.push('-');
        let d = decimal_text(m);
        s.append(d.as_str());
        assert(s@ =~= seq!['-'] + decimal(m as nat));
        s
    } else {
        decimal_text(n as u64)
    }
}

/// A longer run of digits stands for no smaller a number.
proof fn lemma_value_grows(s: Seq<char>, i: int)
    requires
        0 <= i <= s.len(),
        all_digits(s),
    ensures
        digits_value(s.take(i)) <= digits_value(s),
    decreases s.len(),
{
    if i < s.len() {
        let t = s.drop_last();
        assert forall|k: int| 0 <= k < t.len() implies is_digit(#[trigger] t[k]) by {
            assert(is_digit(s[k]));
        }
        lemma_value_grows(t, i);
        assert(t.take(i) =~= s.take(i));
        assert(is_digit(s[s.len() - 1]));
    } else {
        assert(s.take(i) =~= s);
    }
}

/// Reads an unsigned decimal number of at most `max`.
pub fn parse_unsigned(s: &str, max: u64) -> (r: Option<u64>)
    ensures
        match r {
            Some(n) => unsigned_value(s@, max as nat) == Some(n as nat),
            None => unsigned_value(s@, max as nat) is None,
        },
{
    let v = chars_of(s);
    let start: usize = if v.len() > 0 && v[0] == '+' {
        1
    } else {
        0
    };
    let ghost d = strip_plus(s@);
    assert(d =~= v@.subrange(start as int, v@.len() as int));
    if start >= v.len() {
        return None;
    }
    let mut n: u64 = 0;
    for i in start..v.len()
        invariant
            v@ == s@,
            d == strip_plus(s@),
            start < v@.len(),
            d == v@.subrange(start as int, v@.len() as int),
            all_digits(d.take(i - start)),
            n == digits_value(d.take(i - start)),
            n <= max,
    {
        let c = v[i];
        assert(c == d[i - start]);
        if c < '0' || c > '9' {
            return None;
        }
        let ghost before = d.take(i - start);
        let ghost after = d.take(i - start + 1);
        assert(after.drop_last() =~= before);
        assert(after.last() == c);
        let k: u64 = c as u64 - 48;
        assert(digits_value(after) == n * 10 + k);
        assert forall|j: int| 0 <= j < after.len() implies is_digit(#[trigger] after[j]) by {
            if j < before.len() {
                assert(after[j] == before[j]);
            }
        }
        if n > (u64::MAX - k) / 10 || n * 10 + k > max {
            proof {
                if all_digits(d) {
                    lemma_value_grows(d, i - start + 1);
                }
            }
            return None;
        }
        n = n * 10 + k;
    }
    assert(d.take(v@.len() - start) =~= d);
    Some(n)
}

/// The decimal digits of a number are digits, at least one, and stand for it.
pub proof fn lemma_decimal(n: nat)
    ensures
        decimal(n).len() > 0,
        all_digits(decimal(n)),
        digits_value(decimal(n)) == n,
    decreases n,
{
    if n < 10 {
        assert(decimal(n).drop_last() =~= Seq::<char>::empty());
        assert(decimal(n)[0] == digit(n as int));
        assert(decimal(n).last() == digit(n as int));
        assert(digits_value(Seq::<char>::empty()) == 0);
    } else {
        lemma_decimal(n / 10);
        assert(decimal(n).drop_last() =~= decimal(n / 10));
        let s = decimal(n);
        assert forall|i: int| 0 <= i < s.len() implies is_digit(#[trigger] s[i]) by {
            if i < s.len() - 1 {
                assert(s[i] == decimal(n / 10)[i]);
            }
        }
    }
}

/// A number that is written in decimal is read back as it was.
pub proof fn law_decimal_round_trip(n: nat, max: nat)
    requires
        n <= max,
    ensures
        unsigned_value(decimal(n), max) == Some(n),
{
    lemma_decimal(n);
    assert(is_digit(decimal(n)[0]));
    assert(decimal(n)[0] != '+');
}

/// Two numbers with the same decimal digits are equal.
pub proof fn law_decimal_injective(a: nat, b: nat)
    requires
        decimal(a) == decimal(b),
    ensures
        a == b,
{
    lemma_decimal(a);
    lemma_decimal(b);
}

/// The lower-case hexadecimal digit `d`.
pub open spec fn hex_digit(d: int) -> char {
    if d < 10 {
        (48 + d) as char
    } else {
        (87 + d) as char
    }
}

/// The last `width` hexadecimal digits of `n`, leading zeros kept.
pub open spec fn hex(n: nat, width: nat) -> Seq<char>
    decreases width,
{
    if width == 0 {
        Seq::empty()
    } else {
        hex(n / 16, (width - 1) as nat).push(hex_digit((n % 16) as int))
    }
}

fn hex_text(n: u64, width: u8) -> (s: String)
    ensures
        s@ == hex(n as nat, width as nat),
    decreases width,
{
    if width == 0 {
        String::new()
    } else {
        let mut s = hex_text(n / 16, width - 1);
        let d: u8 = (n % 16) as u8;
        s.push(
            if d < 10 {
                (48 + d) as char
            } else {
                (87 + d) as char
            },
        );
        s
    }
}

/// Writes `n` with sixteen hexadecimal digits.
pub fn hex16(n: u64) -> (s: String)
    ensures
        s@ == hex(n as nat, 16),
{
    hex_text(n, 16)
}

/// A number below ten has one digit, and ten times a number and a digit more is written as
/// the number with that digit behind it.
pub proof fn law_digits_are_added_behind(n: u64, s: String, m: u64, t: String, d: u64)
    requires
        call_ensures(decimal_text, (n,), s),
        call_ensures(decimal_text, (m,), t),
        d < 10,
        m == 10 * n + d,
    ensures
        n == 0 ==> t@ == seq![('0' as u32 + d) as char],
        n > 0 ==> t@ == s@.push(('0' as u32 + d) as char),
{
    assert(m / 10 == n && m % 10 == d);
    if n == 0 {
        assert(t@ =~= seq![('0' as u32 + d) as char]);
    }
}

/// A negative number is written with a sign before the digits of its absolute value, any
/// other number as it is.
pub proof fn law_sign_stands_before_digits(n: i64, s: String, m: u64, t: String)
    requires
        call_ensures(signed_decimal_text, (n,), s),
        call_ensures(decimal_text, (m,), t),
    ensures
        n >= 0 && m == n ==> s@ == t@,
        n < 0 && m == -n ==> s@ == seq!['-'] + t@,
{
}

/// A text that is empty, a sign alone, or holds anything but digits behind a sign is no
/// number.
pub proof fn law_no_number(s: &str, max: u64, r: Option<u64>, k: int)
    requires
        call_ensures(parse_unsigned, (s, max), r),
        s@.len() == 0 || (s@.len() == 1 && s@[0] == '+') || (0 <= k < s@.len() && !('0' <= s@[k]
            && s@[k] <= '9') && (k > 0 || s@[k] != '+')),
    ensures
        r is None,
{
    let d = strip_plus(s@);
    if s@.len() > 0 && s@[0] == '+' {
        if s@.len() > 1 {
            assert(d[k - 1] == s@[k]);
        }
    } else if s@.len() > 0 {
        assert(d[k] == s@[k]);
    }
}

/// A digit alone is its value; a digit behind a number makes ten times the number and the
/// digit more. What is greater than the greatest that is allowed is no number, nor is
/// anything with more digits.
pub proof fn law_digits_are_read_in_order(
    t: &str,
    s: &str,
    max: u64,
    rt: Option<u64>,
    rs: Option<u64>,
    c: char,
)
    requires
        call_ensures(parse_unsigned, (t, max), rt),
        call_ensures(parse_unsigned, (s, max), rs),
        '0' <= c && c <= '9',
        s@ == t@.push(c),
    ensures
        t@.len() == 0 && c as u32 - '0' as u32 <= max ==> rs == Some(
            (c as u32 - '0' as u32) as u64,
        ),
        rt is Some && 10 * rt->Some_0 + (c as u32 - '0' as u32) <= max ==> rs == Some(
            (10 * rt->Some_0 + (c as u32 - '0' as u32)) as u64,
        ),
        rt is Some && 10 * rt->Some_0 + (c as u32 - '0' as u32) > max ==> rs is None,
        t@.len() > 0 && t@ != seq!['+'] && rt is None ==> rs is None,
{
    let (d, e) = (strip_plus(t@), strip_plus(s@));
    if t@.len() == 0 {
        assert(e =~= seq![c]);
        assert(e.drop_last() =~= Seq::<char>::empty());
        assert(digits_value(e.drop_last()) == 0);
    } else {
        assert(s@[0] == t@[0]);
        assert(e =~= d.push(c));
        assert(e.drop_last() =~= d);
        if all_digits(d) {
            assert forall|i: int| 0 <= i < e.len() implies is_digit(#[trigger] e[i]) by {
                if i < d.len() {
                    assert(e[i] == d[i]);
                }
            }
        }
        if all_digits(e) {
            assert forall|i: int| 0 <= i < d.len() implies is_digit(#[trigger] d[i]) by {
                assert(e[i] == d[i]);
            }
        }
        if rt is None && d.len() == 0 {
            assert(t@ =~= seq!['+']);
        }
    }
}

/// A plus sign before a number changes nothing.
pub proof fn law_plus_changes_nothing(
    t: &str,
    s: &str,
    max: u64,
    rt: Option<u64>,
    rs: Option<u64>,
)
    requires
        call_ensures(parse_unsigned, (t, max), rt),
        call_ensures(parse_unsigned, (s, max), rs),
        s@ == seq!['+'] + t@,
        t@.len() > 0,
        t@[0] != '+',
    ensures
        rs == rt,
{
    assert(strip_plus(s@) =~= t@);
}

/// A number has sixteen hexadecimal digits: the last is that of its rest by sixteen, and
/// those before it are the digits of the number divided by sixteen.
pub proof fn law_hex_digits(n: u64, s: String, m: u64, t: String)
    requires
        call_ensures(hex16, (n,), s),
        call_ensures(hex16, (m,), t),
        m == n / 16,
    ensures
        s@.len() == 16,
        s@[15] == "0123456789abcdef"@[(n % 16) as int],
        s@.take(15) == t@.skip(1),
{
    reveal_strlit("0123456789abcdef");
    lemma_hex_len(n as nat, 16);
    lemma_hex_len(m as nat, 16);
    lemma_hex_shift((n / 16) as nat, 15);
    assert(s@.take(15) =~= hex((n / 16) as nat, 15));
}

proof fn lemma_hex_len(n: nat, width: nat)
    ensures
        hex(n, width).len() == width,
    decreases width,
{
    if width > 0 {
        lemma_hex_len(n / 16, (width - 1) as nat);
    }
}

proof fn lemma_hex_shift(n: nat, width: nat)
    ensures
        hex(n, width + 1).skip(1) == hex(n, width),
    decreases width,
{
    lemma_hex_len(n, width + 1);
    lemma_hex_len(n, width);
    if width == 0 {
        assert(hex(n, 1).skip(1) =~= hex(n, 0));
    } else {
        lemma_hex_shift(n / 16, (width - 1) as nat);
        lemma_hex_len(n / 16, width);
        assert(hex(n, width + 1).skip(1) =~= hex(n / 16, width).skip(1).push(
            hex_digit((n % 16) as int),
        ));
    }
}

} // verus!
