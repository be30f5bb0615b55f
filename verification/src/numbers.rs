//! Numerals: reading the integers that kernel files and node names hold, and writing
//! integers out.

use vstd::arithmetic::power;
use vstd::prelude::*;
use vstd::slice::slice_subrange;

use crate::text::{characters, trimmed};

verus! {

/// What the digit `c` is worth, or -1 where `c` is not a digit of `radix`. Letters count
/// from ten upwards in either case.
pub open spec fn digit(c: char, radix: int) -> int {
    let worth = if '0' <= c && c <= '9' {
        c as u32 - '0' as u32
    } else if 'a' <= c && c <= 'z' {
        c as u32 - 'a' as u32 + 10
    } else if 'A' <= c && c <= 'Z' {
        c as u32 - 'A' as u32 + 10
    } else {
        -1
    };
    if worth < radix {
        worth
    } else {
        -1
    }
}

/// Whether every character of `s` is a digit of `radix`.
pub open spec fn all_digits(s: Seq<char>, radix: int) -> bool {
    forall|i: int| 0 <= i < s.len() ==> digit(#[trigger] s[i], radix) >= 0
}

/// The value of a run of digits, the most significant first.
pub open spec fn value(s: Seq<char>, radix: int) -> int
    decreases s.len(),
{
    if s.len() == 0 {
        0
    } else {
        value(s.drop_last(), radix) * radix + digit(s.last(), radix)
    }
}

/// What the digits `s` stand for, if they are digits, at least one, and worth at most
/// `max`.
pub open spec fn numeral(s: Seq<char>, radix: int, max: int) -> Option<int> {
    if s.len() > 0 && all_digits(s, radix) && value(s, radix) <= max {
        Some(value(s, radix))
    } else {
        None
    }
}

/// What `s` stands for as an unsigned integer: digits that may follow a plus sign.
pub open spec fn unsigned(s: Seq<char>, radix: int, max: int) -> Option<int> {
    if s.len() > 0 && s[0] == '+' {
        numeral(s.skip(1), radix, max)
    } else {
        numeral(s, radix, max)
    }
}

/// What `s` stands for as a decimal `i64`: digits that may follow a sign.
pub open spec fn signed(s: Seq<char>) -> Option<int> {
    if s.len() > 0 && s[0] == '-' {
        match numeral(s.skip(1), 10, i64::MAX + 1) {
            Some(n) => Some(-n),
            None => None,
        }
    } else {
        unsigned(s, 10, i64::MAX as int)
    }
}

/// The worth of one digit.
fn digit_worth(c: char, radix: u32) -> (r: Option<u32>)
    requires
        2 <= radix <= 36,
    ensures
        match r {
            Some(n) => n == digit(c, radix as int) && n < radix,
            None => digit(c, radix as int) < 0,
        },
{
    let worth: u32 = if '0' <= c && c <= '9' {
        c as u32 - '0' as u32
    } else if 'a' <= c && c <= 'z' {
        c as u32 - 'a' as u32 + 10
    } else if 'A' <= c && c <= 'Z' {
        c as u32 - 'A' as u32 + 10
    } else {
        return None;
    };
    if worth < radix {
        Some(worth)
    } else {
        None
    }
}

proof fn lemma_value_grows(s: Seq<char>, n: int, radix: int)
    requires
        0 <= n <= s.len(),
        radix >= 1,
        all_digits(s, radix),
    ensures
        0 <= value(s.take(n), radix) <= value(s, radix),
    decreases s.len(),
{
    if n < s.len() {
        let t = s.drop_last();
        assert forall|i: int| 0 <= i < t.len() implies digit(#[trigger] t[i], radix) >= 0 by {
            assert(t[i] == s[i]);
        }
        lemma_value_grows(t, n, radix);
        assert(t.take(n) == s.take(n));
        let v = value(t, radix);
        assert(v <= v * radix) by (nonlinear_arith)
            requires
                v >= 0,
                radix >= 1,
        ;
        assert(digit(s[s.len() - 1], radix) >= 0);
    } else {
        assert(s.take(n) == s);
        if s.len() > 0 {
            let t = s.drop_last();
            assert forall|i: int| 0 <= i < t.len() implies digit(#[trigger] t[i], radix) >= 0 by {
                assert(t[i] == s[i]);
            }
            lemma_value_grows(t, t.len() as int, radix);
            assert(t.take(t.len() as int) == t);
            let v = value(t, radix);
            assert(0 <= v * radix) by (nonlinear_arith)
                requires
                    v >= 0,
                    radix >= 1,
            ;
            assert(digit(s[s.len() - 1], radix) >= 0);
        }
    }
}

pub proof fn lemma_unsigned(s: Seq<char>, radix: int, max: int)
    requires
        radix >= 1,
    ensures
        unsigned(s, radix, max) matches Some(n) ==> 0 <= n <= max,
{
    let d = if s.len() > 0 && s[0] == '+' {
        s.skip(1)
    } else {
        s
    };
    if all_digits(d, radix) {
        lemma_value_grows(d, d.len() as int, radix);
        assert(d.take(d.len() as int) == d);
    }
}

/// What the digits `s` stand for.
fn read_numeral(s: &[char], radix: u32, max: u64) -> (r: Option<u64>)
    requires
        2 <= radix <= 36,
    ensures
        match r {
            Some(n) => numeral(s@, radix as int, max as int) == Some(n as int),
            None => numeral(s@, radix as int, max as int) is None,
        },
{
    if s.len() == 0 {
        return None;
    }
    let mut total: u64 = 0;
    let mut i: usize = 0;
    assert(all_digits(s@.take(0), radix as int));
    while i < s.len()
        invariant
            2 <= radix <= 36,
            i <= s@.len(),
            total <= max,
            all_digits(s@.take(i as int), radix as int),
            total == value(s@.take(i as int), radix as int),
        decreases s@.len() - i,
    {
        let ghost head = s@.take(i as int);
        let ghost longer = s@.take(i + 1);
        assert(longer.drop_last() == head);
        assert(longer.last() == s@[i as int]);
        let d: u32 = match digit_worth(s[i], radix) {
            Some(d) => d,
            None => {
                assert(!all_digits(s@, radix as int));
                return None;
            },
        };
        assert(all_digits(longer, radix as int)) by {
            assert forall|j: int| 0 <= j < longer.len() implies digit(
                #[trigger] longer[j],
                radix as int,
            ) >= 0 by {
                if j < i {
                    assert(longer[j] == head[j]);
                }
            }
        }
        assert(0 <= total * radix <= u64::MAX * 36) by (nonlinear_arith)
            requires
                0 <= total <= u64::MAX,
                0 <= radix <= 36,
        ;
        let next: u128 = (total as u128) * (radix as u128) + (d as u128);
        assert(next == value(longer, radix as int));
        if next > max as u128 {
            proof {
                if all_digits(s@, radix as int) {
                    lemma_value_grows(s@, i + 1, radix as int);
                }
            }
            return None;
        }
        total = next as u64;
        i = i + 1;
    }
    assert(s@.take(i as int) == s@);
    Some(total)
}

/// Read `s` as an unsigned integer of at most `max`.
pub fn parse_unsigned(s: &[char], radix: u32, max: u64) -> (r: Option<u64>)
    requires
        2 <= radix <= 36,
    ensures
        match r {
            Some(n) => unsigned(s@, radix as int, max as int) == Some(n as int),
            None => unsigned(s@, radix as int, max as int) is None,
        },
        r matches Some(n) ==> n <= max,
{
    if s.len() > 0 && s[0] == '+' {
        let rest = slice_subrange(s, 1, s.len());
        assert(rest@ == s@.skip(1));
        read_numeral(rest, radix, max)
    } else {
        read_numeral(s, radix, max)
    }
}

/// Read `s` as a decimal `i64`.
pub fn parse_signed(s: &[char]) -> (r: Option<i64>)
    ensures
        match r {
            Some(n) => signed(s@) == Some(n as int),
            None => signed(s@) is None,
        },
{
    if s.len() > 0 && s[0] == '-' {
        let rest = slice_subrange(s, 1, s.len());
        assert(rest@ == s@.skip(1));
        match read_numeral(rest, 10, 0x8000_0000_0000_0000) {
            Some(n) => if n == 0x8000_0000_0000_0000 {
                Some(i64::MIN)
            } else {
                Some(-(n as i64))
            },
            None => None,
        }
    } else {
        match parse_unsigned(s, 10, 0x7FFF_FFFF_FFFF_FFFF) {
            Some(n) => Some(n as i64),
            None => None,
        }
    }
}

/// The number that a file holds, as a `u64`.
pub open spec fn u64_in(text: Seq<char>) -> Option<int> {
    unsigned(crate::text::trim(text), 10, u64::MAX as int)
}

/// The number that a file holds, as an `i64`.
pub open spec fn i64_in(text: Seq<char>) -> Option<int> {
    signed(crate::text::trim(text))
}

/// Read the text of a file that holds one number, with or without white space around it.
pub fn read_u64(text: &str) -> (r: Option<u64>)
    ensures
        match r {
            Some(n) => u64_in(text@) == Some(n as int),
            None => u64_in(text@) is None,
        },
{
    let all = characters(text);
    parse_unsigned(trimmed(all.as_slice()), 10, u64::MAX)
}

/// Read the text of a file that holds one number, which may be negative.
pub fn read_i64(text: &str) -> (r: Option<i64>)
    ensures
        match r {
            Some(n) => i64_in(text@) == Some(n as int),
            None => i64_in(text@) is None,
        },
{
    let all = characters(text);
    parse_signed(trimmed(all.as_slice()))
}

/// The character that writes the decimal digit `n`.
pub open spec fn digit_char(n: int) -> char {
    (n + '0' as u32) as char
}

/// `n` written in decimal.
pub open spec fn decimal(n: nat) -> Seq<char>
    decreases n,
{
    if n < 10 {
        seq![digit_char(n as int)]
    } else {
        decimal(n / 10).push(digit_char((n % 10) as int))
    }
}

/// The text of one decimal digit.
fn digit_text(n: u64) -> (s: &'static str)
    requires
        n < 10,
    ensures
        s@ == seq![digit_char(n as int)],
{
    proof {
        reveal_strlit("0");
        reveal_strlit("1");
        reveal_strlit("2");
        reveal_strlit("3");
        reveal_strlit("4");
        reveal_strlit("5");
        reveal_strlit("6");
        reveal_strlit("7");
        reveal_strlit("8");
        reveal_strlit("9");
    }
    let s = match n {
        0 => "0",
        1 => "1",
        2 => "2",
        3 => "3",
        4 => "4",
        5 => "5",
        6 => "6",
        7 => "7",
        8 => "8",
        _ => "9",
    };
    assert(s@ =~= seq![digit_char(n as int)]);
    s
}

/// Write `n` in decimal.
pub fn to_decimal(n: u64) -> (s: String)
    ensures
        s@ == decimal(n as nat),
    decreases n,
{
    if n < 10 {
        digit_text(n).to_owned()
    } else {
        let mut s = to_decimal(n / 10);
        s.append(digit_text(n % 10));
        assert(s@ == decimal(n as nat));
        s
    }
}

/// A number that was written in decimal reads back as itself.
pub proof fn law_decimal_reads_back(n: nat, max: int)
    requires
        n <= max,
    ensures
        all_digits(decimal(n), 10),
        unsigned(decimal(n), 10, max) == Some(n as int),
{
    lemma_decimal(n);
}

proof fn lemma_decimal(n: nat)
    ensures
        decimal(n).len() > 0,
        all_digits(decimal(n), 10),
        value(decimal(n), 10) == n,
        decimal(n)[0] != '+',
    decreases n,
{
    let s = decimal(n);
    if n < 10 {
        assert(s.drop_last() == Seq::<char>::empty());
        assert(value(s.drop_last(), 10) == 0);
    } else {
        lemma_decimal(n / 10);
        assert(s.drop_last() == decimal(n / 10));
        assert forall|i: int| 0 <= i < s.len() implies digit(#[trigger] s[i], 10) >= 0 by {
            if i < s.len() - 1 {
                assert(s[i] == decimal(n / 10)[i]);
            }
        }
    }
}

/// A file that holds a number in decimal and a line feed reads as that number.
pub proof fn law_number_file_reads_back(n: u64)
    ensures
        u64_in(decimal(n as nat).push('\n')) == Some(n as int),
{
    let s = decimal(n as nat);
    let file = s.push('\n');
    lemma_decimal(n as nat);
    assert(digit(s[0], 10) >= 0);
    assert(digit(s[s.len() - 1], 10) >= 0);
    assert(file[0] == s[0]);
    assert(crate::text::trim_start(file) == file);
    assert(file.drop_last() == s);
    assert(crate::text::trim_end(s) == s);
    assert(crate::text::trim_end(file) == s);
}

/// Whether `c` is one of the ten ASCII digits.
pub open spec fn ascii_digit(c: char) -> bool {
    '0' <= c && c <= '9'
}

/// `s` from its first digit on.
pub open spec fn from_first_digit(s: Seq<char>) -> Seq<char>
    decreases s.len(),
{
    if s.len() > 0 && !ascii_digit(s[0]) {
        from_first_digit(s.skip(1))
    } else {
        s
    }
}

/// The number that a node name is from its first digit on; the largest of all where that is
/// no number.
pub open spec fn node_number(name: Seq<char>) -> u32 {
    match unsigned(from_first_digit(name), 10, u32::MAX as int) {
        Some(n) => n as u32,
        None => u32::MAX,
    }
}

/// The number at the end of a `hidraw6` or `hwmon10` style name, for ordering.
///
/// Sorting those names as strings puts `hidraw10` before `hidraw2`, which silently
/// picks the wrong device on a machine with ten or more of them.
pub fn trailing_number(name: &str) -> (n: u32)
    ensures
        n == node_number(name@),
{
    let s = characters(name);
    let mut i: usize = 0;
    assert(s@.skip(0) == s@);
    while i < s.len() && !('0' <= s[i] && s[i] <= '9')
        invariant
            i <= s@.len(),
            from_first_digit(s@) == from_first_digit(s@.skip(i as int)),
        decreases s@.len() - i,
    {
        assert(s@.skip(i as int).skip(1) == s@.skip(i + 1));
        i = i + 1;
    }
    let rest = slice_subrange(s.as_slice(), i, s.len());
    assert(rest@ == s@.skip(i as int));
    match parse_unsigned(rest, 10, u32::MAX as u64) {
        Some(n) => n as u32,
        None => u32::MAX,
    }
}

/// A node name made of a stem without digits and a number is worth that number, so such
/// names order as their numbers do and not as their spellings do.
pub proof fn law_node_number_is_the_number(stem: Seq<char>, n: u32)
    requires
        forall|i: int| 0 <= i < stem.len() ==> !ascii_digit(#[trigger] stem[i]),
    ensures
        node_number(stem + decimal(n as nat)) == n,
    decreases stem.len(),
{
    let name = stem + decimal(n as nat);
    lemma_decimal(n as nat);
    if stem.len() == 0 {
        assert(name == decimal(n as nat));
        assert(ascii_digit(name[0])) by {
            assert(digit(decimal(n as nat)[0], 10) >= 0);
        }
    } else {
        let tail = stem.skip(1);
        assert forall|i: int| 0 <= i < tail.len() implies !ascii_digit(#[trigger] tail[i]) by {
            assert(tail[i] == stem[i + 1]);
        }
        law_node_number_is_the_number(tail, n);
        assert(name.skip(1) == tail + decimal(n as nat));
        assert(name[0] == stem[0]);
    }
}

/// The digits of a radix are worth their place among the ten decimal digits and the letters
/// that follow them, in either case, and nothing else is a digit.
pub proof fn law_digits(c: char)
    ensures
        ({
            let lower = "0123456789abcdef"@;
            let upper = "0123456789ABCDEF"@;
            &&& forall|n: int|
                0 <= n < 16 ==> digit(#[trigger] lower[n], 16) == n && digit(
                    #[trigger] upper[n],
                    16,
                ) == n
            &&& forall|n: int| 0 <= n < 10 ==> digit(#[trigger] lower[n], 10) == n
            &&& digit(c, 16) == -1 || (0 <= digit(c, 16) < 16 && (lower[digit(c, 16)] == c
                || upper[digit(c, 16)] == c))
            &&& digit(c, 10) == -1 || (0 <= digit(c, 10) < 10 && lower[digit(c, 10)] == c)
        }),
{
    reveal_strlit("0123456789abcdef");
    reveal_strlit("0123456789ABCDEF");
    assert("0123456789abcdef"@ =~= seq![
        '0', '1', '2', '3', '4', '5', '6', '7', '8', '9', 'a', 'b', 'c', 'd', 'e', 'f',
    ]);
    assert("0123456789ABCDEF"@ =~= seq![
        '0', '1', '2', '3', '4', '5', '6', '7', '8', '9', 'A', 'B', 'C', 'D', 'E', 'F',
    ]);
}

/// A digit further left is worth the radix times as much: digits put in front of others are
/// scaled by the radix to the power of how many those are, and one digit is worth itself.
pub proof fn law_digits_are_positional(high: Seq<char>, low: Seq<char>, c: char, radix: int)
    ensures
        value(seq![c], radix) == digit(c, radix),
        value(high + low, radix) == value(high, radix) * power::pow(radix, low.len()) + value(
            low,
            radix,
        ),
    decreases low.len(),
{
    assert(seq![c].drop_last() == Seq::<char>::empty());
    assert(value(seq![c].drop_last(), radix) == 0);
    power::lemma_pow0(radix);
    if low.len() == 0 {
        assert(high + low == high);
        assert(value(high, radix) * 1 == value(high, radix));
    } else {
        let most = low.drop_last();
        law_digits_are_positional(high, most, c, radix);
        assert((high + low).drop_last() == high + most);
        let v = value(high, radix);
        let p = power::pow(radix, most.len());
        let w = value(most, radix);
        power::lemma_pow1(radix);
        power::lemma_pow_adds(radix, most.len(), 1);
        assert(power::pow(radix, low.len()) == p * radix);
        assert((v * p + w) * radix == v * (p * radix) + w * radix) by (nonlinear_arith);
    }
}

/// `s` without a sign that it may start with, one of `signs`.
pub open spec fn without_sign(s: Seq<char>, signs: Seq<char>) -> Seq<char> {
    if s.len() > 0 && signs.contains(s[0]) {
        s.skip(1)
    } else {
        s
    }
}

proof fn lemma_signs(s: Seq<char>)
    ensures
        without_sign(s, "+"@) == if s.len() > 0 && s[0] == '+' {
            s.skip(1)
        } else {
            s
        },
        without_sign(s, "+-"@) == if s.len() > 0 && (s[0] == '+' || s[0] == '-') {
            s.skip(1)
        } else {
            s
        },
{
    reveal_strlit("+");
    reveal_strlit("+-");
    assert("+"@[0] == '+' && "+-"@[0] == '+' && "+-"@[1] == '-');
}

/// Digits, with or without a plus sign before them, read as what they are worth where that
/// is not too much; anything else does not read as an unsigned number.
pub proof fn law_unsigned_reads_digits(s: Seq<char>, radix: int, max: int)
    requires
        2 <= radix <= 36,
    ensures
        s.len() > 0 && (forall|i: int| 0 <= i < s.len() ==> 0 <= digit(#[trigger] s[i], radix))
            && value(s, radix) <= max ==> unsigned(s, radix, max) == Some(value(s, radix))
            && unsigned(seq!['+'] + s, radix, max) == Some(value(s, radix)),
        unsigned(s, radix, max) matches Some(n) ==> {
            let d = without_sign(s, "+"@);
            &&& d.len() > 0
            &&& forall|i: int| 0 <= i < d.len() ==> 0 <= digit(#[trigger] d[i], radix)
            &&& n == value(d, radix)
            &&& n <= max
        },
{
    assert((seq!['+'] + s).skip(1) == s);
    lemma_signs(s);
    if s.len() > 0 && s[0] == '+' {
        assert(digit(s[0], radix) < 0);
    }
}

/// An integer written in decimal, with a minus sign where it is negative.
pub open spec fn written(n: int) -> Seq<char> {
    if n < 0 {
        seq!['-'] + decimal((-n) as nat)
    } else {
        decimal(n as nat)
    }
}

/// Decimals have no leading zero, and are worth the number that they write.
pub proof fn law_decimal_is_plain(n: nat)
    ensures
        decimal(n).len() > 0,
        forall|i: int| 0 <= i < decimal(n).len() ==> '0' <= #[trigger] decimal(n)[i] <= '9',
        n > 0 ==> decimal(n)[0] != '0',
        value(decimal(n), 10) == n,
    decreases n,
{
    lemma_decimal(n);
    assert forall|i: int| 0 <= i < decimal(n).len() implies '0' <= #[trigger] decimal(n)[i]
        <= '9' by {
        assert(digit(decimal(n)[i], 10) >= 0);
    }
    if n >= 10 {
        law_decimal_is_plain(n / 10);
        assert(decimal(n)[0] == decimal(n / 10)[0]);
    }
}

proof fn lemma_trim_around(s: Seq<char>, after: Seq<char>)
    requires
        s.len() > 0,
        digit(s.last(), 10) >= 0,
        s[0] == '-' || s[0] == '+' || digit(s[0], 10) >= 0,
        forall|i: int| 0 <= i < after.len() ==> crate::text::white(#[trigger] after[i]),
    ensures
        crate::text::trim(s + after) == s,
{
    assert(Seq::<char>::empty() + s + after == s + after);
    crate::text::law_trim_removes_white_space_only(Seq::empty(), s, after);
}

/// A file that holds any `i64` in decimal reads as that number, with or without white space
/// after it.
pub proof fn law_signed_file_reads_back(n: i64, after: Seq<char>)
    requires
        forall|i: int| 0 <= i < after.len() ==> crate::text::white(#[trigger] after[i]),
    ensures
        i64_in(written(n as int) + after) == Some(n as int),
{
    let s = written(n as int);
    let size = if n < 0 {
        -(n as int)
    } else {
        n as int
    };
    let d = decimal(size as nat);
    lemma_decimal(size as nat);
    assert(digit(d[d.len() - 1], 10) >= 0);
    assert(digit(d[0], 10) >= 0);
    assert(s.last() == d.last());
    if n < 0 {
        assert(s.skip(1) == d);
    }
    lemma_trim_around(s, after);
}

/// A file that holds any `u64` in decimal reads as that number, with or without white space
/// after it.
pub proof fn law_unsigned_file_reads_back(n: u64, after: Seq<char>)
    requires
        forall|i: int| 0 <= i < after.len() ==> crate::text::white(#[trigger] after[i]),
    ensures
        u64_in(decimal(n as nat) + after) == Some(n as int),
{
    let d = decimal(n as nat);
    lemma_decimal(n as nat);
    assert(digit(d[d.len() - 1], 10) >= 0);
    assert(digit(d[0], 10) >= 0);
    lemma_trim_around(d, after);
}

/// A file reads as a number only where what white space leaves of it is a sign, if any, and
/// digits worth that number.
pub proof fn law_only_numbers_read_as_numbers(text: Seq<char>)
    ensures
        ({
            let t = crate::text::trim(text);
            &&& u64_in(text) matches Some(n) ==> {
                let d = without_sign(t, "+"@);
                &&& d.len() > 0
                &&& forall|i: int| 0 <= i < d.len() ==> '0' <= #[trigger] d[i] <= '9'
                &&& n == value(d, 10)
                &&& n <= u64::MAX
            }
            &&& i64_in(text) matches Some(n) ==> {
                let d = without_sign(t, "+-"@);
                &&& d.len() > 0
                &&& forall|i: int| 0 <= i < d.len() ==> '0' <= #[trigger] d[i] <= '9'
                &&& n == if t[0] == '-' {
                    -value(d, 10)
                } else {
                    value(d, 10)
                }
                &&& i64::MIN <= n <= i64::MAX
            }
        }),
{
    let t = crate::text::trim(text);
    lemma_signs(t);
    let d = without_sign(t, "+-"@);
    if all_digits(d, 10) {
        lemma_value_grows(d, d.len() as int, 10);
        assert(d.take(d.len() as int) == d);
        assert forall|i: int| 0 <= i < d.len() implies '0' <= #[trigger] d[i] <= '9' by {
            assert(digit(d[i], 10) >= 0);
        }
    }
    if t.len() > 0 && t[0] == '-' {
        assert(digit(t[0], 10) < 0);
    }
}

proof fn lemma_from_first_digit(s: Seq<char>, n: int)
    requires
        0 <= n <= s.len(),
        forall|i: int| 0 <= i < n ==> !('0' <= #[trigger] s[i] <= '9'),
        n < s.len() ==> '0' <= s[n] <= '9',
    ensures
        from_first_digit(s) == s.skip(n),
    decreases s.len(),
{
    if n > 0 {
        assert(!('0' <= s[0] <= '9'));
        let t = s.skip(1);
        assert forall|i: int| 0 <= i < n - 1 implies !('0' <= #[trigger] t[i] <= '9') by {
            assert(t[i] == s[i + 1]);
        }
        lemma_from_first_digit(t, n - 1);
        assert(t.skip(n - 1) == s.skip(n));
    } else {
        assert(s.skip(0) == s);
    }
}

/// A node name whose digits end it is worth what they are worth, leading zeros or not; one
/// without digits, with anything after its first run of digits, or with too large a number,
/// comes last.
pub proof fn law_node_number(stem: Seq<char>, tail: Seq<char>)
    requires
        forall|i: int| 0 <= i < stem.len() ==> !('0' <= #[trigger] stem[i] <= '9'),
        tail.len() > 0 ==> '0' <= tail[0] <= '9',
    ensures
        node_number(stem + tail) == if tail.len() > 0 && (forall|i: int|
            0 <= i < tail.len() ==> '0' <= #[trigger] tail[i] <= '9') && value(tail, 10)
            < u32::MAX {
            value(tail, 10)
        } else {
            u32::MAX as int
        },
{
    let name = stem + tail;
    assert forall|i: int| 0 <= i < stem.len() implies !('0' <= #[trigger] name[i] <= '9') by {
        assert(name[i] == stem[i]);
    }
    lemma_from_first_digit(name, stem.len() as int);
    assert(name.skip(stem.len() as int) == tail);
    if forall|i: int| 0 <= i < tail.len() ==> '0' <= #[trigger] tail[i] <= '9' {
        assert(all_digits(tail, 10)) by {
            assert forall|i: int| 0 <= i < tail.len() implies digit(#[trigger] tail[i], 10)
                >= 0 by {
                assert('0' <= tail[i] <= '9');
            }
        }
        lemma_value_grows(tail, tail.len() as int, 10);
        assert(tail.take(tail.len() as int) == tail);
    } else {
        let i = choose|i: int| 0 <= i < tail.len() && !('0' <= #[trigger] tail[i] <= '9');
        assert(digit(tail[i], 10) < 0);
    }
}

/// A file reads as what its digits are worth, whatever white space stands around them, with
/// or without a plus sign, and negative after a minus sign.
pub proof fn law_number_files(before: Seq<char>, d: Seq<char>, after: Seq<char>)
    requires
        d.len() > 0,
        forall|i: int| 0 <= i < d.len() ==> '0' <= #[trigger] d[i] <= '9',
        forall|i: int| 0 <= i < before.len() ==> crate::text::white(#[trigger] before[i]),
        forall|i: int| 0 <= i < after.len() ==> crate::text::white(#[trigger] after[i]),
    ensures
        value(d, 10) <= u64::MAX ==> u64_in(before + d + after) == Some(value(d, 10)) && u64_in(
            before + (seq!['+'] + d) + after,
        ) == Some(value(d, 10)),
        value(d, 10) <= i64::MAX ==> i64_in(before + d + after) == Some(value(d, 10)) && i64_in(
            before + (seq!['+'] + d) + after,
        ) == Some(value(d, 10)),
        value(d, 10) <= i64::MAX + 1 ==> i64_in(before + (seq!['-'] + d) + after) == Some(
            -value(d, 10),
        ),
{
    assert('0' <= d[0] <= '9');
    assert('0' <= d[d.len() - 1] <= '9');
    assert(all_digits(d, 10)) by {
        assert forall|i: int| 0 <= i < d.len() implies digit(#[trigger] d[i], 10) >= 0 by {
            assert('0' <= d[i] <= '9');
        }
    }
    let plus = seq!['+'] + d;
    let minus = seq!['-'] + d;
    assert(plus.skip(1) == d && minus.skip(1) == d);
    assert(plus.last() == d.last() && minus.last() == d.last());
    crate::text::law_trim_removes_white_space_only(before, d, after);
    crate::text::law_trim_removes_white_space_only(before, plus, after);
    crate::text::law_trim_removes_white_space_only(before, minus, after);
}

} // verus!
