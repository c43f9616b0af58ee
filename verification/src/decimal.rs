//! Integers as decimal text, read and written.

use vstd::prelude::*;
use vstd::string::StringExecFns;

verus! {

/// The digit that stands for `d`, for `d` in `0..10`.
pub open spec fn digit_char(d: int) -> char {
    if d == 0 {
        '0'
    } else if d == 1 {
        '1'
    } else if d == 2 {
        '2'
    } else if d == 3 {
        '3'
    } else if d == 4 {
        '4'
    } else if d == 5 {
        '5'
    } else if d == 6 {
        '6'
    } else if d == 7 {
        '7'
    } else if d == 8 {
        '8'
    } else {
        '9'
    }
}

/// The number that the digit `c` stands for; `-1` if `c` is no digit.
pub open spec fn digit_value(c: char) -> int {
    if c == '0' {
        0
    } else if c == '1' {
        1
    } else if c == '2' {
        2
    } else if c == '3' {
        3
    } else if c == '4' {
        4
    } else if c == '5' {
        5
    } else if c == '6' {
        6
    } else if c == '7' {
        7
    } else if c == '8' {
        8
    } else if c == '9' {
        9
    } else {
        -1
    }
}

/// Whether `c` is one of the ten digits.
pub open spec fn is_digit(c: char) -> bool {
    digit_value(c) >= 0
}

/// Whether `s` holds digits only.
pub open spec fn all_digits(s: Seq<char>) -> bool {
    forall|i: int| 0 <= i < s.len() ==> is_digit(#[trigger] s[i])
}

/// The number that a run of digits stands for.
pub open spec fn digits_value(s: Seq<char>) -> int
    decreases s.len(),
{
    if s.len() == 0 {
        0
    } else {
        digits_value(s.drop_last()) * 10 + digit_value(s.last())
    }
}

/// The number that `s` stands for, if it is a decimal numeral: digits, at
/// least one, behind at most one sign.
pub open spec fn parse_int(s: Seq<char>) -> Option<int> {
    if s.len() > 0 && s[0] == '-' {
        if s.len() > 1 && all_digits(s.skip(1)) {
            Some(-digits_value(s.skip(1)))
        } else {
            None
        }
    } else if s.len() > 0 && s[0] == '+' {
        if s.len() > 1 && all_digits(s.skip(1)) {
            Some(digits_value(s.skip(1)))
        } else {
            None
        }
    } else if s.len() > 0 && all_digits(s) {
        Some(digits_value(s))
    } else {
        None
    }
}

/// The `i32` that `s` stands for, if it is a numeral of one.
pub open spec fn parse_i32(s: Seq<char>) -> Option<i32> {
    match parse_int(s) {
        Some(v) => if i32::MIN <= v <= i32::MAX {
            Some(v as i32)
        } else {
            None
        },
        None => None,
    }
}

/// The `usize` that `s` stands for, if it is a numeral of one. A numeral
/// with a minus sign is none, not even that of zero.
pub open spec fn parse_usize(s: Seq<char>) -> Option<usize> {
    match parse_int(s) {
        Some(v) => if s[0] != '-' && 0 <= v <= usize::MAX {
            Some(v as usize)
        } else {
            None
        },
        None => None,
    }
}

/// The digits of `n`, without leading zeros.
pub open spec fn decimal(n: nat) -> Seq<char>
    decreases n,
{
    if n < 10 {
        seq![digit_char(n as int)]
    } else {
        decimal(n / 10).push(digit_char((n % 10) as int))
    }
}

/// The numeral of `v`: its digits, behind a minus sign if it is negative.
pub open spec fn int_text(v: int) -> Seq<char> {
    if v < 0 {
        seq!['-'] + decimal((-v) as nat)
    } else {
        decimal(v as nat)
    }
}

/// The digits of a number are digits, and they stand for it.
pub proof fn lemma_decimal_reads_back(n: nat)
    ensures
        decimal(n).len() >= 1,
        all_digits(decimal(n)),
        digits_value(decimal(n)) == n,
    decreases n,
{
    if n < 10 {
        let s = decimal(n);
        assert(s.drop_last() =~= Seq::<char>::empty());
        assert(digits_value(s.drop_last()) == 0);
    } else {
        lemma_decimal_reads_back(n / 10);
        let s = decimal(n);
        assert(s.drop_last() =~= decimal(n / 10));
    }
}

/// Reading the numeral of a number gives the number.
pub proof fn lemma_int_text_reads_back(v: int)
    ensures
        parse_int(int_text(v)) == Some(v),
        int_text(v).len() >= 1,
        v >= 0 ==> int_text(v)[0] != '-',
{
    if v < 0 {
        lemma_decimal_reads_back((-v) as nat);
        assert(int_text(v).skip(1) =~= decimal((-v) as nat));
    } else {
        lemma_decimal_reads_back(v as nat);
        let s = decimal(v as nat);
        assert(is_digit(s[0]));
    }
}

/// The text of one digit.
fn digit_str(d: u8) -> (s: &'static str)
    requires
        d < 10,
    ensures
        s@ == seq![digit_char(d as int)],
{
    proof {
        reveal_strlit("0");
        reveal_strlit("1");
        reveal_strlit("2");
        reveal_strlit("3");
        reveal_strlit("4");
        reveal_strlit("5");
        reveal_strlit("6");
        reveal_strlit("7");
        reveal_strlit("8");
        reveal_strlit("9");
    }
    let s = if d == 0 {
        "0"
    } else if d == 1 {
        "1"
    } else if d == 2 {
        "2"
    } else if d == 3 {
        "3"
    } else if d == 4 {
        "4"
    } else if d == 5 {
        "5"
    } else if d == 6 {
        "6"
    } else if d == 7 {
        "7"
    } else if d == 8 {
        "8"
    } else {
        "9"
    };
    assert(s@ =~= seq![digit_char(d as int)]);
    s
}

/// Appends the digits of `n`.
pub fn push_decimal(out: &mut String, n: u64)
    ensures
        final(out)@ == old(out)@ + decimal(n as nat),
    decreases n,
{
    if n >= 10 {
        push_decimal(out, n / 10);
    }
    out.append(digit_str((n % 10) as u8));
    proof {
        if n >= 10 {
            assert(old(out)@ + decimal((n / 10) as nat) + seq![digit_char((n % 10) as int)] =~= old(
                out,
            )@ + decimal(n as nat));
        }
    }
}

/// Appends the numeral of `v`.
pub fn push_int(out: &mut String, v: i64)
    ensures
        final(out)@ == old(out)@ + int_text(v as int),
{
    if v < 0 {
        proof {
            reveal_strlit("-");
        }
        out.append("-");
        let magnitude: u64 = if v == i64::MIN {
            0x8000_0000_0000_0000
        } else {
            (-v) as u64
        };
        push_decimal(out, magnitude);
        proof {
            assert(old(out)@ + "-"@ + decimal(magnitude as nat) =~= old(out)@ + int_text(v as int));
        }
    } else {
        push_decimal(out, v as u64);
    }
}

/// The number that a digit stands for.
fn digit_of(c: char) -> (d: Option<u8>)
    ensures
        match d {
            Some(v) => digit_value(c) == v,
            None => !is_digit(c),
        },
{
    if c == '0' {
        Some(0)
    } else if c == '1' {
        Some(1)
    } else if c == '2' {
        Some(2)
    } else if c == '3' {
        Some(3)
    } else if c == '4' {
        Some(4)
    } else if c == '5' {
        Some(5)
    } else if c == '6' {
        Some(6)
    } else if c == '7' {
        Some(7)
    } else if c == '8' {
        Some(8)
    } else if c == '9' {
        Some(9)
    } else {
        None
    }
}

/// A run of digits stands for no less than any run it starts with.
pub proof fn lemma_digits_value_grows(s: Seq<char>, k: int)
    requires
        all_digits(s),
        0 <= k <= s.len(),
    ensures
        0 <= digits_value(s.take(k)) <= digits_value(s),
    decreases s.len() - k,
{
    if k == s.len() {
        assert(s.take(k) =~= s);
        lemma_digits_value_sign(s);
    } else {
        lemma_digits_value_grows(s, k + 1);
        assert(s.take(k + 1).drop_last() =~= s.take(k));
        assert(is_digit(s[k]));
        lemma_digits_value_sign(s.take(k));
    }
}

/// A run of digits stands for a number that is not negative.
pub proof fn lemma_digits_value_sign(s: Seq<char>)
    requires
        all_digits(s),
    ensures
        0 <= digits_value(s),
    decreases s.len(),
{
    if s.len() > 0 {
        lemma_digits_value_sign(s.drop_last());
        assert(is_digit(s.last()));
    }
}

/// What `read_numeral` says of the text `t`: with `Some`, whether it has a
/// minus sign and what number stands behind the sign; with `None`, that it
/// is no numeral or that the number does not fit in 64 bits.
pub open spec fn numeral_matches(t: Seq<char>, r: Option<(bool, u64)>) -> bool {
    match r {
        Some((minus, magnitude)) => {
            &&& t.len() > 0
            &&& minus == (t[0] == '-')
            &&& parse_int(t) == Some(
                if minus {
                    -(magnitude as int)
                } else {
                    magnitude as int
                },
            )
        },
        None => match parse_int(t) {
            None => true,
            Some(v) => v > u64::MAX || v < -(u64::MAX as int),
        },
    }
}

/// Reads the characters from `start` to `end` as a numeral.
pub fn read_numeral(chars: &Vec<char>, start: usize, end: usize) -> (r: Option<(bool, u64)>)
    requires
        start <= end <= chars@.len(),
    ensures
        numeral_matches(chars@.subrange(start as int, end as int), r),
{
    let ghost t = chars@.subrange(start as int, end as int);
    if start == end {
        return None;
    }
    let first = chars[start];
    assert(first == t[0]);
    let minus = first == '-';
    let body: usize = if first == '-' || first == '+' {
        start + 1
    } else {
        start
    };
    if body == end {
        return None;
    }
    let ghost digits = chars@.subrange(body as int, end as int);
    proof {
        if body > start {
            assert(digits =~= t.skip(1));
        } else {
            assert(digits =~= t);
        }
    }
    let mut value: u64 = 0;
    let mut i: usize = body;
    while i < end
        invariant
            body <= i <= end <= chars@.len(),
            t == chars@.subrange(start as int, end as int),
            t.len() > 0,
            minus == (t[0] == '-'),
            digits == chars@.subrange(body as int, end as int),
            digits.len() > 0,
            digits == if t[0] == '-' || t[0] == '+' {
                t.skip(1)
            } else {
                t
            },
            all_digits(digits.take(i - body)),
            value == digits_value(digits.take(i - body)),
        decreases end - i,
    {
        let ghost prefix = digits.take(i - body);
        let ghost longer = digits.take(i - body + 1);
        proof {
            assert(longer.drop_last() =~= prefix);
            assert(longer.last() == chars@[i as int]);
        }
        match digit_of(chars[i]) {
            None => {
                proof {
                    assert(!is_digit(digits[i - body]));
                }
                return None;
            },
            Some(d) => {
                proof {
                    assert forall|a: int| 0 <= a < longer.len() implies is_digit(
                        #[trigger] longer[a],
                    ) by {
                        if a < prefix.len() {
                            assert(longer[a] == prefix[a]);
                        }
                    }
                }
                let wider: u128 = value as u128 * 10 + d as u128;
                if wider > u64::MAX as u128 {
                    proof {
                        assert(digits_value(longer) == wider);
                        if all_digits(digits) {
                            lemma_digits_value_grows(digits, i - body + 1);
                        }
                    }
                    return None;
                }
                value = wider as u64;
            },
        }
        i += 1;
    }
    proof {
        assert(digits.take(end - body) =~= digits);
    }
    Some((minus, value))
}

/// Reads the characters from `start` to `end` as the numeral of an `i32`.
pub fn read_i32(chars: &Vec<char>, start: usize, end: usize) -> (r: Option<i32>)
    requires
        start <= end <= chars@.len(),
    ensures
        r == parse_i32(chars@.subrange(start as int, end as int)),
{
    match read_numeral(chars, start, end) {
        None => None,
        Some((minus, magnitude)) => {
            if minus {
                if magnitude <= 0x8000_0000 {
                    Some((-(magnitude as i64)) as i32)
                } else {
                    None
                }
            } else if magnitude <= 0x7fff_ffff {
                Some(magnitude as i32)
            } else {
                None
            }
        },
    }
}

/// Reads the characters from `start` to `end` as the numeral of a `usize`.
pub fn read_usize(chars: &Vec<char>, start: usize, end: usize) -> (r: Option<usize>)
    requires
        start <= end <= chars@.len(),
    ensures
        r == parse_usize(chars@.subrange(start as int, end as int)),
{
    match read_numeral(chars, start, end) {
        None => None,
        Some((minus, magnitude)) => {
            if minus || magnitude > usize::MAX as u64 {
                None
            } else {
                Some(magnitude as usize)
            }
        },
    }
}

} // verus!
