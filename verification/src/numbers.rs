use vstd::prelude::*;
use crate::text::{chars_of, concat};

verus! {

pub open spec fn is_digit(c: char) -> bool {
    '0' <= c && c <= '9'
}

pub open spec fn all_digits(s: Seq<char>) -> bool {
    forall|i: int| 0 <= i < s.len() ==> is_digit(#[trigger] s[i])
}

/// The number that a row of decimal digits stands for.
pub open spec fn digits_value(s: Seq<char>) -> nat
    decreases s.len(),
{
    if s.len() == 0 {
        0
    } else {
        (digits_value(s.drop_last()) * 10 + (s.last() as int - '0' as int)) as nat
    }
}

/// The digits behind an optional sign.
pub open spec fn unsigned_part(s: Seq<char>) -> Seq<char> {
    if s.len() > 0 && s[0] == '+' {
        s.skip(1)
    } else {
        s
    }
}

/// The unsigned number that `s` spells, if it is at most `max`: one or more decimal digits, which
/// a plus sign may precede.
pub open spec fn parsed_unsigned(s: Seq<char>, max: nat) -> Option<nat> {
    let digits = unsigned_part(s);
    if digits.len() > 0 && all_digits(digits) && digits_value(digits) <= max {
        Some(digits_value(digits))
    } else {
        None
    }
}

/// The signed 32-bit number that `s` spells: digits with an optional sign.
pub open spec fn parsed_i32(s: Seq<char>) -> Option<int> {
    if s.len() > 0 && s[0] == '-' {
        let digits = s.skip(1);
        if digits.len() > 0 && all_digits(digits) && digits_value(digits) <= 0x8000_0000 {
            Some(-(digits_value(digits) as int))
        } else {
            None
        }
    } else {
        match parsed_unsigned(s, 0x7fff_ffff) {
            Some(n) => Some(n as int),
            None => None,
        }
    }
}

pub open spec fn digit_char(d: int) -> char {
    ('0' as int + d) as char
}

/// The decimal digits of `n`, without leading zeros.
pub open spec fn decimal(n: nat) -> Seq<char>
    decreases n,
{
    if n < 10 {
        seq![digit_char(n as int)]
    } else {
        decimal(n / 10).push(digit_char((n % 10) as int))
    }
}

pub open spec fn zeros(n: nat) -> Seq<char> {
    Seq::new(n, |i: int| '0')
}

/// `digits` with zeros in front up to `width` characters.
pub open spec fn padded(digits: Seq<char>, width: nat) -> Seq<char> {
    if digits.len() < width {
        zeros((width - digits.len()) as nat) + digits
    } else {
        digits
    }
}

/// A part number as it stands in a file name: five characters at least, zeros in front, a minus
/// sign first where it is negative.
pub open spec fn part_name(n: int) -> Seq<char> {
    if n < 0 {
        seq!['-'] + padded(decimal((-n) as nat), 4)
    } else {
        padded(decimal(n as nat), 5)
    }
}

proof fn lemma_value_bound(s: Seq<char>, i: int)
    requires
        0 <= i <= s.len(),
        all_digits(s),
    ensures
        digits_value(s.take(i)) <= digits_value(s),
    decreases s.len(),
{
    if i == s.len() {
        assert(s.take(i) =~= s);
    } else {
        assert(s.drop_last().take(i) =~= s.take(i));
        lemma_value_bound(s.drop_last(), i);
    }
}

/// The value of a row of digits that starts at `from`, if it is one and is at most `max`.
fn digits_from(chars: &Vec<char>, from: usize, max: u64) -> (r: Option<u64>)
    requires
        from <= chars@.len(),
    ensures
        match r {
            Some(n) => from < chars@.len() && all_digits(chars@.skip(from as int)) && n
                == digits_value(chars@.skip(from as int)) && n <= max,
            None => !(from < chars@.len() && all_digits(chars@.skip(from as int)) && digits_value(
                chars@.skip(from as int),
            ) <= max),
        },
{
    if from >= chars.len() {
        return None;
    }
    let ghost all = chars@.skip(from as int);
    let mut value: u64 = 0;
    let mut i: usize = from;
    assert(all.take(0) =~= Seq::empty());
    while i < chars.len()
        invariant
            from <= i <= chars@.len(),
            all == chars@.skip(from as int),
            forall|j: int| 0 <= j < i - from ==> is_digit(all[j]),
            value == digits_value(all.take(i - from)),
            value <= max,
        decreases chars@.len() - i,
    {
        let c: char = chars[i];
        assert(all[i - from] == c);
        if !('0' <= c && c <= '9') {
            return None;
        }
        let digit: u64 = (c as u32 - '0' as u32) as u64;
        proof {
            assert(all.take(i - from + 1).drop_last() =~= all.take(i - from));
        }
        proof {
            if all_digits(all) {
                lemma_value_bound(all, i - from + 1);
            }
        }
        let shifted: Option<u64> = value.checked_mul(10);
        let grown: Option<u64> = match shifted {
            Some(tens) => tens.checked_add(digit),
            None => None,
        };
        match grown {
            Some(v) => {
                if v > max {
                    return None;
                }
                value = v;
            },
            None => {
                return None;
            },
        }
        i = i + 1;
    }
    assert(all.take(i - from) =~= all);
    Some(value)
}

/// Reads an unsigned number that is at most `max`.
pub fn parse_unsigned(s: &str, max: u64) -> (r: Option<u64>)
    ensures
        match r {
            Some(n) => parsed_unsigned(s@, max as nat) == Some(n as nat),
            None => parsed_unsigned(s@, max as nat) is None,
        },
{
    let chars = chars_of(s);
    if chars.len() > 0 && chars[0] == '+' {
        digits_from(&chars, 1, max)
    } else {
        assert(s@.skip(0) =~= s@);
        digits_from(&chars, 0, max)
    }
}

/// Reads a signed 32-bit number.
pub fn parse_i32(s: &str) -> (r: Option<i32>)
    ensures
        match r {
            Some(n) => parsed_i32(s@) == Some(n as int),
            None => parsed_i32(s@) is None,
        },
{
    let chars = chars_of(s);
    if chars.len() > 0 && chars[0] == '-' {
        match digits_from(&chars, 1, 0x8000_0000) {
            Some(n) => {
                let negated: i64 = -(n as i64);
                Some(negated as i32)
            },
            None => None,
        }
    } else {
        match parse_unsigned(s, 0x7fff_ffff) {
            Some(n) => Some(n as i32),
            None => None,
        }
    }
}

/// The text of one decimal digit.
fn digit_text(d: u64) -> (r: &'static str)
    requires
        d < 10,
    ensures
        r@ == seq![digit_char(d as int)],
{
    proof {
        reveal_strlit("0");
        reveal_strlit("1");
        reveal_strlit("2");
        reveal_strlit("3");
        reveal_strlit("4");
        reveal_strlit("5");
        reveal_strlit("6");
        reveal_strlit("7");
        reveal_strlit("8");
        reveal_strlit("9");
    }
    if d == 0 {
        "0"
    } else if d == 1 {
        "1"
    } else if d == 2 {
        "2"
    } else if d == 3 {
        "3"
    } else if d == 4 {
        "4"
    } else if d == 5 {
        "5"
    } else if d == 6 {
        "6"
    } else if d == 7 {
        "7"
    } else if d == 8 {
        "8"
    } else {
        "9"
    }
}

/// The decimal digits of `n`.
pub fn decimal_text(n: u64) -> (r: String)
    ensures
        r@ == decimal(n as nat),
    decreases n,
{
    if n < 10 {
        digit_text(n).to_owned()
    } else {
        let front = decimal_text(n / 10);
        let out = concat(front.as_str(), digit_text(n % 10));
        assert(out@ =~= decimal((n / 10) as nat).push(digit_char((n % 10) as int)));
        out
    }
}

/// `digits` with zeros in front up to `width` characters.
fn padded_text(digits: &str, width: usize) -> (r: String)
    ensures
        r@ == padded(digits@, width as nat),
{
    let count: usize = digits.unicode_len();
    let mut out: String = String::new();
    let mut left: usize = if count < width { width - count } else { 0 };
    let ghost total = left as nat;
    proof {
        reveal_strlit("0");
    }
    while left > 0
        invariant
            left <= total,
            out@ == zeros((total - left) as nat),
            "0"@ == seq!['0'],
        decreases left,
    {
        out.append("0");
        left = left - 1;
        assert(out@ =~= zeros((total - left) as nat));
    }
    out.append(digits);
    assert(count >= width ==> out@ =~= digits@);
    out
}

/// The file name stem of a part number.
pub fn part_stem(n: i32) -> (r: String)
    ensures
        r@ == part_name(n as int),
{
    if n < 0 {
        let size: i64 = -(n as i64);
        proof {
            reveal_strlit("-");
        }
        let digits = decimal_text(size as u64);
        let tail = padded_text(digits.as_str(), 4);
        let out = concat("-", tail.as_str());
        assert("-"@ =~= seq!['-']);
        out
    } else {
        let digits = decimal_text(n as u64);
        padded_text(digits.as_str(), 5)
    }
}

/// The digits of a number stand for it.
pub proof fn lemma_decimal_value(n: nat)
    ensures
        digits_value(decimal(n)) == n,
        decimal(n).len() > 0,
        all_digits(decimal(n)),
    decreases n,
{
    let s = decimal(n);
    if n < 10 {
        assert(s.drop_last() =~= Seq::empty());
        assert(digits_value(s.drop_last()) == 0);
        assert(s.last() == digit_char(n as int));
    } else {
        lemma_decimal_value(n / 10);
        let front = decimal(n / 10);
        assert(s.drop_last() =~= front);
        assert(s.last() == digit_char((n % 10) as int));
        assert forall|i: int| 0 <= i < s.len() implies is_digit(#[trigger] s[i]) by {
            if i < front.len() {
                assert(s[i] == front[i]);
            }
        }
    }
}

/// Zeros in front of a number do not change it.
pub proof fn lemma_zeros_value(k: nat, s: Seq<char>)
    ensures
        digits_value(zeros(k) + s) == digits_value(s),
    decreases k + s.len(),
{
    let all = zeros(k) + s;
    if s.len() > 0 {
        assert(all.drop_last() =~= zeros(k) + s.drop_last());
        lemma_zeros_value(k, s.drop_last());
    } else if k > 0 {
        assert(all.drop_last() =~= zeros((k - 1) as nat) + s);
        lemma_zeros_value((k - 1) as nat, s);
        assert(all.last() == '0');
    } else {
        assert(all =~= s);
    }
}

pub proof fn lemma_padded(n: nat, width: nat)
    ensures
        digits_value(padded(decimal(n), width)) == n,
        padded(decimal(n), width).len() > 0,
        is_digit(padded(decimal(n), width)[0]),
{
    let digits = decimal(n);
    lemma_decimal_value(n);
    if digits.len() < width {
        lemma_zeros_value((width - digits.len()) as nat, digits);
    }
}

/// The name of a part spells its number.
pub proof fn part_name_spells_its_number(n: int)
    requires
        0 <= n <= u32::MAX,
    ensures
        all_digits(part_name(n)),
        parsed_unsigned(part_name(n), u32::MAX as nat) == Some(n as nat),
{
    let name = part_name(n);
    lemma_decimal_value(n as nat);
    lemma_padded(n as nat, 5);
    assert(is_digit(name[0]));
    assert(unsigned_part(name) == name);
}

/// Different part numbers have different names.
pub proof fn part_names_differ(a: int, b: int)
    requires
        a != b,
    ensures
        part_name(a) != part_name(b),
{
    let x = part_name(a);
    let y = part_name(b);
    if a < 0 {
        lemma_padded((-a) as nat, 4);
        assert(x[0] == '-');
        assert(x.skip(1) =~= padded(decimal((-a) as nat), 4));
    } else {
        lemma_padded(a as nat, 5);
    }
    if b < 0 {
        lemma_padded((-b) as nat, 4);
        assert(y[0] == '-');
        assert(y.skip(1) =~= padded(decimal((-b) as nat), 4));
    } else {
        lemma_padded(b as nat, 5);
    }
}

} // verus!
