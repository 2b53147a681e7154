//! Numbers in text.

use vstd::prelude::*;
use crate::numbers::{
    decimal, decimal_text, digits_value, is_digit, lemma_decimal_value, parse_i32, parse_unsigned,
    part_name, part_stem, unsigned_part,
};

verus! {

/// A single digit is the number that it shows.
pub proof fn one_digit_is_read(s: &str, max: u64, d: int, r: Option<u64>)
    requires
        call_ensures(parse_unsigned, (s, max), r),
        0 <= d <= 9,
        s@ == seq![('0' as int + d) as char],
    ensures
        d <= max ==> r == Some(d as u64),
        d > max ==> r is None,
{
    assert(s@.drop_last() =~= Seq::empty());
    assert(digits_value(s@.drop_last()) == 0);
    assert(s@.last() == ('0' as int + d) as char);
}

/// One more digit makes a number ten times as large, and adds the digit.
pub proof fn one_more_digit_counts_ten(
    s: &str,
    t: &str,
    max: u64,
    d: int,
    short: Option<u64>,
    long: Option<u64>,
)
    requires
        call_ensures(parse_unsigned, (s, max), short),
        call_ensures(parse_unsigned, (t, max), long),
        0 <= d <= 9,
        t@ == s@.push(('0' as int + d) as char),
        short is Some,
    ensures
        10 * short->0 + d <= max ==> long == Some((10 * short->0 + d) as u64),
        10 * short->0 + d > max ==> long is None,
{
    let a = unsigned_part(s@);
    let b = unsigned_part(t@);
    assert(t@[0] == s@[0]);
    assert(b =~= a.push(('0' as int + d) as char));
    assert(b.drop_last() =~= a);
    assert forall|i: int| 0 <= i < b.len() implies is_digit(#[trigger] b[i]) by {
        if i < a.len() {
            assert(b[i] == a[i]);
        }
    }
}

/// A number is read where there is at least one digit and nothing but digits, apart from a plus
/// sign in front, which does not change it.
pub proof fn only_digits_are_read(s: &str, max: u64, r: Option<u64>)
    requires
        call_ensures(parse_unsigned, (s, max), r),
    ensures
        r is Some ==> s@.len() > 0 && r->0 <= max,
        r is Some ==> forall|i: int|
            0 <= i < s@.len() ==> ('0' <= #[trigger] s@[i] && s@[i] <= '9') || (i == 0 && s@[i]
                == '+' && s@.len() > 1),
{
    if r is Some {
        let a = unsigned_part(s@);
        assert forall|i: int| 0 <= i < s@.len() implies ('0' <= #[trigger] s@[i] && s@[i] <= '9')
            || (i == 0 && s@[i] == '+' && s@.len() > 1) by {
            if s@[0] == '+' {
                if i > 0 {
                    assert(a[i - 1] == s@[i]);
                }
            } else {
                assert(a[i] == s@[i]);
            }
        }
    }
}

/// A plus sign in front of a digit does not change the number.
pub proof fn plus_sign_is_ignored(
    s: &str,
    t: &str,
    max: u64,
    plain: Option<u64>,
    signed: Option<u64>,
)
    requires
        call_ensures(parse_unsigned, (s, max), plain),
        call_ensures(parse_unsigned, (t, max), signed),
        s@.len() > 0,
        s@[0] != '+',
        t@ == seq!['+'] + s@,
    ensures
        signed == plain,
{
    assert(t@.skip(1) =~= s@);
}

/// A signed number is the number behind its sign, and in the range of 32 bits.
pub proof fn signed_number_is_read(s: &str, t: &str, r: Option<i32>, digits: Option<u64>)
    requires
        call_ensures(parse_i32, (s,), r),
        call_ensures(parse_unsigned, (t, 0xffff_ffffu64), digits),
        t@.len() > 0,
        t@[0] != '+',
        t@[0] != '-',
    ensures
        s@ == t@ && digits is Some && digits->0 <= 0x7fff_ffff ==> r == Some(digits->0 as i32),
        s@ == seq!['-'] + t@ && digits is Some && digits->0 <= 0x8000_0000 ==> r is Some && r->0
            == -digits->0,
        s@ == t@ || s@ == seq!['-'] + t@ ==> (digits is None ==> r is None),
        s@ == t@ && digits is Some && digits->0 > 0x7fff_ffff ==> r is None,
        s@ == seq!['-'] + t@ && digits is Some && digits->0 > 0x8000_0000 ==> r is None,
{
    if s@ == seq!['-'] + t@ {
        assert(s@.skip(1) =~= t@);
    }
}

/// The text of a number is read back as that number.
pub proof fn written_number_is_read_back(n: u64, text: String, s: &str, max: u64, r: Option<u64>)
    requires
        call_ensures(decimal_text, (n,), text),
        call_ensures(parse_unsigned, (s, max), r),
        s@ == text@,
    ensures
        n <= max ==> r == Some(n),
        n > max ==> r is None,
        text@.len() > 1 ==> text@[0] != '0',
{
    lemma_decimal_value(n as nat);
    lemma_no_leading_zero(n as nat);
}

/// A number that is not zero does not begin with a zero.
pub proof fn lemma_no_leading_zero(n: nat)
    ensures
        decimal(n).len() > 0,
        n > 0 ==> decimal(n)[0] != '0',
        n < 10 ==> decimal(n).len() == 1,
        n >= 10 ==> decimal(n).len() > 1,
    decreases n,
{
    if n >= 10 {
        lemma_no_leading_zero(n / 10);
    }
}

/// A part number of up to five digits is written with exactly five, zeros in front.
pub proof fn part_file_is_named_by_five_digits(n: i32, name: String)
    requires
        call_ensures(part_stem, (n,), name),
        0 <= n <= 99999,
    ensures
        name@.len() == 5,
        forall|i: int| 0 <= i < 5 ==> '0' <= #[trigger] name@[i] && name@[i] <= '9',
        n == (name@[0] as int - '0' as int) * 10000 + (name@[1] as int - '0' as int) * 1000 + (
        name@[2] as int - '0' as int) * 100 + (name@[3] as int - '0' as int) * 10 + (name@[4] as int
            - '0' as int),
{
    let s = decimal(n as nat);
    lemma_decimal_value(n as nat);
    lemma_short(n as nat);
    crate::numbers::part_name_spells_its_number(n as int);
    let name = part_name(n as int);
    assert(name.len() == 5);
    assert(unsigned_part(name) == name) by {
        assert(is_digit(name[0]));
    }
    assert(digits_value(name) == n);
    reveal_with_fuel(digits_value, 6);
    assert(name.drop_last().drop_last().drop_last().drop_last().drop_last().len() == 0);
}

/// Five digits are enough below a hundred thousand.
proof fn lemma_short(n: nat)
    ensures
        n < 10 ==> decimal(n).len() == 1,
        10 <= n < 100 ==> decimal(n).len() == 2,
        100 <= n < 1000 ==> decimal(n).len() == 3,
        1000 <= n < 10000 ==> decimal(n).len() == 4,
        10000 <= n < 100000 ==> decimal(n).len() == 5,
{
    reveal_with_fuel(decimal, 6);
}

} // verus!
