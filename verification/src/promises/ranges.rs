//! Range headers.

use vstd::prelude::*;
use crate::numbers::{
    all_digits, decimal, is_digit, lemma_decimal_value, parsed_unsigned, unsigned_part,
};
use crate::reader::{
    around_hyphen, is_space, lemma_first_piece, parse_range, trim, trim_back, trim_front, ByteRange,
};
use crate::text::split;

verus! {

/// The code points that Unicode counts as white space.
pub open spec fn is_white(code: int) -> bool {
    ||| 9 <= code <= 13
    ||| code == 0x20 || code == 0x85 || code == 0xa0 || code == 0x1680
    ||| 0x2000 <= code <= 0x200a
    ||| code == 0x2028 || code == 0x2029 || code == 0x202f || code == 0x205f || code == 0x3000
}

/// Nothing but white space.
pub open spec fn is_blank(s: Seq<char>) -> bool {
    forall|i: int| 0 <= i < s.len() ==> is_white((#[trigger] s[i]) as int)
}

proof fn lemma_trim_front(w: Seq<char>, s: Seq<char>)
    requires
        is_blank(w),
        s.len() > 0 ==> !is_space(s[0]),
    ensures
        trim_front(w + s) == s,
    decreases w.len(),
{
    let all = w + s;
    if w.len() > 0 {
        assert(all[0] == w[0]);
        assert(all.skip(1) =~= w.skip(1) + s);
        lemma_trim_front(w.skip(1), s);
    } else {
        assert(all =~= s);
    }
}

proof fn lemma_trim_back(s: Seq<char>, w: Seq<char>)
    requires
        is_blank(w),
        s.len() > 0 ==> !is_space(s.last()),
    ensures
        trim_back(s + w) == s,
    decreases w.len(),
{
    let all = s + w;
    if w.len() > 0 {
        assert(all.last() == w[w.len() - 1]);
        assert(all.drop_last() =~= s + w.drop_last());
        lemma_trim_back(s, w.drop_last());
    } else {
        assert(all =~= s);
    }
}

/// Blanks around a text do not matter.
proof fn lemma_trim(front: Seq<char>, s: Seq<char>, back: Seq<char>)
    requires
        is_blank(front),
        is_blank(back),
        s.len() > 0 ==> !is_space(s[0]) && !is_space(s.last()),
    ensures
        trim(front + s + back) == s,
{
    if s.len() > 0 {
        assert(front + s + back =~= front + (s + back));
        lemma_trim_front(front, s + back);
        lemma_trim_back(s, back);
    } else {
        let all = front + s + back;
        assert(all =~= all + s);
        assert(is_blank(all));
        lemma_trim_front(all, s);
        lemma_trim_back(s, Seq::empty());
        assert(s + Seq::empty() =~= s);
    }
}

proof fn lemma_around(a: Seq<char>, b: Seq<char>)
    requires
        forall|i: int| 0 <= i < a.len() ==> #[trigger] a[i] != '-',
    ensures
        around_hyphen(a + seq!['-'] + b) == Some((a, b)),
{
    let s = a + seq!['-'] + b;
    lemma_first_piece(s, '-');
    assert(s[a.len() as int] == '-');
    assert(s.contains('-'));
    let n = split(s, '-')[0].len() as int;
    if n < a.len() {
        assert(s[n] == a[n]);
    }
    assert(n == a.len());
    assert(s.take(n) =~= a);
    assert(s.skip(n + 1) =~= b);
}

proof fn lemma_digits_are_no_space(s: Seq<char>)
    requires
        all_digits(s),
        s.len() > 0,
    ensures
        !is_space(s[0]),
        !is_space(s.last()),
        s[0] != '+',
        forall|i: int| 0 <= i < s.len() ==> #[trigger] s[i] != '-',
{
    assert(is_digit(s[0]));
    assert(is_digit(s[s.len() - 1]));
}

/// What a header asks for whose bounds are these, with blanks around them.
proof fn lemma_bounds(
    header: Seq<char>,
    w: Seq<Seq<char>>,
    a: Seq<char>,
    b: Seq<char>,
)
    requires
        w.len() == 4,
        forall|i: int| 0 <= i < 4 ==> is_blank(#[trigger] w[i]),
        a.len() + b.len() > 0,
        all_digits(a),
        all_digits(b),
        header == "bytes="@ + w[0] + a + w[1] + "-"@ + w[2] + b + w[3],
    ensures
        "bytes="@.is_prefix_of(header),
        ({
            let ends = around_hyphen(trim(header.skip("bytes="@.len() as int)));
            ends matches Some(e) && trim(e.0) == a && trim(e.1) == b
        }),
{
    reveal_strlit("bytes=");
    reveal_strlit("-");
    assert(is_blank(w[0]) && is_blank(w[1]) && is_blank(w[2]) && is_blank(w[3]));
    let h = seq!['-'];
    assert("-"@ =~= h);
    if a.len() > 0 {
        lemma_digits_are_no_space(a);
    }
    if b.len() > 0 {
        lemma_digits_are_no_space(b);
    }
    let body = w[0] + a + w[1] + h + w[2] + b + w[3];
    assert(header.skip("bytes="@.len() as int) =~= body);
    let left = if a.len() > 0 {
        a + w[1]
    } else {
        Seq::empty()
    };
    let right = if b.len() > 0 {
        w[2] + b
    } else {
        Seq::empty()
    };
    let front = if a.len() > 0 {
        w[0]
    } else {
        w[0] + w[1]
    };
    let back = if b.len() > 0 {
        w[3]
    } else {
        w[2] + w[3]
    };
    let core = left + h + right;
    assert(is_blank(front) && is_blank(back));
    assert(body =~= front + core + back);
    assert(!is_space(core[0])) by {
        if a.len() > 0 {
            assert(core[0] == a[0]);
        } else {
            assert(core[0] == '-');
        }
    }
    assert(!is_space(core.last())) by {
        if b.len() > 0 {
            assert(core.last() == b.last());
        } else {
            assert(core.last() == '-');
        }
    }
    lemma_trim(front, core, back);
    assert forall|i: int| 0 <= i < left.len() implies #[trigger] left[i] != '-' by {
        if i < a.len() {
            assert(left[i] == a[i]);
        } else {
            assert(left[i] == w[1][i - a.len()]);
        }
    }
    lemma_around(left, right);
    let none = Seq::<char>::empty();
    if a.len() > 0 {
        lemma_trim(none, a, w[1]);
        assert(none + a + w[1] =~= left);
    } else {
        lemma_trim(none, none, none);
        assert(none + none + none =~= left);
        assert(a =~= none);
    }
    if b.len() > 0 {
        lemma_trim(w[2], b, none);
        assert(w[2] + b + none =~= right);
    } else {
        lemma_trim(none, none, none);
        assert(none + none + none =~= right);
        assert(b =~= none);
    }
}

/// A header that asks for the bytes from `start` to `end`, both included, gets these as far as the
/// object has them. It is refused only where the object has no byte at `start`, or where `end` lies
/// before `start`. Blanks around the numbers do not matter.
pub proof fn range_with_both_ends(
    header: &str,
    size: u64,
    r: Result<Option<ByteRange>, ()>,
    w: Seq<Seq<char>>,
    start: u64,
    end: u64,
)
    requires
        call_ensures(parse_range, (header, size), r),
        w.len() == 4,
        forall|i: int| 0 <= i < 4 ==> is_blank(#[trigger] w[i]),
        header@ == "bytes="@ + w[0] + decimal(start as nat) + w[1] + "-"@ + w[2] + decimal(
            end as nat,
        ) + w[3],
    ensures
        start < size && start <= end ==> (r matches Ok(Some(range)) && range.start == start
            && range.end == (if end < size { end as int } else { size - 1 })),
        start >= size || end < start ==> r == Err::<Option<ByteRange>, ()>(()),
{
    let a = decimal(start as nat);
    let b = decimal(end as nat);
    lemma_decimal_value(start as nat);
    lemma_decimal_value(end as nat);
    lemma_digits_are_no_space(a);
    lemma_digits_are_no_space(b);
    lemma_bounds(header@, w, a, b);
    assert(unsigned_part(a) == a);
    assert(unsigned_part(b) == b);
}

/// A header that asks for all bytes from `start` on gets them. It is refused only where the object
/// has no byte at `start`.
pub proof fn range_with_open_end(
    header: &str,
    size: u64,
    r: Result<Option<ByteRange>, ()>,
    w: Seq<Seq<char>>,
    start: u64,
)
    requires
        call_ensures(parse_range, (header, size), r),
        w.len() == 4,
        forall|i: int| 0 <= i < 4 ==> is_blank(#[trigger] w[i]),
        header@ == "bytes="@ + w[0] + decimal(start as nat) + w[1] + "-"@ + w[2] + w[3],
    ensures
        start < size ==> (r matches Ok(Some(range)) && range.start == start && range.end == size
            - 1),
        start >= size ==> r == Err::<Option<ByteRange>, ()>(()),
{
    let a = decimal(start as nat);
    let none = Seq::<char>::empty();
    lemma_decimal_value(start as nat);
    lemma_digits_are_no_space(a);
    assert(header@ =~= "bytes="@ + w[0] + a + w[1] + "-"@ + w[2] + none + w[3]);
    lemma_bounds(header@, w, a, none);
    assert(unsigned_part(a) == a);
}

/// A header that asks for the last `count` bytes gets them, or the whole object where it is
/// shorter. It is refused only where that is no byte at all.
pub proof fn range_of_the_last_bytes(
    header: &str,
    size: u64,
    r: Result<Option<ByteRange>, ()>,
    w: Seq<Seq<char>>,
    count: u64,
)
    requires
        call_ensures(parse_range, (header, size), r),
        w.len() == 4,
        forall|i: int| 0 <= i < 4 ==> is_blank(#[trigger] w[i]),
        header@ == "bytes="@ + w[0] + w[1] + "-"@ + w[2] + decimal(count as nat) + w[3],
    ensures
        count > 0 && size > 0 ==> (r matches Ok(Some(range)) && range.end == size - 1 && range.end
            - range.start + 1 == (if count < size { count } else { size })),
        count == 0 || size == 0 ==> r == Err::<Option<ByteRange>, ()>(()),
{
    let b = decimal(count as nat);
    let none = Seq::<char>::empty();
    lemma_decimal_value(count as nat);
    lemma_digits_are_no_space(b);
    assert(header@ =~= "bytes="@ + w[0] + none + w[1] + "-"@ + w[2] + b + w[3]);
    lemma_bounds(header@, w, none, b);
    assert(unsigned_part(b) == b);
}

/// What is left after trimming is a piece of the text, and what is cut off is white space.
proof fn lemma_trim_keeps(s: Seq<char>, c: char)
    requires
        s.contains(c),
        !is_space(c),
    ensures
        trim(s).contains(c),
{
    lemma_trim_front_keeps(s, c);
    lemma_trim_back_keeps(trim_front(s), c);
}

proof fn lemma_trim_front_keeps(s: Seq<char>, c: char)
    requires
        s.contains(c),
        !is_space(c),
    ensures
        trim_front(s).contains(c),
    decreases s.len(),
{
    if is_space(s[0]) {
        let i = choose|i: int| 0 <= i < s.len() && s[i] == c;
        assert(s.skip(1)[i - 1] == c);
        lemma_trim_front_keeps(s.skip(1), c);
    }
}

proof fn lemma_trim_back_keeps(s: Seq<char>, c: char)
    requires
        s.contains(c),
        !is_space(c),
    ensures
        trim_back(s).contains(c),
    decreases s.len(),
{
    if is_space(s.last()) {
        let i = choose|i: int| 0 <= i < s.len() && s[i] == c;
        assert(s.drop_last()[i] == c);
        lemma_trim_back_keeps(s.drop_last(), c);
    }
}

/// A header that is no single byte range selects the whole object: one that does not begin with
/// `bytes=`, one without a hyphen, one without a number, and one with any character but white space
/// that cannot stand in a range, a comma for instance.
pub proof fn other_headers_are_ignored(
    header: &str,
    size: u64,
    r: Result<Option<ByteRange>, ()>,
    rest: Seq<char>,
    c: char,
)
    requires
        call_ensures(parse_range, (header, size), r),
    ensures
        !"bytes="@.is_prefix_of(header@) ==> r == Ok::<Option<ByteRange>, ()>(None),
        header@ == "bytes="@ + rest && !rest.contains('-') ==> r == Ok::<Option<ByteRange>, ()>(
            None,
        ),
        header@ == "bytes="@ + rest && rest.contains(c) && !is_white(c as int) && c != '-' && c
            != '+' && !('0' <= c && c <= '9') ==> r == Ok::<Option<ByteRange>, ()>(None),
{
    if header@ == "bytes="@ + rest {
        assert(header@.skip("bytes="@.len() as int) =~= rest);
        let s = trim(rest);
        lemma_first_piece(s, '-');
        if !rest.contains('-') {
            lemma_trim_part(rest);
            if split(s, '-').len() > 1 {
                let n = split(s, '-')[0].len() as int;
                assert(s[n] == '-');
                assert(s.contains('-'));
            }
        } else if rest.contains(c) && !is_white(c as int) && c != '-' && c != '+' && !('0' <= c && c
            <= '9') {
            lemma_trim_keeps(rest, c);
            if let Some(e) = around_hyphen(s) {
                let n = e.0.len() as int;
                assert(s[n] == '-' && e.0 == s.take(n) && e.1 == s.skip(n + 1));
                let i = choose|i: int| 0 <= i < s.len() && s[i] == c;
                if i < n {
                    assert(e.0[i] == c);
                    lemma_trim_keeps(e.0, c);
                    lemma_no_number(trim(e.0), c);
                } else {
                    assert(e.1[i - n - 1] == c);
                    lemma_trim_keeps(e.1, c);
                    lemma_no_number(trim(e.1), c);
                }
            }
        }
    }
}

/// Trimming adds nothing.
proof fn lemma_trim_part(s: Seq<char>)
    ensures
        forall|c: char| #[trigger] trim(s).contains(c) ==> s.contains(c),
{
    lemma_trim_front_part(s);
    lemma_trim_back_part(trim_front(s));
}

proof fn lemma_trim_front_part(s: Seq<char>)
    ensures
        forall|c: char| #[trigger] trim_front(s).contains(c) ==> s.contains(c),
    decreases s.len(),
{
    if s.len() > 0 && is_space(s[0]) {
        lemma_trim_front_part(s.skip(1));
        assert forall|c: char| #[trigger] trim_front(s).contains(c) implies s.contains(c) by {
            assert(trim_front(s.skip(1)).contains(c));
            let i = choose|i: int| 0 <= i < s.skip(1).len() && s.skip(1)[i] == c;
            assert(s[i + 1] == c);
        }
    }
}

proof fn lemma_trim_back_part(s: Seq<char>)
    ensures
        forall|c: char| #[trigger] trim_back(s).contains(c) ==> s.contains(c),
    decreases s.len(),
{
    if s.len() > 0 && is_space(s.last()) {
        lemma_trim_back_part(s.drop_last());
        assert forall|c: char| #[trigger] trim_back(s).contains(c) implies s.contains(c) by {
            assert(trim_back(s.drop_last()).contains(c));
            let i = choose|i: int| 0 <= i < s.drop_last().len() && s.drop_last()[i] == c;
            assert(s[i] == c);
        }
    }
}

proof fn lemma_no_number(s: Seq<char>, c: char)
    requires
        s.contains(c),
        c != '+',
        !is_digit(c),
    ensures
        s.len() > 0,
        parsed_unsigned(s, u64::MAX as nat) is None,
{
    let i = choose|i: int| 0 <= i < s.len() && s[i] == c;
    let digits = unsigned_part(s);
    if s[0] == '+' {
        assert(digits[i - 1] == c);
    } else {
        assert(digits[i] == c);
    }
}

} // verus!
