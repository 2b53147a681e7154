//! Sorting by text.

use std::collections::VecDeque;
use vstd::prelude::*;
use vstd::relations::{sorted_by, total_ordering};
use vstd::seq_lib::lemma_sorted_unique;
use crate::text::{
    before, lemma_text_order, lemma_text_transitive, same, text_before, texts,
};
use crate::types::{BucketInfo, ObjectInfo};

verus! {

/// Something that is listed under a name.
pub trait Named: Sized {
    /// The name.
    spec fn name_text(&self) -> Seq<char>;

    /// The name.
    fn name_str(&self) -> (r: &str)
        ensures
            r@ == self.name_text(),
    ;
}

impl Named for String {
    open spec fn name_text(&self) -> Seq<char> {
        self@
    }

    fn name_str(&self) -> (r: &str) {
        self.as_str()
    }
}

impl Named for ObjectInfo {
    open spec fn name_text(&self) -> Seq<char> {
        self.key@
    }

    fn name_str(&self) -> (r: &str) {
        self.key.as_str()
    }
}

impl Named for BucketInfo {
    open spec fn name_text(&self) -> Seq<char> {
        self.name@
    }

    fn name_str(&self) -> (r: &str) {
        self.name.as_str()
    }
}

/// The names of a list.
pub open spec fn names<T: Named>(items: Seq<T>) -> Seq<Seq<char>> {
    Seq::new(items.len(), |i: int| items[i].name_text())
}

/// `a` does not come after `b`.
pub open spec fn at_most() -> spec_fn(Seq<char>, Seq<char>) -> bool {
    |a: Seq<char>, b: Seq<char>| !text_before(b, a)
}

/// The texts in order.
pub open spec fn in_text_order(s: Seq<Seq<char>>) -> Seq<Seq<char>> {
    s.sort_by(at_most())
}

/// The texts ascend.
pub open spec fn ascend(s: Seq<Seq<char>>) -> bool {
    forall|i: int, j: int| 0 <= i < j < s.len() ==> !text_before(#[trigger] s[j], #[trigger] s[i])
}

/// The texts ascend, and none stands twice.
pub open spec fn strictly_ascend(s: Seq<Seq<char>>) -> bool {
    forall|i: int, j: int| 0 <= i < j < s.len() ==> text_before(#[trigger] s[i], #[trigger] s[j])
}

/// The order of texts is a total one.
pub proof fn lemma_total_order()
    ensures
        total_ordering(at_most()),
{
    let leq = at_most();
    assert forall|a: Seq<char>, b: Seq<char>| #[trigger] leq(a, b) || #[trigger] leq(b, a) by {
        lemma_text_order(a, b);
    }
    assert forall|a: Seq<char>, b: Seq<char>| #[trigger] leq(a, b) && #[trigger] leq(b, a) implies a
        == b by {
        lemma_text_order(a, b);
    }
    assert forall|a: Seq<char>, b: Seq<char>, c: Seq<char>|
        #[trigger] leq(a, b) && #[trigger] leq(b, c) implies leq(a, c) by {
        lemma_text_order(a, b);
        lemma_text_order(b, c);
        lemma_text_transitive(a, b, c);
        lemma_text_order(a, c);
    }
    assert forall|a: Seq<char>| #[trigger] leq(a, a) by {
        lemma_text_order(a, a);
    }
}

/// What is not after one text is not after those that the text is not after.
proof fn lemma_not_after(a: Seq<char>, b: Seq<char>, c: Seq<char>)
    requires
        !text_before(b, a),
        !text_before(c, b),
    ensures
        !text_before(c, a),
{
    lemma_text_order(a, b);
    lemma_text_order(b, c);
    lemma_text_transitive(a, b, c);
    lemma_text_order(a, c);
}

/// Ascending texts with the same elements are the same.
pub proof fn lemma_order_is_unique(s: Seq<Seq<char>>, r: Seq<Seq<char>>)
    requires
        ascend(r),
        r.to_multiset() == s.to_multiset(),
    ensures
        r == in_text_order(s),
{
    lemma_total_order();
    s.lemma_sort_by_ensures(at_most());
    assert(sorted_by(r, at_most()));
    lemma_sorted_unique(r, in_text_order(s), at_most());
}

/// Texts in order ascend and are the same texts.
pub proof fn lemma_in_text_order(s: Seq<Seq<char>>)
    ensures
        ascend(in_text_order(s)),
        in_text_order(s).to_multiset() == s.to_multiset(),
        forall|x: Seq<char>| #[trigger] in_text_order(s).contains(x) <==> s.contains(x),
{
    lemma_total_order();
    s.lemma_sort_by_ensures(at_most());
    let r = in_text_order(s);
    let leq = at_most();
    assert forall|i: int, j: int| 0 <= i < j < r.len() implies !text_before(
        #[trigger] r[j],
        #[trigger] r[i],
    ) by {
        assert(leq(r[i], r[j]));
    }
    broadcast use vstd::seq_lib::group_to_multiset_ensures;

    assert forall|x: Seq<char>| #[trigger] r.contains(x) <==> s.contains(x) by {
        assert(r.contains(x) <==> r.to_multiset().count(x) > 0);
        assert(s.contains(x) <==> s.to_multiset().count(x) > 0);
    }
}

/// A sorted list of the same items.
pub open spec fn is_sorted_list<T: Named>(r: Seq<T>, s: Seq<T>) -> bool {
    &&& r.to_multiset() == s.to_multiset()
    &&& names(r) == in_text_order(names(s))
}

/// Merges two lists whose names ascend.
fn merge<T: Named>(a: VecDeque<T>, b: VecDeque<T>) -> (r: VecDeque<T>)
    requires
        ascend(names(a@)),
        ascend(names(b@)),
    ensures
        ascend(names(r@)),
        r@.to_multiset() =~= a@.to_multiset().add(b@.to_multiset()),
        names(r@).to_multiset() =~= names(a@).to_multiset().add(names(b@).to_multiset()),
{
    let mut left = a;
    let mut right = b;
    let mut out: VecDeque<T> = VecDeque::new();
    proof {
        lemma_nothing(out@);
        lemma_nothing(names(out@));
        assert(out@.to_multiset().add(a@.to_multiset()).add(b@.to_multiset())
            =~= a@.to_multiset().add(b@.to_multiset()));
        assert(names(out@).to_multiset().add(names(a@).to_multiset()).add(
            names(b@).to_multiset(),
        ) =~= names(a@).to_multiset().add(names(b@).to_multiset()));
    }
    let mut x = left.pop_front();
    let mut y = right.pop_front();
    let ghost mut lx = a@;
    let ghost mut ry = b@;
    loop
        invariant
            x is None ==> lx.len() == 0 && left@.len() == 0,
            y is None ==> ry.len() == 0 && right@.len() == 0,
            x matches Some(v) ==> lx == seq![v] + left@,
            y matches Some(v) ==> ry == seq![v] + right@,
            ascend(names(lx)),
            ascend(names(ry)),
            ascend(names(out@)),
            forall|i: int, j: int|
                0 <= i < out@.len() && 0 <= j < lx.len() ==> !text_before(
                    (#[trigger] lx[j]).name_text(),
                    (#[trigger] out@[i]).name_text(),
                ),
            forall|i: int, j: int|
                0 <= i < out@.len() && 0 <= j < ry.len() ==> !text_before(
                    (#[trigger] ry[j]).name_text(),
                    (#[trigger] out@[i]).name_text(),
                ),
            out@.to_multiset().add(lx.to_multiset()).add(ry.to_multiset()) =~= a@.to_multiset().add(
                b@.to_multiset(),
            ),
            names(out@).to_multiset().add(names(lx).to_multiset()).add(names(ry).to_multiset())
                =~= names(a@).to_multiset().add(names(b@).to_multiset()),
        decreases lx.len() + ry.len(),
    {
        let take_left = match (&x, &y) {
            (Some(v), Some(w)) => !before(w.name_str(), v.name_str()),
            (Some(_), None) => true,
            (None, Some(_)) => false,
            (None, None) => {
                proof {
                    lemma_nothing(lx);
                    lemma_nothing(ry);
                    lemma_nothing(names(lx));
                    lemma_nothing(names(ry));
                    assert(out@.to_multiset().add(lx.to_multiset()).add(ry.to_multiset())
                        =~= out@.to_multiset());
                    assert(names(out@).to_multiset().add(names(lx).to_multiset()).add(
                        names(ry).to_multiset(),
                    ) =~= names(out@).to_multiset());
                }
                return out;
            },
        };
        let ghost before_out = out@;
        if take_left {
            match x {
                Some(v) => {
                    proof {
                        lemma_take(lx, ry, out@, v, left@);
                        assert(names(out@.push(v)) =~= names(out@).push(v.name_text()));
                        assert(names(lx) =~= seq![v.name_text()] + names(left@));
                        lemma_move(out@, v, left@, lx);
                        lemma_move(names(out@), v.name_text(), names(left@), names(lx));
                        lx = left@;
                    }
                    out.push_back(v);
                    proof {
                        lemma_sums(
                            before_out.to_multiset(),
                            (seq![v] + lx).to_multiset(),
                            out@.to_multiset(),
                            lx.to_multiset(),
                            ry.to_multiset(),
                        );
                        assert(names(seq![v] + lx) =~= seq![v.name_text()] + names(lx));
                        lemma_sums(
                            names(before_out).to_multiset(),
                            (seq![v.name_text()] + names(lx)).to_multiset(),
                            names(out@).to_multiset(),
                            names(lx).to_multiset(),
                            names(ry).to_multiset(),
                        );
                    }
                    x = left.pop_front();
                    assert(x matches Some(w) ==> lx =~= seq![w] + left@);
                },
                None => {
                    assert(false);
                    return out;
                },
            }
        } else {
            match y {
                Some(v) => {
                    proof {
                        if x is Some {
                            lemma_text_order(lx[0].name_text(), v.name_text());
                        }
                        lemma_take(ry, lx, out@, v, right@);
                        assert(names(out@.push(v)) =~= names(out@).push(v.name_text()));
                        assert(names(ry) =~= seq![v.name_text()] + names(right@));
                        lemma_move(out@, v, right@, ry);
                        lemma_move(names(out@), v.name_text(), names(right@), names(ry));
                        ry = right@;
                    }
                    out.push_back(v);
                    proof {
                        lemma_sums(
                            before_out.to_multiset(),
                            (seq![v] + ry).to_multiset(),
                            out@.to_multiset(),
                            ry.to_multiset(),
                            lx.to_multiset(),
                        );
                        assert(names(seq![v] + ry) =~= seq![v.name_text()] + names(ry));
                        lemma_sums(
                            names(before_out).to_multiset(),
                            (seq![v.name_text()] + names(ry)).to_multiset(),
                            names(out@).to_multiset(),
                            names(ry).to_multiset(),
                            names(lx).to_multiset(),
                        );
                    }
                    y = right.pop_front();
                    assert(y matches Some(w) ==> ry =~= seq![w] + right@);
                },
                None => {
                    assert(false);
                    return out;
                },
            }
        }
    }
}

/// Two sums that agree agree with a third list beside them.
proof fn lemma_sums<T>(
    a: vstd::multiset::Multiset<T>,
    b: vstd::multiset::Multiset<T>,
    c: vstd::multiset::Multiset<T>,
    d: vstd::multiset::Multiset<T>,
    other: vstd::multiset::Multiset<T>,
)
    requires
        a.add(b) == c.add(d),
    ensures
        a.add(b).add(other) =~= c.add(d).add(other),
        a.add(other).add(b) =~= c.add(other).add(d),
{
    assert(a.add(other).add(b) =~= a.add(b).add(other));
    assert(c.add(other).add(d) =~= c.add(d).add(other));
}

/// A list without items holds nothing.
proof fn lemma_nothing<T>(s: Seq<T>)
    requires
        s.len() == 0,
    ensures
        s.to_multiset() == vstd::multiset::Multiset::<T>::empty(),
{
    broadcast use vstd::seq_lib::group_to_multiset_ensures;

    assert(s =~= Seq::empty());
    assert(s.to_multiset() =~= vstd::multiset::Multiset::empty());
}

/// Taking the first item of a list to another changes nothing of the two together.
proof fn lemma_move<T>(out: Seq<T>, v: T, rest: Seq<T>, whole: Seq<T>)
    requires
        whole == seq![v] + rest,
    ensures
        out.to_multiset().add(whole.to_multiset()) == out.push(v).to_multiset().add(
            rest.to_multiset(),
        ),
{
    broadcast use vstd::seq_lib::group_to_multiset_ensures;

    vstd::seq_lib::lemma_multiset_commutative(seq![v], rest);
    assert(seq![v] =~= Seq::<T>::empty().push(v));
    assert(seq![v].to_multiset() =~= vstd::multiset::Multiset::empty().insert(v));
    assert(out.to_multiset().add(whole.to_multiset()) =~= out.push(v).to_multiset().add(
        rest.to_multiset(),
    ));
}

/// The first item of one list, which is not after the first of the other, goes behind what was
/// taken.
proof fn lemma_take<T: Named>(from: Seq<T>, other: Seq<T>, out: Seq<T>, v: T, rest: Seq<T>)
    requires
        from == seq![v] + rest,
        ascend(names(from)),
        ascend(names(other)),
        ascend(names(out)),
        other.len() > 0 ==> !text_before(other[0].name_text(), v.name_text()),
        forall|i: int, j: int|
            0 <= i < out.len() && 0 <= j < from.len() ==> !text_before(
                (#[trigger] from[j]).name_text(),
                (#[trigger] out[i]).name_text(),
            ),
        forall|i: int, j: int|
            0 <= i < out.len() && 0 <= j < other.len() ==> !text_before(
                (#[trigger] other[j]).name_text(),
                (#[trigger] out[i]).name_text(),
            ),
    ensures
        ascend(names(rest)),
        ascend(names(out.push(v))),
        forall|i: int, j: int|
            0 <= i < out.push(v).len() && 0 <= j < rest.len() ==> !text_before(
                (#[trigger] rest[j]).name_text(),
                (#[trigger] out.push(v)[i]).name_text(),
            ),
        forall|i: int, j: int|
            0 <= i < out.push(v).len() && 0 <= j < other.len() ==> !text_before(
                (#[trigger] other[j]).name_text(),
                (#[trigger] out.push(v)[i]).name_text(),
            ),
{
    let more = out.push(v);
    assert(from[0] == v);
    assert forall|i: int, j: int| 0 <= i < j < rest.len() implies !text_before(
        #[trigger] names(rest)[j],
        #[trigger] names(rest)[i],
    ) by {
        assert(names(from)[i + 1] == names(rest)[i]);
        assert(names(from)[j + 1] == names(rest)[j]);
    }
    assert forall|i: int, j: int| 0 <= i < j < more.len() implies !text_before(
        #[trigger] names(more)[j],
        #[trigger] names(more)[i],
    ) by {
        if j < out.len() {
            assert(names(out)[i] == names(more)[i]);
            assert(names(out)[j] == names(more)[j]);
        } else {
            assert(!text_before(from[0].name_text(), out[i].name_text()));
        }
    }
    assert forall|i: int, j: int| 0 <= i < more.len() && 0 <= j < rest.len() implies !text_before(
        (#[trigger] rest[j]).name_text(),
        (#[trigger] more[i]).name_text(),
    ) by {
        assert(from[j + 1] == rest[j]);
        if i < out.len() {
            assert(more[i] == out[i]);
        } else {
            assert(names(from)[0] == v.name_text());
            assert(names(from)[j + 1] == rest[j].name_text());
        }
    }
    assert forall|i: int, j: int| 0 <= i < more.len() && 0 <= j < other.len() implies !text_before(
        (#[trigger] other[j]).name_text(),
        (#[trigger] more[i]).name_text(),
    ) by {
        if i < out.len() {
            assert(more[i] == out[i]);
        } else if j > 0 {
            assert(names(other)[0] == other[0].name_text());
            assert(names(other)[j] == other[j].name_text());
            lemma_not_after(v.name_text(), other[0].name_text(), other[j].name_text());
        }
    }
}

/// Sorts by halves.
fn sort_deque<T: Named>(items: VecDeque<T>) -> (r: VecDeque<T>)
    ensures
        ascend(names(r@)),
        r@.to_multiset() =~= items@.to_multiset(),
        names(r@).to_multiset() =~= names(items@).to_multiset(),
    decreases items@.len(),
{
    let n: usize = items.len();
    if n < 2 {
        return items;
    }
    let mut front = items;
    let back = front.split_off(n / 2);
    proof {
        assert(items@ =~= front@ + back@);
        assert(names(items@) =~= names(front@) + names(back@));
        vstd::seq_lib::lemma_multiset_commutative(front@, back@);
        vstd::seq_lib::lemma_multiset_commutative(names(front@), names(back@));
    }
    let a = sort_deque(front);
    let b = sort_deque(back);
    merge(a, b)
}

/// The items of a list as a queue.
pub fn queue_of<T>(items: Vec<T>) -> (r: VecDeque<T>)
    ensures
        r@ == items@,
{
    let ghost all = items@;
    let mut queue: VecDeque<T> = VecDeque::new();
    let mut rest = items;
    while rest.len() > 0
        invariant
            all == rest@ + queue@,
        decreases rest@.len(),
    {
        if let Some(v) = rest.pop() {
            queue.push_front(v);
            assert(all =~= rest@ + queue@);
        }
    }
    assert(queue@ =~= all);
    queue
}

/// Sorts a list by name.
pub fn sort_by_name<T: Named>(items: Vec<T>) -> (r: Vec<T>)
    ensures
        is_sorted_list(r@, items@),
{
    let ghost all = items@;
    let mut sorted = sort_deque(queue_of(items));
    let ghost whole = sorted@;
    let mut out: Vec<T> = Vec::new();
    while sorted.len() > 0
        invariant
            whole == out@ + sorted@,
        decreases sorted@.len(),
    {
        if let Some(v) = sorted.pop_front() {
            out.push(v);
            assert(whole =~= out@ + sorted@);
        }
    }
    proof {
        assert(out@ =~= whole);
        lemma_order_is_unique(names(all), names(whole));
    }
    out
}

/// Ascending texts, each of them once.
pub open spec fn without_repeats(s: Seq<Seq<char>>) -> Seq<Seq<char>>
    decreases s.len(),
{
    if s.len() == 0 {
        Seq::empty()
    } else {
        let front = without_repeats(s.drop_last());
        if s.len() > 1 && s[s.len() - 2] == s.last() {
            front
        } else {
            front.push(s.last())
        }
    }
}

/// The texts of a list in order, each of them once.
pub open spec fn text_set(s: Seq<Seq<char>>) -> Seq<Seq<char>> {
    without_repeats(in_text_order(s))
}

/// Dropping repeats drops nothing else.
pub proof fn lemma_without_repeats(s: Seq<Seq<char>>)
    requires
        ascend(s),
    ensures
        strictly_ascend(without_repeats(s)),
        forall|x: Seq<char>| #[trigger] without_repeats(s).contains(x) <==> s.contains(x),
        s.len() > 0 ==> without_repeats(s).len() > 0 && without_repeats(s).last() == s.last(),
    decreases s.len(),
{
    if s.len() > 0 {
        let front = s.drop_last();
        assert(ascend(front));
        lemma_without_repeats(front);
        let r = without_repeats(front);
        let all = without_repeats(s);
        let repeat = s.len() > 1 && s[s.len() - 2] == s.last();
        if !repeat {
            assert forall|i: int, j: int| 0 <= i < j < all.len() implies text_before(
                #[trigger] all[i],
                #[trigger] all[j],
            ) by {
                if j == all.len() - 1 {
                    let top = front.last();
                    assert(top == s[s.len() - 2]);
                    lemma_text_order(top, s.last());
                    assert(!text_before(s[s.len() - 1], s[s.len() - 2]));
                    if i < r.len() - 1 {
                        assert(text_before(r[i], r[r.len() - 1]));
                        lemma_text_transitive(r[i], top, s.last());
                    }
                }
            }
        }
        assert forall|x: Seq<char>| #[trigger] all.contains(x) <==> s.contains(x) by {
            if s.contains(x) {
                let i = choose|i: int| 0 <= i < s.len() && s[i] == x;
                if i < front.len() {
                    assert(front[i] == x);
                    assert(front.contains(x));
                    assert(r.contains(x));
                    let k = choose|k: int| 0 <= k < r.len() && r[k] == x;
                    assert(all[k] == x);
                } else if repeat {
                    assert(front[s.len() - 2] == x);
                    assert(front.contains(x));
                    assert(r.contains(x));
                } else {
                    assert(all[all.len() - 1] == x);
                }
            }
            if all.contains(x) {
                let k = choose|k: int| 0 <= k < all.len() && all[k] == x;
                if repeat || k < r.len() {
                    assert(r[k] == x);
                    assert(r.contains(x));
                    assert(front.contains(x));
                    let i = choose|i: int| 0 <= i < front.len() && front[i] == x;
                    assert(s[i] == x);
                } else {
                    assert(s[s.len() - 1] == x);
                }
            }
        }
    }
}

/// The texts of a list in order, each of them once: they ascend, and no text is lost or added.
pub proof fn lemma_text_set(s: Seq<Seq<char>>)
    ensures
        strictly_ascend(text_set(s)),
        forall|x: Seq<char>| #[trigger] text_set(s).contains(x) <==> s.contains(x),
{
    lemma_in_text_order(s);
    lemma_without_repeats(in_text_order(s));
    assert forall|x: Seq<char>| #[trigger] text_set(s).contains(x) <==> s.contains(x) by {
        assert(in_text_order(s).contains(x) <==> s.contains(x));
    }
}

/// The texts of a list in order, each of them once.
pub fn sort_text_set(items: Vec<String>) -> (r: Vec<String>)
    ensures
        texts(r@) == text_set(texts(items@)),
{
    assert(names(items@) =~= texts(items@));
    let sorted = sort_by_name(items);
    assert(names(sorted@) =~= texts(sorted@));
    let ghost all = texts(sorted@);
    let mut out: Vec<String> = Vec::new();
    let mut i: usize = 0;
    assert(all.take(0) =~= Seq::empty());
    assert(texts(out@) =~= Seq::empty());
    while i < sorted.len()
        invariant
            i <= sorted@.len(),
            all == texts(sorted@),
            texts(out@) == without_repeats(all.take(i as int)),
        decreases sorted@.len() - i,
    {
        let ghost t = all.take(i + 1);
        proof {
            assert(t.drop_last() =~= all.take(i as int));
            assert(t.last() == sorted@[i as int]@);
            assert(i > 0 ==> t[i - 1] == sorted@[i - 1]@);
        }
        let repeat = i > 0 && same(sorted[i - 1].as_str(), sorted[i].as_str());
        if !repeat {
            let ghost before = texts(out@);
            out.push(sorted[i].clone());
            assert(texts(out@) =~= before.push(t.last()));
        }
        i = i + 1;
    }
    assert(all.take(i as int) =~= all);
    out
}

/// Lists of the same items have the same views.
pub proof fn lemma_same_views<T, U>(a: Seq<T>, b: Seq<T>, f: spec_fn(T) -> U)
    requires
        a.to_multiset() == b.to_multiset(),
    ensures
        a.map_values(f).to_multiset() == b.map_values(f).to_multiset(),
    decreases a.len(),
{
    broadcast use vstd::seq_lib::group_to_multiset_ensures;

    if a.len() == 0 {
        assert(b.len() == 0) by {
            if b.len() > 0 {
                assert(b.contains(b[0]));
                assert(b.to_multiset().count(b[0]) > 0);
                assert(a.contains(b[0]));
            }
        }
        assert(a.map_values(f) =~= b.map_values(f));
    } else {
        let x = a.last();
        assert(a.contains(a[a.len() - 1]));
        assert(a.to_multiset().count(x) > 0);
        assert(b.contains(x));
        let k = choose|k: int| 0 <= k < b.len() && b[k] == x;
        let front = a.drop_last();
        let rest = b.remove(k);
        assert(a =~= front.push(x));
        assert(b =~= rest.insert(k, x));
        assert(rest.to_multiset() =~= b.to_multiset().remove(x));
        assert(front.to_multiset() =~= a.to_multiset().remove(x));
        lemma_same_views(front, rest, f);
        assert(a.map_values(f) =~= front.map_values(f).push(f(x)));
        assert(b.map_values(f) =~= rest.map_values(f).insert(k, f(x)));
        assert(b.map_values(f).to_multiset() =~= rest.map_values(f).to_multiset().insert(f(x)));
        assert(a.map_values(f).to_multiset() =~= b.map_values(f).to_multiset());
    }
}

} // verus!
