//! Listings: grouping by delimiter, and pages.

use vstd::prelude::*;
use crate::sorting::strictly_ascend;
use crate::text::{
    before, chars_of, find_from, lemma_text_order, lemma_text_transitive, owned, stands_at,
    starts_with, text_before, texts,
};

verus! {

/// The first position at or after `from` at which `pat` stands in `s`.
pub open spec fn first_at(s: Seq<char>, pat: Seq<char>, from: int) -> Option<int>
    decreases s.len() + 1 - from,
{
    if from < 0 || from > s.len() {
        None
    } else if stands_at(s, pat, from) {
        Some(from)
    } else {
        first_at(s, pat, from + 1)
    }
}

/// The group of a key: all of it up to the first delimiter behind the prefix. A key without such a
/// delimiter stands for itself.
pub open spec fn common_prefix(
    key: Seq<char>,
    prefix: Seq<char>,
    delimiter: Seq<char>,
) -> Option<Seq<char>> {
    if delimiter.len() == 0 {
        None
    } else {
        match first_at(key, delimiter, prefix.len() as int) {
            Some(i) => Some(key.take(i + delimiter.len())),
            None => None,
        }
    }
}

/// The keys that are listed one by one: those with the prefix and without a group.
pub open spec fn plain_keys(
    keys: Seq<Seq<char>>,
    prefix: Seq<char>,
    delimiter: Seq<char>,
) -> Seq<Seq<char>>
    decreases keys.len(),
{
    if keys.len() == 0 {
        Seq::empty()
    } else {
        let front = plain_keys(keys.drop_last(), prefix, delimiter);
        let key = keys.last();
        if prefix.is_prefix_of(key) && common_prefix(key, prefix, delimiter) is None {
            front.push(key)
        } else {
            front
        }
    }
}

/// The groups of the keys with the prefix.
pub open spec fn key_groups(
    keys: Seq<Seq<char>>,
    prefix: Seq<char>,
    delimiter: Seq<char>,
) -> Seq<Seq<char>>
    decreases keys.len(),
{
    if keys.len() == 0 {
        Seq::empty()
    } else {
        let front = key_groups(keys.drop_last(), prefix, delimiter);
        let key = keys.last();
        match common_prefix(key, prefix, delimiter) {
            Some(group) => if prefix.is_prefix_of(key) {
                front.push(group)
            } else {
                front
            },
            None => front,
        }
    }
}

pub proof fn lemma_first_at(s: Seq<char>, pat: Seq<char>, from: int)
    ensures
        match first_at(s, pat, from) {
            Some(i) => from <= i && stands_at(s, pat, i) && forall|j: int|
                from <= j < i ==> !stands_at(s, pat, j),
            None => from >= 0 ==> forall|j: int| from <= j ==> !stands_at(s, pat, j),
        },
    decreases s.len() + 1 - from,
{
    if 0 <= from <= s.len() && !stands_at(s, pat, from) {
        lemma_first_at(s, pat, from + 1);
    }
}

/// The group of a key.
fn group_of(key: &str, prefix: &str, delimiter: &str) -> (r: Option<String>)
    requires
        prefix@.is_prefix_of(key@),
    ensures
        match r {
            Some(g) => common_prefix(key@, prefix@, delimiter@) == Some(g@),
            None => common_prefix(key@, prefix@, delimiter@) is None,
        },
{
    if delimiter.is_empty() {
        return None;
    }
    let chars = chars_of(key);
    let wanted = chars_of(delimiter);
    let from: usize = prefix.unicode_len();
    proof {
        lemma_first_at(key@, delimiter@, from as int);
    }
    match find_from(&chars, &wanted, from) {
        Some(i) => {
            proof {
                let j = first_at(key@, delimiter@, from as int)->0;
                assert(stands_at(key@, delimiter@, i as int));
                if j < i {
                    assert(!stands_at(key@, delimiter@, j));
                }
                assert(j == i);
            }
            let whole: usize = chars.len();
            assert(i + wanted@.len() <= whole);
            let group = key.substring_char(0, i + wanted.len());
            assert(group@ =~= key@.take(i + wanted@.len()));
            Some(owned(group))
        },
        None => {
            proof {
                if let Some(j) = first_at(key@, delimiter@, from as int) {
                    assert(stands_at(key@, delimiter@, j));
                }
            }
            None
        },
    }
}

/// Parts the keys with the prefix into those that are listed one by one and the groups of the
/// others.
pub fn group_keys(keys: Vec<String>, prefix: &str, delimiter: &str) -> (r: (
    Vec<String>,
    Vec<String>,
))
    ensures
        texts(r.0@) == plain_keys(texts(keys@), prefix@, delimiter@),
        texts(r.1@) == key_groups(texts(keys@), prefix@, delimiter@),
{
    let ghost all = texts(keys@);
    let mut plain: Vec<String> = Vec::new();
    let mut groups: Vec<String> = Vec::new();
    let mut i: usize = 0;
    proof {
        assert(all.take(0) =~= Seq::empty());
        assert(texts(plain@) =~= Seq::empty());
        assert(texts(groups@) =~= Seq::empty());
    }
    while i < keys.len()
        invariant
            i <= keys@.len(),
            all == texts(keys@),
            texts(plain@) == plain_keys(all.take(i as int), prefix@, delimiter@),
            texts(groups@) == key_groups(all.take(i as int), prefix@, delimiter@),
        decreases keys@.len() - i,
    {
        proof {
            let t = all.take(i + 1);
            assert(t.drop_last() =~= all.take(i as int));
            assert(t.last() == keys@[i as int]@);
        }
        if starts_with(keys[i].as_str(), prefix) {
            let ghost plain_before = texts(plain@);
            let ghost groups_before = texts(groups@);
            match group_of(keys[i].as_str(), prefix, delimiter) {
                Some(group) => {
                    groups.push(group);
                    assert(texts(groups@) =~= groups_before.push(group@));
                },
                None => {
                    plain.push(keys[i].clone());
                    assert(texts(plain@) =~= plain_before.push(keys@[i as int]@));
                },
            }
        }
        i = i + 1;
    }
    assert(all.take(i as int) =~= all);
    (plain, groups)
}

/// Every key with the prefix is listed by itself or stands in a group, never both, and nothing else
/// is listed.
pub proof fn every_key_is_listed_once(
    keys: Seq<Seq<char>>,
    prefix: Seq<char>,
    delimiter: Seq<char>,
    key: Seq<char>,
)
    ensures
        plain_keys(keys, prefix, delimiter).contains(key) <==> keys.contains(key)
            && prefix.is_prefix_of(key) && common_prefix(key, prefix, delimiter) is None,
        key_groups(keys, prefix, delimiter).contains(key) <==> exists|k: Seq<char>| #[trigger]
            keys.contains(k) && prefix.is_prefix_of(k) && common_prefix(k, prefix, delimiter)
                == Some(key),
    decreases keys.len(),
{
    if keys.len() > 0 {
        let front = keys.drop_last();
        every_key_is_listed_once(front, prefix, delimiter, key);
        let plain = plain_keys(keys, prefix, delimiter);
        let plain_front = plain_keys(front, prefix, delimiter);
        let groups = key_groups(keys, prefix, delimiter);
        let groups_front = key_groups(front, prefix, delimiter);
        let last = keys.last();
        assert(keys[keys.len() - 1] == last);
        assert forall|k: Seq<char>| #[trigger] keys.contains(k) <==> front.contains(k) || k == last by {
            if keys.contains(k) {
                let i = choose|i: int| 0 <= i < keys.len() && keys[i] == k;
                if i < front.len() {
                    assert(front[i] == k);
                }
            }
            if front.contains(k) {
                let i = choose|i: int| 0 <= i < front.len() && front[i] == k;
                assert(keys[i] == k);
            }
        }
        if plain.len() > plain_front.len() {
            lemma_push_contains(plain_front, last, key);
        }
        if groups.len() > groups_front.len() {
            lemma_push_contains(groups_front, groups.last(), key);
        }
        if groups.contains(key) {
            if groups_front.contains(key) {
                let k = choose|k: Seq<char>| #[trigger]
                    front.contains(k) && prefix.is_prefix_of(k) && common_prefix(
                        k,
                        prefix,
                        delimiter,
                    ) == Some(key);
                assert(keys.contains(k));
            } else {
                assert(keys.contains(last));
            }
        }
        if exists|k: Seq<char>| #[trigger]
            keys.contains(k) && prefix.is_prefix_of(k) && common_prefix(k, prefix, delimiter)
                == Some(key) {
            let k = choose|k: Seq<char>| #[trigger]
                keys.contains(k) && prefix.is_prefix_of(k) && common_prefix(k, prefix, delimiter)
                    == Some(key);
            if front.contains(k) {
                assert(groups_front.contains(key));
            } else {
                assert(k == last);
            }
        }
    }
}

proof fn lemma_push_contains<T>(s: Seq<T>, v: T, x: T)
    ensures
        s.push(v).contains(x) <==> s.contains(x) || x == v,
{
    if s.contains(x) {
        let i = choose|i: int| 0 <= i < s.len() && s[i] == x;
        assert(s.push(v)[i] == x);
    }
    if x == v {
        assert(s.push(v)[s.len() as int] == x);
    }
    if s.push(v).contains(x) {
        let i = choose|i: int| 0 <= i < s.push(v).len() && s.push(v)[i] == x;
        if i < s.len() {
            assert(s[i] == x);
        }
    }
}

/// A group is never the name of a key that is listed by itself.
pub proof fn groups_are_no_keys(
    keys: Seq<Seq<char>>,
    prefix: Seq<char>,
    delimiter: Seq<char>,
    text: Seq<char>,
)
    requires
        key_groups(keys, prefix, delimiter).contains(text),
    ensures
        !plain_keys(keys, prefix, delimiter).contains(text),
{
    every_key_is_listed_once(keys, prefix, delimiter, text);
    let k = choose|k: Seq<char>| #[trigger]
        keys.contains(k) && prefix.is_prefix_of(k) && common_prefix(k, prefix, delimiter) == Some(
            text,
        );
    lemma_first_at(k, delimiter, prefix.len() as int);
    let i = first_at(k, delimiter, prefix.len() as int)->0;
    assert(stands_at(text, delimiter, i)) by {
        assert(text.subrange(i, i + delimiter.len()) =~= k.subrange(i, i + delimiter.len()));
    }
    lemma_first_at(text, delimiter, prefix.len() as int);
}

/// One line of a listing.
#[verifier::ext_equal]
pub enum Item {
    Object(Seq<char>),
    Group(Seq<char>),
}

/// The text that a line is listed under.
pub open spec fn item_text(item: Item) -> Seq<char> {
    match item {
        Item::Object(key) => key,
        Item::Group(group) => group,
    }
}

/// The texts that come after `start`; without a start, all of them.
pub open spec fn texts_after(list: Seq<Seq<char>>, start: Seq<char>) -> Seq<Seq<char>>
    decreases list.len(),
{
    if list.len() == 0 {
        Seq::empty()
    } else {
        let front = texts_after(list.drop_last(), start);
        if start.len() == 0 || text_before(start, list.last()) {
            front.push(list.last())
        } else {
            front
        }
    }
}

/// Whether an object is the next line.
pub open spec fn takes_object(objects: Seq<Seq<char>>, groups: Seq<Seq<char>>) -> bool {
    objects.len() > 0 && (groups.len() == 0 || !text_before(groups[0], objects[0]))
}

/// Objects and groups together, in order.
pub open spec fn merged(objects: Seq<Seq<char>>, groups: Seq<Seq<char>>) -> Seq<Item>
    decreases objects.len() + groups.len(),
{
    if objects.len() == 0 && groups.len() == 0 {
        Seq::empty()
    } else if takes_object(objects, groups) {
        seq![Item::Object(objects[0])] + merged(objects.skip(1), groups)
    } else {
        seq![Item::Group(groups[0])] + merged(objects, groups.skip(1))
    }
}

/// The objects among the lines.
pub open spec fn objects_of(items: Seq<Item>) -> Seq<Seq<char>>
    decreases items.len(),
{
    if items.len() == 0 {
        Seq::empty()
    } else {
        let front = objects_of(items.drop_last());
        match items.last() {
            Item::Object(key) => front.push(key),
            Item::Group(_) => front,
        }
    }
}

/// The groups among the lines.
pub open spec fn groups_of(items: Seq<Item>) -> Seq<Seq<char>>
    decreases items.len(),
{
    if items.len() == 0 {
        Seq::empty()
    } else {
        let front = groups_of(items.drop_last());
        match items.last() {
            Item::Object(_) => front,
            Item::Group(group) => front.push(group),
        }
    }
}

/// The lines that a listing has in all, from its start on.
pub open spec fn all_lines(
    objects: Seq<Seq<char>>,
    groups: Seq<Seq<char>>,
    start: Seq<char>,
) -> Seq<Item> {
    merged(texts_after(objects, start), texts_after(groups, start))
}

/// The first `max` lines.
pub open spec fn first_lines(lines: Seq<Item>, max: int) -> Seq<Item> {
    if lines.len() <= max {
        lines
    } else {
        lines.take(max)
    }
}

/// The text of the last line.
pub open spec fn last_text(lines: Seq<Item>) -> Seq<char> {
    if lines.len() == 0 {
        Seq::empty()
    } else {
        item_text(lines.last())
    }
}

/// One page of a listing.
#[derive(Debug)]
pub struct Page {
    pub objects: Vec<String>,
    pub groups: Vec<String>,
    /// Whether there are more lines.
    pub truncated: bool,
    /// The text of the last line, empty where there is none.
    pub last: String,
}

/// Keeps the texts that come after `start`.
fn keep_after(list: Vec<String>, start: &str) -> (r: Vec<String>)
    ensures
        texts(r@) == texts_after(texts(list@), start@),
{
    let ghost all = texts(list@);
    let mut out: Vec<String> = Vec::new();
    let mut i: usize = 0;
    assert(all.take(0) =~= Seq::empty());
    assert(texts(out@) =~= Seq::empty());
    while i < list.len()
        invariant
            i <= list@.len(),
            all == texts(list@),
            texts(out@) == texts_after(all.take(i as int), start@),
        decreases list@.len() - i,
    {
        proof {
            let t = all.take(i + 1);
            assert(t.drop_last() =~= all.take(i as int));
            assert(t.last() == list@[i as int]@);
        }
        if start.is_empty() || before(start, list[i].as_str()) {
            let ghost kept = texts(out@);
            out.push(list[i].clone());
            assert(texts(out@) =~= kept.push(list@[i as int]@));
        }
        i = i + 1;
    }
    assert(all.take(i as int) =~= all);
    out
}

/// The first page behind `start`, of at most `max` lines. Objects and groups count alike.
pub fn paginate(objects: Vec<String>, groups: Vec<String>, start: &str, max: usize) -> (r: Page)
    ensures
        ({
            let lines = all_lines(texts(objects@), texts(groups@), start@);
            let page = first_lines(lines, max as int);
            &&& texts(r.objects@) == objects_of(page)
            &&& texts(r.groups@) == groups_of(page)
            &&& r.truncated == (lines.len() > max)
            &&& r.last@ == last_text(page)
        }),
{
    let ghost lines = all_lines(texts(objects@), texts(groups@), start@);
    let left = keep_after(objects, start);
    let right = keep_after(groups, start);
    let ghost lo = texts(left@);
    let ghost rg = texts(right@);
    let mut out = Page {
        objects: Vec::new(),
        groups: Vec::new(),
        truncated: false,
        last: String::new(),
    };
    let mut count: usize = 0;
    let mut i: usize = 0;
    let mut j: usize = 0;
    proof {
        assert(lines.take(0) =~= Seq::empty());
        assert(lines.skip(0) =~= lines);
        assert(lo.skip(0) =~= lo);
        assert(rg.skip(0) =~= rg);
        assert(texts(out.objects@) =~= Seq::empty());
        assert(texts(out.groups@) =~= Seq::empty());
    }
    while count < max && (i < left.len() || j < right.len())
        invariant
            count <= max,
            count <= lines.len(),
            i <= left@.len(),
            j <= right@.len(),
            lo == texts(left@),
            rg == texts(right@),
            lines.skip(count as int) == merged(lo.skip(i as int), rg.skip(j as int)),
            texts(out.objects@) == objects_of(lines.take(count as int)),
            texts(out.groups@) == groups_of(lines.take(count as int)),
            out.last@ == last_text(lines.take(count as int)),
        decreases left@.len() - i + right@.len() - j,
    {
        let object_next = if i < left.len() && j < right.len() {
            !before(right[j].as_str(), left[i].as_str())
        } else {
            i < left.len()
        };
        let ghost o = lo.skip(i as int);
        let ghost g = rg.skip(j as int);
        proof {
            if i < left@.len() {
                assert(o[0] == left@[i as int]@);
            }
            if j < right@.len() {
                assert(g[0] == right@[j as int]@);
            }
            assert(object_next == takes_object(o, g));
            let rest = lines.skip(count as int);
            assert(rest.len() > 0);
            assert(rest[0] == lines[count as int]);
            assert(lines.skip(count + 1) =~= rest.skip(1));
            let t = lines.take(count + 1);
            assert(t.drop_last() =~= lines.take(count as int));
            assert(t.last() == lines[count as int]);
        }
        if object_next {
            proof {
                assert(o.skip(1) =~= lo.skip(i + 1));
                assert(merged(o, g).skip(1) =~= merged(o.skip(1), g));
            }
            let ghost listed = texts(out.objects@);
            out.last = left[i].clone();
            out.objects.push(left[i].clone());
            assert(texts(out.objects@) =~= listed.push(left@[i as int]@));
            i = i + 1;
        } else {
            proof {
                assert(g.skip(1) =~= rg.skip(j + 1));
                assert(merged(o, g).skip(1) =~= merged(o, g.skip(1)));
            }
            let ghost listed = texts(out.groups@);
            out.last = right[j].clone();
            out.groups.push(right[j].clone());
            assert(texts(out.groups@) =~= listed.push(right@[j as int]@));
            j = j + 1;
        }
        count = count + 1;
    }
    out.truncated = i < left.len() || j < right.len();
    proof {
        let rest = lines.skip(count as int);
        assert(out.truncated <==> rest.len() > 0);
        if rest.len() == 0 {
            assert(lines.take(count as int) =~= lines);
        } else {
            assert(count == max);
        }
    }
    out
}

/// The texts of the lines ascend, and none stands twice.
pub open spec fn lines_ascend(lines: Seq<Item>) -> bool {
    forall|i: int, j: int|
        0 <= i < j < lines.len() ==> text_before(
            item_text(#[trigger] lines[i]),
            item_text(#[trigger] lines[j]),
        )
}

/// No group is the name of an object.
pub open spec fn apart(objects: Seq<Seq<char>>, groups: Seq<Seq<char>>) -> bool {
    forall|i: int, j: int|
        0 <= i < objects.len() && 0 <= j < groups.len() ==> #[trigger] objects[i]
            != #[trigger] groups[j]
}

pub proof fn lemma_merged(objects: Seq<Seq<char>>, groups: Seq<Seq<char>>)
    requires
        strictly_ascend(objects),
        strictly_ascend(groups),
        apart(objects, groups),
    ensures
        lines_ascend(merged(objects, groups)),
        merged(objects, groups).len() == objects.len() + groups.len(),
        forall|i: int|
            0 <= i < merged(objects, groups).len() ==> above(
                objects,
                groups,
                item_text(#[trigger] merged(objects, groups)[i]),
            ),
    decreases objects.len() + groups.len(),
{
    let all = merged(objects, groups);
    if objects.len() == 0 && groups.len() == 0 {
    } else {
        let object = takes_object(objects, groups);
        let o = if object {
            objects.skip(1)
        } else {
            objects
        };
        let g = if object {
            groups
        } else {
            groups.skip(1)
        };
        assert forall|i: int, j: int| 0 <= i < j < o.len() implies text_before(
            #[trigger] o[i],
            #[trigger] o[j],
        ) by {
            let s = objects.len() - o.len();
            assert(objects[i + s] == o[i]);
            assert(objects[j + s] == o[j]);
        }
        assert forall|i: int, j: int| 0 <= i < j < g.len() implies text_before(
            #[trigger] g[i],
            #[trigger] g[j],
        ) by {
            let s = groups.len() - g.len();
            assert(groups[i + s] == g[i]);
            assert(groups[j + s] == g[j]);
        }
        assert forall|i: int, j: int| 0 <= i < o.len() && 0 <= j < g.len() implies #[trigger] o[i] != #[trigger] g[j] by {
            assert(objects[i + objects.len() - o.len()] == o[i]);
            assert(groups[j + groups.len() - g.len()] == g[j]);
        }
        lemma_merged(o, g);
        let rest = merged(o, g);
        let first = item_text(all[0]);
        if objects.len() > 0 && groups.len() > 0 {
            lemma_text_order(objects[0], groups[0]);
            assert(objects[0] != groups[0]);
        }
        assert forall|i: int| 0 <= i < rest.len() implies text_before(
            first,
            item_text(#[trigger] rest[i]),
        ) by {
            let t = item_text(rest[i]);
            assert(above(o, g, t));
            if o.len() > 0 && (t == o[0] || text_before(o[0], t)) {
                if object {
                    assert(objects[0] == objects[0]);
                    assert(objects[1] == o[0]);
                    assert(text_before(first, o[0]));
                } else {
                    assert(o[0] == objects[0]);
                    assert(text_before(first, o[0]));
                }
                lemma_text_transitive(first, o[0], t);
            } else {
                assert(g.len() > 0 && (t == g[0] || text_before(g[0], t)));
                if object {
                    assert(g[0] == groups[0]);
                } else {
                    assert(g[0] == groups[1]);
                    assert(text_before(groups[0], groups[1]));
                }
                lemma_text_transitive(first, g[0], t);
            }
        }
        assert forall|i: int, j: int| 0 <= i < j < all.len() implies text_before(
            item_text(#[trigger] all[i]),
            item_text(#[trigger] all[j]),
        ) by {
            assert(all[j] == rest[j - 1]);
            if i > 0 {
                assert(all[i] == rest[i - 1]);
            }
        }
        assert forall|i: int| 0 <= i < all.len() implies above(
            objects,
            groups,
            item_text(#[trigger] all[i]),
        ) by {
            if i > 0 {
                assert(all[i] == rest[i - 1]);
            }
        }
    }
}

/// The text is the first of the objects or of the groups, or comes after it.
pub open spec fn above(objects: Seq<Seq<char>>, groups: Seq<Seq<char>>, t: Seq<char>) -> bool {
    ||| objects.len() > 0 && (t == objects[0] || text_before(objects[0], t))
    ||| groups.len() > 0 && (t == groups[0] || text_before(groups[0], t))
}

pub proof fn lemma_texts_after(list: Seq<Seq<char>>, start: Seq<char>)
    ensures
        forall|i: int|
            0 <= i < texts_after(list, start).len() ==> list.contains(
                #[trigger] texts_after(list, start)[i],
            ) && (start.len() == 0 || text_before(
                start,
                texts_after(list, start)[i],
            )),
        strictly_ascend(list) ==> strictly_ascend(texts_after(list, start)),
        (forall|i: int|
            0 <= i < list.len() ==> start.len() > 0 && !text_before(
                start,
                #[trigger] list[i],
            )) ==> texts_after(list, start).len() == 0,
    decreases list.len(),
{
    if list.len() > 0 {
        let front = list.drop_last();
        lemma_texts_after(front, start);
        let o = texts_after(list, start);
        let fo = texts_after(front, start);
        assert forall|i: int| 0 <= i < o.len() implies list.contains(#[trigger] o[i]) && (
        start.len() == 0 || text_before(start, o[i])) by {
            if i < fo.len() {
                let k = choose|k: int| 0 <= k < front.len() && front[k] == fo[i];
                assert(list[k] == o[i]);
            } else {
                assert(list[list.len() - 1] == o[i]);
            }
        }
        if strictly_ascend(list) {
            assert forall|i: int, j: int| 0 <= i < j < front.len() implies text_before(
                #[trigger] front[i],
                #[trigger] front[j],
            ) by {
                assert(list[i] == front[i]);
                assert(list[j] == front[j]);
            }
            assert forall|i: int, j: int| 0 <= i < j < o.len() implies text_before(
                #[trigger] o[i],
                #[trigger] o[j],
            ) by {
                if j < fo.len() {
                    assert(fo[i] == o[i]);
                    assert(fo[j] == o[j]);
                } else {
                    assert(front.contains(fo[i]));
                    let k = choose|k: int| 0 <= k < front.len() && front[k] == fo[i];
                    assert(list[k] == o[i]);
                    assert(list[list.len() - 1] == o[j]);
                }
            }
        }
        if forall|i: int|
            0 <= i < list.len() ==> start.len() > 0 && !text_before(
                start,
                #[trigger] list[i],
            ) {
            assert forall|i: int| 0 <= i < front.len() implies start.len() > 0 && !text_before(
                start,
                #[trigger] front[i],
            ) by {
                assert(list[i] == front[i]);
            }
            assert(!text_before(start, list[list.len() - 1]));
        }
    }
}

/// Going on behind the first text leaves the others.
proof fn lemma_behind_first_text(list: Seq<Seq<char>>, start: Seq<char>)
    requires
        strictly_ascend(list),
        texts_after(list, start).len() > 0,
        texts_after(list, start)[0].len() > 0,
    ensures
        ({
            let o = texts_after(list, start);
            texts_after(list, o[0]) == o.skip(1)
        }),
    decreases list.len(),
{
    let front = list.drop_last();
    let o = texts_after(list, start);
    let fo = texts_after(front, start);
    let tok = o[0];
    lemma_texts_after(front, start);
    assert forall|i: int, j: int| 0 <= i < j < front.len() implies text_before(
        #[trigger] front[i],
        #[trigger] front[j],
    ) by {
        assert(list[i] == front[i]);
        assert(list[j] == front[j]);
    }
    if fo.len() == 0 {
        assert forall|i: int| 0 <= i < list.len() implies tok.len() > 0 && !text_before(
            tok,
            #[trigger] list[i],
        ) by {
            assert(list[i] == list[i]);
            assert(list[list.len() - 1] == tok);
            lemma_text_order(list[i], tok);
        }
        lemma_texts_after(list, tok);
        assert(texts_after(list, tok) =~= o.skip(1));
    } else {
        assert(fo[0] == o[0]);
        lemma_behind_first_text(front, start);
        assert(front.contains(fo[0]));
        let k = choose|k: int| 0 <= k < front.len() && front[k] == fo[0];
        assert(list[k] == tok);
        assert(list[list.len() - 1] == list.last());
        assert(text_before(tok, list.last()));
        lemma_text_transitive(start, tok, list.last());
        assert(o =~= fo.push(list.last()));
        assert(texts_after(list, tok) =~= o.skip(1));
    }
}

/// Two starts that leave the same texts.
proof fn lemma_same_texts(list: Seq<Seq<char>>, a: Seq<char>, b: Seq<char>)
    requires
        forall|i: int|
            0 <= i < list.len() ==> (a.len() == 0 || text_before(
                a,
                #[trigger] list[i],
            )) == (b.len() == 0 || text_before(b, list[i])),
    ensures
        texts_after(list, a) == texts_after(list, b),
    decreases list.len(),
{
    if list.len() > 0 {
        let front = list.drop_last();
        assert forall|i: int| 0 <= i < front.len() implies (a.len() == 0 || text_before(
            a,
            #[trigger] front[i],
        )) == (b.len() == 0 || text_before(b, front[i])) by {
            assert(list[i] == front[i]);
        }
        lemma_same_texts(front, a, b);
        assert(list[list.len() - 1] == list.last());
    }
}

/// A text that comes after the start is kept.
pub proof fn lemma_text_kept(list: Seq<Seq<char>>, start: Seq<char>, i: int)
    requires
        0 <= i < list.len(),
        start.len() == 0 || text_before(start, list[i]),
        strictly_ascend(list),
    ensures
        texts_after(list, start).len() > 0,
        ({
            let t = texts_after(list, start)[0];
            t == list[i] || text_before(t, list[i])
        }),
    decreases list.len(),
{
    let front = list.drop_last();
    let o = texts_after(list, start);
    let fo = texts_after(front, start);
    lemma_texts_after(front, start);
    assert forall|j: int, k: int| 0 <= j < k < front.len() implies text_before(
        #[trigger] front[j],
        #[trigger] front[k],
    ) by {
        assert(list[j] == front[j]);
        assert(list[k] == front[k]);
    }
    if i < front.len() {
        lemma_text_kept(front, start, i);
        assert(o[0] == fo[0]);
    } else if fo.len() > 0 {
        assert(o[0] == fo[0]);
        assert(front.contains(fo[0]));
        let k = choose|k: int| 0 <= k < front.len() && front[k] == fo[0];
        assert(list[k] == fo[0]);
        assert(list[i] == list[i]);
    }
}

/// A listing is in order, and no line stands twice.
pub proof fn lines_are_in_order(
    objects: Seq<Seq<char>>,
    groups: Seq<Seq<char>>,
    start: Seq<char>,
)
    requires
        strictly_ascend(objects),
        strictly_ascend(groups),
        apart(objects, groups),
    ensures
        lines_ascend(all_lines(objects, groups, start)),
        forall|i: int|
            0 <= i < all_lines(objects, groups, start).len() ==> start.len() == 0 || text_before(
                start,
                item_text(#[trigger] all_lines(objects, groups, start)[i]),
            ),
{
    let o = texts_after(objects, start);
    let g = texts_after(groups, start);
    lemma_texts_after(objects, start);
    lemma_texts_after(groups, start);
    lemma_apart(objects, groups, start);
    lemma_merged(o, g);
    let lines = all_lines(objects, groups, start);
    assert forall|i: int| 0 <= i < lines.len() implies start.len() == 0 || text_before(
        start,
        item_text(#[trigger] lines[i]),
    ) by {
        let t = item_text(lines[i]);
        assert(above(o, g, t));
        if start.len() > 0 {
            if o.len() > 0 && (t == o[0] || text_before(o[0], t)) {
                assert(text_before(start, o[0]));
                lemma_text_transitive(start, o[0], t);
            } else {
                assert(text_before(start, g[0]));
                lemma_text_transitive(start, g[0], t);
            }
        }
    }
}

pub proof fn lemma_apart(objects: Seq<Seq<char>>, groups: Seq<Seq<char>>, start: Seq<char>)
    requires
        apart(objects, groups),
    ensures
        apart(texts_after(objects, start), texts_after(groups, start)),
{
    let o = texts_after(objects, start);
    let g = texts_after(groups, start);
    lemma_texts_after(objects, start);
    lemma_texts_after(groups, start);
    assert forall|i: int, j: int| 0 <= i < o.len() && 0 <= j < g.len() implies #[trigger] o[i] != #[trigger] g[j] by {
        assert(objects.contains(o[i]));
        assert(groups.contains(g[j]));
        let a = choose|a: int| 0 <= a < objects.len() && objects[a] == o[i];
        let b = choose|b: int| 0 <= b < groups.len() && groups[b] == g[j];
        assert(objects[a] != groups[b]);
    }
}

/// Going on behind the first line leaves the others.
proof fn lemma_behind_first_line(
    objects: Seq<Seq<char>>,
    groups: Seq<Seq<char>>,
    start: Seq<char>,
)
    requires
        strictly_ascend(objects),
        strictly_ascend(groups),
        apart(objects, groups),
        all_lines(objects, groups, start).len() > 0,
        item_text(all_lines(objects, groups, start)[0]).len() > 0,
    ensures
        ({
            let lines = all_lines(objects, groups, start);
            all_lines(objects, groups, item_text(lines[0])) == lines.skip(1)
        }),
{
    let o = texts_after(objects, start);
    let g = texts_after(groups, start);
    let lines = all_lines(objects, groups, start);
    let tok = item_text(lines[0]);
    lemma_texts_after(objects, start);
    lemma_texts_after(groups, start);
    lemma_apart(objects, groups, start);
    if o.len() > 0 && g.len() > 0 {
        lemma_text_order(o[0], g[0]);
        assert(o[0] != g[0]);
    }
    if takes_object(o, g) {
        lemma_behind_first_text(objects, start);
        assert forall|i: int| 0 <= i < groups.len() implies (start.len() == 0 || text_before(
            start,
            #[trigger] groups[i],
        )) == (tok.len() == 0 || text_before(tok, groups[i])) by {
            if start.len() == 0 || text_before(start, groups[i]) {
                lemma_text_kept(groups, start, i);
                lemma_text_transitive(tok, g[0], groups[i]);
            } else {
                lemma_text_transitive(start, tok, groups[i]);
            }
        }
        lemma_same_texts(groups, start, tok);
        assert(lines.skip(1) =~= merged(o.skip(1), g));
    } else {
        lemma_behind_first_text(groups, start);
        assert forall|i: int| 0 <= i < objects.len() implies (start.len() == 0 || text_before(
            start,
            #[trigger] objects[i],
        )) == (tok.len() == 0 || text_before(tok, objects[i])) by {
            if start.len() == 0 || text_before(start, objects[i]) {
                lemma_text_kept(objects, start, i);
                lemma_text_transitive(tok, o[0], objects[i]);
            } else {
                lemma_text_transitive(start, tok, objects[i]);
            }
        }
        lemma_same_texts(objects, start, tok);
        assert(lines.skip(1) =~= merged(o, g.skip(1)));
    }
}

/// Pages join up: a listing that goes on behind the last line of a page has exactly the lines that
/// the page left over. None is lost and none comes twice.
pub proof fn pages_join_up(
    objects: Seq<Seq<char>>,
    groups: Seq<Seq<char>>,
    start: Seq<char>,
    n: int,
)
    requires
        strictly_ascend(objects),
        strictly_ascend(groups),
        apart(objects, groups),
        0 < n <= all_lines(objects, groups, start).len(),
        forall|i: int|
            0 <= i < n ==> item_text(
                #[trigger] all_lines(objects, groups, start)[i],
            ).len() > 0,
    ensures
        ({
            let lines = all_lines(objects, groups, start);
            all_lines(objects, groups, last_text(first_lines(lines, n))) == lines.skip(n)
        }),
    decreases n,
{
    let lines = all_lines(objects, groups, start);
    let page = first_lines(lines, n);
    assert(page =~= lines.take(n));
    assert(page.last() == lines[n - 1]);
    if n == 1 {
        lemma_behind_first_line(objects, groups, start);
    } else {
        pages_join_up(objects, groups, start, n - 1);
        let early = first_lines(lines, n - 1);
        assert(early =~= lines.take(n - 1));
        assert(early.last() == lines[n - 2]);
        let tok = item_text(lines[n - 2]);
        let rest = lines.skip(n - 1);
        assert(all_lines(objects, groups, tok) == rest);
        assert(rest[0] == lines[n - 1]);
        lemma_behind_first_line(objects, groups, tok);
        assert(rest.skip(1) =~= lines.skip(n));
    }
}

/// Every line is an object or a group of the listing.
pub proof fn lemma_line_source(
    objects: Seq<Seq<char>>,
    groups: Seq<Seq<char>>,
    start: Seq<char>,
    i: int,
)
    requires
        0 <= i < all_lines(objects, groups, start).len(),
    ensures
        ({
            let t = item_text(all_lines(objects, groups, start)[i]);
            objects.contains(t) || groups.contains(t)
        }),
{
    let o = texts_after(objects, start);
    let g = texts_after(groups, start);
    lemma_texts_after(objects, start);
    lemma_texts_after(groups, start);
    lemma_merged_source(o, g, i);
    let t = item_text(merged(o, g)[i]);
    if o.contains(t) {
        let k = choose|k: int| 0 <= k < o.len() && o[k] == t;
        assert(objects.contains(o[k]));
    } else {
        let k = choose|k: int| 0 <= k < g.len() && g[k] == t;
        assert(groups.contains(g[k]));
    }
}

proof fn lemma_merged_source(objects: Seq<Seq<char>>, groups: Seq<Seq<char>>, i: int)
    requires
        0 <= i < merged(objects, groups).len(),
    ensures
        ({
            let t = item_text(merged(objects, groups)[i]);
            objects.contains(t) || groups.contains(t)
        }),
    decreases objects.len() + groups.len(),
{
    let all = merged(objects, groups);
    if takes_object(objects, groups) {
        let rest = merged(objects.skip(1), groups);
        if i == 0 {
            assert(objects.contains(objects[0]));
        } else {
            assert(all[i] == rest[i - 1]);
            lemma_merged_source(objects.skip(1), groups, i - 1);
            let t = item_text(rest[i - 1]);
            if objects.skip(1).contains(t) {
                let k = choose|k: int| 0 <= k < objects.skip(1).len() && objects.skip(1)[k] == t;
                assert(objects[k + 1] == t);
            }
        }
    } else {
        let rest = merged(objects, groups.skip(1));
        if i == 0 {
            assert(groups.contains(groups[0]));
        } else {
            assert(all[i] == rest[i - 1]);
            lemma_merged_source(objects, groups.skip(1), i - 1);
            let t = item_text(rest[i - 1]);
            if groups.skip(1).contains(t) {
                let k = choose|k: int| 0 <= k < groups.skip(1).len() && groups.skip(1)[k] == t;
                assert(groups[k + 1] == t);
            }
        }
    }
}

/// A group has at least the text of the delimiter.
pub proof fn lemma_group_is_not_empty(
    keys: Seq<Seq<char>>,
    prefix: Seq<char>,
    delimiter: Seq<char>,
    group: Seq<char>,
)
    requires
        key_groups(keys, prefix, delimiter).contains(group),
    ensures
        group.len() > 0,
{
    every_key_is_listed_once(keys, prefix, delimiter, group);
    let k = choose|k: Seq<char>| #[trigger]
        keys.contains(k) && prefix.is_prefix_of(k) && common_prefix(k, prefix, delimiter) == Some(
            group,
        );
    lemma_first_at(k, delimiter, prefix.len() as int);
}

} // verus!
