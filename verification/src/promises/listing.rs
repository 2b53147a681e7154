//! Listings.

use vstd::prelude::*;
use vstd::utf8::encode_utf8;
use crate::cas::browse::{
    lemma_lines_join, lemma_plain_keys_distinct, lemma_strict, listed_groups, listed_objects,
    manifest_keys, Browsing, Filling,
};
use crate::cas::store::CasStore;
use crate::listing::{
    all_lines, apart, common_prefix, every_key_is_listed_once, first_lines, group_keys,
    groups_are_no_keys, groups_of, item_text, key_groups, last_text, lemma_first_at,
    lemma_line_source, lemma_texts_after, lines_are_in_order, merged, objects_of, paginate,
    plain_keys, takes_object, texts_after, Item, Page,
};
use crate::manifest::Manifest;
use crate::plan::call::OutcomeView;
use crate::plan::runner::{Plan, StepView};
use crate::sorting::{lemma_in_text_order, lemma_text_set, strictly_ascend};
use crate::text::{before, bytes_before, lemma_text_order, text_before, texts};
use crate::types::{IoError, ListObjectsInput, ListObjectsView, ObjectInfoView, StorageError};

verus! {

/// The pattern stands in the text at this position.
pub open spec fn occurs_at(s: Seq<char>, pat: Seq<char>, p: int) -> bool {
    0 <= p && p + pat.len() <= s.len() && s.subrange(p, p + pat.len()) == pat
}

/// The first delimiter behind the prefix stands at this position of the key.
pub open spec fn is_cut(key: Seq<char>, prefix: Seq<char>, delimiter: Seq<char>, p: int) -> bool {
    &&& prefix.len() <= p
    &&& occurs_at(key, delimiter, p)
    &&& forall|q: int| prefix.len() <= q < p ==> !#[trigger] occurs_at(key, delimiter, q)
}

/// A key is listed by itself: it has the prefix, and no delimiter behind it.
pub open spec fn is_listed_alone(
    keys: Seq<Seq<char>>,
    prefix: Seq<char>,
    delimiter: Seq<char>,
    key: Seq<char>,
) -> bool {
    &&& keys.contains(key)
    &&& prefix.is_prefix_of(key)
    &&& delimiter.len() == 0 || forall|p: int|
        prefix.len() <= p ==> !#[trigger] occurs_at(key, delimiter, p)
}

/// A common prefix: a key with the prefix is cut behind its first delimiter.
pub open spec fn is_common_prefix(
    keys: Seq<Seq<char>>,
    prefix: Seq<char>,
    delimiter: Seq<char>,
    group: Seq<char>,
) -> bool {
    delimiter.len() > 0 && exists|key: Seq<char>, p: int|
        keys.contains(key) && prefix.is_prefix_of(key) && #[trigger] is_cut(
            key,
            prefix,
            delimiter,
            p,
        ) && group == key.take(p + delimiter.len())
}

/// The group of a key is what stands before the end of the first delimiter behind the prefix.
proof fn lemma_cut(key: Seq<char>, prefix: Seq<char>, delimiter: Seq<char>)
    requires
        delimiter.len() > 0,
    ensures
        forall|p: int| #[trigger]
            is_cut(key, prefix, delimiter, p) ==> common_prefix(key, prefix, delimiter) == Some(
                key.take(p + delimiter.len()),
            ),
        common_prefix(key, prefix, delimiter) matches Some(g) ==> exists|p: int| #[trigger]
            is_cut(key, prefix, delimiter, p) && g == key.take(p + delimiter.len()),
        common_prefix(key, prefix, delimiter) is None ==> forall|p: int|
            prefix.len() <= p ==> !#[trigger] occurs_at(key, delimiter, p),
{
    let from = prefix.len() as int;
    lemma_first_at(key, delimiter, from);
    assert forall|p: int| #[trigger] occurs_at(key, delimiter, p) == crate::text::stands_at(
        key,
        delimiter,
        p,
    ) by {}
    match crate::listing::first_at(key, delimiter, from) {
        Some(i) => {
            assert(occurs_at(key, delimiter, i));
            assert(is_cut(key, prefix, delimiter, i)) by {
                assert forall|q: int| from <= q < i implies !#[trigger] occurs_at(
                    key,
                    delimiter,
                    q,
                ) by {
                    assert(!crate::text::stands_at(key, delimiter, q));
                }
            }
            assert forall|p: int| #[trigger] is_cut(key, prefix, delimiter, p) implies p == i by {
                if p < i {
                    assert(!occurs_at(key, delimiter, p));
                } else if i < p {
                    assert(!occurs_at(key, delimiter, i));
                }
            }
        },
        None => {
            assert forall|p: int| from <= p implies !#[trigger] occurs_at(key, delimiter, p) by {
                assert(!crate::text::stands_at(key, delimiter, p));
            }
        },
    }
}

pub proof fn lemma_grouping(
    keys: Seq<Seq<char>>,
    prefix: Seq<char>,
    delimiter: Seq<char>,
    t: Seq<char>,
)
    ensures
        plain_keys(keys, prefix, delimiter).contains(t) <==> is_listed_alone(
            keys,
            prefix,
            delimiter,
            t,
        ),
        key_groups(keys, prefix, delimiter).contains(t) <==> is_common_prefix(
            keys,
            prefix,
            delimiter,
            t,
        ),
{
    every_key_is_listed_once(keys, prefix, delimiter, t);
    if delimiter.len() > 0 {
        lemma_cut(t, prefix, delimiter);
        if common_prefix(t, prefix, delimiter) is Some {
            let p = choose|p: int| #[trigger] is_cut(t, prefix, delimiter, p);
            assert(occurs_at(t, delimiter, p));
        }
        if key_groups(keys, prefix, delimiter).contains(t) {
            let k = choose|k: Seq<char>| #[trigger]
                keys.contains(k) && prefix.is_prefix_of(k) && common_prefix(k, prefix, delimiter)
                    == Some(t);
            lemma_cut(k, prefix, delimiter);
            let p = choose|p: int| #[trigger]
                is_cut(k, prefix, delimiter, p) && t == k.take(p + delimiter.len());
            assert(keys.contains(k) && is_cut(k, prefix, delimiter, p));
        }
        if is_common_prefix(keys, prefix, delimiter, t) {
            let (k, p) = choose|k: Seq<char>, p: int|
                keys.contains(k) && prefix.is_prefix_of(k) && #[trigger] is_cut(
                    k,
                    prefix,
                    delimiter,
                    p,
                ) && t == k.take(p + delimiter.len());
            lemma_cut(k, prefix, delimiter);
            assert(keys.contains(k));
        }
    }
}

/// Keys are grouped by what stands in them directly behind the prefix: a key with a delimiter there
/// is listed under the text up to and with the first one, any other key with the prefix by itself,
/// and a key without the prefix not at all.
pub proof fn keys_are_grouped_behind_the_prefix(
    keys: Vec<String>,
    prefix: &str,
    delimiter: &str,
    r: (Vec<String>, Vec<String>),
    t: Seq<char>,
)
    requires
        call_ensures(group_keys, (keys, prefix, delimiter), r),
    ensures
        texts(r.0@).contains(t) <==> is_listed_alone(texts(keys@), prefix@, delimiter@, t),
        texts(r.1@).contains(t) <==> is_common_prefix(texts(keys@), prefix@, delimiter@, t),
        r.0@.len() + r.1@.len() <= keys@.len(),
        (forall|i: int|
            0 <= i < keys@.len() ==> prefix@.is_prefix_of((#[trigger] keys@[i])@)) ==> r.0@.len()
            + r.1@.len() == keys@.len(),
{
    lemma_grouping(texts(keys@), prefix@, delimiter@, t);
    lemma_group_count(texts(keys@), prefix@, delimiter@);
    assert(texts(r.0@).len() == r.0@.len());
    assert(texts(r.1@).len() == r.1@.len());
    assert(texts(keys@).len() == keys@.len());
    if forall|i: int| 0 <= i < keys@.len() ==> prefix@.is_prefix_of((#[trigger] keys@[i])@) {
        assert forall|i: int| 0 <= i < texts(keys@).len() implies prefix@.is_prefix_of(
            #[trigger] texts(keys@)[i],
        ) by {
            assert(prefix@.is_prefix_of(keys@[i]@));
        }
    }
}

proof fn lemma_group_count(keys: Seq<Seq<char>>, prefix: Seq<char>, delimiter: Seq<char>)
    ensures
        plain_keys(keys, prefix, delimiter).len() + key_groups(keys, prefix, delimiter).len()
            <= keys.len(),
        (forall|i: int| 0 <= i < keys.len() ==> prefix.is_prefix_of(#[trigger] keys[i])) ==> plain_keys(
            keys,
            prefix,
            delimiter,
        ).len() + key_groups(keys, prefix, delimiter).len() == keys.len(),
    decreases keys.len(),
{
    if keys.len() > 0 {
        lemma_group_count(keys.drop_last(), prefix, delimiter);
        if forall|i: int| 0 <= i < keys.len() ==> prefix.is_prefix_of(#[trigger] keys[i]) {
            assert(prefix.is_prefix_of(keys[keys.len() - 1]));
            assert forall|i: int| 0 <= i < keys.drop_last().len() implies prefix.is_prefix_of(
                #[trigger] keys.drop_last()[i],
            ) by {
                assert(prefix.is_prefix_of(keys[i]));
            }
        }
    }
}

/// Texts are compared by their bytes: the first byte that differs decides, and a text comes before
/// one that goes on where it ends.
pub proof fn texts_are_compared_by_bytes(a: &str, b: &str, r: bool)
    requires
        call_ensures(before, (a, b), r),
    ensures
        r <==> exists|i: int| #[trigger] is_less_at(encode_utf8(a@), encode_utf8(b@), i),
{
    lemma_less_at(encode_utf8(a@), encode_utf8(b@));
}

/// The bytes before this one are the same, and here the first list ends or has the smaller byte.
pub open spec fn is_less_at(x: Seq<u8>, y: Seq<u8>, i: int) -> bool {
    &&& 0 <= i <= x.len()
    &&& i < y.len()
    &&& forall|j: int| 0 <= j < i ==> #[trigger] x[j] == y[j]
    &&& i == x.len() || x[i] < y[i]
}

pub proof fn lemma_less_at(x: Seq<u8>, y: Seq<u8>)
    ensures
        bytes_before(x, y) <==> exists|i: int| #[trigger] is_less_at(x, y, i),
    decreases x.len(),
{
    if x.len() == 0 {
        if y.len() > 0 {
            assert(is_less_at(x, y, 0));
        }
    } else if y.len() > 0 {
        if x[0] == y[0] {
            let a = x.skip(1);
            let b = y.skip(1);
            lemma_less_at(a, b);
            if bytes_before(a, b) {
                let i = choose|i: int| #[trigger] is_less_at(a, b, i);
                assert forall|j: int| 0 <= j < i + 1 implies #[trigger] x[j] == y[j] by {
                    if j > 0 {
                        assert(a[j - 1] == b[j - 1]);
                    }
                }
                assert(is_less_at(x, y, i + 1));
            }
            if exists|i: int| #[trigger] is_less_at(x, y, i) {
                let i = choose|i: int| #[trigger] is_less_at(x, y, i);
                assert(i > 0);
                assert forall|j: int| 0 <= j < i - 1 implies #[trigger] a[j] == b[j] by {
                    assert(x[j + 1] == y[j + 1]);
                }
                assert(is_less_at(a, b, i - 1));
            }
        } else if x[0] < y[0] {
            assert(is_less_at(x, y, 0));
        } else if exists|i: int| #[trigger] is_less_at(x, y, i) {
            let i = choose|i: int| #[trigger] is_less_at(x, y, i);
            if i > 0 {
                assert(x[0] == y[0]);
            }
        }
    }
}

proof fn lemma_merged_lines(objects: Seq<Seq<char>>, groups: Seq<Seq<char>>)
    ensures
        objects_of(merged(objects, groups)) == objects,
        groups_of(merged(objects, groups)) == groups,
    decreases objects.len() + groups.len(),
{
    let all = merged(objects, groups);
    if objects.len() == 0 && groups.len() == 0 {
        assert(objects_of(all) =~= objects);
        assert(groups_of(all) =~= groups);
    } else if takes_object(objects, groups) {
        let first = seq![Item::Object(objects[0])];
        lemma_merged_lines(objects.skip(1), groups);
        lemma_lines_join(first, merged(objects.skip(1), groups));
        assert(first.drop_last() =~= Seq::empty());
        assert(objects_of(first) =~= seq![objects[0]]);
        assert(groups_of(first) =~= Seq::empty());
        assert(objects_of(all) =~= objects);
        assert(groups_of(all) =~= groups);
    } else {
        let first = seq![Item::Group(groups[0])];
        lemma_merged_lines(objects, groups.skip(1));
        lemma_lines_join(first, merged(objects, groups.skip(1)));
        assert(first.drop_last() =~= Seq::empty());
        assert(objects_of(first) =~= Seq::empty());
        assert(groups_of(first) =~= seq![groups[0]]);
        assert(objects_of(all) =~= objects);
        assert(groups_of(all) =~= groups);
    }
}

/// What is behind the start is kept.
proof fn lemma_kept(list: Seq<Seq<char>>, start: Seq<char>, t: Seq<char>)
    ensures
        texts_after(list, start).contains(t) <==> list.contains(t) && (start.len() == 0
            || text_before(start, t)),
    decreases list.len(),
{
    if list.len() > 0 {
        let front = list.drop_last();
        lemma_kept(front, start, t);
        let kept = texts_after(list, start);
        let sooner = texts_after(front, start);
        assert(list =~= front.push(list.last()));
        lemma_in_push(front, list.last(), t);
        lemma_in_push(sooner, list.last(), t);
    }
}

proof fn lemma_in_push(s: Seq<Seq<char>>, v: Seq<char>, x: Seq<char>)
    ensures
        s.push(v).contains(x) <==> s.contains(x) || x == v,
{
    if s.contains(x) {
        let i = choose|i: int| 0 <= i < s.len() && s[i] == x;
        assert(s.push(v)[i] == x);
    }
    if x == v {
        assert(s.push(v)[s.len() as int] == x);
    }
}

/// A text is among the objects or the groups of lines exactly if a line has it.
proof fn lemma_line_of(lines: Seq<Item>, t: Seq<char>)
    ensures
        objects_of(lines).contains(t) <==> lines.contains(Item::Object(t)),
        groups_of(lines).contains(t) <==> lines.contains(Item::Group(t)),
        objects_of(lines).len() + groups_of(lines).len() == lines.len(),
    decreases lines.len(),
{
    if lines.len() > 0 {
        let front = lines.drop_last();
        lemma_line_of(front, t);
        assert(lines =~= front.push(lines.last()));
        lemma_item_in_push(front, lines.last(), Item::Object(t));
        lemma_item_in_push(front, lines.last(), Item::Group(t));
        match lines.last() {
            Item::Object(key) => lemma_in_push(objects_of(front), key, t),
            Item::Group(group) => lemma_in_push(groups_of(front), group, t),
        }
    }
}

proof fn lemma_item_in_push(s: Seq<Item>, v: Item, x: Item)
    ensures
        s.push(v).contains(x) <==> s.contains(x) || x == v,
{
    if s.contains(x) {
        let i = choose|i: int| 0 <= i < s.len() && s[i] == x;
        assert(s.push(v)[i] == x);
    }
    if x == v {
        assert(s.push(v)[s.len() as int] == x);
    }
}

/// The text comes behind the start of a listing; without a start, every text does.
pub open spec fn is_behind(start: Seq<char>, t: Seq<char>) -> bool {
    start.len() == 0 || text_before(start, t)
}

/// The page of a listing whose objects and groups these are: it has the first of them behind the
/// start, in order, as many as the limit allows.
pub open spec fn is_page(
    objects: spec_fn(Seq<char>) -> bool,
    groups: spec_fn(Seq<char>) -> bool,
    start: Seq<char>,
    max: int,
    o: Seq<Seq<char>>,
    g: Seq<Seq<char>>,
    truncated: bool,
) -> bool {
    &&& forall|t: Seq<char>| #[trigger] o.contains(t) ==> objects(t) && is_behind(start, t)
    &&& forall|t: Seq<char>| #[trigger] g.contains(t) ==> groups(t) && is_behind(start, t)
    &&& strictly_ascend(o)
    &&& strictly_ascend(g)
    &&& o.len() + g.len() <= max
    &&& forall|t: Seq<char>|
        (objects(t) && #[trigger] is_behind(start, t) && !o.contains(t)) || (groups(t) && is_behind(start, t)
            && !g.contains(t)) ==> {
            &&& truncated
            &&& o.len() + g.len() == max
            &&& forall|u: Seq<char>| o.contains(u) || g.contains(u) ==> #[trigger] text_before(u, t)
        }
    &&& truncated ==> exists|t: Seq<char>|
        (objects(t) && #[trigger] is_behind(start, t) && !o.contains(t)) || (groups(t) && is_behind(start, t)
            && !g.contains(t))
}

/// The text is that of the last line of a page.
pub open spec fn is_last(o: Seq<Seq<char>>, g: Seq<Seq<char>>, last: Seq<char>) -> bool {
    if o.len() + g.len() == 0 {
        last.len() == 0
    } else {
        (o.contains(last) || g.contains(last)) && forall|u: Seq<char>|
            o.contains(u) || g.contains(u) ==> u == last || #[trigger] text_before(u, last)
    }
}

/// The lines of a page are the first ones.
pub proof fn lemma_page(objects: Seq<Seq<char>>, groups: Seq<Seq<char>>, start: Seq<char>, max: int)
    requires
        strictly_ascend(objects),
        strictly_ascend(groups),
        apart(objects, groups),
        max >= 0,
    ensures
        ({
            let lines = all_lines(objects, groups, start);
            let page = first_lines(lines, max);
            &&& is_page(
                |t: Seq<char>| objects.contains(t),
                |t: Seq<char>| groups.contains(t),
                start,
                max,
                objects_of(page),
                groups_of(page),
                lines.len() > max,
            )
            &&& is_last(objects_of(page), groups_of(page), last_text(page))
        }),
{
    let lines = all_lines(objects, groups, start);
    let page = first_lines(lines, max);
    let o = objects_of(page);
    let g = groups_of(page);
    let x = texts_after(objects, start);
    let y = texts_after(groups, start);
    lines_are_in_order(objects, groups, start);
    lemma_merged_lines(x, y);
    lemma_texts_after(objects, start);
    lemma_texts_after(groups, start);
    let n = page.len() as int;
    let rest = lines.skip(n);
    assert(lines =~= page + rest);
    lemma_lines_join(page, rest);
    assert(x =~= o + objects_of(rest));
    assert(y =~= g + groups_of(rest));
    assert(strictly_ascend(o)) by {
        assert forall|i: int, j: int| 0 <= i < j < o.len() implies text_before(
            #[trigger] o[i],
            #[trigger] o[j],
        ) by {
            assert(x[i] == o[i] && x[j] == o[j]);
        }
    }
    assert(strictly_ascend(g)) by {
        assert forall|i: int, j: int| 0 <= i < j < g.len() implies text_before(
            #[trigger] g[i],
            #[trigger] g[j],
        ) by {
            assert(y[i] == g[i] && y[j] == g[j]);
        }
    }
    assert forall|t: Seq<char>| #[trigger] o.contains(t) implies objects.contains(t) && is_behind(
        start,
        t,
    ) by {
        let i = choose|i: int| 0 <= i < o.len() && o[i] == t;
        assert(x[i] == t);
        lemma_kept(objects, start, t);
    }
    assert forall|t: Seq<char>| #[trigger] g.contains(t) implies groups.contains(t) && is_behind(
        start,
        t,
    ) by {
        let i = choose|i: int| 0 <= i < g.len() && g[i] == t;
        assert(y[i] == t);
        lemma_kept(groups, start, t);
    }
    lemma_line_of(page, Seq::empty());
    assert forall|t: Seq<char>|
        (objects.contains(t) && #[trigger] is_behind(start, t) && !o.contains(t)) || (
        groups.contains(t) && is_behind(start, t) && !g.contains(t)) implies {
        &&& lines.len() > max
        &&& o.len() + g.len() == max
        &&& forall|u: Seq<char>| o.contains(u) || g.contains(u) ==> #[trigger] text_before(u, t)
    } by {
        lemma_kept(objects, start, t);
        lemma_kept(groups, start, t);
        lemma_line_of(lines, t);
        lemma_line_of(page, t);
        let item = if objects.contains(t) && !o.contains(t) {
            Item::Object(t)
        } else {
            Item::Group(t)
        };
        assert(lines.contains(item) && !page.contains(item));
        let j = choose|j: int| 0 <= j < lines.len() && lines[j] == item;
        assert(j >= n) by {
            if j < n {
                assert(page[j] == item);
            }
        }
        assert forall|u: Seq<char>| o.contains(u) || g.contains(u) implies #[trigger] text_before(
            u,
            t,
        ) by {
            lemma_line_of(page, u);
            let other = if o.contains(u) {
                Item::Object(u)
            } else {
                Item::Group(u)
            };
            let i = choose|i: int| 0 <= i < page.len() && page[i] == other;
            assert(lines[i] == other);
            assert(text_before(item_text(lines[i]), item_text(lines[j])));
        }
    }
    if lines.len() > max {
        let item = lines[max];
        let t = item_text(item);
        lemma_line_source(objects, groups, start, max);
        lemma_line_of(lines, t);
        lemma_line_of(page, t);
        assert(lines.contains(item));
        assert(!page.contains(item)) by {
            if page.contains(item) {
                let i = choose|i: int| 0 <= i < page.len() && page[i] == item;
                assert(lines[i] == item);
                lemma_text_order(t, t);
                assert(text_before(item_text(lines[i]), item_text(lines[max])));
            }
        }
        lemma_kept(objects, start, t);
        lemma_kept(groups, start, t);
        assert(is_behind(start, t));
    }
    if page.len() > 0 {
        let last = item_text(page.last());
        lemma_line_of(page, last);
        assert(page.contains(page[n - 1]));
        assert forall|u: Seq<char>| o.contains(u) || g.contains(u) implies u == last
            || #[trigger] text_before(u, last) by {
            lemma_line_of(page, u);
            let other = if o.contains(u) {
                Item::Object(u)
            } else {
                Item::Group(u)
            };
            let i = choose|i: int| 0 <= i < page.len() && page[i] == other;
            assert(lines[i] == other);
            if i < n - 1 {
                assert(text_before(item_text(lines[i]), item_text(lines[n - 1])));
            }
        }
    }
}

/// A page has the first lines behind the start, objects and groups together, in order and as many
/// as the limit allows. It says whether a line is missing, and which one is its last.
pub proof fn page_has_the_first_lines(
    objects: Vec<String>,
    groups: Vec<String>,
    start: &str,
    max: usize,
    r: Page,
)
    requires
        call_ensures(paginate, (objects, groups, start, max), r),
        strictly_ascend(texts(objects@)),
        strictly_ascend(texts(groups@)),
        apart(texts(objects@), texts(groups@)),
    ensures
        is_page(
            |t: Seq<char>| texts(objects@).contains(t),
            |t: Seq<char>| texts(groups@).contains(t),
            start@,
            max as int,
            texts(r.objects@),
            texts(r.groups@),
            r.truncated,
        ),
        is_last(texts(r.objects@), texts(r.groups@), r.last@),
{
    lemma_page(texts(objects@), texts(groups@), start@, max as int);
}

/// A listing of the keys of a bucket, from its limits to its first page: the objects are the keys
/// with the prefix and without a delimiter behind it, the common prefixes are the others, each up
/// to its first delimiter, and the page has the first of them behind the start. The continuation
/// token is the last line where something is missing, and empty where nothing is.
pub proof fn listing_shows_the_keys_of_the_bucket(
    b: Browsing,
    files: Vec<String>,
    r: Result<(Option<Filling>, Plan), StorageError>,
)
    requires
        call_ensures(Browsing::walked, (b, Ok::<Vec<String>, IoError>(files)), r),
        manifest_keys(texts(files@)).no_duplicates(),
    ensures
        r matches Ok(p) && ({
            let keys = manifest_keys(texts(files@));
            let objects = |t: Seq<char>| is_listed_alone(keys, b.prefix@, b.delimiter@, t);
            let groups = |t: Seq<char>| is_common_prefix(keys, b.prefix@, b.delimiter@, t);
            match p.0 {
                Some(f) => {
                    let o = texts(f.keys@);
                    let g = texts(f.groups@);
                    &&& f.next == 0
                    &&& f.objects@.len() == 0
                    &&& is_page(objects, groups, b.start@, b.max as int, o, g, f.truncated)
                    &&& o.len() > 0
                    &&& f.truncated ==> is_last(o, g, f.token@)
                    &&& !f.truncated ==> f.token@.len() == 0
                },
                None => {
                    let none = Seq::<Seq<char>>::empty();
                    &&& p.1@.len() == 1
                    &&& p.1@[0] matches StepView::Finish { outcome: OutcomeView::Listing { page } }
                    &&& page.objects.len() == 0
                    &&& is_page(
                        objects,
                        groups,
                        b.start@,
                        b.max as int,
                        none,
                        page.common_prefixes,
                        page.is_truncated,
                    )
                    &&& page.is_truncated ==> is_last(
                        none,
                        page.common_prefixes,
                        page.next_continuation_token,
                    )
                    &&& !page.is_truncated ==> page.next_continuation_token.len() == 0
                },
            }
        }),
{
    let rels = texts(files@);
    let keys = manifest_keys(rels);
    let objects = listed_objects(rels, b.prefix@, b.delimiter@);
    let groups = listed_groups(rels, b.prefix@, b.delimiter@);
    let plain = plain_keys(keys, b.prefix@, b.delimiter@);
    let grouped = key_groups(keys, b.prefix@, b.delimiter@);
    lemma_plain_keys_distinct(keys, b.prefix@, b.delimiter@);
    lemma_strict(plain);
    lemma_in_text_order(plain);
    lemma_text_set(grouped);
    assert(apart(objects, groups)) by {
        assert forall|i: int, j: int|
            0 <= i < objects.len() && 0 <= j < groups.len() implies #[trigger] objects[i]
            != #[trigger] groups[j] by {
            assert(objects.contains(objects[i]));
            assert(groups.contains(groups[j]));
            groups_are_no_keys(keys, b.prefix@, b.delimiter@, groups[j]);
        }
    }
    lemma_page(objects, groups, b.start@, b.max as int);
    let page = first_lines(all_lines(objects, groups, b.start@), b.max as int);
    assert forall|t: Seq<char>| #[trigger] objects.contains(t) <==> is_listed_alone(
        keys,
        b.prefix@,
        b.delimiter@,
        t,
    ) by {
        lemma_grouping(keys, b.prefix@, b.delimiter@, t);
    }
    assert forall|t: Seq<char>| #[trigger] groups.contains(t) <==> is_common_prefix(
        keys,
        b.prefix@,
        b.delimiter@,
        t,
    ) by {
        lemma_grouping(keys, b.prefix@, b.delimiter@, t);
    }
    let p = r->Ok_0;
    lemma_same_page(
        |t: Seq<char>| objects.contains(t),
        |t: Seq<char>| groups.contains(t),
        |t: Seq<char>| is_listed_alone(keys, b.prefix@, b.delimiter@, t),
        |t: Seq<char>| is_common_prefix(keys, b.prefix@, b.delimiter@, t),
        b.start@,
        b.max as int,
        objects_of(page),
        groups_of(page),
        all_lines(objects, groups, b.start@).len() > b.max,
    );
    match p.0 {
        Some(f) => {
            assert(f.page().common_prefixes == groups_of(page));
            assert(f.page().objects.len() == 0);
        },
        None => {
            assert(objects_of(page) =~= Seq::<Seq<char>>::empty());
        },
    }
}

pub proof fn lemma_same_page(
    a: spec_fn(Seq<char>) -> bool,
    b: spec_fn(Seq<char>) -> bool,
    c: spec_fn(Seq<char>) -> bool,
    d: spec_fn(Seq<char>) -> bool,
    start: Seq<char>,
    max: int,
    o: Seq<Seq<char>>,
    g: Seq<Seq<char>>,
    truncated: bool,
)
    requires
        is_page(a, b, start, max, o, g, truncated),
        forall|t: Seq<char>| #[trigger] a(t) == c(t),
        forall|t: Seq<char>| #[trigger] b(t) == d(t),
    ensures
        is_page(c, d, start, max, o, g, truncated),
{
    assert forall|t: Seq<char>| #[trigger] o.contains(t) implies c(t) && is_behind(start, t) by {
        assert(a(t));
    }
    assert forall|t: Seq<char>| #[trigger] g.contains(t) implies d(t) && is_behind(start, t) by {
        assert(b(t));
    }
    assert forall|t: Seq<char>|
        (c(t) && #[trigger] is_behind(start, t) && !o.contains(t)) || (d(t) && is_behind(start, t)
            && !g.contains(t)) implies {
        &&& truncated
        &&& o.len() + g.len() == max
        &&& forall|u: Seq<char>| o.contains(u) || g.contains(u) ==> #[trigger] text_before(u, t)
    } by {
        assert(a(t) == c(t));
        assert(b(t) == d(t));
    }
    if truncated {
        let t = choose|t: Seq<char>|
            (a(t) && #[trigger] is_behind(start, t) && !o.contains(t)) || (b(t) && is_behind(
                start,
                t,
            ) && !g.contains(t));
        assert(a(t) == c(t));
        assert(b(t) == d(t));
        assert(is_behind(start, t));
    }
}

/// What a request for a listing comes to: the prefix and the delimiter are taken as they are, a
/// continuation token counts before a start, and a page has as many lines as were asked for, at
/// least none, and a thousand where nothing was asked for.
pub proof fn listing_takes_its_limits_from_the_request(
    store: &CasStore,
    input: &ListObjectsInput,
    r: (Browsing, Plan),
)
    requires
        call_ensures(CasStore::list_objects, (store, input), r),
    ensures
        r.0.prefix@ == input.prefix@,
        r.0.delimiter@ == input.delimiter@,
        input.continuation_token@.len() > 0 ==> r.0.start@ == input.continuation_token@,
        input.continuation_token@.len() == 0 ==> r.0.start@ == input.start_after@,
        input.max_keys is None ==> r.0.max == 1000,
        input.max_keys matches Some(n) ==> r.0.max == (if n > 0 {
            n as int
        } else {
            0
        }),
{
}

/// A key on a page is listed with the size, the entity tag and the time of its manifest, in its
/// place; one whose manifest cannot be read is left out. After the last key the page is answered.
pub proof fn listed_object_shows_its_manifest(
    f: Filling,
    live: Result<Manifest, IoError>,
    r: (Option<Filling>, Plan),
)
    requires
        call_ensures(Filling::read, (f, live), r),
        f.next < f.keys@.len(),
    ensures
        ({
            let before = Seq::new(f.objects@.len(), |i: int| f.objects@[i]@);
            let objects = match live {
                Ok(m) => before.push(
                    ObjectInfoView {
                        key: f.keys@[f.next as int]@,
                        size: m.content_length as i64,
                        etag: m.etag@,
                        last_modified_unix: m.last_modified,
                    },
                ),
                Err(_) => before,
            };
            if f.next + 1 < f.keys@.len() {
                r.0 matches Some(n) && n.keys == f.keys && n.next == f.next + 1 && Seq::new(
                    n.objects@.len(),
                    |i: int| n.objects@[i]@,
                ) == objects && texts(n.groups@) == texts(f.groups@) && n.truncated == f.truncated
                    && n.token@ == f.token@
            } else {
                r.0 is None && r.1@ == seq![
                    StepView::Finish {
                        outcome: OutcomeView::Listing {
                            page: ListObjectsView {
                                objects,
                                common_prefixes: texts(f.groups@),
                                is_truncated: f.truncated,
                                next_continuation_token: f.token@,
                            },
                        },
                    },
                ]
            }
        }),
{
}

} // verus!
