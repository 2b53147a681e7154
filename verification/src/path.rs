//! Paths as text: `/` separates the components.

use vstd::prelude::*;
use crate::text::{concat, ends_with, owned, pieces, same, split, starts_with, texts};

verus! {

/// `rel` below `base`. An absolute `rel` stands for itself.
pub open spec fn path_join(base: Seq<char>, rel: Seq<char>) -> Seq<char> {
    if rel.len() > 0 && rel[0] == '/' {
        rel
    } else if base.len() > 0 && base.last() != '/' {
        base.push('/') + rel
    } else {
        base + rel
    }
}

/// `base` with the given components below it, one after the other.
pub open spec fn path_join_all(base: Seq<char>, rels: Seq<Seq<char>>) -> Seq<char>
    decreases rels.len(),
{
    if rels.len() == 0 {
        base
    } else {
        path_join(path_join_all(base, rels.drop_last()), rels.last())
    }
}

/// The pieces of a path that name something: empty pieces are dropped, and so are single dots
/// except in front.
pub open spec fn named_pieces(all: Seq<Seq<char>>) -> Seq<Seq<char>>
    decreases all.len(),
{
    if all.len() == 0 {
        Seq::empty()
    } else if all.last().len() == 0 || (all.len() > 1 && all.last() == seq!['.']) {
        named_pieces(all.drop_last())
    } else {
        named_pieces(all.drop_last()).push(all.last())
    }
}

/// The components of a path. An absolute path begins with the component `/`.
pub open spec fn components(path: Seq<char>) -> Seq<Seq<char>> {
    if path.len() > 0 && path[0] == '/' {
        seq![seq!['/']] + named_pieces(split(path, '/'))
    } else {
        named_pieces(split(path, '/'))
    }
}

/// Pieces that all name something are the components.
pub proof fn lemma_named_pieces(all: Seq<Seq<char>>)
    requires
        forall|i: int|
            0 <= i < all.len() ==> (#[trigger] all[i]).len() > 0 && all[i] != seq!['.'],
    ensures
        named_pieces(all) == all,
    decreases all.len(),
{
    if all.len() > 0 {
        lemma_named_pieces(all.drop_last());
        assert(all.drop_last().push(all.last()) =~= all);
    } else {
        assert(named_pieces(all) =~= all);
    }
}

/// Joining pieces that hold no separator below a directory writes them with `/` between them.
pub proof fn lemma_join_all(base: Seq<char>, rels: Seq<Seq<char>>)
    requires
        base.len() > 0,
        base.last() != '/',
        rels.len() > 0,
        forall|i: int| 0 <= i < rels.len() ==> (#[trigger] rels[i]).len() > 0,
        forall|i: int, j: int|
            0 <= i < rels.len() && 0 <= j < rels[i].len() ==> rels[i][j] != '/',
    ensures
        path_join_all(base, rels) == base.push('/') + crate::text::join(rels, '/'),
    decreases rels.len(),
{
    let front = rels.drop_last();
    if rels.len() == 1 {
        assert(path_join_all(base, front) == base);
        assert(rels.last() == rels[0]);
    } else {
        assert forall|i: int| 0 <= i < front.len() implies (#[trigger] front[i]).len() > 0 by {
            assert(front[i] == rels[i]);
        }
        lemma_join_all(base, front);
        let joined = path_join_all(base, front);
        lemma_join_last(front);
        assert(joined.last() == crate::text::join(front, '/').last());
        assert(path_join_all(base, rels) =~= base.push('/') + crate::text::join(rels, '/'));
    }
}

pub proof fn lemma_join_last(rels: Seq<Seq<char>>)
    requires
        rels.len() > 0,
        forall|i: int| 0 <= i < rels.len() ==> (#[trigger] rels[i]).len() > 0,
        forall|i: int, j: int|
            0 <= i < rels.len() && 0 <= j < rels[i].len() ==> rels[i][j] != '/',
    ensures
        crate::text::join(rels, '/').len() > 0,
        crate::text::join(rels, '/').last() != '/',
    decreases rels.len(),
{
    let last = rels.last();
    assert(last == rels[rels.len() - 1]);
    assert(last.len() > 0);
    assert(last[last.len() - 1] != '/');
    if rels.len() > 1 {
        let all = crate::text::join(rels, '/');
        assert(all.last() == last.last());
    }
}

/// `rel` below `base`.
pub fn join_path(base: &str, rel: &str) -> (r: String)
    ensures
        r@ == path_join(base@, rel@),
{
    proof {
        reveal_strlit("/");
        assert("/"@ =~= seq!['/']);
    }
    if starts_with(rel, "/") {
        assert(rel@.subrange(0, 1)[0] == '/');
        return owned(rel);
    }
    assert(!(rel@.len() > 0 && rel@[0] == '/')) by {
        if rel@.len() > 0 && rel@[0] == '/' {
            assert(rel@.subrange(0, 1) =~= seq!['/']);
        }
    }
    if base.is_empty() || ends_with(base, "/") {
        assert(base@.len() > 0 ==> base@.last() == '/') by {
            if base@.len() > 0 {
                assert(base@.subrange(base@.len() - 1, base@.len() as int)[0] == '/');
            }
        }
        concat(base, rel)
    } else {
        assert(base@.last() != '/') by {
            if base@.last() == '/' {
                assert(base@.subrange(base@.len() - 1, base@.len() as int) =~= seq!['/']);
            }
        }
        let front = concat(base, "/");
        let out = concat(front.as_str(), rel);
        assert(out@ =~= base@.push('/') + rel@);
        out
    }
}

/// The components of a path.
pub fn path_components(path: &str) -> (r: Vec<String>)
    ensures
        texts(r@) == components(path@),
{
    let all = pieces(path, '/');
    let ghost views = texts(all@);
    let mut out: Vec<String> = Vec::new();
    proof {
        reveal_strlit("/");
        reveal_strlit(".");
        assert("/"@ =~= seq!['/']);
        assert("."@ =~= seq!['.']);
    }
    if starts_with(path, "/") {
        assert(path@.subrange(0, 1)[0] == '/');
        out.push(owned("/"));
    } else {
        assert(!(path@.len() > 0 && path@[0] == '/')) by {
            if path@.len() > 0 && path@[0] == '/' {
                assert(path@.subrange(0, 1) =~= seq!['/']);
            }
        }
    }
    let ghost head = texts(out@);
    let mut i: usize = 0;
    assert(views.take(0) =~= Seq::empty());
    assert(texts(out@) =~= head + named_pieces(views.take(0)));
    while i < all.len()
        invariant
            i <= all@.len(),
            views == texts(all@),
            "."@ == seq!['.'],
            texts(out@) == head + named_pieces(views.take(i as int)),
        decreases all@.len() - i,
    {
        proof {
            assert(views.take(i + 1).drop_last() =~= views.take(i as int));
            assert(views.take(i + 1).last() == all@[i as int]@);
        }
        let ghost before = texts(out@);
        if !(all[i].as_str().is_empty() || (i > 0 && same(all[i].as_str(), "."))) {
            out.push(all[i].clone());
            assert(texts(out@) =~= before.push(all@[i as int]@));
            assert(texts(out@) =~= head + named_pieces(views.take(i + 1)));
        }
        i = i + 1;
    }
    assert(views.take(i as int) =~= views);
    assert(texts(out@) =~= components(path@)) by {
        if !(path@.len() > 0 && path@[0] == '/') {
            assert(head =~= Seq::empty());
        } else {
            assert(head =~= seq![seq!['/']]);
        }
    }
    out
}

/// `path` is `base` or lies below it.
pub open spec fn is_within(base: Seq<char>, path: Seq<char>) -> bool {
    components(base).is_prefix_of(components(path))
}

/// Whether `path` is `base` or lies below it.
pub fn within(base: &str, path: &str) -> (r: bool)
    ensures
        r == is_within(base@, path@),
{
    let front = path_components(base);
    let all = path_components(path);
    let ghost want = texts(front@);
    let ghost have = texts(all@);
    if front.len() > all.len() {
        assert(want.len() > have.len());
        return false;
    }
    let mut i: usize = 0;
    while i < front.len()
        invariant
            i <= front@.len() <= all@.len(),
            want == texts(front@),
            have == texts(all@),
            want == components(base@),
            have == components(path@),
            forall|j: int| 0 <= j < i ==> want[j] == have[j],
        decreases front@.len() - i,
    {
        assert(want[i as int] == front@[i as int]@);
        assert(have[i as int] == all@[i as int]@);
        if !same(front[i].as_str(), all[i].as_str()) {
            assert(!is_within(base@, path@)) by {
                if is_within(base@, path@) {
                    assert(want[i as int] == have.subrange(0, want.len() as int)[i as int]);
                }
            }
            return false;
        }
        i = i + 1;
    }
    assert(want =~= have.subrange(0, want.len() as int));
    true
}

/// The pieces that name something inside a path: empty pieces and single dots are dropped.
pub open spec fn inner_pieces(all: Seq<Seq<char>>) -> Seq<Seq<char>>
    decreases all.len(),
{
    if all.len() == 0 {
        Seq::empty()
    } else if all.last().len() == 0 || all.last() == seq!['.'] {
        inner_pieces(all.drop_last())
    } else {
        inner_pieces(all.drop_last()).push(all.last())
    }
}

/// The components that a relative path adds to the directory it is joined to.
pub open spec fn inner_components(path: Seq<char>) -> Seq<Seq<char>> {
    inner_pieces(split(path, '/'))
}

/// The components that a relative path adds to the directory it is joined to.
pub fn path_inner_components(path: &str) -> (r: Vec<String>)
    ensures
        texts(r@) == inner_components(path@),
{
    let all = pieces(path, '/');
    let ghost views = texts(all@);
    let mut out: Vec<String> = Vec::new();
    proof {
        reveal_strlit(".");
        assert("."@ =~= seq!['.']);
        assert(views.take(0) =~= Seq::empty());
        assert(texts(out@) =~= Seq::empty());
    }
    let mut i: usize = 0;
    while i < all.len()
        invariant
            i <= all@.len(),
            views == texts(all@),
            "."@ == seq!['.'],
            texts(out@) == inner_pieces(views.take(i as int)),
        decreases all@.len() - i,
    {
        proof {
            assert(views.take(i + 1).drop_last() =~= views.take(i as int));
            assert(views.take(i + 1).last() == all@[i as int]@);
        }
        let ghost before = texts(out@);
        if !(all[i].as_str().is_empty() || same(all[i].as_str(), ".")) {
            out.push(all[i].clone());
            assert(texts(out@) =~= before.push(all@[i as int]@));
        }
        i = i + 1;
    }
    assert(views.take(i as int) =~= views);
    out
}

} // verus!
