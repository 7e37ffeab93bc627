//! Marks: which ones a match shares, and which ones new text takes over.

use vstd::prelude::*;

use crate::json::{lemma_array, trees, Json, Tree};
use crate::node::{copies, is_a, kind, marks, marks_of, node_type};
use crate::text::same_text;

verus! {

/// A mark that is rendered as Markdown syntax. All others, such as comments, do not show.
pub open spec fn visible(mark: Tree) -> bool {
    ||| kind(mark) == Some("bold"@)
    ||| kind(mark) == Some("italic"@)
    ||| kind(mark) == Some("code"@)
    ||| kind(mark) == Some("strike"@)
    ||| kind(mark) == Some("link"@)
}

/// Every one of the nodes carries the mark.
pub open spec fn on_all(nodes: Seq<Tree>, mark: Tree) -> bool {
    forall|i: int| 0 <= i < nodes.len() ==> (#[trigger] marks(nodes[i])).contains(mark)
}

/// The marks that all the nodes carry, in the order of the first node.
pub open spec fn shared_marks(nodes: Seq<Tree>) -> Seq<Tree> {
    if nodes.len() == 0 {
        Seq::empty()
    } else {
        marks(nodes[0]).filter(|m: Tree| on_all(nodes, m))
    }
}

/// A node without the visible ones of the marks `common`.
pub open spec fn bared(node: Tree, common: Seq<Tree>) -> Tree {
    if node.field("marks"@) matches Some(t) && t is Array {
        node.with(
            "marks"@,
            Tree::Array(marks(node).filter(|m: Tree| !(visible(m) && common.contains(m)))),
        )
    } else {
        node
    }
}

/// A mark that anchors a comment thread.
pub open spec fn is_comment(mark: Tree) -> bool {
    kind(mark) == Some("comment"@)
}

/// A node without its comment marks.
pub open spec fn uncommented(node: Tree) -> Tree {
    if node.field("marks"@) matches Some(t) && t is Array {
        node.with("marks"@, Tree::Array(marks(node).filter(|m: Tree| !is_comment(m))))
    } else {
        node
    }
}

/// One of the marks has the type of `mark`.
pub open spec fn has_kind(own: Seq<Tree>, mark: Tree) -> bool {
    exists|i: int| 0 <= i < own.len() && #[trigger] kind(own[i]) == kind(mark)
}

/// `own`, and those of `inherited` whose type `own` does not have.
pub open spec fn merged(own: Seq<Tree>, inherited: Seq<Tree>) -> Seq<Tree> {
    own + inherited.filter(|m: Tree| !has_kind(own, m))
}

/// A node with `inherited` marks added, if it is a text node.
pub open spec fn marked(node: Tree, inherited: Seq<Tree>) -> Tree {
    if kind(node) != Some("text"@) || inherited.len() == 0 {
        node
    } else {
        node.with("marks"@, Tree::Array(merged(marks(node), inherited)))
    }
}

/// A filtered sequence grows by the next item, if it passes.
pub proof fn lemma_filter_take<A>(s: Seq<A>, f: spec_fn(A) -> bool, i: int)
    requires
        0 <= i < s.len(),
    ensures
        s.take(i + 1).filter(f) == if f(s[i]) {
            s.take(i).filter(f).push(s[i])
        } else {
            s.take(i).filter(f)
        },
{
    reveal(Seq::filter);
    assert(s.take(i + 1).drop_last() =~= s.take(i));
}

/// Whether a value is among others.
fn is_among(v: &Json, items: &[Json]) -> (r: bool)
    ensures
        r == trees(items@).contains(v@),
{
    let mut i: usize = 0;
    while i < items.len()
        invariant
            i <= items@.len(),
            forall|j: int| 0 <= j < i ==> (#[trigger] items@[j])@ != v@,
        decreases items@.len() - i,
    {
        if items[i].same(v) {
            assert(trees(items@)[i as int] == v@);
            return true;
        }
        i = i + 1;
    }
    assert forall|j: int| 0 <= j < items@.len() implies trees(items@)[j] != v@ by {
        assert(items@[j]@ != v@);
    }
    false
}

/// Whether a mark is rendered as Markdown syntax.
pub fn is_visible(mark: &Json) -> (r: bool)
    ensures
        r == visible(mark@),
{
    is_a(mark, "bold") || is_a(mark, "italic") || is_a(mark, "code") || is_a(mark, "strike")
        || is_a(mark, "link")
}

/// The marks that all the nodes carry.
pub fn common_marks(nodes: &[Json]) -> (r: Vec<Json>)
    ensures
        trees(r@) == shared_marks(trees(nodes@)),
{
    let mut r: Vec<Json> = Vec::new();
    let ghost all = trees(nodes@);
    if nodes.len() == 0 {
        assert(trees(r@) =~= Seq::<Tree>::empty());
        return r;
    }
    let own: &[Json] = marks_of(&nodes[0]);
    let ghost pass = |m: Tree| on_all(all, m);
    let mut i: usize = 0;
    assert(all[0] == nodes@[0]@);
    assert(trees(own@).take(0) =~= Seq::<Tree>::empty());
    assert(trees(own@).take(0).filter(pass) =~= Seq::<Tree>::empty()) by {
        reveal(Seq::filter);
    }
    assert(trees(r@) =~= trees(own@).take(0).filter(pass));
    while i < own.len()
        invariant
            i <= own@.len(),
            all == trees(nodes@),
            nodes@.len() > 0,
            trees(own@) == marks(all[0]),
            pass == (|m: Tree| on_all(all, m)),
            trees(r@) == trees(own@).take(i as int).filter(pass),
        decreases own@.len() - i,
    {
        let mut shared: bool = true;
        let mut j: usize = 1;
        let ghost mark = own@[i as int]@;
        assert(trees(own@)[i as int] == mark);
        assert(marks(all[0]).contains(mark));
        while j < nodes.len() && shared
            invariant
                1 <= j <= nodes@.len(),
                i < own@.len(),
                all == trees(nodes@),
                mark == own@[i as int]@,
                marks(all[0]).contains(mark),
                shared ==> forall|k: int| 0 <= k < j ==> (#[trigger] marks(all[k])).contains(mark),
                !shared ==> !on_all(all, mark),
            decreases nodes@.len() - j,
        {
            assert(all[j as int] == nodes@[j as int]@);
            if !is_among(&own[i], marks_of(&nodes[j])) {
                assert(!marks(all[j as int]).contains(mark));
                shared = false;
            }
            j = j + 1;
        }
        let ghost before = r@;
        if shared {
            assert(on_all(all, mark));
            r.push(own[i].clone());
            assert(trees(r@) =~= trees(before).push(mark));
        }
        proof {
            lemma_filter_take(trees(own@), pass, i as int);
        }
        i = i + 1;
    }
    assert(trees(own@).take(own@.len() as int) =~= trees(own@));
    r
}

/// A copy of a node without the visible ones of the marks `common`.
fn bare(node: &Json, common: &[Json]) -> (r: Json)
    ensures
        r@ == bared(node@, trees(common@)),
{
    match node.get("marks") {
        Some(Json::Array(v)) => {
            let ghost all = trees(v@);
            let ghost keep = |m: Tree| !(visible(m) && trees(common@).contains(m));
            let mut kept: Vec<Json> = Vec::new();
            let mut i: usize = 0;
            proof {
                lemma_array(*v);
                assert(all.take(0).filter(keep) =~= Seq::<Tree>::empty()) by {
                    reveal(Seq::filter);
                    assert(all.take(0) =~= Seq::<Tree>::empty());
                }
                assert(trees(kept@) =~= Seq::<Tree>::empty());
            }
            while i < v.len()
                invariant
                    i <= v@.len(),
                    all == trees(v@),
                    keep == (|m: Tree| !(visible(m) && trees(common@).contains(m))),
                    trees(kept@) == all.take(i as int).filter(keep),
                decreases v@.len() - i,
            {
                let ghost before = kept@;
                assert(all[i as int] == v@[i as int]@);
                if !(is_visible(&v[i]) && is_among(&v[i], common)) {
                    kept.push(v[i].clone());
                    assert(trees(kept@) =~= trees(before).push(all[i as int]));
                }
                proof {
                    lemma_filter_take(all, keep, i as int);
                }
                i = i + 1;
            }
            proof {
                assert(all.take(all.len() as int) =~= all);
                lemma_array(kept);
            }
            node.clone().with("marks", Json::Array(kept))
        },
        _ => node.clone(),
    }
}

/// A copy of a node without its comment marks.
pub fn drop_comments(node: &Json) -> (r: Json)
    ensures
        r@ == uncommented(node@),
{
    match node.get("marks") {
        Some(Json::Array(v)) => {
            let ghost all = trees(v@);
            let ghost keep = |m: Tree| !is_comment(m);
            let mut kept: Vec<Json> = Vec::new();
            let mut i: usize = 0;
            proof {
                lemma_array(*v);
                assert(all.take(0).filter(keep) =~= Seq::<Tree>::empty()) by {
                    reveal(Seq::filter);
                    assert(all.take(0) =~= Seq::<Tree>::empty());
                }
                assert(trees(kept@) =~= Seq::<Tree>::empty());
            }
            while i < v.len()
                invariant
                    i <= v@.len(),
                    all == trees(v@),
                    keep == (|m: Tree| !is_comment(m)),
                    trees(kept@) == all.take(i as int).filter(keep),
                decreases v@.len() - i,
            {
                let ghost before = kept@;
                assert(all[i as int] == v@[i as int]@);
                if !is_a(&v[i], "comment") {
                    kept.push(v[i].clone());
                    assert(trees(kept@) =~= trees(before).push(all[i as int]));
                }
                proof {
                    lemma_filter_take(all, keep, i as int);
                }
                i = i + 1;
            }
            proof {
                assert(all.take(all.len() as int) =~= all);
                lemma_array(kept);
            }
            node.clone().with("marks", Json::Array(kept))
        },
        _ => node.clone(),
    }
}

/// Copies of nodes without the visible ones of the marks `common`.
pub fn strip_visible(nodes: &[Json], common: &[Json]) -> (r: Vec<Json>)
    ensures
        trees(r@) == trees(nodes@).map_values(|n: Tree| bared(n, trees(common@))),
{
    let mut r: Vec<Json> = Vec::new();
    let mut i: usize = 0;
    while i < nodes.len()
        invariant
            i <= nodes@.len(),
            r@.len() == i,
            forall|j: int|
                0 <= j < i ==> (#[trigger] r@[j])@ == bared(nodes@[j]@, trees(common@)),
        decreases nodes@.len() - i,
    {
        r.push(bare(&nodes[i], common));
        i = i + 1;
    }
    assert(trees(r@) =~= trees(nodes@).map_values(|n: Tree| bared(n, trees(common@))));
    r
}

/// Whether one of the marks has the type of `mark`.
fn any_of_kind(own: &Vec<Json>, mark: &Json) -> (r: bool)
    ensures
        r == has_kind(trees(own@), mark@),
{
    let wanted: Option<&str> = node_type(mark);
    let mut i: usize = 0;
    while i < own.len()
        invariant
            i <= own@.len(),
            wanted is Some <==> kind(mark@) is Some,
            wanted matches Some(w) ==> kind(mark@) == Some(w@),
            forall|j: int| 0 <= j < i ==> kind((#[trigger] own@[j])@) != kind(mark@),
        decreases own@.len() - i,
    {
        let found: bool = match (node_type(&own[i]), wanted) {
            (Some(a), Some(b)) => same_text(a, b),
            (None, None) => true,
            _ => false,
        };
        if found {
            assert(kind(trees(own@)[i as int]) == kind(mark@));
            return true;
        }
        assert(kind(own@[i as int]@) != kind(mark@));
        i = i + 1;
    }
    assert forall|j: int| 0 <= j < trees(own@).len() implies #[trigger] kind(trees(own@)[j])
        != kind(mark@) by {
        assert(kind(own@[j]@) != kind(mark@));
    }
    false
}

/// A node with `inherited` marks added, if it is a text node.
fn mark_text(node: Json, inherited: &[Json]) -> (r: Json)
    ensures
        r@ == marked(node@, trees(inherited@)),
{
    if !is_a(&node, "text") || inherited.len() == 0 {
        return node;
    }
    let mut all: Vec<Json> = copies(marks_of(&node));
    let own: Vec<Json> = copies(marks_of(&node));
    let ghost given = trees(inherited@);
    let ghost new = |m: Tree| !has_kind(trees(own@), m);
    let mut i: usize = 0;
    proof {
        assert(given.take(0) =~= Seq::<Tree>::empty());
        assert(given.take(0).filter(new) =~= Seq::<Tree>::empty()) by {
            reveal(Seq::filter);
        }
        assert(trees(all@) =~= trees(own@) + given.take(0).filter(new));
    }
    while i < inherited.len()
        invariant
            i <= inherited@.len(),
            given == trees(inherited@),
            new == (|m: Tree| !has_kind(trees(own@), m)),
            trees(all@) == trees(own@) + given.take(i as int).filter(new),
        decreases inherited@.len() - i,
    {
        let ghost before = all@;
        proof {
            assert(given[i as int] == inherited@[i as int]@);
            lemma_filter_take(given, new, i as int);
        }
        if !any_of_kind(&own, &inherited[i]) {
            all.push(inherited[i].clone());
            assert(trees(all@) =~= trees(before).push(given[i as int]));
        }
        assert(trees(all@) =~= trees(own@) + given.take(i + 1).filter(new));
        i = i + 1;
    }
    proof {
        assert(given.take(given.len() as int) =~= given);
        lemma_array(all);
    }
    node.with("marks", Json::Array(all))
}

/// Adds `inherited` marks to every text node, but for those whose type it has a mark of.
pub fn with_marks(nodes: Vec<Json>, inherited: &[Json]) -> (r: Vec<Json>)
    ensures
        trees(r@) == trees(nodes@).map_values(|n: Tree| marked(n, trees(inherited@))),
{
    let mut r: Vec<Json> = Vec::new();
    let mut i: usize = 0;
    while i < nodes.len()
        invariant
            i <= nodes@.len(),
            r@.len() == i,
            forall|j: int|
                0 <= j < i ==> (#[trigger] r@[j])@ == marked(nodes@[j]@, trees(inherited@)),
        decreases nodes@.len() - i,
    {
        r.push(mark_text(nodes[i].clone(), inherited));
        i = i + 1;
    }
    assert(trees(r@) =~= trees(nodes@).map_values(|n: Tree| marked(n, trees(inherited@))));
    r
}

} // verus!
