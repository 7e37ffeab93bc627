//! Comment threads: which ones are anchored in a document, and which ones an edit detaches.

use vstd::prelude::*;

use crate::json::{trees, Json, Tree};
use crate::node::{is_a, kind, marks, marks_of, places, visited, walk, Place};
use crate::order::{ascending, holds_text, insert_ascending};
use crate::spacing::texts;

verus! {

/// The id of the thread that a mark anchors.
pub open spec fn comment_id(mark: Tree) -> Option<Seq<char>> {
    if kind(mark) != Some("comment"@) {
        None
    } else {
        match mark.field("attrs"@) {
            Some(attrs) => attrs.text_field("commentId"@),
            None => None,
        }
    }
}

/// One of the marks anchors the thread.
pub open spec fn anchors(ms: Seq<Tree>, id: Seq<char>) -> bool {
    exists|j: int| 0 <= j < ms.len() && #[trigger] comment_id(ms[j]) == Some(id)
}

/// A mark on one of the first `n` nodes anchors the thread.
pub open spec fn anchored_in(nodes: Seq<(Seq<nat>, Tree)>, n: int, id: Seq<char>) -> bool {
    exists|i: int| 0 <= i < n && anchors(#[trigger] marks(nodes[i].1), id)
}

/// A mark on a node of the tree anchors the thread.
pub open spec fn anchored(t: Tree, id: Seq<char>) -> bool {
    let nodes = visited(t, Seq::empty());
    anchored_in(nodes, nodes.len() as int, id)
}

/// The threads that are anchored in a tree.
pub open spec fn comment_set(t: Tree) -> Set<Seq<char>> {
    Set::new(|id: Seq<char>| anchored(t, id))
}

/// The id of the thread that a mark anchors.
fn thread_of(mark: &Json) -> (r: Option<&str>)
    ensures
        r is Some <==> comment_id(mark@) is Some,
        r matches Some(id) ==> comment_id(mark@) == Some(id@),
{
    if !is_a(mark, "comment") {
        return None;
    }
    match mark.get("attrs") {
        Some(attrs) => attrs.text_at("commentId"),
        None => None,
    }
}

/// Adds the ids of the threads that some marks anchor.
fn add_threads(ids: &mut Vec<String>, ms: &[Json])
    requires
        ascending(texts(old(ids)@)),
    ensures
        ascending(texts(final(ids)@)),
        forall|id: Seq<char>| #[trigger]
            texts(final(ids)@).to_set().contains(id) <==> texts(old(ids)@).to_set().contains(id)
                || anchors(trees(ms@), id),
{
    let ghost before = texts(ids@).to_set();
    let ghost all = trees(ms@);
    let mut j: usize = 0;
    while j < ms.len()
        invariant
            j <= ms@.len(),
            all == trees(ms@),
            ascending(texts(ids@)),
            forall|id: Seq<char>| #[trigger]
                texts(ids@).to_set().contains(id) <==> before.contains(id) || exists|k: int|
                    0 <= k < j && #[trigger] comment_id(all[k]) == Some(id),
        decreases ms@.len() - j,
    {
        assert(all[j as int] == ms@[j as int]@);
        match thread_of(&ms[j]) {
            Some(id) => {
                insert_ascending(ids, id.to_owned());
            },
            None => {},
        }
        j = j + 1;
    }
}

/// The ids of the threads that are anchored in a tree, each once and in order.
pub fn comment_ids(root: &Json) -> (r: Vec<String>)
    ensures
        ascending(texts(r@)),
        texts(r@).to_set() == comment_set(root@),
{
    let nodes: Vec<Place<'_>> = walk(root);
    let ghost all = places(nodes@);
    let mut ids: Vec<String> = Vec::new();
    let mut i: usize = 0;
    while i < nodes.len()
        invariant
            i <= nodes@.len(),
            all == places(nodes@),
            ascending(texts(ids@)),
            forall|id: Seq<char>| #[trigger]
                texts(ids@).to_set().contains(id) <==> anchored_in(all, i as int, id),
        decreases nodes@.len() - i,
    {
        let ghost now = texts(ids@).to_set();
        let node: &Json = nodes[i].1;
        assert(all[i as int].1 == node@);
        add_threads(&mut ids, marks_of(node));
        proof {
            assert forall|id: Seq<char>| #[trigger] texts(ids@).to_set().contains(id)
                <==> anchored_in(all, i + 1, id) by {
                assert(now.contains(id) <==> anchored_in(all, i as int, id));
                if anchored_in(all, i + 1, id) {
                    let k = choose|k: int|
                        0 <= k < i + 1 && anchors(#[trigger] marks(all[k].1), id);
                    if k < i {
                        assert(anchors(marks(all[k].1), id));
                    }
                }
                if anchors(marks(all[i as int].1), id) {
                    assert(anchored_in(all, i + 1, id));
                }
                if anchored_in(all, i as int, id) {
                    let k = choose|k: int| 0 <= k < i && anchors(#[trigger] marks(all[k].1), id);
                    assert(anchors(marks(all[k].1), id));
                }
            }
        }
        i = i + 1;
    }
    assert(texts(ids@).to_set() =~= comment_set(root@));
    ids
}

/// The ids of the threads that are anchored in `before` and no longer in `after`, in order.
pub fn detached(before: &Json, after: &Json) -> (r: Vec<String>)
    ensures
        ascending(texts(r@)),
        texts(r@).to_set() == comment_set(before@).difference(comment_set(after@)),
{
    let old: Vec<String> = comment_ids(before);
    let new: Vec<String> = comment_ids(after);
    let ghost a = texts(old@);
    let ghost b = texts(new@);
    let mut r: Vec<String> = Vec::new();
    let mut i: usize = 0;
    assert(texts(r@) =~= Seq::<Seq<char>>::empty());
    assert(texts(r@).to_set() =~= a.take(0).to_set().difference(b.to_set()));
    while i < old.len()
        invariant
            i <= old@.len(),
            a == texts(old@),
            b == texts(new@),
            ascending(texts(r@)),
            texts(r@).to_set() == a.take(i as int).to_set().difference(b.to_set()),
        decreases old@.len() - i,
    {
        let ghost now = texts(r@).to_set();
        assert(a[i as int] == old@[i as int]@);
        if !holds_text(&new, old[i].as_str()) {
            insert_ascending(&mut r, old[i].clone());
        }
        proof {
            let x = a[i as int];
            let shorter = a.take(i as int);
            let longer = a.take(i + 1);
            assert(longer =~= shorter.push(x));
            assert forall|y: Seq<char>| longer.to_set().contains(y) <==> shorter.to_set().contains(
                y,
            ) || y == x by {
                if longer.contains(y) {
                    let k = choose|k: int| 0 <= k < longer.len() && longer[k] == y;
                    if k < i {
                        assert(shorter[k] == y);
                    }
                }
                if shorter.contains(y) {
                    let k = choose|k: int| 0 <= k < shorter.len() && shorter[k] == y;
                    assert(longer[k] == y);
                }
                assert(longer[i as int] == x);
            }
            assert(texts(r@).to_set() =~= a.take(i + 1).to_set().difference(b.to_set()));
        }
        i = i + 1;
    }
    assert(a.take(a.len() as int) =~= a);
    r
}

} // verus!
